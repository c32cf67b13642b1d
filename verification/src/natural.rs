//! Natural ordering of names, so that `page2.jpg` comes before `page10.jpg`.
//!
//! Two names are compared token by token. A token is either a maximal run of
//! ASCII digits, read as a `u64` (a run too long for a `u64` counts as 0), or a
//! single other character. Two numbers compare by value, everything else by
//! character code; when the heads are equal the comparison moves on to the rest.
//!
//! The order is a total preorder (reflexive, antisymmetric in sign, transitive),
//! which is what the sorts in this module rely on.

use std::cmp::Ordering;
use vstd::prelude::*;
use crate::text::{chars_of, digit_run, digits_u64, digits_value, is_digit, lemma_digit_run, lemma_digit_run_bounds};

verus! {

/* ---------- Specification ---------- */

/// Value of a run of digits as the comparison reads it: the number if it fits in a
/// `u64`, otherwise 0.
pub open spec fn run_number(d: Seq<char>) -> int {
    if digits_value(d) <= u64::MAX {
        digits_value(d) as int
    } else {
        0
    }
}

/// Length of the first token of a non-empty name.
pub open spec fn head_len(s: Seq<char>) -> int {
    if is_digit(s[0]) {
        digit_run(s) as int
    } else {
        1
    }
}

pub open spec fn sign(x: int) -> int {
    if x < 0 {
        -1
    } else if x > 0 {
        1
    } else {
        0
    }
}

/// Comparison of the first tokens of two non-empty names.
pub open spec fn head_order(a: Seq<char>, b: Seq<char>) -> int {
    if is_digit(a[0]) && is_digit(b[0]) {
        sign(run_number(a.take(digit_run(a) as int)) - run_number(b.take(digit_run(b) as int)))
    } else {
        sign(a[0] as int - b[0] as int)
    }
}

/// The natural order of two names: -1, 0 or 1.
pub open spec fn natural_order(a: Seq<char>, b: Seq<char>) -> int
    decreases a.len() + b.len(),
{
    if a.len() == 0 && b.len() == 0 {
        0
    } else if a.len() == 0 {
        -1
    } else if b.len() == 0 {
        1
    } else if head_order(a, b) != 0 {
        head_order(a, b)
    } else {
        proof {
            lemma_digit_run_bounds(a);
            lemma_digit_run_bounds(b);
        }
        natural_order(a.skip(head_len(a)), b.skip(head_len(b)))
    }
}

/// The number an `Ordering` stands for: -1, 0 or 1.
pub open spec fn ordering_sign(o: Ordering) -> int {
    match o {
        Ordering::Less => -1,
        Ordering::Equal => 0,
        Ordering::Greater => 1,
    }
}

/* ---------- Laws ---------- */

/// Class of the first token: characters below `'0'`, numbers, characters above `'9'`.
spec fn head_class(s: Seq<char>) -> int {
    if is_digit(s[0]) {
        1
    } else if '0' > s[0] {
        0
    } else {
        2
    }
}

spec fn head_value(s: Seq<char>) -> int {
    if is_digit(s[0]) {
        run_number(s.take(digit_run(s) as int))
    } else {
        s[0] as int
    }
}

spec fn key_order(a: Seq<char>, b: Seq<char>) -> int {
    if head_class(a) < head_class(b) {
        -1
    } else if head_class(a) > head_class(b) {
        1
    } else {
        sign(head_value(a) - head_value(b))
    }
}

proof fn lemma_head_order_key(a: Seq<char>, b: Seq<char>)
    requires
        a.len() > 0,
        b.len() > 0,
    ensures
        head_order(a, b) == key_order(a, b),
{
}

proof fn lemma_head_len_bounds(s: Seq<char>)
    requires
        s.len() > 0,
    ensures
        1 <= head_len(s) <= s.len(),
{
    lemma_digit_run_bounds(s);
}

/// Every comparison is -1, 0 or 1.
pub proof fn lemma_natural_order_range(a: Seq<char>, b: Seq<char>)
    ensures
        -1 <= natural_order(a, b) <= 1,
    decreases a.len() + b.len(),
{
    if a.len() > 0 && b.len() > 0 && head_order(a, b) == 0 {
        lemma_head_len_bounds(a);
        lemma_head_len_bounds(b);
        lemma_natural_order_range(a.skip(head_len(a)), b.skip(head_len(b)));
    }
}

/// Every name is equal to itself in the natural order.
pub proof fn lemma_natural_order_reflexive(a: Seq<char>)
    ensures
        natural_order(a, a) == 0,
    decreases a.len(),
{
    if a.len() > 0 {
        lemma_head_len_bounds(a);
        lemma_natural_order_reflexive(a.skip(head_len(a)));
    }
}

/// Swapping the two names flips the sign of the comparison.
pub proof fn lemma_natural_order_antisymmetric(a: Seq<char>, b: Seq<char>)
    ensures
        natural_order(a, b) == -natural_order(b, a),
    decreases a.len() + b.len(),
{
    if a.len() > 0 && b.len() > 0 {
        lemma_head_order_key(a, b);
        lemma_head_order_key(b, a);
        if head_order(a, b) == 0 {
            lemma_head_len_bounds(a);
            lemma_head_len_bounds(b);
            lemma_natural_order_antisymmetric(a.skip(head_len(a)), b.skip(head_len(b)));
        }
    }
}

/// The natural order is transitive, and strictly so when either step is strict.
pub proof fn lemma_natural_order_transitive(a: Seq<char>, b: Seq<char>, c: Seq<char>)
    requires
        natural_order(a, b) <= 0,
        natural_order(b, c) <= 0,
    ensures
        natural_order(a, c) <= 0,
        natural_order(a, b) < 0 || natural_order(b, c) < 0 ==> natural_order(a, c) < 0,
    decreases a.len(),
{
    if a.len() == 0 || b.len() == 0 || c.len() == 0 {
        return;
    }
    lemma_head_order_key(a, b);
    lemma_head_order_key(b, c);
    lemma_head_order_key(a, c);
    if head_order(a, b) == 0 && head_order(b, c) == 0 {
        lemma_head_len_bounds(a);
        lemma_head_len_bounds(b);
        lemma_head_len_bounds(c);
        lemma_natural_order_transitive(
            a.skip(head_len(a)),
            b.skip(head_len(b)),
            c.skip(head_len(c)),
        );
    }
}

/* ---------- Comparison ---------- */

/// End of the run of digits that starts at `i`.
fn digit_run_end(v: &Vec<char>, i: usize) -> (e: usize)
    requires
        i <= v.len(),
    ensures
        i <= e <= v.len(),
        e - i == digit_run(v@.skip(i as int)),
{
    let mut e: usize = i;
    while e < v.len() && '0' <= v[e] && v[e] <= '9'
        invariant
            i <= e <= v.len(),
            forall|k: int| i <= k < e ==> is_digit(v@[k]),
        decreases v.len() - e,
    {
        e = e + 1;
    }
    proof {
        let s = v@.skip(i as int);
        assert forall|k: int| 0 <= k < e - i implies is_digit(s[k]) by {
            assert(s[k] == v@[k + i]);
        }
        if e < v.len() {
            assert(s[e - i] == v@[e as int]);
        }
        lemma_digit_run(s, e - i);
    }
    e
}

/// The natural order of two names given as characters: -1, 0 or 1.
pub fn natural_order_of(a: &Vec<char>, b: &Vec<char>) -> (r: i8)
    ensures
        r as int == natural_order(a@, b@),
{
    let mut i: usize = 0;
    let mut j: usize = 0;
    assert(a@.skip(0) =~= a@);
    assert(b@.skip(0) =~= b@);
    loop
        invariant
            i <= a.len(),
            j <= b.len(),
            natural_order(a@, b@) == natural_order(a@.skip(i as int), b@.skip(j as int)),
        decreases a.len() - i + b.len() - j,
    {
        let ghost sa = a@.skip(i as int);
        let ghost sb = b@.skip(j as int);
        if i == a.len() && j == b.len() {
            return 0;
        }
        if i == a.len() {
            return -1;
        }
        if j == b.len() {
            return 1;
        }
        let ca: char = a[i];
        let cb: char = b[j];
        assert(sa[0] == ca);
        assert(sb[0] == cb);
        if '0' <= ca && ca <= '9' && '0' <= cb && cb <= '9' {
            let ea: usize = digit_run_end(a, i);
            let eb: usize = digit_run_end(b, j);
            proof {
                lemma_digit_run_bounds(sa);
                lemma_digit_run_bounds(sb);
                assert(sa.take(ea - i) =~= a@.subrange(i as int, ea as int));
                assert(sb.take(eb - j) =~= b@.subrange(j as int, eb as int));
                assert forall|k: int| 0 <= k < ea - i implies is_digit(
                    #[trigger] a@.subrange(i as int, ea as int)[k],
                ) by {
                    assert(a@.subrange(i as int, ea as int)[k] == sa[k]);
                }
                assert forall|k: int| 0 <= k < eb - j implies is_digit(
                    #[trigger] b@.subrange(j as int, eb as int)[k],
                ) by {
                    assert(b@.subrange(j as int, eb as int)[k] == sb[k]);
                }
            }
            let na: u64 = match digits_u64(a, i, ea) {
                Some(n) => n,
                None => 0,
            };
            let nb: u64 = match digits_u64(b, j, eb) {
                Some(n) => n,
                None => 0,
            };
            if na < nb {
                return -1;
            }
            if na > nb {
                return 1;
            }
            assert(sa.skip(head_len(sa)) =~= a@.skip(ea as int));
            assert(sb.skip(head_len(sb)) =~= b@.skip(eb as int));
            i = ea;
            j = eb;
        } else {
            if ca < cb {
                return -1;
            }
            if ca > cb {
                return 1;
            }
            assert(sa.skip(1) =~= a@.skip(i + 1));
            assert(sb.skip(1) =~= b@.skip(j + 1));
            i = i + 1;
            j = j + 1;
        }
    }
}

/// Natural sort order of two names, so "page2.jpg" comes before "page10.jpg".
pub fn natural_cmp(a: &str, b: &str) -> (r: Ordering)
    ensures
        ordering_sign(r) == natural_order(a@, b@),
{
    let av: Vec<char> = chars_of(a);
    let bv: Vec<char> = chars_of(b);
    let s: i8 = natural_order_of(&av, &bv);
    proof {
        lemma_natural_order_range(a@, b@);
    }
    if s < 0 {
        Ordering::Less
    } else if s > 0 {
        Ordering::Greater
    } else {
        Ordering::Equal
    }
}

/* ---------- Sorting ---------- */

/// Values that are sorted by a name.
pub trait Named {
    spec fn name_view(&self) -> Seq<char>;

    fn name_chars(&self) -> (r: Vec<char>)
        ensures
            r@ == self.name_view(),
    ;
}

impl Named for String {
    open spec fn name_view(&self) -> Seq<char> {
        self@
    }

    fn name_chars(&self) -> (r: Vec<char>) {
        chars_of(self.as_str())
    }
}

/// `r` is `v` rearranged by `p`: `r[k] == v[p[k]]`, `p` a permutation of the indices.
pub open spec fn arranged<T>(v: Seq<T>, r: Seq<T>, p: Seq<int>) -> bool {
    &&& r.len() == v.len()
    &&& p.len() == v.len()
    &&& forall|k: int| 0 <= k < p.len() ==> 0 <= #[trigger] p[k] < v.len()
    &&& forall|k: int, l: int| 0 <= k < l < p.len() ==> p[k] != p[l]
    &&& forall|k: int| 0 <= k < r.len() ==> #[trigger] r[k] == v[p[k]]
}

/// Rearranging loses nothing: every element of `v` is found in `r`.
pub proof fn lemma_arranged_keeps<T>(v: Seq<T>, r: Seq<T>, p: Seq<int>, k: int)
    requires
        arranged(v, r, p),
        0 <= k < v.len(),
    ensures
        exists|j: int| 0 <= j < r.len() && r[j] == v[k],
{
    let n = v.len() as int;
    assert(p.no_duplicates()) by {
        assert forall|a: int, b: int| 0 <= a < p.len() && 0 <= b < p.len() && a != b implies p[a] != p[b] by {
            if a < b {
            } else {
            }
        }
    }
    p.unique_seq_to_set();
    vstd::set_lib::lemma_int_range(0, n);
    assert(p.to_set().subset_of(vstd::set_lib::set_int_range(0, n))) by {
        assert forall|x: int| p.to_set().contains(x) implies vstd::set_lib::set_int_range(0, n).contains(x) by {
            let j = choose|j: int| 0 <= j < p.len() && p[j] == x;
            assert(0 <= p[j] < v.len());
        }
    }
    vstd::set_lib::lemma_len_subset(p.to_set(), vstd::set_lib::set_int_range(0, n));
    vstd::set_lib::lemma_subset_equality(p.to_set(), vstd::set_lib::set_int_range(0, n));
    assert(vstd::set_lib::set_int_range(0, n).contains(k));
    assert(p.to_set().contains(k));
    let j = choose|j: int| 0 <= j < p.len() && p[j] == k;
    assert(r[j] == v[p[j]]);
}

/// `r` is in natural order of names.
pub open spec fn sorted_by_name<T: Named>(r: Seq<T>) -> bool {
    forall|k: int, l: int|
        0 <= k < l < r.len() ==> natural_order(#[trigger] r[k].name_view(), #[trigger] r[l].name_view()) <= 0
}

/// Elements with equal names keep their relative order.
pub open spec fn stable_by_name<T: Named>(r: Seq<T>, p: Seq<int>) -> bool {
    forall|k: int, l: int|
        0 <= k < l < r.len() && natural_order(#[trigger] r[k].name_view(), #[trigger] r[l].name_view())
            == 0 ==> p[k] < p[l]
}

/// Stable sort of `v` by the natural order of the names (what `sort_by` with
/// `natural_cmp` gives).
pub fn natural_sort<T: Named>(v: Vec<T>) -> (r: Vec<T>)
    ensures
        exists|p: Seq<int>| arranged(v@, r@, p) && stable_by_name(r@, p),
        sorted_by_name(r@),
{
    let ghost orig = v@;
    let mut rest = v;
    let mut out: Vec<T> = Vec::new();
    let mut keys: Vec<Vec<char>> = Vec::new();
    let ghost mut p: Seq<int> = Seq::empty();
    while rest.len() > 0
        invariant
            rest@ == orig.take(rest.len() as int),
            rest.len() + out.len() == orig.len(),
            keys.len() == out.len(),
            forall|k: int| 0 <= k < keys.len() ==> (#[trigger] keys@[k])@ == out@[k].name_view(),
            p.len() == out.len(),
            forall|k: int| 0 <= k < p.len() ==> rest.len() <= #[trigger] p[k] < orig.len(),
            forall|k: int, l: int| 0 <= k < l < p.len() ==> p[k] != p[l],
            forall|k: int| 0 <= k < out.len() ==> #[trigger] out@[k] == orig[p[k]],
            sorted_by_name(out@),
            stable_by_name(out@, p),
        decreases rest.len(),
    {
        let x: T = rest.pop().unwrap();
        let ghost idx: int = rest.len() as int;
        assert(x == orig[idx]);
        let xk: Vec<char> = x.name_chars();
        // lower bound: first position whose name is not below x
        let mut lo: usize = 0;
        let mut hi: usize = out.len();
        while lo < hi
            invariant
                lo <= hi <= out.len(),
                keys.len() == out.len(),
                forall|k: int| 0 <= k < keys.len() ==> (#[trigger] keys@[k])@ == out@[k].name_view(),
                sorted_by_name(out@),
                xk@ == x.name_view(),
                forall|k: int| 0 <= k < lo ==> natural_order(#[trigger] out@[k].name_view(), xk@) < 0,
                forall|k: int| hi <= k < out.len() ==> natural_order(#[trigger] out@[k].name_view(), xk@) >= 0,
            decreases hi - lo,
        {
            let mid: usize = lo + (hi - lo) / 2;
            let o: i8 = natural_order_of(&keys[mid], &xk);
            if o < 0 {
                assert forall|k: int| 0 <= k < mid + 1 implies natural_order(
                    #[trigger] out@[k].name_view(),
                    xk@,
                ) < 0 by {
                    if k < mid {
                        lemma_natural_order_transitive(out@[k].name_view(), out@[mid as int].name_view(), xk@);
                    }
                }
                lo = mid + 1;
            } else {
                assert forall|k: int| mid <= k < out.len() implies natural_order(
                    #[trigger] out@[k].name_view(),
                    xk@,
                ) >= 0 by {
                    if k > mid {
                        lemma_natural_order_antisymmetric(out@[mid as int].name_view(), xk@);
                        lemma_natural_order_antisymmetric(out@[k].name_view(), xk@);
                        lemma_natural_order_transitive(xk@, out@[mid as int].name_view(), out@[k].name_view());
                    }
                }
                hi = mid;
            }
        }
        let ghost old_out = out@;
        let ghost old_p = p;
        out.insert(lo, x);
        keys.insert(lo, xk);
        proof {
            p = old_p.insert(lo as int, idx);
            old_out.insert_ensures(lo as int, x);
            old_p.insert_ensures(lo as int, idx);
            assert forall|k: int| 0 <= k < keys.len() implies (#[trigger] keys@[k])@ == out@[k].name_view() by {
            }
            assert forall|k: int, l: int|
                0 <= k < l < out.len() implies natural_order(
                #[trigger] out@[k].name_view(),
                #[trigger] out@[l].name_view(),
            ) <= 0 by {
                if l < lo {
                } else if l == lo {
                } else if k < lo {
                    assert(out@[l] == old_out[l - 1]);
                    lemma_natural_order_antisymmetric(old_out[l - 1].name_view(), x.name_view());
                    lemma_natural_order_transitive(old_out[k].name_view(), x.name_view(), old_out[l - 1].name_view());
                } else if k == lo {
                    lemma_natural_order_antisymmetric(old_out[l - 1].name_view(), x.name_view());
                } else {
                    assert(out@[k] == old_out[k - 1]);
                    assert(out@[l] == old_out[l - 1]);
                }
            }
            assert forall|k: int, l: int|
                0 <= k < l < out.len() && natural_order(
                    #[trigger] out@[k].name_view(),
                    #[trigger] out@[l].name_view(),
                ) == 0 implies p[k] < p[l] by {
                if l < lo {
                } else if l == lo {
                } else if k < lo {
                    assert(out@[l] == old_out[l - 1]);
                } else if k == lo {
                    assert(out@[l] == old_out[l - 1]);
                } else {
                    assert(out@[k] == old_out[k - 1]);
                    assert(out@[l] == old_out[l - 1]);
                }
            }
        }
    }
    proof {
        assert(arranged(orig, out@, p));
    }
    out
}

} // verus!
