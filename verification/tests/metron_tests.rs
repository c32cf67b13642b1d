use readingcomics::metron::{
    clean_token, describe_status, fold, header_u32, pick_best, rank_candidates, score,
    search_plan, search_step, status_for, status_with_limits, urlencoding_encode, wanted_name, MetronCandidate, SearchAction,
    SeriesHint, SeriesListItem, StatusField,
};

fn candidate(id: i64, name: &str, year: Option<i32>, volume: Option<u32>) -> MetronCandidate {
    MetronCandidate {
        id,
        name: name.into(),
        year_began: year,
        volume,
        issue_count: Some(10),
    }
}

#[test]
fn encodes_query_safely() {
    assert_eq!(urlencoding_encode("Saga"), "Saga");
    assert_eq!(urlencoding_encode("V de Vendetta"), "V+de+Vendetta");
    assert_eq!(urlencoding_encode("a&b=c"), "a%26b%3Dc");
    assert_eq!(urlencoding_encode("../../etc"), "..%2F..%2Fetc");
}

#[test]
fn punctuation_and_accents_do_not_break_the_match() {
    assert_eq!(fold("Spider-Man"), fold("Spider Man"));
    assert_eq!(fold("Astérix"), fold("asterix"));
    assert_eq!(fold("Patrulla-X"), "patrullax");
}

#[test]
fn the_right_volume_wins() {
    let v1 = candidate(1, "Doctor Strange (1974)", Some(1974), Some(1));
    let v3 = candidate(3, "Doctor Strange (2015)", Some(2015), Some(4));
    let otra = candidate(9, "Doctor Strange and the Sorcerers Supreme (2016)", Some(2016), Some(1));

    let by_year = |c: &MetronCandidate| score(c, "Doctor Strange", Some(1974), None);
    assert!(by_year(&v1) > by_year(&v3));

    let by_volume = |c: &MetronCandidate| score(c, "Doctor Strange", None, Some(4));
    assert!(by_volume(&v3) > by_volume(&v1));

    let plain = |c: &MetronCandidate| score(c, "Doctor Strange", None, None);
    assert!(plain(&v1) > plain(&otra));
}

#[test]
fn http_errors_are_explained_in_plain_language() {
    let msg = describe_status(reqwest::StatusCode::UNAUTHORIZED.as_u16());
    assert!(msg.contains("token"), "{msg}");
    let msg = describe_status(reqwest::StatusCode::TOO_MANY_REQUESTS.as_u16());
    assert!(msg.contains("límite"), "{msg}");
}

#[test]
fn accented_letters_encode_as_their_utf8_bytes() {
    assert_eq!(urlencoding_encode("Astérix"), "Ast%C3%A9rix");
    assert_eq!(urlencoding_encode("a~b_c.d-e"), "a~b_c.d-e");
    assert_eq!(urlencoding_encode(""), "");
}

#[test]
fn scores_add_up_as_documented() {
    let exact = candidate(1, "Saga", Some(2012), Some(1));
    assert_eq!(score(&exact, "saga", None, None), 102);
    assert_eq!(score(&exact, "Saga", Some(2012), Some(1)), 152);
    assert_eq!(score(&exact, "Saga", Some(2013), Some(2)), 87);
    let mut without_count = candidate(2, "Saga Deluxe", None, None);
    without_count.issue_count = None;
    assert_eq!(score(&without_count, "Saga", Some(2012), Some(1)), 40);
    let unrelated = candidate(3, "Batman", None, None);
    assert_eq!(score(&unrelated, "Saga", None, None), 2);
}

#[test]
fn ranking_puts_the_best_first_and_keeps_ties_in_order() {
    let a = candidate(1, "Doctor Strange (2015)", Some(2015), Some(4));
    let b = candidate(2, "Doctor Strange", Some(1974), Some(1));
    let c = candidate(3, "Doctor Strange (1974)", Some(1974), Some(1));
    let ranked = rank_candidates(vec![a, b, c], "Doctor Strange", Some(1974), None);
    let ids: Vec<i64> = ranked.iter().map(|c| c.id).collect();
    assert_eq!(ids, vec![2, 3, 1]);
}

#[test]
fn a_weak_best_is_not_taken() {
    let found = vec![candidate(1, "Batman", None, None)];
    assert!(!pick_best(&found, "Saga", None, None));
    let found = vec![candidate(1, "Saga", None, None)];
    assert!(pick_best(&found, "Saga", None, None));
    assert!(!pick_best(&Vec::new(), "Saga", None, None));
}

#[test]
fn search_plan_goes_from_precise_to_broad() {
    let hint = SeriesHint { name: None, volume: None, year: None };
    let plan = search_plan("  Batman: Year One ", hint, Some(1987), Some(1)).expect("hay nombre");
    assert_eq!(plan.base, "Batman: Year One");
    assert_eq!(
        plan.queries,
        vec![
            "q=Batman%3A+Year+One&year_began=1987&volume=1".to_string(),
            "q=Batman%3A+Year+One".to_string(),
            "q=Batman".to_string(),
        ]
    );
    let hint = SeriesHint { name: None, volume: None, year: None };
    assert!(search_plan("   ", hint, None, None).is_none());
}

#[test]
fn the_hint_fills_what_was_not_given() {
    let hint = SeriesHint { name: Some("Doctor Strange".into()), volume: Some(1), year: Some(1974) };
    let plan = search_plan("Doctor Strange Vol 1 (1974)", hint, None, None).expect("hay nombre");
    assert_eq!(plan.base, "Doctor Strange");
    assert_eq!(plan.year, Some(1974));
    assert_eq!(plan.volume, Some(1));
    assert_eq!(plan.queries[0], "q=Doctor+Strange&year_began=1974&volume=1");
    assert_eq!(plan.queries.len(), 2);
}

#[test]
fn tokens_are_trimmed_and_blank_ones_refused() {
    assert_eq!(clean_token("  abc123 \n").unwrap(), "abc123");
    assert!(clean_token("   ").is_err());
}

#[test]
fn limits_come_from_headers() {
    assert_eq!(header_u32("42"), Some(42));
    assert_eq!(header_u32("x"), None);
    let s = status_with_limits(Some(3), None);
    assert!(s.connected);
    assert_eq!(s.burst_remaining, Some(3));
    assert_eq!(s.sustained_remaining, None);
    let s = status_for(false);
    assert!(!s.connected);
}

#[test]
fn list_items_and_status_fields_take_their_names() {
    let item = SeriesListItem {
        id: 7,
        series: None,
        name: None,
        year_began: None,
        volume: None,
        issue_count: None,
    };
    assert_eq!(item.into_candidate().name, "serie 7");
    let item = SeriesListItem {
        id: 7,
        series: Some("Saga".into()),
        name: Some("Otra".into()),
        year_began: Some(2012),
        volume: Some(1),
        issue_count: Some(54),
    };
    let c = item.into_candidate();
    assert_eq!(c.name, "Saga");
    assert_eq!(c.issue_count, Some(54));
    assert_eq!(StatusField::Text("Ongoing".into()).into_name().as_deref(), Some("Ongoing"));
    assert_eq!(StatusField::Object { name: None }.into_name(), None);
}

#[test]
fn the_cleaned_name_is_preferred() {
    assert_eq!(wanted_name("Saga (2012)", Some("Saga".into())), "Saga");
    assert_eq!(wanted_name("Saga", None), "Saga");
}

#[test]
fn folding_ignores_punctuation_case_and_accents() {
    assert_eq!(fold("Spider Man"), "spiderman");
    assert_eq!(fold("SPIDER-MAN!"), fold("spider man"));
    assert_eq!(fold("Ñandú"), "nandu");
}

fn plan(queries: &[&str]) -> Option<readingcomics::metron::SearchPlan> {
    Some(readingcomics::metron::SearchPlan {
        base: "Doctor Strange".into(),
        year: Some(1974),
        volume: None,
        queries: queries.iter().map(|q| q.to_string()).collect(),
    })
}

#[test]
fn a_search_without_account_sends_nothing() {
    match search_step(false, &plan(&["q=a"]), 0, None) {
        SearchAction::Refuse(e) => assert_eq!(e, "no hay ninguna cuenta de Metron conectada"),
        _ => panic!("debería rechazarse"),
    }
}

#[test]
fn the_first_query_with_answers_is_ranked_and_ends_the_search() {
    let p = plan(&["q=a", "q=b"]);
    match search_step(true, &p, 0, None) {
        SearchAction::Send(q) => assert_eq!(q, "q=a"),
        _ => panic!("debería enviar la primera"),
    }
    match search_step(true, &p, 1, Some(Vec::new())) {
        SearchAction::Send(q) => assert_eq!(q, "q=b"),
        _ => panic!("debería enviar la segunda"),
    }
    let found = vec![
        candidate(1, "Doctor Strange (2015)", Some(2015), None),
        candidate(2, "Doctor Strange", Some(1974), None),
    ];
    match search_step(true, &p, 1, Some(found)) {
        SearchAction::Finish(v) => assert_eq!(v.iter().map(|c| c.id).collect::<Vec<_>>(), vec![2, 1]),
        _ => panic!("debería terminar"),
    }
    match search_step(true, &p, 2, Some(Vec::new())) {
        SearchAction::Finish(v) => assert!(v.is_empty()),
        _ => panic!("no quedan consultas"),
    }
    match search_step(true, &None, 0, None) {
        SearchAction::Finish(v) => assert!(v.is_empty()),
        _ => panic!("no hay nada que buscar"),
    }
}
