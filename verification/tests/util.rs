use flute_well::{
    articulation_from_name, asks_custom, find_policy, known_policy, parse_articulation,
    parse_policy, policy_from_name, PolyPolicy, PORTATO, STACCATISSIMO, STACCATO, WHOLE,
};

#[test]
fn policy_names() {
    assert_eq!(parse_policy("h"), PolyPolicy::Highest);
    assert_eq!(parse_policy("highest"), PolyPolicy::Highest);
    assert_eq!(parse_policy("lw"), PolyPolicy::Lowest);
    assert_eq!(parse_policy("lowest"), PolyPolicy::Lowest);
    assert_eq!(parse_policy("lu"), PolyPolicy::Loudest);
    assert_eq!(parse_policy("loudest"), PolyPolicy::Loudest);
    assert_eq!(parse_policy("a"), PolyPolicy::Densest);
    assert_eq!(parse_policy("d"), PolyPolicy::Densest);
    assert_eq!(parse_policy("auto"), PolyPolicy::Densest);
    assert_eq!(parse_policy("densest"), PolyPolicy::Densest);
}

#[test]
fn policy_names_in_any_case() {
    assert_eq!(parse_policy("LOWEST"), PolyPolicy::Lowest);
    assert_eq!(parse_policy("Loudest"), PolyPolicy::Loudest);
    assert_eq!(parse_policy("LU"), PolyPolicy::Loudest);
    assert_eq!(parse_policy("dEnSeSt"), PolyPolicy::Densest);
}

#[test]
fn name_is_taken_as_written_where_no_case_is_folded() {
    assert_eq!(policy_from_name("lowest"), PolyPolicy::Lowest);
    assert_eq!(policy_from_name("LOWEST"), PolyPolicy::Highest);
    assert_eq!(articulation_from_name("tenuto", None), WHOLE);
    assert_eq!(articulation_from_name("Tenuto", None), PORTATO);
}

#[test]
fn unknown_policy_is_the_highest() {
    assert_eq!(parse_policy(""), PolyPolicy::Highest);
    assert_eq!(parse_policy("first"), PolyPolicy::Highest);
    assert_eq!(parse_policy(" lowest"), PolyPolicy::Highest);
    assert_eq!(parse_policy("low"), PolyPolicy::Highest);
    assert_eq!(PolyPolicy::default(), PolyPolicy::Highest);
}

#[test]
fn articulation_names() {
    assert_eq!(parse_articulation("t", None), 1_000_000);
    assert_eq!(parse_articulation("Tenuto", None), WHOLE);
    assert_eq!(parse_articulation("s", None), 500_000);
    assert_eq!(parse_articulation("STACCATO", None), STACCATO);
    assert_eq!(parse_articulation("ss", None), 250_000);
    assert_eq!(parse_articulation("staccatissimo", None), STACCATISSIMO);
    assert_eq!(parse_articulation("p", None), 750_000);
    assert_eq!(parse_articulation("portato", None), PORTATO);
    assert_eq!(parse_articulation("Portamento", Some(1)), PORTATO);
    assert_eq!(parse_articulation("legato", Some(1)), PORTATO);
    assert_eq!(parse_articulation("", None), PORTATO);
}

#[test]
fn custom_articulation() {
    assert_eq!(parse_articulation("c", Some(420_000)), 420_000);
    assert_eq!(parse_articulation("Custom", Some(0)), 0);
    assert_eq!(parse_articulation("custom", Some(WHOLE)), WHOLE);
    assert_eq!(parse_articulation("custom", Some(WHOLE + 1)), WHOLE);
    assert_eq!(parse_articulation("custom", Some(u32::MAX)), WHOLE);
    assert_eq!(parse_articulation("custom", None), PORTATO);
    assert_eq!(parse_articulation("tenuto", Some(420_000)), WHOLE);
}

#[test]
fn unknown_names_are_told_from_known_ones() {
    assert_eq!(find_policy("Highest"), Some(PolyPolicy::Highest));
    assert_eq!(find_policy("LW"), Some(PolyPolicy::Lowest));
    assert_eq!(find_policy("first"), None);
    assert_eq!(find_policy(""), None);
    assert_eq!(known_policy("densest"), Some(PolyPolicy::Densest));
    assert_eq!(known_policy("Densest"), None);
    assert!(asks_custom("c"));
    assert!(asks_custom("Custom"));
    assert!(!asks_custom("customs"));
    assert!(!asks_custom("t"));
}
