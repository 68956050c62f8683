use prose::rule::{known_ids, message_for_id, rule_for_name, selected_ids, RuleId};
use prose::slug::{is_valid_slug, slug_bytes_equal};

#[test]
fn rule_rule_id_display_and_debug_print_bare_slug() {
    let id = RuleId("align-equals");
    assert_eq!(id.to_string(), "align-equals");
    assert_eq!(id.as_str(), "align-equals");
}

#[test]
fn id_rule_id_display_and_debug_print_bare_slug() {
    let id = RuleId("align-equals");
    assert_eq!(id.to_string(), "align-equals");
    assert_eq!(id.as_str(), "align-equals");
}

#[test]
fn rule_rule_id_from_str_rejects_prose_prefixed_slug() {
    let err = "PROSE-align-equals".parse::<RuleId>().expect_err("prefixed form is not the canonical");
    assert_eq!(err.0, "PROSE-align-equals");
}

#[test]
fn id_rule_id_from_str_rejects_prose_prefixed_slug() {
    let err = "PROSE-align-equals".parse::<RuleId>().expect_err("prefixed form is not the canonical");
    assert_eq!(err.0, "PROSE-align-equals");
}

#[test]
fn rule_rule_id_from_str_rejects_unknown_slug() {
    let err = "not-a-rule".parse::<RuleId>().expect_err("unknown rejected");
    assert_eq!(err.0, "not-a-rule");
    assert_eq!(err.to_string(), "unknown rule id `not-a-rule`");
}

#[test]
fn id_rule_id_from_str_rejects_unknown_slug() {
    let err = "not-a-rule".parse::<RuleId>().expect_err("unknown rejected");
    assert_eq!(err.0, "not-a-rule");
}

#[test]
fn rule_rule_id_round_trips_through_display_and_from_str() {
    for id in known_ids() {
        let parsed: RuleId = id.to_string().parse().expect("known id parses");
        assert_eq!(parsed, id);
    }
}

#[test]
fn id_rule_id_round_trips_through_display_and_from_str() {
    for id in known_ids() {
        let parsed: RuleId = id.to_string().parse().expect("known id parses");
        assert_eq!(parsed, id);
    }
}

#[test]
fn rule_slug_bytes_equal_matches_only_identical_slices() {
    assert!(slug_bytes_equal(b"foo", b"foo"));
    assert!(!slug_bytes_equal(b"foo", b"food"));
    assert!(!slug_bytes_equal(b"foo", b"bar"));
}

#[test]
fn slug_slug_bytes_equal_matches_only_identical_slices() {
    assert!(slug_bytes_equal(b"foo", b"foo"));
    assert!(!slug_bytes_equal(b"foo", b"food"));
    assert!(!slug_bytes_equal(b"foo", b"bar"));
}

#[test]
fn is_valid_slug_accepts_canonical_kebab_shapes() {
    for valid in ["a", "a-b", "abc123", "single-use-variables"] {
        assert!(is_valid_slug(valid.as_bytes()), "{valid}");
    }
}

#[test]
fn is_valid_slug_rejects_invalid_shapes() {
    for invalid in ["", "-foo", "foo-", "a--b", "Foo", "abc!"] {
        assert!(!is_valid_slug(invalid.as_bytes()), "{invalid}");
    }
}

#[test]
fn every_registered_slug_is_valid_and_unique() {
    let ids = known_ids();
    assert_eq!(ids.len(), 24);
    for (i, a) in ids.iter().enumerate() {
        assert!(is_valid_slug(a.as_str().as_bytes()));
        for b in &ids[i + 1..] {
            assert!(!slug_bytes_equal(a.as_str().as_bytes(), b.as_str().as_bytes()));
        }
    }
}

#[test]
fn message_for_id_reads_the_registry_row() {
    assert_eq!(message_for_id(RuleId("align-equals")), "align consecutive `=` operators");
    assert_eq!(message_for_id(RuleId("alphabetize")), "alphabetize this group");
}

#[test]
fn rule_for_name_normalizes_snake_case() {
    assert_eq!(rule_for_name("align_equals").map(|id| id.as_str()), Some("align-equals"));
    assert_eq!(rule_for_name("strip-none-return").map(|id| id.as_str()), Some("strip-none-return"));
    assert!(rule_for_name("nope").is_none());
}

fn slugs(ids: &[RuleId]) -> Vec<&'static str> {
    ids.iter().map(|id| id.as_str()).collect()
}

#[test]
fn with_filters_ignore_subtracts_from_configured_set() {
    let enabled = vec![true; 24];
    let ignore = [RuleId::from("align-equals"), RuleId::from("alphabetize")];
    let selected = selected_ids(&enabled, &[], &ignore);
    assert_eq!(selected.len(), 22);
    assert!(!slugs(&selected).contains(&"align-equals"));
    assert!(!slugs(&selected).contains(&"alphabetize"));
}

#[test]
fn with_filters_select_minus_ignore_drops_overlap() {
    let enabled = vec![true; 24];
    let selected = selected_ids(
        &enabled,
        &[RuleId::from("align-equals"), RuleId::from("align-colons")],
        &[RuleId::from("align-equals")],
    );
    assert_eq!(slugs(&selected), ["align-colons"]);
}

#[test]
fn with_filters_select_overrides_disabled_config() {
    let enabled = vec![false; 24];
    let selected = selected_ids(&enabled, &[RuleId::from("align-equals")], &[]);
    assert_eq!(slugs(&selected), ["align-equals"]);
}

#[test]
fn with_filters_empty_select_falls_back_to_config() {
    let mut enabled = vec![false; 24];
    enabled[1] = true;
    let selected = selected_ids(&enabled, &[], &[]);
    assert_eq!(slugs(&selected), ["alphabetize"]);
}
