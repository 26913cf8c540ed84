use npm_compromised_scan::denylist::Lists;
use npm_compromised_scan::denylist::parse_compromised_text;
use npm_compromised_scan::matcher::MatchRecord;
use npm_compromised_scan::matcher::MatchType;
use npm_compromised_scan::report::identity_label_string;
use npm_compromised_scan::text::trim_str;

#[test]
fn identity_label_joins_name_and_version_with_at() {
    let label = identity_label_string(&"@scope/pkg".to_string(), &"2.0.0".to_string());
    assert_eq!(label, "@scope/pkg@2.0.0".to_string());
}

#[test]
fn sorted_names_are_ascending_and_deduplicated() {
    let text = "zeta\nalpha\nzeta\nmid@1.0.0\n";
    let lists = parse_compromised_text(text).unwrap();
    assert_eq!(
        lists.sorted_names(),
        vec!["alpha".to_string(), "mid".to_string(), "zeta".to_string()]
    );
}

#[test]
fn sorted_exact_labels_are_ascending() {
    let lists = Lists {
        exact: vec![
            ("zeta".to_string(), "1.0.0".to_string()),
            ("alpha".to_string(), "2.0.0".to_string()),
            ("alpha".to_string(), "1.0.0".to_string()),
        ],
        names: vec!["zeta".to_string(), "alpha".to_string()],
    };
    assert_eq!(
        lists.sorted_exact_labels(),
        vec![
            "alpha@1.0.0".to_string(),
            "alpha@2.0.0".to_string(),
            "zeta@1.0.0".to_string(),
        ]
    );
}

#[test]
fn exact_match_renders_its_report_line() {
    let m = MatchRecord {
        match_type: MatchType::Exact,
        name: "event-stream".to_string(),
        version: "3.3.6".to_string(),
    };
    assert_eq!(m.render_line(), "[EXACT MATCH] event-stream@3.3.6".to_string());
}

#[test]
fn name_match_renders_its_report_line() {
    let m = MatchRecord {
        match_type: MatchType::Name,
        name: "left-pad".to_string(),
        version: "1.0.0".to_string(),
    };
    assert_eq!(m.render_line(), "[NAME MATCH ] left-pad@1.0.0".to_string());
}

#[test]
fn trim_removes_surrounding_whitespace_only() {
    assert_eq!(trim_str("  spaced out \t"), "spaced out");
    assert_eq!(trim_str("\r\n"), "");
    assert_eq!(trim_str("plain"), "plain");
}
