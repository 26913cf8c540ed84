use npm_compromised_scan::denylist::Lists;
use npm_compromised_scan::denylist::parse_compromised_text;
use npm_compromised_scan::matcher::MatchType;
use npm_compromised_scan::matcher::find_matches;
use npm_compromised_scan::tree::Dep;
use npm_compromised_scan::tree::DepTree;
use npm_compromised_scan::tree::TreeNode;
use npm_compromised_scan::tree::collect_deps;

fn leaf(version: &str) -> TreeNode {
    TreeNode { version: Some(version.to_string()), deps: Vec::new() }
}

fn node(version: Option<&str>, deps: Vec<(&str, TreeNode)>) -> TreeNode {
    TreeNode {
        version: version.map(|v| v.to_string()),
        deps: deps.into_iter().map(|(n, t)| (n.to_string(), t)).collect(),
    }
}

fn dep(name: &str, version: &str) -> Dep {
    Dep { name: name.to_string(), version: version.to_string() }
}

#[test]
fn flattening_collects_sorted_deduplicated_pairs() {
    let doc = DepTree {
        dependencies: vec![
            ("zeta".to_string(), leaf("2.0.0")),
            ("alpha".to_string(), node(Some("1.0.0"), vec![("zeta", leaf("2.0.0"))])),
        ],
    };
    let deps = collect_deps(&doc);
    assert_eq!(deps, vec![dep("alpha", "1.0.0"), dep("zeta", "2.0.0")]);
}

#[test]
fn diamond_occurrence_appears_once_and_two_versions_twice() {
    let doc = DepTree {
        dependencies: vec![
            ("a".to_string(), node(Some("1.0.0"), vec![("shared", leaf("3.3.6"))])),
            ("b".to_string(), node(Some("1.0.0"), vec![("shared", leaf("3.3.6"))])),
            ("c".to_string(), node(Some("1.0.0"), vec![("shared", leaf("3.3.5"))])),
        ],
    };
    let deps = collect_deps(&doc);
    assert_eq!(
        deps,
        vec![
            dep("a", "1.0.0"),
            dep("b", "1.0.0"),
            dep("c", "1.0.0"),
            dep("shared", "3.3.5"),
            dep("shared", "3.3.6"),
        ]
    );
}

#[test]
fn flattening_twice_yields_identical_lists() {
    let doc = DepTree {
        dependencies: vec![
            ("b".to_string(), node(Some("2.0.0"), vec![("a", leaf("1.0.0"))])),
            ("a".to_string(), leaf("1.0.0")),
        ],
    };
    let first = collect_deps(&doc);
    let second = collect_deps(&doc);
    assert_eq!(first, second);
}

#[test]
fn versionless_node_contributes_children_but_not_itself() {
    let doc = DepTree {
        dependencies: vec![
            ("wrapper".to_string(), node(None, vec![("inner", leaf("0.1.1"))])),
        ],
    };
    let deps = collect_deps(&doc);
    assert_eq!(deps, vec![dep("inner", "0.1.1")]);
}

#[test]
fn empty_dependencies_mapping_yields_no_entries_and_no_matches() {
    let doc = DepTree { dependencies: Vec::new() };
    let deps = collect_deps(&doc);
    assert!(deps.is_empty());
    let lists = parse_compromised_text("left-pad\n").unwrap();
    let (records, any) = find_matches(&deps, &lists);
    assert!(records.is_empty());
    assert!(!any);
}

#[test]
fn deeply_nested_chains_are_fully_traversed() {
    let mut inner = leaf("0.0.100");
    for depth in (0..100).rev() {
        inner = node(Some(&format!("0.0.{depth}")), vec![("chain", inner)]);
    }
    let doc = DepTree { dependencies: vec![("chain".to_string(), inner)] };
    let deps = collect_deps(&doc);
    assert_eq!(deps.len(), 101);
    assert!(deps.iter().all(|d| d.name == "chain"));
}

#[test]
fn exact_match_takes_precedence_over_name_match() {
    let lists = Lists {
        exact: vec![("event-stream".to_string(), "3.3.6".to_string())],
        names: vec!["event-stream".to_string(), "left-pad".to_string()],
    };
    let deps = vec![
        dep("event-stream", "3.3.6"),
        dep("event-stream", "3.3.5"),
        dep("left-pad", "1.0.0"),
    ];
    let (records, any) = find_matches(&deps, &lists);
    assert!(any);
    assert_eq!(records.len(), 3);
    assert_eq!(records[0].match_type, MatchType::Exact);
    assert_eq!(records[0].name, "event-stream");
    assert_eq!(records[0].version, "3.3.6");
    assert_eq!(records[1].match_type, MatchType::Name);
    assert_eq!(records[1].name, "event-stream");
    assert_eq!(records[1].version, "3.3.5");
    assert_eq!(records[2].match_type, MatchType::Name);
    assert_eq!(records[2].name, "left-pad");
    assert_eq!(records[2].version, "1.0.0");
}

#[test]
fn name_denylisted_at_three_versions_reports_three_name_matches() {
    let lists = Lists { exact: Vec::new(), names: vec!["p".to_string()] };
    let deps = vec![dep("p", "1.0.0"), dep("p", "2.0.0"), dep("p", "3.0.0")];
    let (records, any) = find_matches(&deps, &lists);
    assert!(any);
    assert_eq!(records.len(), 3);
    assert!(records.iter().all(|r| r.match_type == MatchType::Name && r.name == "p"));
}

#[test]
fn empty_denylist_matches_nothing() {
    let lists = parse_compromised_text("# all comments\n\n").unwrap();
    let deps = vec![dep("anything", "1.0.0"), dep("other", "2.0.0")];
    let (records, any) = find_matches(&deps, &lists);
    assert!(records.is_empty());
    assert!(!any);
}

#[test]
fn unmatched_dependencies_are_not_recorded() {
    let lists = Lists {
        exact: vec![("bad".to_string(), "1.0.0".to_string())],
        names: vec!["bad".to_string()],
    };
    let deps = vec![dep("good", "1.0.0"), dep("bad", "2.0.0"), dep("bad", "1.0.0")];
    let (records, any) = find_matches(&deps, &lists);
    assert!(any);
    assert_eq!(records.len(), 2);
    assert_eq!(records[0].match_type, MatchType::Name);
    assert_eq!(records[0].version, "2.0.0");
    assert_eq!(records[1].match_type, MatchType::Exact);
    assert_eq!(records[1].version, "1.0.0");
}

#[test]
fn end_to_end_scan_flags_compromised_tree() {
    let text = "event-stream@3.3.6\nleft-pad\n";
    let lists = parse_compromised_text(text).unwrap();
    let doc = DepTree {
        dependencies: vec![
            (
                "app-core".to_string(),
                node(
                    Some("1.0.0"),
                    vec![("event-stream", leaf("3.3.6")), ("left-pad", leaf("1.3.0"))],
                ),
            ),
        ],
    };
    let deps = collect_deps(&doc);
    let (records, any) = find_matches(&deps, &lists);
    assert!(any);
    assert_eq!(records.len(), 2);
    assert_eq!(records[0].match_type, MatchType::Exact);
    assert_eq!(records[0].name, "event-stream");
    assert_eq!(records[1].match_type, MatchType::Name);
    assert_eq!(records[1].name, "left-pad");
}
