use npm_compromised_scan::denylist::CompEntry;
use npm_compromised_scan::denylist::InvalidReason;
use npm_compromised_scan::denylist::parse_compromised_entry;
use npm_compromised_scan::denylist::parse_compromised_text;

#[test]
fn bare_name_without_at_parses_as_name() {
    let r = parse_compromised_entry("left-pad");
    assert_eq!(r, CompEntry::Name("left-pad".to_string()));
}

#[test]
fn unscoped_exact_parses_name_and_version() {
    let r = parse_compromised_entry("foo@1.2.3");
    assert_eq!(
        r,
        CompEntry::Exact { name: "foo".to_string(), version: "1.2.3".to_string() }
    );
}

#[test]
fn scoped_exact_parses_name_and_version() {
    let r = parse_compromised_entry("@scope/pkg@2.0.0");
    assert_eq!(
        r,
        CompEntry::Exact { name: "@scope/pkg".to_string(), version: "2.0.0".to_string() }
    );
}

#[test]
fn scoped_name_with_single_at_parses_as_name() {
    let r = parse_compromised_entry("@scope/pkg");
    assert_eq!(r, CompEntry::Name("@scope/pkg".to_string()));
}

#[test]
fn empty_version_part_is_rejected() {
    let r = parse_compromised_entry("foo@");
    assert_eq!(r, CompEntry::Invalid(InvalidReason::EmptyVersion));
}

#[test]
fn version_with_slash_is_rejected() {
    let r = parse_compromised_entry("foo@bar/baz");
    assert_eq!(r, CompEntry::Invalid(InvalidReason::VersionContainsSlash));
}

#[test]
fn version_not_starting_alphanumeric_is_rejected() {
    let r = parse_compromised_entry("foo@-bar");
    assert_eq!(r, CompEntry::Invalid(InvalidReason::VersionNotAlnum));
}

#[test]
fn version_starting_with_slash_hits_the_slash_check_first() {
    let r = parse_compromised_entry("foo@/bar");
    assert_eq!(r, CompEntry::Invalid(InvalidReason::VersionContainsSlash));
}

#[test]
fn two_ats_in_unscoped_entry_are_rejected() {
    let r = parse_compromised_entry("a@b@c");
    assert_eq!(r, CompEntry::Invalid(InvalidReason::TooManyAt));
}

#[test]
fn scoped_exact_with_empty_version_is_rejected() {
    let r = parse_compromised_entry("@scope/pkg@");
    assert_eq!(r, CompEntry::Invalid(InvalidReason::EmptyVersion));
}

#[test]
fn text_parsing_registers_names_and_exact_pairs() {
    let text = "# compromised packages\n\n  left-pad  \nevent-stream@3.3.6\n@scope/pkg@2.0.0\n";
    let lists = parse_compromised_text(text).unwrap();
    assert!(lists.contains_name(&"left-pad".to_string()));
    assert!(lists.contains_name(&"event-stream".to_string()));
    assert!(lists.contains_name(&"@scope/pkg".to_string()));
    assert!(lists.contains_exact(&"event-stream".to_string(), &"3.3.6".to_string()));
    assert!(lists.contains_exact(&"@scope/pkg".to_string(), &"2.0.0".to_string()));
    assert!(!lists.contains_exact(&"left-pad".to_string(), &"1.0.0".to_string()));
}

#[test]
fn exact_entry_name_is_also_in_name_set() {
    let text = "event-stream@3.3.6\nflatmap-stream@0.1.1\n";
    let lists = parse_compromised_text(text).unwrap();
    for (name, _version) in &lists.exact {
        assert!(lists.contains_name(name));
    }
}

#[test]
fn first_invalid_line_aborts_with_line_number_and_reason() {
    let text = "good-package\n# comment\nbad@@x\nnever-reached@\n";
    let err = parse_compromised_text(text).unwrap_err();
    assert_eq!(err.line_number, 3);
    assert_eq!(err.line, "bad@@x");
    assert_eq!(err.reason, InvalidReason::TooManyAt);
    assert_eq!(
        err.reason.text(),
        "Too many @ characters for unscoped package".to_string()
    );
}

#[test]
fn duplicate_entries_are_registered_once() {
    let text = "left-pad\nleft-pad\nfoo@1.0.0\nfoo@1.0.0\n";
    let lists = parse_compromised_text(text).unwrap();
    assert_eq!(lists.names.iter().filter(|n| n.as_str() == "left-pad").count(), 1);
    assert_eq!(lists.exact.len(), 1);
}

#[test]
fn empty_denylist_of_comments_and_blanks_yields_empty_lists() {
    let text = "# nothing here\n\n   \n# still nothing\n";
    let lists = parse_compromised_text(text).unwrap();
    assert!(lists.names.is_empty());
    assert!(lists.exact.is_empty());
}

#[test]
fn reason_texts_match_the_diagnostics() {
    assert_eq!(InvalidReason::EmptyName.text(), "Empty name part".to_string());
    assert_eq!(InvalidReason::EmptyVersion.text(), "Empty version part".to_string());
    assert_eq!(InvalidReason::VersionContainsSlash.text(), "Version contains '/'".to_string());
    assert_eq!(
        InvalidReason::VersionNotAlnum.text(),
        "Version does not start with alphanumeric".to_string()
    );
}
