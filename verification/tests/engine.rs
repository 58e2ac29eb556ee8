use codeownerrs::code_owners::CodeOwners;
use codeownerrs::drivers::{audit, verify};
use codeownerrs::matcher::is_match;

#[test]
fn parser_drops_blank_and_single_token_lines() {
    let m = CodeOwners::parse("");
    assert_eq!(m.entries.len(), 0);
    let m = CodeOwners::parse("justapattern\n");
    assert_eq!(m.entries.len(), 0);
    let m = CodeOwners::parse("   \n\n\t\n");
    assert_eq!(m.entries.len(), 0);
}

#[test]
fn parser_drops_comment_lines() {
    let m = CodeOwners::parse("# a comment owner\n/src alice\n#/docs bob\n");
    assert_eq!(m.entries.len(), 1);
    assert_eq!(m.entries[0].path, "/src");
    assert_eq!(m.entries[0].owners, vec!["alice".to_string()]);
}

#[test]
fn parser_keeps_order_and_duplicate_owners() {
    let m = CodeOwners::parse("/a x y x\n/b z\n");
    assert_eq!(m.entries.len(), 2);
    assert_eq!(m.entries[0].path, "/a");
    assert_eq!(
        m.entries[0].owners,
        vec!["x".to_string(), "y".to_string(), "x".to_string()]
    );
    assert_eq!(m.entries[1].path, "/b");
    assert_eq!(m.entries[1].owners, vec!["z".to_string()]);
}

#[test]
fn parser_handles_tabs_and_crlf() {
    let m = CodeOwners::parse("/a\talice\tbob\r\n/b carol\r\n");
    assert_eq!(m.entries.len(), 2);
    assert_eq!(
        m.entries[0].owners,
        vec!["alice".to_string(), "bob".to_string()]
    );
    assert_eq!(m.entries[1].owners, vec!["carol".to_string()]);
}

#[test]
fn last_match_wins() {
    let m = CodeOwners::parse("/src a\n/src/util b\n");
    let r = codeownerrs::resolver::resolve(&m, "/src/util/helpers.rs");
    assert!(r.owned);
    assert_eq!(r.owners, vec!["b".to_string()]);
}

#[test]
fn earlier_rule_applies_where_later_does_not_match() {
    let m = CodeOwners::parse("/src a\n/src/util b\n");
    let r = codeownerrs::resolver::resolve(&m, "/src/main.rs");
    assert!(r.owned);
    assert_eq!(r.owners, vec!["a".to_string()]);
}

#[test]
fn segment_boundary_not_string_prefix() {
    let m = CodeOwners::parse("/src a\n");
    let r = codeownerrs::resolver::resolve(&m, "/src-legacy/file.rs");
    assert!(!r.owned);
    assert!(r.owners.is_empty());
    assert!(m.get_owners("/src-legacy/file.rs").is_none());
}

#[test]
fn exact_target_and_descendants_match() {
    let m = CodeOwners::parse("/src a\n");
    assert!(codeownerrs::resolver::resolve(&m, "/src").owned);
    assert!(codeownerrs::resolver::resolve(&m, "/src/deep/nested/file.rs").owned);
}

#[test]
fn resolution_is_total_on_empty_manifest() {
    let m = CodeOwners::parse("");
    let r = codeownerrs::resolver::resolve(&m, "/anything/at/all");
    assert!(!r.owned);
    assert_eq!(r.path, "/anything/at/all");
    assert!(r.owners.is_empty());
}

#[test]
fn get_owners_returns_explicit_indicator() {
    let m = CodeOwners::parse("/src user1 user2\n");
    let owners = m.get_owners("/src").expect("path is owned");
    assert!(owners.contains(&"user1".to_string()));
    assert!(owners.contains(&"user2".to_string()));
    assert!(m.get_owners("/docs").is_none());
}

#[test]
fn unowned_reporting_in_audit() {
    let m = CodeOwners::parse("/docs team-docs\n");
    let paths = vec!["/src/a.rs".to_string(), "/docs/readme.md".to_string()];
    let out = audit(&m, &paths, true);
    assert_eq!(out.len(), 1);
    assert_eq!(out[0].path, "/src/a.rs");
    assert!(!out[0].owned);
}

#[test]
fn audit_reports_every_path_in_walk_order() {
    let m = CodeOwners::parse("/docs team-docs\n");
    let paths = vec!["/src/a.rs".to_string(), "/docs/readme.md".to_string()];
    let out = audit(&m, &paths, false);
    assert_eq!(out.len(), 2);
    assert_eq!(out[0].path, "/src/a.rs");
    assert!(!out[0].owned);
    assert_eq!(out[1].path, "/docs/readme.md");
    assert!(out[1].owned);
    assert_eq!(out[1].owners, vec!["team-docs".to_string()]);
}

#[test]
fn verify_is_a_subset_check() {
    let m = CodeOwners::parse("/x alice bob\n");
    let alice = vec!["alice".to_string()];
    let alice_carol = vec!["alice".to_string(), "carol".to_string()];
    let alice_bob = vec!["alice".to_string(), "bob".to_string()];
    let nobody: Vec<String> = Vec::new();
    assert!(verify(&m, "/x/file.rs", &alice));
    assert!(!verify(&m, "/x/file.rs", &alice_carol));
    assert!(verify(&m, "/x/file.rs", &alice_bob));
    assert!(verify(&m, "/x/file.rs", &nobody));
}

#[test]
fn verify_fails_without_panicking_on_unowned_path() {
    let m = CodeOwners::parse("/x alice\n");
    let alice = vec!["alice".to_string()];
    assert!(!verify(&m, "/elsewhere/file.rs", &alice));
}

#[test]
fn star_stays_within_a_segment() {
    assert!(is_match("/src/*.rs", "/src/main.rs"));
    assert!(!is_match("/src/*.rs", "/src/sub/main.rs"));
    assert!(is_match("*.rs", "/deep/tree/main.rs"));
    assert!(!is_match("*.rs", "/deep/tree/main.c"));
}

#[test]
fn double_star_crosses_segments() {
    assert!(is_match("/src/**", "/src/a/b/c.rs"));
    assert!(is_match("/src/**/mod.rs", "/src/a/b/mod.rs"));
    assert!(is_match("/src/**/mod.rs", "/src/mod.rs"));
    assert!(!is_match("/src/**/mod.rs", "/src/a/lib.rs"));
}

#[test]
fn trailing_slash_matches_only_inside_the_directory() {
    assert!(is_match("/docs/", "/docs/readme.md"));
    assert!(!is_match("/docs/", "/docs"));
}

#[test]
fn unanchored_component_matches_at_any_depth() {
    assert!(is_match("docs", "/a/docs/readme.md"));
    assert!(is_match("docs", "/docs"));
    assert!(!is_match("docs", "/a/mydocs/readme.md"));
}

#[test]
fn walker_style_paths_are_normalized() {
    let m = CodeOwners::parse("/src alice\n");
    assert!(codeownerrs::resolver::resolve(&m, "./src/a.rs").owned);
    assert!(is_match("/src", "./src/a.rs"));
    assert!(is_match("/src", "src/a.rs"));
}

#[test]
fn audit_reports_only_paths_the_walk_produced() {
    // depth limiting belongs to the tree walker: a shallow walk never
    // hands a deep file to audit, and audit reports nothing else
    let m = CodeOwners::parse("/x owner-x\n");
    let walked = vec!["/top.rs".to_string()];
    let out = audit(&m, &walked, false);
    assert_eq!(out.len(), 1);
    assert_eq!(out[0].path, "/top.rs");
    assert!(out.iter().all(|r| r.path != "/x/y/z.rs"));
}

#[test]
fn anchored_multi_segment_pattern_respects_boundaries() {
    assert!(is_match("/src/util", "/src/util/helpers.rs"));
    assert!(!is_match("/src/util", "/src/utilities/helpers.rs"));
    assert!(!is_match("/src/util", "/source/util/helpers.rs"));
}

#[test]
fn hash_inside_a_pattern_is_not_a_comment() {
    let m = CodeOwners::parse("/a#b owner\n");
    assert_eq!(m.entries.len(), 1);
    assert!(codeownerrs::resolver::resolve(&m, "/a#b").owned);
}

#[test]
fn star_alone_matches_any_file() {
    let m = CodeOwners::parse("* @org/everyone\n");
    let r = codeownerrs::resolver::resolve(&m, "/any/depth/file.txt");
    assert!(r.owned);
    assert_eq!(r.owners, vec!["@org/everyone".to_string()]);
}
