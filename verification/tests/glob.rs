use rustytree::glob::{star_match, GlobPredicate};

#[test]
fn star_match_literal() {
    assert!(star_match("sweep_0", "sweep_0"));
    assert!(!star_match("sweep_0", "sweep_1"));
}

#[test]
fn star_match_wildcard() {
    assert!(star_match("*", "anything"));
    assert!(star_match("*", ""));
    assert!(star_match("VCP-*", "VCP-12"));
    assert!(!star_match("VCP-*", "VOL-12"));
    assert!(star_match("*sweep*", "my_sweep_0"));
}

#[test]
fn star_match_empty_pattern() {
    assert!(star_match("", ""));
    assert!(!star_match("", "foo"));
}

#[test]
fn predicate_skips_relative_pattern() {
    let p = GlobPredicate::parse("*/sweep_0");
    assert!(p.could_descendant_match("/anything"));
}

#[test]
fn predicate_skips_unsupported_wildcards() {
    for pat in ["/[vV]olume/*", "/?CP-12/*"] {
        let p = GlobPredicate::parse(pat);
        assert!(p.could_descendant_match("/whatever"));
    }
}

#[test]
fn predicate_descendant_match() {
    let p = GlobPredicate::parse("/*/sweep_0");
    assert!(p.could_descendant_match("/"));
    assert!(p.could_descendant_match("/VCP-12"));
    assert!(p.could_descendant_match("/VCP-12/sweep_0"));
    // Too deep; can't have a match below.
    assert!(!p.could_descendant_match("/VCP-12/sweep_0/extra"));
}

#[test]
fn predicate_exact_depth_match() {
    // At the pattern's exact depth, `could_descendant_match`
    // doubles as a precise match check.
    let p = GlobPredicate::parse("/*/sweep_0");
    assert!(p.could_descendant_match("/VCP-12/sweep_0"));
    assert!(!p.could_descendant_match("/VCP-12/sweep_1"));
}

#[test]
fn predicate_handles_trailing_slash() {
    // `PurePosixPath` strips trailing slash; we should too.
    let p = GlobPredicate::parse("/*/sweep_0/");
    assert!(p.could_descendant_match("/VCP-12/sweep_0"));
}

#[test]
fn predicate_root_descendant_check() {
    let p = GlobPredicate::parse("/foo/bar");
    assert!(p.could_descendant_match("/"));
    assert!(p.could_descendant_match("/foo"));
    assert!(!p.could_descendant_match("/baz"));
}

#[test]
fn predicate_collapses_double_slash() {
    // `PurePosixPath("/foo/bar").match("/foo//bar")` is `True`, so an empty
    // segment of the pattern must count for nothing.
    let p = GlobPredicate::parse("/foo//bar");
    assert!(p.could_descendant_match("/foo/bar"));
    assert!(p.could_descendant_match("/foo"));
}

#[test]
fn stars_take_gaps_in_order() {
    assert!(star_match("a*b*c", "abc"));
    assert!(star_match("a*b*c", "axxbyyc"));
    assert!(!star_match("a*b*c", "acb"));
    // The last literal is anchored at the end, the first at the start.
    assert!(star_match("*ab", "abab"));
    assert!(!star_match("*ab", "aba"));
    assert!(!star_match("ab*", "bab"));
    // One text cannot serve two literals.
    assert!(!star_match("ab*ba", "aba"));
    assert!(star_match("**", "x"));
}

#[test]
fn stars_match_characters_not_bytes() {
    assert!(star_match("é*", "éa"));
    assert!(star_match("*ü", "äöü"));
}

#[test]
fn a_pruned_path_stays_pruned_below() {
    let p = GlobPredicate::parse("/a/b");
    assert!(!p.could_descendant_match("/x"));
    assert!(!p.could_descendant_match("/x/b"));
    assert!(!p.could_descendant_match("/x/b/c"));
}

#[test]
fn a_match_is_never_pruned_on_the_way() {
    let p = GlobPredicate::parse("/VCP-*/sweep_*");
    for path in ["/", "/VCP-12", "/VCP-12/sweep_3"] {
        assert!(p.could_descendant_match(path));
    }
}

#[test]
fn a_star_crosses_no_slash() {
    assert!(!star_match("*", "a/b"));
    assert!(!star_match("a*b", "a/b"));
    assert!(!star_match("*b", "a/b"));
    assert!(star_match("a/*", "a/b"));
    assert!(star_match("*/*", "a/b"));
    assert!(!star_match("*/*", "a/b/c"));
}

#[test]
fn a_lone_dot_counts_for_nothing() {
    let p = GlobPredicate::parse("/foo/./bar");
    assert!(p.could_descendant_match("/foo"));
    assert!(p.could_descendant_match("/foo/bar"));
    assert!(p.could_descendant_match("/foo/./bar"));
    assert!(!p.could_descendant_match("/foo/baz"));
    assert!(!p.could_descendant_match("/foo/bar/deep"));
    assert!(GlobPredicate::parse("/./*").could_descendant_match("/a"));
    // Names that only begin with a dot are names.
    let p = GlobPredicate::parse("/.a/..b");
    assert!(p.could_descendant_match("/.a/..b"));
    assert!(!p.could_descendant_match("/..b"));
}
