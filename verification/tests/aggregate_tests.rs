use tag_externals::aggregate;
use tag_externals::author_for_root;
use tag_externals::get_tags_map;
use tag_externals::parse_violations;
use tag_externals::ListingEntry;
use tag_externals::PathKind;

fn dir(name: &str, author: &str) -> ListingEntry {
    ListingEntry { name: name.to_owned(), kind: PathKind::Dir, author: author.to_owned() }
}

#[test]
fn parse_keeps_non_tag_tokens() {
    let tokens = parse_violations("^/proj/trunk/lib ^/proj/tags/v2/lib");
    assert_eq!(tokens, vec!["^/proj/trunk/lib".to_owned()]);
}

#[test]
fn parse_drops_empty_and_tag_tokens() {
    let tokens = parse_violations("a\n\nb tags/x\r");
    assert_eq!(tokens, vec!["a".to_owned(), "b".to_owned()]);
    assert_eq!(parse_violations(""), Vec::<String>::new());
    assert_eq!(parse_violations("tags"), Vec::<String>::new());
    assert_eq!(parse_violations(" \r\n\t"), Vec::<String>::new());
}

#[test]
fn author_prefers_exact_match_then_first_entry() {
    let listing = vec![dir("other", "first"), dir("tags/v1", "owner")];
    assert_eq!(author_for_root(&listing, "p", "p/tags/v1"), "owner".to_owned());
    assert_eq!(author_for_root(&listing, "p", "p/tags/v9"), "first".to_owned());
}

#[test]
fn aggregate_groups_tokens_per_root() {
    let listing = vec![dir("tags/v1", "ann"), dir("tags/v2", "bob")];
    let index = get_tags_map(&listing, "p");
    let completions = vec![
        ("p/tags/v1".to_owned(), Some("^/a/trunk ^/b/tags/x".to_owned())),
        ("p/tags/v2".to_owned(), Some("^/c/branches/y".to_owned())),
        ("p/tags/v1".to_owned(), Some("^/d/trunk".to_owned())),
    ];
    let report = aggregate(&index, &listing, "p", &completions);
    assert_eq!(report.len(), 2);
    assert_eq!(report[0].0, "p/tags/v1".to_owned());
    assert_eq!(report[0].1.author, "ann".to_owned());
    assert_eq!(
        report[0].1.violating_references,
        vec!["^/a/trunk".to_owned(), "^/d/trunk".to_owned()]
    );
    assert_eq!(report[1].0, "p/tags/v2".to_owned());
    assert_eq!(report[1].1.author, "bob".to_owned());
    assert_eq!(report[1].1.violating_references, vec!["^/c/branches/y".to_owned()]);
}

#[test]
fn aggregate_failed_fetch_is_inert() {
    // one member's fetch fails; the sibling's token still arrives and no
    // other root is disturbed
    let listing = vec![dir("tags/v1", "ann"), dir("tags/v1/lib", "bob")];
    let index = get_tags_map(&listing, "proj");
    let completions = vec![
        ("proj/tags/v1".to_owned(), None),
        ("proj/tags/v1".to_owned(), Some("^/proj/branches/x".to_owned())),
    ];
    let report = aggregate(&index, &listing, "proj", &completions);
    assert_eq!(report.len(), 1);
    assert_eq!(report[0].1.violating_references, vec!["^/proj/branches/x".to_owned()]);
}

#[test]
fn aggregate_keeps_roots_with_no_references() {
    let listing = vec![dir("tags/v1", "ann")];
    let index = get_tags_map(&listing, "p");
    let completions = vec![("p/tags/v1".to_owned(), None)];
    let report = aggregate(&index, &listing, "p", &completions);
    assert_eq!(report.len(), 1);
    assert!(report[0].1.violating_references.is_empty());
}

#[test]
fn aggregate_twice_yields_identical_results() {
    let listing = vec![dir("tags/v1", "ann"), dir("tags/v1/lib", "bob")];
    let index = get_tags_map(&listing, "p");
    let completions = vec![
        ("p/tags/v1".to_owned(), Some("^/x/trunk".to_owned())),
        ("p/tags/v1".to_owned(), Some("^/y/trunk".to_owned())),
    ];
    let first = aggregate(&index, &listing, "p", &completions);
    let second = aggregate(&index, &listing, "p", &completions);
    assert_eq!(first.len(), second.len());
    for (a, b) in first.iter().zip(second.iter()) {
        assert_eq!(a.0, b.0);
        assert_eq!(a.1.author, b.1.author);
        assert_eq!(a.1.violating_references, b.1.violating_references);
    }
}

#[test]
fn aggregate_order_of_completions_keeps_token_set() {
    let listing = vec![dir("tags/v1", "ann")];
    let index = get_tags_map(&listing, "p");
    let forward = vec![
        ("p/tags/v1".to_owned(), Some("^/x/trunk".to_owned())),
        ("p/tags/v1".to_owned(), Some("^/y/trunk".to_owned())),
    ];
    let backward = vec![forward[1].clone(), forward[0].clone()];
    let a = aggregate(&index, &listing, "p", &forward);
    let b = aggregate(&index, &listing, "p", &backward);
    let mut ta = a[0].1.violating_references.clone();
    let mut tb = b[0].1.violating_references.clone();
    ta.sort();
    tb.sort();
    assert_eq!(ta, tb);
}
