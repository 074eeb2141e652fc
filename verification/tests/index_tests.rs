use tag_externals::get_tags_map;
use tag_externals::member_paths;
use tag_externals::ListingEntry;
use tag_externals::PathKind;

fn dir(name: &str, author: &str) -> ListingEntry {
    ListingEntry { name: name.to_owned(), kind: PathKind::Dir, author: author.to_owned() }
}

fn file(name: &str, author: &str) -> ListingEntry {
    ListingEntry { name: name.to_owned(), kind: PathKind::File, author: author.to_owned() }
}

#[test]
fn index_groups_subtree_under_tag_root() {
    let listing = vec![
        dir("tags", "ann"),
        dir("tags/v1", "bob"),
        dir("tags/v1/lib", "cee"),
    ];
    let index = get_tags_map(&listing, "proj");
    assert_eq!(index.len(), 1);
    assert_eq!(index[0].0, "proj/tags/v1".to_owned());
    assert_eq!(index[0].1, vec![1usize, 2usize]);
}

#[test]
fn index_skips_bare_tags_path() {
    let listing = vec![dir("tags", "ann")];
    let index = get_tags_map(&listing, "proj");
    assert!(index.is_empty());
}

#[test]
fn index_ignores_file_entries() {
    let listing = vec![
        dir("tags/v1", "ann"),
        file("tags/v1/readme", "bob"),
    ];
    let index = get_tags_map(&listing, "proj");
    assert_eq!(index.len(), 1);
    assert_eq!(index[0].1, vec![0usize]);
}

#[test]
fn index_substring_containment_false_positive() {
    // "a/tags/v1x" is no descendant of "a/tags/v1", yet its text contains it:
    // the textual containment test records it among the members all the same.
    let listing = vec![
        dir("tags/v1", "ann"),
        dir("tags/v1x", "bob"),
    ];
    let index = get_tags_map(&listing, "a");
    assert_eq!(index.len(), 2);
    assert_eq!(index[0].0, "a/tags/v1".to_owned());
    assert_eq!(index[0].1, vec![0usize, 1usize]);
    assert_eq!(index[1].0, "a/tags/v1x".to_owned());
    assert_eq!(index[1].1, vec![1usize]);
}

#[test]
fn index_membership_ignores_registration_order() {
    // the first entry's text contains "p/tags/v9", a root that only the
    // second entry registers; containment alone decides, so the first entry
    // is recorded there all the same
    let listing = vec![
        dir("a/p/tags/v9/q", "ann"),
        dir("tags/v9", "bob"),
    ];
    let index = get_tags_map(&listing, "p");
    assert_eq!(index.len(), 2);
    assert_eq!(index[0].0, "p/a/p/tags/v9".to_owned());
    assert_eq!(index[0].1, vec![0usize]);
    assert_eq!(index[1].0, "p/tags/v9".to_owned());
    assert_eq!(index[1].1, vec![0usize, 1usize]);
}

#[test]
fn member_paths_pairs_root_with_full_paths() {
    let listing = vec![
        dir("tags/v1", "ann"),
        dir("tags/v1/lib", "bob"),
    ];
    let index = get_tags_map(&listing, "proj");
    let requests = member_paths(&index, &listing, "proj");
    assert_eq!(
        requests,
        vec![
            ("proj/tags/v1".to_owned(), "proj/tags/v1".to_owned()),
            ("proj/tags/v1".to_owned(), "proj/tags/v1/lib".to_owned()),
        ]
    );
}
