use tag_externals::find_valid_tag_name;
use tag_externals::remove_last_slash;

#[test]
fn check_last_slash_removed() {
    assert_eq!(remove_last_slash("hello/there/"), "hello/there".to_owned());
}

#[test]
fn check_last_slash_removed_not() {
    assert_eq!(remove_last_slash("hello/there"), "hello/there".to_owned());
}

#[test]
fn get_valid_tag_name() {
    assert_eq!(
        find_valid_tag_name("hello/there/how/tags/r/u"),
        Some("hello/there/how/tags/r".to_owned())
    );
    assert_eq!(
        find_valid_tag_name("hello/there/how/tags/r/u/even/more"),
        Some("hello/there/how/tags/r".to_owned())
    );
    assert_eq!(find_valid_tag_name("hello/there/how/tags"), None);
    assert_eq!(find_valid_tag_name("hello/there/how"), None);
}

#[test]
fn tag_name_depth_does_not_matter() {
    let expected = Some("proj/tags/v1".to_owned());
    assert_eq!(find_valid_tag_name("proj/tags/v1/lib"), expected);
    assert_eq!(find_valid_tag_name("proj/tags/v1/lib/src/deep/deeper"), expected);
    assert_eq!(find_valid_tag_name("proj/tags/v1"), expected);
}

#[test]
fn tag_name_first_tags_segment_wins() {
    assert_eq!(
        find_valid_tag_name("a/tags/v1/tags/v2"),
        Some("a/tags/v1".to_owned())
    );
}

#[test]
fn tag_name_trailing_tags_only() {
    assert_eq!(find_valid_tag_name("proj/tags"), None);
    assert_eq!(find_valid_tag_name("tags"), None);
    assert_eq!(find_valid_tag_name("tags/v1"), Some("tags/v1".to_owned()));
}

#[test]
fn tag_name_empty_segment_after_tags() {
    // adjacent separators leave the segment after "tags" empty; an empty
    // segment names no directory, so no root is derived — a root never ends
    // with a separator
    assert_eq!(find_valid_tag_name("a/tags//x"), None);
    assert_eq!(find_valid_tag_name("a/tags/"), None);
}

#[test]
fn tag_name_trailing_tags_after_earlier_one() {
    // a final "tags" segment contributes nothing; the earlier one decides
    assert_eq!(find_valid_tag_name("a/tags/b/tags"), Some("a/tags/b".to_owned()));
}

#[test]
fn remove_last_slash_edge_cases() {
    assert_eq!(remove_last_slash(""), "".to_owned());
    assert_eq!(remove_last_slash("/"), "".to_owned());
    // only one trailing separator goes
    assert_eq!(remove_last_slash("a//"), "a/".to_owned());
}
