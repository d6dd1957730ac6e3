use crabbucket::paths::compare_paths;
use crabbucket::text::Rank;

fn rank(a: &str, b: &str) -> &'static str {
    match compare_paths(a, b) {
        Rank::Below => "below",
        Rank::Same => "same",
        Rank::Above => "above",
    }
}

#[test]
fn paths_compare_by_component() {
    assert_eq!(rank("a/b", "a-b/c"), "below");
    assert_eq!(rank("a-b/c", "a/b"), "above");
    assert_eq!(rank("a/b", "a/b/c"), "below");
}

#[test]
fn empty_and_dot_pieces_and_a_trailing_slash_do_not_count() {
    assert_eq!(rank("a//b/", "a/./b"), "same");
    assert_eq!(rank("./a", "a"), "below");
    assert_eq!(rank("/a", "a"), "below");
    assert_eq!(rank("../a", "a"), "below");
    assert_eq!(rank("a/../b", "a/b"), "below");
}
