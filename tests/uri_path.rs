use trash::uri_path::PathError::{ExceededMaximumLength, InvalidCharacter, InvalidPercentEncoding};
use trash::uri_path::{Path, Segment};

fn normalize_case(value: &str, expected: &str, as_reference: bool) {
    let mut path = Path::try_from(value).unwrap();
    path.normalize(as_reference);

    let expected_single_dot_segment_count = if expected.starts_with("./") { 1 } else { 0 };
    let expected_double_dot_segment_count =
        expected.split('/').filter(|&segment| segment == "..").count() as u16;

    assert!(!path.segments().is_empty());
    assert!(path.is_normalized(as_reference));
    assert_eq!(path.single_dot_segment_count(), expected_single_dot_segment_count);
    assert_eq!(path.double_dot_segment_count(), expected_double_dot_segment_count);
    assert_eq!(path.leading_double_dot_segment_count(), expected_double_dot_segment_count);
    assert_eq!(path.to_string(), expected);
}

#[test]
fn test_path_normalize() {
    normalize_case("", "", true);
    normalize_case(".", "", true);
    normalize_case("..", "..", true);
    normalize_case("../", "../", true);
    normalize_case("/.", "/", true);
    normalize_case("./././././././.", "", true);
    normalize_case("././././././././", "", true);
    normalize_case("/..", "/", true);
    normalize_case("../..", "../..", true);
    normalize_case("../a/../..", "../..", true);
    normalize_case("a", "a", true);
    normalize_case("a/..", "", true);
    normalize_case("a/../", "", true);
    normalize_case("a/../..", "..", true);
    normalize_case("./a:b", "./a:b", true);
    normalize_case("./a:b/..", "", true);
    normalize_case("./a:b/../c:d", "./c:d", true);
    normalize_case("./../a:b", "../a:b", true);
    normalize_case("../a/../", "../", true);
    normalize_case("../../.././.././../../../.", "../../../../../../..", true);
    normalize_case("a/.././a:b", "./a:b", true);

    normalize_case("", "", false);
    normalize_case(".", "", false);
    normalize_case("..", "", false);
    normalize_case("../", "", false);
    normalize_case("/.", "/", false);
    normalize_case("/..", "/", false);
    normalize_case("../../.././.././../../../.", "", false);
    normalize_case("a/../..", "/", false);
    normalize_case("a/../../", "/", false);
    normalize_case("/a/../../../../", "/", false);
    normalize_case("/a/./././././././c", "/a/c", false);
    normalize_case("/a/.", "/a/", false);
    normalize_case("/a/./", "/a/", false);
    normalize_case("/a/..", "/", false);
    normalize_case("/a/b/./..", "/a/", false);
    normalize_case("/a/b/./../", "/a/", false);
    normalize_case("/a/b/c/./../../g", "/a/g", false);
    normalize_case("mid/content=5/../6", "mid/6", false);

    normalize_case("this/is/a/t%65st/path/%ff", "this/is/a/test/path/%FF", true);
    normalize_case("this/is/a/t%65st/path/%ff", "this/is/a/test/path/%FF", false);
}

#[test]
fn test_path_parse() {
    let slash = "/".to_string();

    assert_eq!(Path::try_from("").unwrap(), "");
    assert_eq!(Path::try_from("/").unwrap(), "/");
    assert_eq!(Path::try_from("/tHiS/iS/a/PaTh").unwrap(), "/tHiS/iS/a/PaTh");
    assert_eq!(Path::try_from("%ff%ff%ff%41").unwrap(), "%ff%ff%ff%41");
    assert!(Path::try_from(&*slash.repeat(65535)).is_ok());

    assert_eq!(Path::try_from(&*slash.repeat(65536)), Err(ExceededMaximumLength));
    assert_eq!(Path::try_from(" "), Err(InvalidCharacter));
    assert_eq!(Path::try_from("#"), Err(InvalidCharacter));
    assert_eq!(Path::try_from("%"), Err(InvalidPercentEncoding));
    assert_eq!(Path::try_from("%f"), Err(InvalidPercentEncoding));
    assert_eq!(Path::try_from("%zz"), Err(InvalidPercentEncoding));
}

fn remove_dots_case(value: &str, expected: &str) {
    let mut path = Path::try_from(value).unwrap();
    path.remove_dot_segments();
    assert!(!path.segments().is_empty());
    assert_eq!(path.single_dot_segment_count(), 0);
    assert_eq!(path.double_dot_segment_count(), 0);
    assert_eq!(path.leading_double_dot_segment_count(), 0);
    assert_eq!(path.to_string(), expected);
}

#[test]
fn test_path_remove_dot_segments() {
    remove_dots_case("", "");
    remove_dots_case(".", "");
    remove_dots_case("..", "");
    remove_dots_case("../", "");
    remove_dots_case("/.", "/");
    remove_dots_case("/..", "/");
    remove_dots_case("../../.././.././../../../.", "");
    remove_dots_case("a/../..", "/");
    remove_dots_case("a/../../", "/");
    remove_dots_case("/a/../../../..", "/");
    remove_dots_case("/a/../../../../", "/");
    remove_dots_case("/a/./././././././c", "/a/c");
    remove_dots_case("/a/.", "/a/");
    remove_dots_case("/a/./", "/a/");
    remove_dots_case("/a/..", "/");
    remove_dots_case("/a/b/./..", "/a/");
    remove_dots_case("/a/b/./../", "/a/");
    remove_dots_case("/a/b/c/./../../g", "/a/g");
    remove_dots_case("mid/content=5/../6", "mid/6");
}

fn segment_normalize_case(value: &str, expected: &str) {
    let mut segment = Segment::try_from(value).unwrap();
    segment.normalize();
    assert_eq!(segment, expected);
}

#[test]
fn test_segment_normalize() {
    segment_normalize_case("", "");
    segment_normalize_case("%ff", "%FF");
    segment_normalize_case("%41", "A");
}

#[test]
fn test_segment_parse() {
    assert_eq!(Segment::try_from("").unwrap(), "");
    assert_eq!(Segment::try_from("segment").unwrap(), "segment");
    assert_eq!(Segment::try_from("sEgMeNt").unwrap(), "sEgMeNt");
    assert_eq!(Segment::try_from("%ff%ff%ff%41").unwrap(), "%ff%ff%ff%41");

    assert_eq!(Segment::try_from(" "), Err(InvalidCharacter));
    assert_eq!(Segment::try_from("/"), Err(InvalidCharacter));
    assert_eq!(Segment::try_from("%"), Err(InvalidPercentEncoding));
    assert_eq!(Segment::try_from("%f"), Err(InvalidPercentEncoding));
    assert_eq!(Segment::try_from("%zz"), Err(InvalidPercentEncoding));
}

#[test]
fn path_pop_clear_and_absolute() {
    let mut path = Path::try_from("/a/b").unwrap();
    path.pop();
    assert_eq!(path.to_string(), "/a");
    path.pop();
    assert_eq!(path.to_string(), "/");
    assert!(path.is_absolute());
    path.set_absolute(false);
    assert!(path.is_relative());
    let mut other = Path::try_from("x/y/z").unwrap();
    other.clear();
    assert_eq!(other.to_string(), "");
    assert_eq!(other.segments().len(), 1);
}

#[test]
fn segment_dot_kinds() {
    assert!(Segment::try_from(".").unwrap().is_single_dot_segment());
    assert!(Segment::try_from("%2E").unwrap().is_single_dot_segment());
    assert!(Segment::try_from("..").unwrap().is_double_dot_segment());
    assert!(!Segment::try_from("...").unwrap().is_dot_segment());
    assert!(Segment::try_from("%41").unwrap().as_str() == "%41");
    assert!(!Segment::try_from("%41").unwrap().is_normalized());
    assert!(Segment::try_from("%FF").unwrap().is_normalized());
    assert!(Segment::empty().as_str().is_empty());
}

#[test]
fn path_push() {
    let mut path = Path::try_from("").unwrap();
    assert_eq!(path.push("a"), Ok(()));
    assert_eq!(path.to_string(), "a");
    assert_eq!(path.push(".."), Ok(()));
    assert_eq!(path.to_string(), "a/..");
    assert_eq!(path.double_dot_segment_count(), 1);
    assert_eq!(path.leading_double_dot_segment_count(), 0);
    assert_eq!(path.push("%zz"), Err(InvalidPercentEncoding));
    assert_eq!(path.push("a b"), Err(InvalidCharacter));
    assert_eq!(path.to_string(), "a/..");
    let mut root = Path::try_from("/").unwrap();
    assert_eq!(root.push(""), Ok(()));
    assert_eq!(root.to_string(), "//");
    let slash = "/".to_string();
    let mut full = Path::try_from(&*slash.repeat(65535)).unwrap();
    assert_eq!(full.push("x"), Err(ExceededMaximumLength));
}

#[test]
fn path_equality() {
    assert_eq!(Path::try_from("/a/%62").unwrap(), Path::try_from("/a/b").unwrap());
    assert_ne!(Path::try_from("/a/b").unwrap(), Path::try_from("a/b").unwrap());
    assert_ne!(Path::try_from("/a/b").unwrap(), Path::try_from("/a/b/").unwrap());
    assert!(Path::try_from("/a/%62").unwrap() == "/a/b");
    assert!(Path::try_from("/a/b").unwrap() != "/a%2Fb");
    assert!(Path::try_from("a").unwrap() != "a/b");
}

#[test]
fn path_copies_are_equal() {
    let path = Path::try_from("/a/./b").unwrap();
    let copy = path.to_borrowed();
    assert_eq!(copy, path);
    assert_eq!(copy.single_dot_segment_count(), 1);
    let owned = copy.into_owned();
    assert!(owned == "/a/./b");
}
