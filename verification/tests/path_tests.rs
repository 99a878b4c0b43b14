use read_buffer::path::cloud::{CloudConverter, CloudPath};
use read_buffer::path::file::FilePath;
use read_buffer::path::parsed::DirsAndFileName;
use read_buffer::path::parts::PathPart;
use read_buffer::path::{FileConverter, ObjectStorePath, Osp};

#[test]
fn prefix_matches() {
    let mut haystack = ObjectStorePath::default();
    haystack.push_all_dirs(&["foo/bar", "baz%2Ftest", "something"]);

    // self starts with self
    assert!(
        haystack.prefix_matches(&haystack),
        "{:?} should have started with {:?}",
        haystack,
        haystack
    );

    // a longer prefix doesn't match
    let mut needle = haystack.clone();
    needle.push_dir("longer now");
    assert!(
        !haystack.prefix_matches(&needle),
        "{:?} shouldn't have started with {:?}",
        haystack,
        needle
    );

    // one dir prefix matches
    let mut needle = ObjectStorePath::default();
    needle.push_dir("foo/bar");
    assert!(
        haystack.prefix_matches(&needle),
        "{:?} should have started with {:?}",
        haystack,
        needle
    );

    // two dir prefix matches
    needle.push_dir("baz%2Ftest");
    assert!(
        haystack.prefix_matches(&needle),
        "{:?} should have started with {:?}",
        haystack,
        needle
    );

    // partial dir prefix matches
    let mut needle = ObjectStorePath::default();
    needle.push_dir("f");
    assert!(
        haystack.prefix_matches(&needle),
        "{:?} should have started with {:?}",
        haystack,
        needle
    );

    // one dir and one partial dir matches
    let mut needle = ObjectStorePath::default();
    needle.push_all_dirs(&["foo/bar", "baz"]);
    assert!(
        haystack.prefix_matches(&needle),
        "{:?} should have started with {:?}",
        haystack,
        needle
    );
}

#[test]
fn prefix_matches_with_file_name() {
    let mut haystack = ObjectStorePath::default();
    haystack.push_all_dirs(&["foo/bar", "baz%2Ftest", "something"]);

    let mut needle = haystack.clone();

    // All directories match and file name is a prefix
    haystack.set_file_name("foo.segment");
    needle.set_file_name("foo");

    assert!(
        haystack.prefix_matches(&needle),
        "{:?} should have started with {:?}",
        haystack,
        needle
    );

    // All directories match but file name is not a prefix
    needle.set_file_name("e");

    assert!(
        !haystack.prefix_matches(&needle),
        "{:?} should not have started with {:?}",
        haystack,
        needle
    );

    // Not all directories match; file name is a prefix of the next directory; this
    // matches
    let mut needle = ObjectStorePath::default();
    needle.push_all_dirs(&["foo/bar", "baz%2Ftest"]);
    needle.set_file_name("s");

    assert!(
        haystack.prefix_matches(&needle),
        "{:?} should have started with {:?}",
        haystack,
        needle
    );

    // Not all directories match; file name is NOT a prefix of the next directory;
    // no match
    needle.set_file_name("p");

    assert!(
        !haystack.prefix_matches(&needle),
        "{:?} should not have started with {:?}",
        haystack,
        needle
    );
}

#[test]
fn cloud_prefix_no_trailing_delimiter_or_file_name() {
    // Use case: a file named `test_file.json` exists in object storage and it
    // should be returned for a search on prefix `test`, so the prefix path
    // should not get a trailing delimiter automatically added
    let mut prefix = CloudPath::default();
    prefix.set_file_name("test");

    let converted = CloudConverter::convert(&prefix);
    assert_eq!(converted, "test");
}

#[test]
fn cloud_prefix_with_trailing_delimiter() {
    // Use case: files exist in object storage named `foo/bar.json` and
    // `foo_test.json`. A search for the prefix `foo/` should return
    // `foo/bar.json` but not `foo_test.json'.
    let mut prefix = CloudPath::default();
    prefix.push_dir("test");

    let converted = CloudConverter::convert(&prefix);
    assert_eq!(converted, "test/");
}

#[test]
fn push_encodes() {
    let mut location = CloudPath::default();
    location.push_dir("foo/bar");
    location.push_dir("baz%2Ftest");

    let converted = CloudConverter::convert(&location);
    assert_eq!(converted, "foo%2Fbar/baz%252Ftest/");
}

#[test]
fn push_all_encodes() {
    let mut location = CloudPath::default();
    location.push_all_dirs(&["foo/bar", "baz%2Ftest"]);

    let converted = CloudConverter::convert(&location);
    assert_eq!(converted, "foo%2Fbar/baz%252Ftest/");
}

#[test]
fn parts_after_prefix_behavior() {
    let mut existing_path = DirsAndFileName::default();
    existing_path.push_all_dirs(&["apple", "bear", "cow", "dog"]);
    existing_path.file_name = Some(PathPart::from("egg.json"));

    // Prefix with one directory
    let mut prefix = DirsAndFileName::default();
    prefix.push_dir("apple");
    let expected_parts: Vec<PathPart> = vec!["bear", "cow", "dog", "egg.json"]
        .into_iter()
        .map(PathPart::from)
        .collect();
    let parts = existing_path.parts_after_prefix(&prefix).unwrap();
    assert_eq!(parts, expected_parts);

    // Prefix with two directories
    let mut prefix = DirsAndFileName::default();
    prefix.push_all_dirs(&["apple", "bear"]);
    let expected_parts: Vec<PathPart> = vec!["cow", "dog", "egg.json"]
        .into_iter()
        .map(PathPart::from)
        .collect();
    let parts = existing_path.parts_after_prefix(&prefix).unwrap();
    assert_eq!(parts, expected_parts);

    // Not a prefix
    let mut prefix = DirsAndFileName::default();
    prefix.push_dir("cow");
    assert!(existing_path.parts_after_prefix(&prefix).is_none());

    // Prefix with a partial directory
    let mut prefix = DirsAndFileName::default();
    prefix.push_dir("ap");
    assert!(existing_path.parts_after_prefix(&prefix).is_none());

    // Prefix matches but there aren't any parts after it
    let mut existing_path = DirsAndFileName::default();
    existing_path.push_all_dirs(&["apple", "bear", "cow", "dog"]);
    let prefix = existing_path.clone();
    let parts = existing_path.parts_after_prefix(&prefix).unwrap();
    assert!(parts.is_empty());
}

#[test]
fn part_encoding_of_reserved_and_dot_names() {
    assert_eq!(PathPart::from(".").encoded(), "%2E");
    assert_eq!(PathPart::from("..").encoded(), "%2E%2E");
    assert_eq!(PathPart::from("a.b").encoded(), "a.b");
    assert_eq!(PathPart::from("a b").encoded(), "a b");
    assert_eq!(PathPart::from("a?b*c").encoded(), "a%3Fb%2Ac");
    assert_eq!(PathPart::from("\u{e9}").encoded(), "%C3%A9");
    assert_eq!(PathPart::from("\n").encoded(), "%0A");
}

#[test]
fn raw_cloud_location_is_parsed_on_demand() {
    let raw = ObjectStorePath::from_cloud_unchecked("a/b/c.json");
    let parts = raw.to_parts();
    assert_eq!(parts.directories.len(), 2);
    assert_eq!(parts.directories[0].encoded(), "a");
    assert_eq!(parts.directories[1].encoded(), "b");
    assert_eq!(parts.file_name.as_ref().unwrap().encoded(), "c.json");

    let dirs_only = ObjectStorePath::from_cloud_unchecked("a//b/");
    let parts = dirs_only.to_parts();
    assert_eq!(parts.directories.len(), 3);
    assert_eq!(parts.directories[1].encoded(), "");
    assert!(parts.file_name.is_none());

    let empty = ObjectStorePath::from_cloud_unchecked("");
    assert!(empty.to_parts().directories.is_empty());

    let mut built = ObjectStorePath::default();
    built.push_all_dirs(&["a", "b"]);
    built.set_file_name("c.json");
    assert!(built.equals(&raw));
    assert!(raw.prefix_matches(&ObjectStorePath::from_cloud_unchecked("a/b")));
}

#[test]
fn file_paths_split_off_known_file_names() {
    let raw = FilePath::raw(vec!["data".to_string(), "x.parquet".to_string()]);
    let mut built = FilePath::default();
    built.push_dir("data");
    built.set_file_name("x.parquet");
    assert!(raw.equals(&built));
    assert_eq!(built.to_raw(), vec!["data".to_string(), "x.parquet".to_string()]);

    let hidden = FilePath::raw(vec!["data".to_string(), ".hidden.json".to_string()]);
    let mut dirs = FilePath::default();
    dirs.push_all_dirs(&["data", ".hidden.json"]);
    assert!(hidden.equals(&dirs));
    assert_eq!(dirs.display(), "data/.hidden.json/");

    let path = ObjectStorePath::from_path_buf_unchecked(vec!["d".to_string(), "f.segment".to_string()]);
    assert_eq!(
        FileConverter::convert(&path),
        vec!["d".to_string(), "f.segment".to_string()]
    );
}

#[test]
fn pop_takes_the_file_name_first() {
    let mut path = ObjectStorePath::default();
    path.push_all_dirs(&["a", "b"]);
    path.set_file_name("c.json");
    assert_eq!(path.pop().unwrap().encoded(), "c.json");
    assert_eq!(path.pop().unwrap().encoded(), "b");
    assert_eq!(path.pop().unwrap().encoded(), "a");
    assert!(path.pop().is_none());
    assert_eq!(read_buffer::path::CloudConverter::convert(&path), "");
}

#[test]
fn paths_compare_by_their_parts() {
    let raw = ObjectStorePath::from_cloud_unchecked("a/b/c.json");
    let mut built = ObjectStorePath::default();
    built.push_all_dirs(&["a", "b"]);
    assert!(raw != built);
    built.set_file_name("c.json");
    assert!(raw == built);
    assert!(built == raw);

    let file = FilePath::raw(vec!["data".to_string()]);
    let mut dirs = FilePath::default();
    dirs.push_dir("data");
    assert!(file == dirs);
    dirs.push_dir("more");
    assert!(file != dirs);
}
