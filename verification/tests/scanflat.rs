use picshuffle::scan::filter_repeated as flat_filter_repeated;
use picshuffle::scan::ScanData;

fn pair(path: &str, hash: &[u8]) -> (String, Vec<u8>) {
    (String::from(path), hash.to_vec())
}

/// The flat pass keeps the first file of each fingerprint and places it
/// directly under the output directory.
#[test]
fn filter_repeated() {
    let scandata: ScanData = vec![
        pair("test/ref/a/1", b"\x01\x01"),
        pair("test/ref/a/10", b"\x02\x02"),
        pair("test/ref/b/10", b"\x02\x02"),
        pair("test/ref/b/foo", b"\x03\x03"),
    ];
    let filt = flat_filter_repeated(&scandata, "test/out").expect("planning failed");
    assert_eq!(filt.len(), 3);
    assert_eq!(filt[0], (String::from("test/ref/a/1"), String::from("test/out/1")));
    assert_eq!(filt[1], (String::from("test/ref/a/10"), String::from("test/out/10")));
    assert_eq!(filt[2], (String::from("test/ref/b/foo"), String::from("test/out/foo")));
}

/// A kept file with no extractable file name aborts the flat pass.
#[test]
fn flat_bad_file_name() {
    let scandata: ScanData = vec![pair("dir/", b"\x09")];
    let err = flat_filter_repeated(&scandata, "out").err().expect("expected an error");
    assert_eq!(err.path, "dir/");
}

/// Paths are sorted lexicographically, duplicates kept.
#[test]
fn sort_paths_orders_lexicographically() {
    let mut v = vec![
        String::from("b/foo"),
        String::from("a/10"),
        String::from("a/1"),
        String::from("b/10"),
        String::from("a/1"),
        String::from(""),
    ];
    picshuffle::scan::sort_paths(&mut v);
    assert_eq!(
        v,
        vec![
            String::from(""),
            String::from("a/1"),
            String::from("a/1"),
            String::from("a/10"),
            String::from("b/10"),
            String::from("b/foo"),
        ]
    );
}

/// The verified sort and the standard library sort agree.
#[test]
fn sort_paths_matches_std_sort() {
    let mut v1 = vec![
        String::from("z"),
        String::from("abc"),
        String::from("ab"),
        String::from("aBc"),
        String::from("photo-9.jpg"),
        String::from("photo-10.jpg"),
    ];
    let mut v2 = v1.clone();
    picshuffle::scan::sort_paths(&mut v1);
    v2.sort();
    assert_eq!(v1, v2);
}
