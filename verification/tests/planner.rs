use picshuffle::actions::filter_repeated;
use picshuffle::actions::ScanEntry;
use picshuffle::digest::hash_file;
use picshuffle::options::Options;

fn entry(path: &str, content: &[u8], year: i32, month: u32) -> ScanEntry {
    ScanEntry {
        path: String::from(path),
        content: content.to_vec(),
        fs_year: year,
        fs_month: month,
    }
}

fn opts_for(fast_hash: bool, ignore_exif: bool, out_dir: &str) -> Options {
    let mut o = picshuffle::options::default();
    o.fast_hash = fast_hash;
    o.ignore_exif = ignore_exif;
    o.out_dir = String::from(out_dir);
    o
}

fn plan_pairs(opts: &Options, entries: &Vec<ScanEntry>) -> Vec<(String, String)> {
    filter_repeated(opts, entries).expect("planning failed")
}

/// The duplicate `b/10` is dropped, the other three files are planned
/// under their year/month, in scan order.
#[test]
fn t_filter_repeated() {
    let opts = opts_for(true, true, "test/out");
    let entries = vec![
        entry("test/ref/a/1", b"one", 2020, 5),
        entry("test/ref/a/10", b"ten", 2020, 5),
        entry("test/ref/b/10", b"ten", 2020, 5),
        entry("test/ref/b/foo", b"foo!", 2020, 5),
    ];
    let plan = plan_pairs(&opts, &entries);
    assert_eq!(plan.len(), 3);
    assert_eq!(plan[0].0, "test/ref/a/1");
    assert_eq!(plan[0].1, "test/out/2020/5/1");
    assert_eq!(plan[1].0, "test/ref/a/10");
    assert_eq!(plan[1].1, "test/out/2020/5/10");
    assert_eq!(plan[2].0, "test/ref/b/foo");
    assert_eq!(plan[2].1, "test/out/2020/5/foo");
}

/// The same batch planned under full fidelity gives the same plan.
#[test]
fn t_filter_repeated_full_fidelity() {
    let opts = opts_for(false, true, "test/out");
    let entries = vec![
        entry("test/ref/a/1", b"one", 2020, 5),
        entry("test/ref/a/10", b"ten", 2020, 5),
        entry("test/ref/b/10", b"ten", 2020, 5),
        entry("test/ref/b/foo", b"foo!", 2020, 5),
    ];
    let plan = plan_pairs(&opts, &entries);
    assert_eq!(plan.len(), 3);
    assert_eq!(plan[1].0, "test/ref/a/10");
    assert_eq!(plan[2].0, "test/ref/b/foo");
}

/// Two different files with the same name and date: the first scanned one
/// keeps the plain destination, the second gets the `-1` suffix.
#[test]
fn t_deconflict_output_fname() {
    let opts = opts_for(true, true, "test/out2");
    let entries = vec![
        entry("test/ref2/b/foo", b"contents b", 2017, 11),
        entry("test/ref2/foo", b"contents top", 2017, 11),
    ];
    let plan = plan_pairs(&opts, &entries);
    assert_eq!(plan.len(), 2);
    assert_eq!(plan[0].0, "test/ref2/b/foo");
    assert_eq!(plan[0].1, "test/out2/2017/11/foo");
    assert_eq!(plan[1].0, "test/ref2/foo");
    assert_eq!(plan[1].1, "test/out2/2017/11/foo-1");
}

/// A deconflicted name keeps its extension: the `-<n>` suffix goes between
/// stem and extension, and `n` counts up from 1.
#[test]
fn t_deconflict_keeps_extension() {
    let opts = opts_for(true, true, "out");
    let entries = vec![
        entry("a/pic.jpg", b"first", 2019, 3),
        entry("b/pic.jpg", b"second", 2019, 3),
        entry("c/pic.jpg", b"third", 2019, 3),
    ];
    let plan = plan_pairs(&opts, &entries);
    assert_eq!(plan.len(), 3);
    assert_eq!(plan[0].1, "out/2019/3/pic.jpg");
    assert_eq!(plan[1].1, "out/2019/3/pic-1.jpg");
    assert_eq!(plan[2].1, "out/2019/3/pic-2.jpg");
}

/// When the `-1` variant is itself already claimed by a real file, the
/// next free integer is used.
#[test]
fn t_deconflict_skips_taken_suffix() {
    let opts = opts_for(true, true, "out");
    let entries = vec![
        entry("a/x.jpg", b"first", 2019, 3),
        entry("b/x-1.jpg", b"second", 2019, 3),
        entry("c/x.jpg", b"third", 2019, 3),
    ];
    let plan = plan_pairs(&opts, &entries);
    assert_eq!(plan.len(), 3);
    assert_eq!(plan[0].1, "out/2019/3/x.jpg");
    assert_eq!(plan[1].1, "out/2019/3/x-1.jpg");
    assert_eq!(plan[2].1, "out/2019/3/x-2.jpg");
}

/// A name starting with its only dot has no extension; a name ending in a
/// dot has an empty one.
#[test]
fn t_deconflict_hidden_and_trailing_dot() {
    let opts = opts_for(true, true, "out");
    let entries = vec![
        entry("a/.cfg", b"first", 2019, 3),
        entry("b/.cfg", b"second", 2019, 3),
        entry("a/n.", b"third", 2019, 3),
        entry("b/n.", b"fourth", 2019, 3),
    ];
    let plan = plan_pairs(&opts, &entries);
    assert_eq!(plan.len(), 4);
    assert_eq!(plan[0].1, "out/2019/3/.cfg");
    assert_eq!(plan[1].1, "out/2019/3/.cfg-1");
    assert_eq!(plan[2].1, "out/2019/3/n.");
    assert_eq!(plan[3].1, "out/2019/3/n-1.");
}

/// Two distinct files engineered to share a quick fingerprint (identical
/// leading chunk) are both planned under quick fidelity.
#[test]
fn t_quick_false_positive() {
    let mut c1 = vec![0u8; 65536];
    let mut c2 = vec![0u8; 65536];
    c1.push(1);
    c2.push(2);
    assert_eq!(hash_file(&c1, true), hash_file(&c2, true));
    assert_ne!(hash_file(&c1, false), hash_file(&c2, false));
    let opts = opts_for(true, true, "out");
    let entries = vec![entry("a/x1", &c1, 2021, 8), entry("a/x2", &c2, 2021, 8)];
    let plan = plan_pairs(&opts, &entries);
    assert_eq!(plan.len(), 2);
    assert_eq!(plan[0].1, "out/2021/8/x1");
    assert_eq!(plan[1].1, "out/2021/8/x2");
}

/// Two runs over the same batch and configuration give identical plans.
#[test]
fn t_determinism() {
    let opts = opts_for(true, true, "out");
    let entries = vec![
        entry("a/pic.jpg", b"first", 2019, 3),
        entry("b/pic.jpg", b"second", 2019, 3),
        entry("b/dup.jpg", b"first", 2019, 4),
    ];
    let p1 = plan_pairs(&opts, &entries);
    let p2 = plan_pairs(&opts, &entries);
    assert_eq!(p1, p2);
}

/// In a completed plan both the sources and the destinations are pairwise
/// distinct, even with duplicates and name collisions in the batch.
#[test]
fn t_uniqueness() {
    let opts = opts_for(true, true, "out");
    let entries = vec![
        entry("a/p.jpg", b"alpha", 2019, 3),
        entry("b/p.jpg", b"beta", 2019, 3),
        entry("c/p.jpg", b"alpha", 2019, 3),
        entry("d/p.jpg", b"gamma", 2019, 3),
        entry("e/q.jpg", b"delta", 2019, 3),
    ];
    let plan = plan_pairs(&opts, &entries);
    assert_eq!(plan.len(), 4);
    for m1 in 0..plan.len() {
        for m2 in (m1 + 1)..plan.len() {
            assert_ne!(plan[m1].0, plan[m2].0);
            assert_ne!(plan[m1].1, plan[m2].1);
        }
    }
}

/// A source path with no extractable file name aborts the run with that
/// path.
#[test]
fn t_bad_file_name() {
    let opts = opts_for(true, true, "out");
    let entries = vec![entry("a/ok", b"fine", 2020, 1), entry("bad/", b"nameless", 2020, 1)];
    let err = filter_repeated(&opts, &entries).err().expect("expected an error");
    assert_eq!(err.path, "bad/");
}

/// An empty scan plans nothing.
#[test]
fn t_empty_scan() {
    let opts = opts_for(true, true, "out");
    let plan = plan_pairs(&opts, &vec![]);
    assert_eq!(plan.len(), 0);
}

/// The full digest is SHA-256: the known test vector for `"abc"`.
#[test]
fn t_hash_file_sha256_vector() {
    let expected: Vec<u8> = vec![
        0xba, 0x78, 0x16, 0xbf, 0x8f, 0x01, 0xcf, 0xea, 0x41, 0x41, 0x40, 0xde, 0x5d, 0xae,
        0x22, 0x23, 0xb0, 0x03, 0x61, 0xa3, 0x96, 0x17, 0x7a, 0x9c, 0xb4, 0x10, 0xff, 0x61,
        0xf2, 0x00, 0x15, 0xad,
    ];
    let content = b"abc".to_vec();
    assert_eq!(hash_file(&content, false), expected);
    // small contents fit inside the quick chunk, so both modes agree
    assert_eq!(hash_file(&content, true), expected);
}

/// A quick fingerprint hashes exactly the leading chunk.
#[test]
fn t_hash_file_quick_prefix() {
    let big = vec![0x61u8; 70000];
    let prefix = vec![0x61u8; 65536];
    assert_eq!(hash_file(&big, true), hash_file(&prefix, false));
    assert_ne!(hash_file(&big, true), hash_file(&big, false));
}

/// The default options: quick fingerprints, metadata honoured, script
/// output, empty directories.
#[test]
fn t_default_options() {
    let o = picshuffle::options::default();
    assert!(o.fast_hash);
    assert!(!o.dry_run);
    assert!(!o.ignore_exif);
    assert!(o.out_script);
    assert_eq!(o.in_dir, "");
    assert_eq!(o.out_dir, "");
}

/// An empty output directory adds no leading separator, year and month are
/// unpadded, and negative years keep their sign.
#[test]
fn t_make_outpath_rendering() {
    let p = picshuffle::actions::make_outpath("", "a/b.jpg", 2017, 4).expect("ok");
    assert_eq!(p, "2017/4/b.jpg");
    let q = picshuffle::actions::make_outpath("out/", "b.jpg", 2017, 10).expect("ok");
    assert_eq!(q, "out/2017/10/b.jpg");
    let r = picshuffle::actions::make_outpath("out", "x/y/z.png", -44, 12).expect("ok");
    assert_eq!(r, "out/-44/12/z.png");
}
