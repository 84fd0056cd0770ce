//! Pure string functions over slash-separated paths: decimal rendering of
//! years and months, basename extraction, stem/extension splitting, and
//! joining of path components.

use vstd::prelude::*;
use vstd::string::StrSliceExecFns;
use vstd::string::StringExecFns;

verus! {

// ---------------------------------------------------------------------------
// Decimal rendering
// ---------------------------------------------------------------------------

/// The character for a single decimal digit.
pub open spec fn digit_char(d: nat) -> char {
    if d == 0 {
        '0'
    } else if d == 1 {
        '1'
    } else if d == 2 {
        '2'
    } else if d == 3 {
        '3'
    } else if d == 4 {
        '4'
    } else if d == 5 {
        '5'
    } else if d == 6 {
        '6'
    } else if d == 7 {
        '7'
    } else if d == 8 {
        '8'
    } else {
        '9'
    }
}

/// The decimal rendering of `n`, without padding or sign.
pub open spec fn dec_of(n: nat) -> Seq<char>
    decreases n,
{
    if n < 10 {
        seq![digit_char(n)]
    } else {
        dec_of(n / 10).push(digit_char(n % 10))
    }
}

/// The rendering of a year: decimal digits, with a leading `-` if negative.
pub open spec fn year_seq(y: int) -> Seq<char> {
    if y < 0 {
        seq!['-'] + dec_of((-y) as nat)
    } else {
        dec_of(y as nat)
    }
}

proof fn lemma_dec_len(n: nat)
    ensures
        dec_of(n).len() >= 1,
        n >= 10 ==> dec_of(n).len() >= 2,
    decreases n,
{
    if n >= 10 {
        lemma_dec_len(n / 10);
    }
}

proof fn lemma_digit_char_injective(a: nat, b: nat)
    requires
        a < 10,
        b < 10,
        digit_char(a) == digit_char(b),
    ensures
        a == b,
{
}

/// Distinct numbers render to distinct digit strings.
pub proof fn lemma_dec_injective(a: nat, b: nat)
    requires
        dec_of(a) == dec_of(b),
    ensures
        a == b,
    decreases a,
{
    if a < 10 && b < 10 {
        assert(dec_of(a) == seq![digit_char(a)]);
        assert(dec_of(b) == seq![digit_char(b)]);
        assert(seq![digit_char(a)][0] == digit_char(a));
        assert(seq![digit_char(b)][0] == digit_char(b));
        lemma_digit_char_injective(a, b);
    } else if a < 10 {
        lemma_dec_len(b);
        assert(dec_of(a).len() == 1);
        assert(false);
    } else if b < 10 {
        lemma_dec_len(a);
        assert(dec_of(b).len() == 1);
        assert(false);
    } else {
        assert(dec_of(a) == dec_of(a / 10).push(digit_char(a % 10)));
        assert(dec_of(b) == dec_of(b / 10).push(digit_char(b % 10)));
        assert(dec_of(a).last() == digit_char(a % 10));
        assert(dec_of(b).last() == digit_char(b % 10));
        lemma_digit_char_injective(a % 10, b % 10);
        assert(dec_of(a).drop_last() =~= dec_of(a / 10));
        assert(dec_of(b).drop_last() =~= dec_of(b / 10));
        lemma_dec_injective(a / 10, b / 10);
        assert(a == 10 * (a / 10) + a % 10);
        assert(b == 10 * (b / 10) + b % 10);
    }
}

fn digit_str(d: u64) -> (r: &'static str)
    requires
        d < 10,
    ensures
        r@ == seq![digit_char(d as nat)],
{
    proof {
        reveal_strlit("0");
        reveal_strlit("1");
        reveal_strlit("2");
        reveal_strlit("3");
        reveal_strlit("4");
        reveal_strlit("5");
        reveal_strlit("6");
        reveal_strlit("7");
        reveal_strlit("8");
        reveal_strlit("9");
    }
    if d == 0 {
        proof { assert("0"@ =~= seq![digit_char(d as nat)]); }
        "0"
    } else if d == 1 {
        proof { assert("1"@ =~= seq![digit_char(d as nat)]); }
        "1"
    } else if d == 2 {
        proof { assert("2"@ =~= seq![digit_char(d as nat)]); }
        "2"
    } else if d == 3 {
        proof { assert("3"@ =~= seq![digit_char(d as nat)]); }
        "3"
    } else if d == 4 {
        proof { assert("4"@ =~= seq![digit_char(d as nat)]); }
        "4"
    } else if d == 5 {
        proof { assert("5"@ =~= seq![digit_char(d as nat)]); }
        "5"
    } else if d == 6 {
        proof { assert("6"@ =~= seq![digit_char(d as nat)]); }
        "6"
    } else if d == 7 {
        proof { assert("7"@ =~= seq![digit_char(d as nat)]); }
        "7"
    } else if d == 8 {
        proof { assert("8"@ =~= seq![digit_char(d as nat)]); }
        "8"
    } else {
        proof { assert("9"@ =~= seq![digit_char(d as nat)]); }
        "9"
    }
}

/// Renders `n` in decimal.
pub fn render_u64(n: u64) -> (r: String)
    ensures
        r@ == dec_of(n as nat),
    decreases n,
{
    let d = digit_str(n % 10);
    if n < 10 {
        let r = d.to_owned();
        proof { assert(r@ =~= dec_of(n as nat)); }
        r
    } else {
        let mut r = render_u64(n / 10);
        r.append(d);
        proof { assert(r@ =~= dec_of(n as nat)); }
        r
    }
}

/// Renders a year, negative values with a leading `-`.
pub fn render_year(y: i32) -> (r: String)
    ensures
        r@ == year_seq(y as int),
{
    if y < 0 {
        let m = -(y as i64);
        let mut r = String::new();
        r.append("-");
        let digits = render_u64(m as u64);
        r.append(digits.as_str());
        proof {
            reveal_strlit("-");
            assert(r@ =~= year_seq(y as int));
        }
        r
    } else {
        render_u64(y as u64)
    }
}

// ---------------------------------------------------------------------------
// Splitting at the last occurrence of a character
// ---------------------------------------------------------------------------

/// The index of the last occurrence of `c` in `s`, or `-1` if absent.
pub open spec fn last_index_of_char(s: Seq<char>, c: char) -> int
    decreases s.len(),
{
    if s.len() == 0 {
        -1
    } else if s[s.len() - 1] == c {
        s.len() - 1
    } else {
        last_index_of_char(s.drop_last(), c)
    }
}

/// `last_index_of_char` is in range, finds `c`, and nothing after it is `c`.
pub proof fn lemma_last_index_of_char(s: Seq<char>, c: char)
    ensures
        -1 <= last_index_of_char(s, c) < s.len(),
        last_index_of_char(s, c) >= 0 ==> s[last_index_of_char(s, c)] == c,
        forall|j: int| last_index_of_char(s, c) < j < s.len() ==> s[j] != c,
    decreases s.len(),
{
    if s.len() > 0 && s[s.len() - 1] != c {
        lemma_last_index_of_char(s.drop_last(), c);
        assert forall|j: int| last_index_of_char(s, c) < j < s.len() implies s[j] != c by {
            if j < s.len() - 1 {
                assert(s.drop_last()[j] == s[j]);
            }
        }
    }
}

/// The part of `p` after its last `/` (the whole of `p` if it has none).
pub open spec fn basename_of(p: Seq<char>) -> Seq<char> {
    p.subrange(last_index_of_char(p, '/') + 1, p.len() as int)
}

/// The part of `p` up to and including its last `/` (empty if it has none).
pub open spec fn dir_pre_of(p: Seq<char>) -> Seq<char> {
    p.subrange(0, last_index_of_char(p, '/') + 1)
}

/// The index in a file name at which the extension starts, or `-1` if the
/// name has no extension.  The extension starts at the last `.`, except that
/// a `.` at the very front (a hidden file) starts no extension.
pub open spec fn ext_start_of(name: Seq<char>) -> int {
    if last_index_of_char(name, '.') > 0 {
        last_index_of_char(name, '.')
    } else {
        -1
    }
}

/// The file name without its extension.
pub open spec fn stem_of(name: Seq<char>) -> Seq<char> {
    if ext_start_of(name) >= 0 {
        name.subrange(0, ext_start_of(name))
    } else {
        name
    }
}

/// The extension of a file name, including its leading `.` (empty if none).
pub open spec fn ext_of(name: Seq<char>) -> Seq<char> {
    if ext_start_of(name) >= 0 {
        name.subrange(ext_start_of(name), name.len() as int)
    } else {
        Seq::empty()
    }
}

/// The index of the last occurrence of `c`, found by scanning from the end.
pub fn rfind_char(s: &str, c: char) -> (r: Option<usize>)
    ensures
        match r {
            Some(i) => i < s@.len() && last_index_of_char(s@, c) == i as int,
            None => last_index_of_char(s@, c) == -1,
        },
{
    proof { lemma_last_index_of_char(s@, c); }
    let n = s.unicode_len();
    let mut i = n;
    while i > 0
        invariant
            i <= n,
            n == s@.len(),
            forall|j: int| i <= j < s@.len() ==> s@[j] != c,
            -1 <= last_index_of_char(s@, c) < s@.len(),
            last_index_of_char(s@, c) >= 0 ==> s@[last_index_of_char(s@, c)] == c,
            forall|j: int| last_index_of_char(s@, c) < j < s@.len() ==> s@[j] != c,
        decreases i,
    {
        if s.get_char(i - 1) == c {
            return Some(i - 1);
        }
        i = i - 1;
    }
    None
}

/// The part of `p` after its last `/`, or `None` if that is empty.
pub fn basename(p: &str) -> (r: Option<String>)
    ensures
        match r {
            Some(b) => basename_of(p@).len() > 0 && b@ == basename_of(p@),
            None => basename_of(p@).len() == 0,
        },
{
    let n = p.unicode_len();
    let start = match rfind_char(p, '/') {
        Some(i) => i + 1,
        None => 0,
    };
    if start == n {
        None
    } else {
        Some(p.substring_char(start, n).to_owned())
    }
}

// ---------------------------------------------------------------------------
// Joining
// ---------------------------------------------------------------------------

/// `dir` and `name` joined with a `/`, except that an empty `dir` adds no
/// separator and a `dir` already ending in `/` adds no second one.
pub open spec fn joined(dir: Seq<char>, name: Seq<char>) -> Seq<char> {
    if dir.len() == 0 {
        name
    } else if dir[dir.len() - 1] == '/' {
        dir + name
    } else {
        dir + seq!['/'] + name
    }
}

/// The destination candidate for a source path dated `(year, month)`:
/// `out_dir/<year>/<month>/<name>`, year and month as plain unpadded
/// decimals and `<name>` the source's basename.
pub open spec fn dest_candidate(out_dir: Seq<char>, path: Seq<char>, year: int, month: int) -> Seq<
    char,
> {
    joined(joined(joined(out_dir, year_seq(year)), dec_of(month as nat)), basename_of(path))
}

/// Joins a directory and a file name.
pub fn path_join(dir: &str, name: &str) -> (r: String)
    ensures
        r@ == joined(dir@, name@),
{
    let n = dir.unicode_len();
    if n == 0 {
        name.to_owned()
    } else if dir.get_char(n - 1) == '/' {
        let mut r = dir.to_owned();
        r.append(name);
        r
    } else {
        let mut r = dir.to_owned();
        r.append("/");
        r.append(name);
        proof {
            reveal_strlit("/");
            assert(r@ =~= joined(dir@, name@));
        }
        r
    }
}

/// Splits a candidate path into the part that precedes a deconfliction
/// suffix (directory, stem, and a `-`) and the extension that follows it.
pub fn split_for_suffix(cand: &str) -> (r: (String, String))
    ensures
        r.0@ == dir_pre_of(cand@) + stem_of(basename_of(cand@)) + seq!['-'],
        r.1@ == ext_of(basename_of(cand@)),
{
    let n = cand.unicode_len();
    let start = match rfind_char(cand, '/') {
        Some(i) => i + 1,
        None => 0,
    };
    let name = cand.substring_char(start, n);
    proof {
        assert(name@ == basename_of(cand@));
    }
    let dirp = cand.substring_char(0, start);
    proof {
        assert(dirp@ == dir_pre_of(cand@));
    }
    let nn = name.unicode_len();
    let split_at = match rfind_char(name, '.') {
        Some(i) => if i > 0 {
            i
        } else {
            nn
        },
        None => nn,
    };
    let mut p = dirp.to_owned();
    p.append(name.substring_char(0, split_at));
    p.append("-");
    let e = name.substring_char(split_at, nn).to_owned();
    proof {
        reveal_strlit("-");
        assert(p@ =~= dir_pre_of(cand@) + stem_of(basename_of(cand@)) + seq!['-']);
        assert(e@ =~= ext_of(basename_of(cand@)));
    }
    (p, e)
}

} // verus!
