//! Creation-date resolution.
//!
//! A file's date comes from its embedded metadata when possible: the two
//! candidate tags (`DateTime` and `DateTimeOriginal`) are decoded from the
//! content bytes, and the chronologically earliest usable candidate wins.
//! When metadata is absent, unreadable, or disabled, the filesystem date is
//! used instead; metadata absence is never an error.

use vstd::prelude::*;

verus! {

/// The decoded primary `DateTime` tag of an image content as a
/// `(year, month, day)` triple: a function of the bytes alone, `None` when
/// the content does not parse as an image or carries no such ASCII tag.
pub uninterp spec fn exif_datetime_of(data: Seq<u8>) -> Option<(u16, u8, u8)>;

/// As `exif_datetime_of`, for the primary `DateTimeOriginal` tag.
pub uninterp spec fn exif_datetime_original_of(data: Seq<u8>) -> Option<(u16, u8, u8)>;

/// Relies on exif's `Reader::read_from_container`, `Exif::get_field` and
/// `DateTime::from_ascii`: the decoded primary `DateTime` tag is a function
/// of the byte content alone.
#[verifier::external_body]
fn read_exif_datetime(data: &Vec<u8>) -> (r: Option<(u16, u8, u8)>)
    ensures
        r == exif_datetime_of(data@),
{
    let mut cur = std::io::Cursor::new(data.as_slice());
    let ex = match exif::Reader::new().read_from_container(&mut cur) { Ok(x) => x, Err(_) => return None };
    let f = match ex.get_field(exif::Tag::DateTime, exif::In::PRIMARY) { Some(x) => x, None => return None };
    let a = match f.value { exif::Value::Ascii(ref v) => v, _ => return None };
    let one = match a.first() { Some(x) => x, None => return None };
    let dt = match exif::DateTime::from_ascii(one) { Ok(x) => x, Err(_) => return None };
    Some((dt.year, dt.month, dt.day))
}

/// Relies on exif's `Reader::read_from_container`, `Exif::get_field` and
/// `DateTime::from_ascii`: the decoded primary `DateTimeOriginal` tag is a
/// function of the byte content alone.
#[verifier::external_body]
fn read_exif_datetime_original(data: &Vec<u8>) -> (r: Option<(u16, u8, u8)>)
    ensures
        r == exif_datetime_original_of(data@),
{
    let mut cur = std::io::Cursor::new(data.as_slice());
    let ex = match exif::Reader::new().read_from_container(&mut cur) { Ok(x) => x, Err(_) => return None };
    let f = match ex.get_field(exif::Tag::DateTimeOriginal, exif::In::PRIMARY) { Some(x) => x, None => return None };
    let a = match f.value { exif::Value::Ascii(ref v) => v, _ => return None };
    let one = match a.first() { Some(x) => x, None => return None };
    let dt = match exif::DateTime::from_ascii(one) { Ok(x) => x, Err(_) => return None };
    Some((dt.year, dt.month, dt.day))
}

/// Whether an embedded date triple is usable: month and day in calendar
/// range.  Tag decoding does not range-check, so a malformed stamp is
/// treated like an absent one.
pub open spec fn usable_date(t: (u16, u8, u8)) -> bool {
    1 <= t.1 <= 12 && 1 <= t.2 <= 31
}

/// Chronological order on `(year, month, day)` triples.
pub open spec fn date_le(a: (u16, u8, u8), b: (u16, u8, u8)) -> bool {
    if a.0 != b.0 {
        a.0 < b.0
    } else if a.1 != b.1 {
        a.1 < b.1
    } else {
        a.2 <= b.2
    }
}

/// A candidate filtered down to the usable dates.
pub open spec fn usable_opt(o: Option<(u16, u8, u8)>) -> Option<(u16, u8, u8)> {
    match o {
        Some(t) => if usable_date(t) {
            Some(t)
        } else {
            None
        },
        None => None,
    }
}

/// The chronologically earliest usable candidate among the two embedded
/// tags, if any.
pub open spec fn earliest_usable(dt: Option<(u16, u8, u8)>, dto: Option<(u16, u8, u8)>) -> Option<
    (u16, u8, u8),
> {
    match (usable_opt(dt), usable_opt(dto)) {
        (Some(a), Some(b)) => if date_le(a, b) {
            Some(a)
        } else {
            Some(b)
        },
        (Some(a), None) => Some(a),
        (None, Some(b)) => Some(b),
        (None, None) => None,
    }
}

/// The resolved `(year, month)`: the earliest usable embedded candidate, or
/// the filesystem date when there is none.
pub open spec fn selected_date(
    dt: Option<(u16, u8, u8)>,
    dto: Option<(u16, u8, u8)>,
    fs_year: int,
    fs_month: int,
) -> (int, int) {
    match earliest_usable(dt, dto) {
        Some(t) => (t.0 as int, t.1 as int),
        None => (fs_year, fs_month),
    }
}

/// The resolved `(year, month)` of a content: its filesystem date when
/// embedded metadata is disabled, otherwise `selected_date` over its two
/// embedded candidates.
pub open spec fn resolved_date_of(
    c: Seq<u8>,
    ignore_exif: bool,
    fs_year: int,
    fs_month: int,
) -> (int, int) {
    if ignore_exif {
        (fs_year, fs_month)
    } else {
        selected_date(exif_datetime_of(c), exif_datetime_original_of(c), fs_year, fs_month)
    }
}

/// Picks the date for two decoded candidates: the chronologically earliest
/// usable one, or the filesystem date when neither is usable.
pub fn select_date(
    dt: Option<(u16, u8, u8)>,
    dto: Option<(u16, u8, u8)>,
    fs_year: i32,
    fs_month: u32,
) -> (r: (i32, u32))
    ensures
        (r.0 as int, r.1 as int) == selected_date(dt, dto, fs_year as int, fs_month as int),
{
    let a = match dt {
        Some(t) => if 1 <= t.1 && t.1 <= 12 && 1 <= t.2 && t.2 <= 31 {
            Some(t)
        } else {
            None
        },
        None => None,
    };
    let b = match dto {
        Some(t) => if 1 <= t.1 && t.1 <= 12 && 1 <= t.2 && t.2 <= 31 {
            Some(t)
        } else {
            None
        },
        None => None,
    };
    match (a, b) {
        (Some(x), Some(y)) => {
            let e = if x.0 != y.0 {
                if x.0 < y.0 {
                    x
                } else {
                    y
                }
            } else if x.1 != y.1 {
                if x.1 < y.1 {
                    x
                } else {
                    y
                }
            } else if x.2 <= y.2 {
                x
            } else {
                y
            };
            (e.0 as i32, e.1 as u32)
        },
        (Some(x), None) => (x.0 as i32, x.1 as u32),
        (None, Some(y)) => (y.0 as i32, y.1 as u32),
        (None, None) => (fs_year, fs_month),
    }
}

/// Resolves the creation date of a content: the earliest usable embedded
/// date tag, or the filesystem date when metadata is disabled, absent or
/// unusable.
pub fn resolve_date(content: &Vec<u8>, ignore_exif: bool, fs_year: i32, fs_month: u32) -> (r: (
    i32,
    u32,
))
    ensures
        (r.0 as int, r.1 as int) == resolved_date_of(
            content@,
            ignore_exif,
            fs_year as int,
            fs_month as int,
        ),
{
    if ignore_exif {
        (fs_year, fs_month)
    } else {
        let dt = read_exif_datetime(content);
        let dto = read_exif_datetime_original(content);
        select_date(dt, dto, fs_year, fs_month)
    }
}

/// Date fallback: a content without a usable embedded candidate, or one
/// dated with metadata disabled, is dated by its filesystem timestamp.
pub proof fn lemma_date_fallback(c: Seq<u8>, ignore_exif: bool, fs_year: int, fs_month: int)
    requires
        ignore_exif || earliest_usable(exif_datetime_of(c), exif_datetime_original_of(c)) is None,
    ensures
        resolved_date_of(c, ignore_exif, fs_year, fs_month) == (fs_year, fs_month),
{
}

/// Earliest-date selection: with two usable embedded candidates the
/// chronologically earlier one decides the date.
pub proof fn lemma_earliest_date(
    dt: (u16, u8, u8),
    dto: (u16, u8, u8),
    fs_year: int,
    fs_month: int,
)
    requires
        usable_date(dt),
        usable_date(dto),
    ensures
        date_le(dt, dto) ==> selected_date(Some(dt), Some(dto), fs_year, fs_month) == (
            dt.0 as int,
            dt.1 as int,
        ),
        !date_le(dt, dto) ==> selected_date(Some(dt), Some(dto), fs_year, fs_month) == (
            dto.0 as int,
            dto.1 as int,
        ),
{
}

} // verus!
