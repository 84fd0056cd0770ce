use picshuffle::date::resolve_date;
use picshuffle::date::select_date;

/// A minimal little-endian TIFF holding the two date tags, either of which
/// may be absent.
fn tiff_with_dates(dt: Option<&str>, dto: Option<&str>) -> Vec<u8> {
    let n0: u16 = (if dt.is_some() { 1 } else { 0 }) + (if dto.is_some() { 1 } else { 0 });
    let ifd0_off: u32 = 8;
    let ifd0_size: u32 = 2 + 12 * (n0 as u32) + 4;
    let dt_str_off: u32 = ifd0_off + ifd0_size;
    let exif_ifd_off: u32 = dt_str_off + (if dt.is_some() { 20 } else { 0 });
    let dto_str_off: u32 = exif_ifd_off + (if dto.is_some() { 18 } else { 0 });

    let mut b: Vec<u8> = Vec::new();
    // header
    b.extend_from_slice(b"II");
    b.extend_from_slice(&42u16.to_le_bytes());
    b.extend_from_slice(&ifd0_off.to_le_bytes());
    // IFD0
    b.extend_from_slice(&n0.to_le_bytes());
    if dt.is_some() {
        b.extend_from_slice(&0x0132u16.to_le_bytes()); // DateTime
        b.extend_from_slice(&2u16.to_le_bytes()); // ASCII
        b.extend_from_slice(&20u32.to_le_bytes());
        b.extend_from_slice(&dt_str_off.to_le_bytes());
    }
    if dto.is_some() {
        b.extend_from_slice(&0x8769u16.to_le_bytes()); // Exif IFD pointer
        b.extend_from_slice(&4u16.to_le_bytes()); // LONG
        b.extend_from_slice(&1u32.to_le_bytes());
        b.extend_from_slice(&exif_ifd_off.to_le_bytes());
    }
    b.extend_from_slice(&0u32.to_le_bytes()); // no next IFD
    // DateTime value
    if let Some(s) = dt {
        assert_eq!(s.len(), 19);
        b.extend_from_slice(s.as_bytes());
        b.push(0);
    }
    // Exif IFD with DateTimeOriginal
    if dto.is_some() {
        b.extend_from_slice(&1u16.to_le_bytes());
        b.extend_from_slice(&0x9003u16.to_le_bytes()); // DateTimeOriginal
        b.extend_from_slice(&2u16.to_le_bytes()); // ASCII
        b.extend_from_slice(&20u32.to_le_bytes());
        b.extend_from_slice(&dto_str_off.to_le_bytes());
        b.extend_from_slice(&0u32.to_le_bytes());
    }
    if let Some(s) = dto {
        assert_eq!(s.len(), 19);
        b.extend_from_slice(s.as_bytes());
        b.push(0);
    }
    b
}

/// An embedded `DateTime` tag decides the year and month.
#[test]
fn t_exif() {
    let img = tiff_with_dates(Some("2011:11:01 12:00:00"), None);
    let (y, m) = resolve_date(&img, false, 1999, 1);
    assert_eq!((y, m), (2011, 11));
}

/// With both tags embedded, the chronologically earlier one wins.
#[test]
fn t_exif_earliest_of_two_tags() {
    let img = tiff_with_dates(Some("2011:11:01 12:00:00"), Some("2009:05:04 08:00:00"));
    assert_eq!(resolve_date(&img, false, 1999, 1), (2009, 5));
    let img2 = tiff_with_dates(Some("2008:02:29 12:00:00"), Some("2009:05:04 08:00:00"));
    assert_eq!(resolve_date(&img2, false, 1999, 1), (2008, 2));
}

/// Content that is no image falls back to the filesystem date.
#[test]
fn t_date_fallback_no_metadata() {
    let content = b"just some text, no image here".to_vec();
    assert_eq!(resolve_date(&content, false, 2018, 7), (2018, 7));
}

/// Disabling embedded metadata forces the filesystem date even when date
/// tags are present.
#[test]
fn t_date_ignore_exif() {
    let img = tiff_with_dates(Some("2011:11:01 12:00:00"), None);
    assert_eq!(resolve_date(&img, true, 2018, 7), (2018, 7));
}

/// The earlier of two decoded candidates is selected, in either order.
#[test]
fn t_select_date_earliest() {
    let a = Some((2011u16, 11u8, 1u8));
    let b = Some((2009u16, 5u8, 4u8));
    assert_eq!(select_date(a, b, 1999, 1), (2009, 5));
    assert_eq!(select_date(b, a, 1999, 1), (2009, 5));
    assert_eq!(select_date(a, None, 1999, 1), (2011, 11));
    assert_eq!(select_date(None, b, 1999, 1), (2009, 5));
    assert_eq!(select_date(None, None, 1999, 1), (1999, 1));
}

/// A candidate with an out-of-range month or day is unusable and ignored.
#[test]
fn t_select_date_unusable_candidates() {
    let bad_month = Some((2011u16, 13u8, 1u8));
    let bad_day = Some((2011u16, 11u8, 0u8));
    let good = Some((2012u16, 6u8, 15u8));
    assert_eq!(select_date(bad_month, good, 1999, 1), (2012, 6));
    assert_eq!(select_date(bad_month, bad_day, 1999, 1), (1999, 1));
}

/// Ties on year and month resolve to that year and month either way.
#[test]
fn t_select_date_same_day() {
    let a = Some((2011u16, 11u8, 2u8));
    let b = Some((2011u16, 11u8, 2u8));
    assert_eq!(select_date(a, b, 1999, 1), (2011, 11));
}
