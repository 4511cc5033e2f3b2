//! Immich asset records, the filters that pick which assets to update, and
//! the comparison of creation times with the cutoff.

use crate::text::{chars_of, range_is_blank, trim_text};
use vstd::prelude::*;

verus! {

/// The EXIF part of an asset record.
#[derive(Debug, Clone)]
pub struct ExifInfo {
    pub description: Option<String>,
}

/// An asset as Immich's metadata search returns it.
#[derive(Debug, Clone)]
pub struct Asset {
    pub id: String,
    pub original_file_name: Option<String>,
    pub description: Option<String>,
    pub exif_info: Option<ExifInfo>,
    pub is_favorite: bool,
    pub file_created_at: Option<String>,
}

/// One page of metadata search results.
#[derive(Debug)]
pub struct SearchAssets {
    pub total: u32,
    pub count: u32,
    pub items: Vec<Asset>,
    pub next_page: Option<String>,
}

// ---------------------------------------------------------------------------
// File type.
// ---------------------------------------------------------------------------

/// ASCII lower case: `A`..=`Z` become `a`..=`z`, all else is kept.
pub open spec fn ascii_lower(c: char) -> char {
    if 'A' <= c <= 'Z' {
        ((c as u32) + 32) as char
    } else {
        c
    }
}

/// The name, in ASCII lower case, ends with `.png`.
pub open spec fn png_file_name(name: Seq<char>) -> bool {
    let n = name.len();
    &&& n >= 4
    &&& ascii_lower(name[n - 4]) == '.'
    &&& ascii_lower(name[n - 3]) == 'p'
    &&& ascii_lower(name[n - 2]) == 'n'
    &&& ascii_lower(name[n - 1]) == 'g'
}

/// Whether `c` in ASCII lower case is the lower-case letter `lower`.
fn lower_is(c: char, lower: char) -> (b: bool)
    requires
        'a' <= lower <= 'z',
    ensures
        b == (ascii_lower(c) == lower),
{
    let upper = ((lower as u8) - 32) as char;
    c == lower || c == upper
}

/// The asset's original file name ends with `.png`, in any case.
pub fn is_png_asset(asset: &Asset) -> (b: bool)
    ensures
        b == match asset.original_file_name {
            Some(name) => png_file_name(name@),
            None => false,
        },
{
    match &asset.original_file_name {
        Some(name) => {
            let v = chars_of(name.as_str());
            let n = v.len();
            n >= 4 && v[n - 4] == '.' && lower_is(v[n - 3], 'p') && lower_is(v[n - 2], 'n')
                && lower_is(v[n - 1], 'g')
        },
        None => false,
    }
}

// ---------------------------------------------------------------------------
// Description.
// ---------------------------------------------------------------------------

/// The description that counts: the EXIF one when there is one, else the
/// asset's own.
pub open spec fn effective_description(asset: Asset) -> Option<Seq<char>> {
    match asset.exif_info {
        Some(info) => match info.description {
            Some(d) => Some(d@),
            None => asset.description.deep_view(),
        },
        None => asset.description.deep_view(),
    }
}

/// The asset has no description, or only white space.
pub fn has_empty_description(asset: &Asset) -> (b: bool)
    ensures
        b == match effective_description(*asset) {
            None => true,
            Some(text) => crate::text::all_white_space(text),
        },
{
    let description: Option<&String> = match &asset.exif_info {
        Some(info) => match &info.description {
            Some(d) => Some(d),
            None => asset.description.as_ref(),
        },
        None => asset.description.as_ref(),
    };
    match description {
        None => true,
        Some(text) => {
            let v = chars_of(text.as_str());
            assert(v@.subrange(0, v@.len() as int) =~= v@);
            range_is_blank(&v, 0, v.len())
        },
    }
}

/// The asset is marked as a favorite.
pub fn is_favorite_asset(asset: &Asset) -> (b: bool)
    ensures
        b == asset.is_favorite,
{
    asset.is_favorite
}

// ---------------------------------------------------------------------------
// Creation time.
// ---------------------------------------------------------------------------

/// A point in time: seconds since the Unix epoch and the nanoseconds within
/// that second (up to 1_999_999_999 during a leap second).
#[derive(Debug, Clone, Copy)]
pub struct Timestamp {
    pub secs: i64,
    pub nanos: u32,
}

/// `a` comes strictly before `b`.
pub open spec fn earlier(a: Timestamp, b: Timestamp) -> bool {
    a.secs < b.secs || (a.secs == b.secs && a.nanos < b.nanos)
}

/// `earlier` is a strict total order: never reflexive, transitive, and of two
/// different instants one comes first.
pub proof fn lemma_earlier_strict_order(a: Timestamp, b: Timestamp, c: Timestamp)
    ensures
        !earlier(a, a),
        earlier(a, b) && earlier(b, c) ==> earlier(a, c),
        earlier(a, b) ==> !earlier(b, a),
        (a.secs != b.secs || a.nanos != b.nanos) ==> (earlier(a, b) || earlier(b, a)),
{
}

/// What `chrono::DateTime::parse_from_rfc3339` makes of `text`: its instant as
/// (`timestamp()`, `timestamp_subsec_nanos()`), or `None` when it rejects it.
pub uninterp spec fn rfc3339_instant(text: Seq<char>) -> Option<(i64, u32)>;

/// The instant `text` denotes as RFC 3339, if it is valid RFC 3339.
pub open spec fn parsed_timestamp(text: Seq<char>) -> Option<Timestamp> {
    match rfc3339_instant(text) {
        Some((secs, nanos)) => Some(Timestamp { secs, nanos }),
        None => None,
    }
}

/// `chrono::DateTime::parse_from_rfc3339`, read back as seconds and
/// nanoseconds: claims its result is the named `rfc3339_instant` of the text.
#[verifier::external_body]
fn parse_rfc3339(text: &str) -> (r: Option<(i64, u32)>)
    ensures
        r == rfc3339_instant(text@),
{
    chrono::DateTime::parse_from_rfc3339(text).ok().map(|t| (t.timestamp(), t.timestamp_subsec_nanos()))
}

/// Parses an RFC 3339 date-time.
pub fn parse_datetime(value: &str) -> (r: Option<Timestamp>)
    ensures
        r == parsed_timestamp(value@),
{
    match parse_rfc3339(value) {
        Some((secs, nanos)) => Some(Timestamp { secs, nanos }),
        None => None,
    }
}

/// Parses a cutoff date given on the command line: RFC 3339 once surrounding
/// white space is trimmed.
pub fn parse_cutoff(value: &str) -> (r: Option<Timestamp>)
    ensures
        r == parsed_timestamp(crate::text::trimmed(value@)),
{
    let trimmed = trim_text(value);
    parse_datetime(trimmed.as_str())
}

/// Whether `a` comes strictly before `b`, as `DateTime`'s `<` orders instants.
pub fn timestamp_before(a: &Timestamp, b: &Timestamp) -> (r: bool)
    ensures
        r == earlier(*a, *b),
{
    a.secs < b.secs || (a.secs == b.secs && a.nanos < b.nanos)
}

/// The asset's `fileCreatedAt` is a valid RFC 3339 date-time strictly before
/// the cutoff; a missing or unreadable one is not.
pub fn is_before_cutoff(asset: &Asset, cutoff: &Timestamp) -> (r: bool)
    ensures
        r == match asset.file_created_at {
            None => false,
            Some(text) => match parsed_timestamp(text@) {
                None => false,
                Some(created) => earlier(created, *cutoff),
            },
        },
{
    match &asset.file_created_at {
        None => false,
        Some(text) => match parse_datetime(text.as_str()) {
            None => false,
            Some(created) => timestamp_before(&created, cutoff),
        },
    }
}

/// An asset this tool updates: a favorite PNG with an empty description,
/// created before the cutoff.
pub open spec fn candidate(asset: Asset, cutoff: Timestamp) -> bool {
    &&& match asset.original_file_name {
        Some(name) => png_file_name(name@),
        None => false,
    }
    &&& match effective_description(asset) {
        None => true,
        Some(text) => crate::text::all_white_space(text),
    }
    &&& asset.is_favorite
    &&& match asset.file_created_at {
        None => false,
        Some(text) => match parsed_timestamp(text@) {
            None => false,
            Some(created) => earlier(created, cutoff),
        },
    }
}

/// Whether the asset is one to update.
pub fn is_candidate(asset: &Asset, cutoff: &Timestamp) -> (b: bool)
    ensures
        b == candidate(*asset, *cutoff),
{
    is_png_asset(asset) && has_empty_description(asset) && is_favorite_asset(asset)
        && is_before_cutoff(asset, cutoff)
}

} // verus!
