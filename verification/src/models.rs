//! Data carried through the fetch pipeline: verses, their audio references,
//! timing segments, and page envelopes as the upstream returns them.

use vstd::prelude::*;

verus! {

/// One timing segment inside a verse's audio: the half-open millisecond
/// interval `[start_ms, end_ms)`, optionally tagged with a word-group and
/// word index when the upstream sends four-element tuples.
#[derive(Clone, Debug)]
pub struct Segment {
    pub i: Option<u32>,
    pub j: Option<u32>,
    pub start_ms: u32,
    pub end_ms: u32,
}

impl Segment {
    /// Builds the segment an upstream two-element tuple denotes.
    pub fn from_pair(start_ms: u32, end_ms: u32) -> (r: Segment)
        ensures
            r.i is None,
            r.j is None,
            r.start_ms == start_ms,
            r.end_ms == end_ms,
    {
        Segment { i: None, j: None, start_ms, end_ms }
    }

    /// Builds the segment an upstream four-element tuple denotes.
    pub fn from_quad(i: u32, j: u32, start_ms: u32, end_ms: u32) -> (r: Segment)
        ensures
            r.i == Some(i),
            r.j == Some(j),
            r.start_ms == start_ms,
            r.end_ms == end_ms,
    {
        Segment { i: Some(i), j: Some(j), start_ms, end_ms }
    }
}

/// A verse's audio reference: a URL (absolute, or relative to the CDN root)
/// and the ordered timing segments.
#[derive(Clone, Debug)]
pub struct Audio {
    pub url: String,
    pub segments: Option<Vec<Segment>>,
}

/// One verse as fetched: identity, position in the chapter, and optional
/// structural metadata the upstream may omit.
#[derive(Clone, Debug)]
pub struct Verse {
    pub id: u32,
    pub verse_number: u32,
    pub verse_key: String,
    pub hizb_number: Option<u32>,
    pub rub_el_hizb_number: Option<u32>,
    pub ruku_number: Option<u32>,
    pub manzil_number: Option<u32>,
    pub sajdah_number: Option<u32>,
    pub page_number: Option<u32>,
    pub juz_number: Option<u32>,
    pub audio: Audio,
}

/// Pagination metadata of one page; every field is optional because the
/// upstream may omit any of them.
#[derive(Clone, Debug)]
pub struct Pagination {
    pub per_page: Option<u32>,
    pub current_page: Option<u32>,
    pub next_page: Option<u32>,
    pub total_pages: Option<u32>,
    pub total_records: Option<u32>,
}

/// One page of the verse listing.
#[derive(Clone, Debug)]
pub struct ChapterResponse {
    pub verses: Vec<Verse>,
    pub pagination: Option<Pagination>,
}

/// The query parameters of one verse-list request.
#[derive(Clone, Debug)]
pub struct ChapterQuery {
    pub audio: u32,
    pub page: Option<u32>,
    pub per_page: Option<u32>,
    pub words: Option<bool>,
    pub fields: Option<String>,
}

} // verus!
