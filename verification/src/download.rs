//! The verse materializer's logic: resolving audio URLs against the CDN
//! root, filtering timing segments, encoding the sidecar metadata, naming
//! the per-verse files, and deciding per verse what work a run performs.
//! The binary executes the plan: it streams the download and writes files.

use vstd::prelude::*;

use crate::models::{Segment, Verse};
use crate::text::{dec3_digits, dec_digits, push_char, push_dec, push_dec3};

verus! {

/// The CDN root that relative audio URLs are resolved against.
pub open spec fn cdn_root() -> Seq<char> {
    "https://audio.qurancdn.com/"@
}

pub open spec fn skip_slashes(s: Seq<char>) -> Seq<char>
    decreases s.len(),
{
    if s.len() > 0 && s[0] == '/' {
        skip_slashes(s.skip(1))
    } else {
        s
    }
}

/// A URL that already carries a scheme is used as-is; anything else is
/// taken as a CDN-relative path, its leading slashes dropped.
pub open spec fn resolved_url(u: Seq<char>) -> Seq<char> {
    if u.len() >= 4 && u.subrange(0, 4) == "http"@ {
        u
    } else {
        cdn_root() + skip_slashes(u)
    }
}

proof fn lemma_skip_slashes_at(u: Seq<char>, k: int)
    requires
        0 <= k <= u.len(),
        forall|j: int| 0 <= j < k ==> u[j] == '/',
        k < u.len() ==> u[k] != '/',
    ensures
        skip_slashes(u) == u.skip(k),
    decreases k,
{
    if k == 0 {
        assert(u.skip(0) =~= u);
    } else {
        lemma_skip_slashes_at(u.skip(1), k - 1);
        assert(u.skip(1).skip(k - 1) =~= u.skip(k));
    }
}

/// Resolves a verse's audio URL: absolute URLs pass through, relative ones
/// are appended to the CDN root with their leading slashes removed.
pub fn resolve_audio_url(u: &str) -> (r: String)
    ensures
        r@ == resolved_url(u@),
{
    proof {
        reveal_strlit("http");
    }
    let n = u.unicode_len();
    if n >= 4 && u.get_char(0) == 'h' && u.get_char(1) == 't' && u.get_char(2) == 't'
        && u.get_char(3) == 'p' {
        proof {
            assert(u@.subrange(0, 4) =~= "http"@);
        }
        return String::from_str(u);
    }
    proof {
        assert(u@.subrange(0, 4) == "http"@ ==> u@.subrange(0, 4)[0] == 'h' && u@.subrange(0, 4)[1]
            == 't' && u@.subrange(0, 4)[2] == 't' && u@.subrange(0, 4)[3] == 'p');
    }
    let mut k: usize = 0;
    while k < n && u.get_char(k) == '/'
        invariant
            0 <= k <= n,
            n == u@.len(),
            forall|j: int| 0 <= j < k ==> u@[j] == '/',
        decreases n - k,
    {
        k += 1;
    }
    proof {
        lemma_skip_slashes_at(u@, k as int);
    }
    let tail = u.substring_char(k, n);
    let mut r = String::from_str("https://audio.qurancdn.com/");
    r.append(tail);
    r
}

/// A segment survives filtering exactly when its interval is non-empty.
pub open spec fn segment_kept(s: Segment) -> bool {
    s.end_ms > s.start_ms
}

/// The `[start, end]` pairs of the segments that survive filtering, in order.
pub open spec fn kept_pairs(segs: Seq<Segment>) -> Seq<(u32, u32)>
    decreases segs.len(),
{
    if segs.len() == 0 {
        seq![]
    } else {
        let rest = kept_pairs(segs.drop_last());
        if segment_kept(segs.last()) {
            rest.push((segs.last().start_ms, segs.last().end_ms))
        } else {
            rest
        }
    }
}

/// Filtering keeps exactly the segments with a non-empty interval, each
/// reduced to its `(start_ms, end_ms)` pair, in their original order.
pub proof fn lemma_kept_pairs_is_filter(segs: Seq<Segment>)
    ensures
        kept_pairs(segs) == segs.filter(|s: Segment| s.end_ms > s.start_ms).map_values(
            |s: Segment| (s.start_ms, s.end_ms),
        ),
    decreases segs.len(),
{
    reveal(Seq::filter);
    let pred = |s: Segment| s.end_ms > s.start_ms;
    let f = |s: Segment| (s.start_ms, s.end_ms);
    if segs.len() == 0 {
        assert(kept_pairs(segs) =~= segs.filter(pred).map_values(f));
    } else {
        lemma_kept_pairs_is_filter(segs.drop_last());
        if pred(segs.last()) {
            assert(segs.filter(pred).map_values(f) =~= segs.drop_last().filter(pred).map_values(
                f,
            ).push(f(segs.last())));
        } else {
            assert(segs.filter(pred).map_values(f) =~= segs.drop_last().filter(pred).map_values(
                f,
            ));
        }
    }
}

/// Drops every zero-length or inverted segment and keeps the rest as
/// `(start_ms, end_ms)` pairs.
pub fn filter_segments(segs: &Vec<Segment>) -> (r: Vec<(u32, u32)>)
    ensures
        r@ == kept_pairs(segs@),
{
    let mut r: Vec<(u32, u32)> = Vec::new();
    let mut i: usize = 0;
    while i < segs.len()
        invariant
            0 <= i <= segs@.len(),
            r@ == kept_pairs(segs@.take(i as int)),
        decreases segs@.len() - i,
    {
        let s = &segs[i];
        if s.end_ms > s.start_ms {
            r.push((s.start_ms, s.end_ms));
        }
        i += 1;
        proof {
            assert(segs@.take(i as int).drop_last() =~= segs@.take(i as int - 1));
            assert(segs@.take(i as int).last() == segs@[i as int - 1]);
        }
    }
    proof {
        assert(segs@.take(segs@.len() as int) =~= segs@);
    }
    r
}

/// The JSON text of one pair: `[start,end]`.
pub open spec fn pair_json(p: (u32, u32)) -> Seq<char> {
    seq!['['] + dec_digits(p.0 as nat) + seq![','] + dec_digits(p.1 as nat) + seq![']']
}

pub open spec fn pairs_json_body(ps: Seq<(u32, u32)>) -> Seq<char>
    decreases ps.len(),
{
    if ps.len() == 0 {
        seq![]
    } else if ps.len() == 1 {
        pair_json(ps[0])
    } else {
        pairs_json_body(ps.drop_last()) + seq![','] + pair_json(ps.last())
    }
}

/// The compact JSON array-of-pairs encoding of the sidecar file.
pub open spec fn pairs_json(ps: Seq<(u32, u32)>) -> Seq<char> {
    seq!['['] + pairs_json_body(ps) + seq![']']
}

/// Renders the sidecar content: the kept segments as a compact JSON array
/// of `[start,end]` pairs.
pub fn segments_json(ps: &Vec<(u32, u32)>) -> (r: String)
    ensures
        r@ == pairs_json(ps@),
{
    let mut out = String::new();
    push_char(&mut out, '[');
    let mut i: usize = 0;
    while i < ps.len()
        invariant
            0 <= i <= ps@.len(),
            out@ == seq!['['] + pairs_json_body(ps@.take(i as int)),
        decreases ps@.len() - i,
    {
        if i > 0 {
            push_char(&mut out, ',');
        }
        push_char(&mut out, '[');
        push_dec(&mut out, ps[i].0);
        push_char(&mut out, ',');
        push_dec(&mut out, ps[i].1);
        push_char(&mut out, ']');
        i += 1;
        proof {
            let t = ps@.take(i as int);
            assert(t.drop_last() =~= ps@.take(i as int - 1));
            assert(t.last() == ps@[i as int - 1]);
            if i == 1 {
                assert(t[0] == ps@[0]);
            }
            assert(out@ =~= seq!['['] + pairs_json_body(t));
        }
    }
    push_char(&mut out, ']');
    proof {
        assert(ps@.take(ps@.len() as int) =~= ps@);
        assert(out@ =~= pairs_json(ps@));
    }
    out
}

/// The audio file name of one verse: the verse number zero-padded to three
/// digits, with the `.mp3` extension.
pub open spec fn audio_name_spec(ayah: nat) -> Seq<char> {
    dec3_digits(ayah) + ".mp3"@
}

/// The sidecar file name of one verse.
pub open spec fn sidecar_name_spec(ayah: nat) -> Seq<char> {
    dec3_digits(ayah) + ".segments.json"@
}

pub fn audio_file_name(ayah: u32) -> (r: String)
    ensures
        r@ == audio_name_spec(ayah as nat),
{
    let mut s = String::new();
    push_dec3(&mut s, ayah);
    s.append(".mp3");
    s
}

pub fn sidecar_file_name(ayah: u32) -> (r: String)
    ensures
        r@ == sidecar_name_spec(ayah as nat),
{
    let mut s = String::new();
    push_dec3(&mut s, ayah);
    s.append(".segments.json");
    s
}

/// The segments of one verse, an absent list reading as empty.
pub open spec fn verse_segments(v: Verse) -> Seq<Segment> {
    match v.audio.segments {
        Some(s) => s@,
        None => Seq::empty(),
    }
}

/// Whether one run downloads the verse's audio: always under `force`,
/// otherwise only when the file is not already present.
pub open spec fn plan_download(force: bool, exists: bool) -> bool {
    force || !exists
}

/// What one materialize step does for one verse.
pub struct VersePlan {
    /// Whether the audio file is fetched.
    pub download: bool,
    /// The resolved absolute audio URL.
    pub url: String,
    /// The audio file name under the destination directory.
    pub audio_name: String,
    /// The sidecar file name under the destination directory.
    pub sidecar_name: String,
    /// The sidecar content, recomputed on every run.
    pub sidecar: String,
}

/// The mathematical model of one verse's plan.
pub struct PlanModel {
    pub download: bool,
    pub url: Seq<char>,
    pub audio_name: Seq<char>,
    pub sidecar_name: Seq<char>,
    pub sidecar: Seq<char>,
}

/// What the plan for one verse must be: nothing for a verse outside the
/// requested filter, otherwise a download decision plus the freshly
/// computed sidecar, whether or not the download is skipped.
pub open spec fn verse_plan_model(v: Verse, force: bool, exists: bool, wanted: Option<Seq<u32>>) -> Option<
    PlanModel,
> {
    match wanted {
        Some(w) if !w.contains(v.verse_number) => None,
        _ => Some(
            PlanModel {
                download: plan_download(force, exists),
                url: resolved_url(v.audio.url@),
                audio_name: audio_name_spec(v.verse_number as nat),
                sidecar_name: sidecar_name_spec(v.verse_number as nat),
                sidecar: pairs_json(kept_pairs(verse_segments(v))),
            },
        ),
    }
}

fn contains_u32(w: &Vec<u32>, x: u32) -> (r: bool)
    ensures
        r == w@.contains(x),
{
    let mut i: usize = 0;
    while i < w.len()
        invariant
            0 <= i <= w@.len(),
            forall|j: int| 0 <= j < i ==> w@[j] != x,
        decreases w@.len() - i,
    {
        if w[i] == x {
            return true;
        }
        i += 1;
    }
    false
}

/// Plans the work for one verse of a materialize run: `None` when a filter
/// is given and the verse is not in it; otherwise the download decision,
/// the resolved URL, both file names, and the sidecar content.
pub fn plan_verse(v: &Verse, force: bool, exists: bool, wanted: &Option<Vec<u32>>) -> (r: Option<
    VersePlan,
>)
    ensures
        match r {
            None => verse_plan_model(*v, force, exists, wanted_view(wanted)) is None,
            Some(p) => verse_plan_model(*v, force, exists, wanted_view(wanted)) == Some(
                PlanModel {
                    download: p.download,
                    url: p.url@,
                    audio_name: p.audio_name@,
                    sidecar_name: p.sidecar_name@,
                    sidecar: p.sidecar@,
                },
            ),
        },
{
    match wanted {
        Some(w) => {
            if !contains_u32(w, v.verse_number) {
                return None;
            }
        },
        None => {},
    }
    let pairs = match &v.audio.segments {
        Some(segs) => filter_segments(segs),
        None => Vec::new(),
    };
    let sidecar = segments_json(&pairs);
    Some(
        VersePlan {
            download: force || !exists,
            url: resolve_audio_url(v.audio.url.as_str()),
            audio_name: audio_file_name(v.verse_number),
            sidecar_name: sidecar_file_name(v.verse_number),
            sidecar,
        },
    )
}

/// The verse filter as a mathematical value.
pub open spec fn wanted_view(wanted: &Option<Vec<u32>>) -> Option<Seq<u32>> {
    match wanted {
        Some(w) => Some(w@),
        None => None,
    }
}

/// Re-running a materialize over an already-complete directory without
/// `force` downloads nothing, yet every planned verse still carries the
/// freshly computed sidecar content — re-runs are cheap and keep metadata
/// fresh.
pub proof fn lemma_rerun_skips_downloads(v: Verse, wanted: Option<Seq<u32>>)
    ensures
        match verse_plan_model(v, false, true, wanted) {
            Some(p) => !p.download && p.sidecar == pairs_json(kept_pairs(verse_segments(v))),
            None => wanted matches Some(w) && !w.contains(v.verse_number),
        },
{
}

} // verus!
