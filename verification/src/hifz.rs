//! Playlist synthesis: turning a selection of verse numbers and the known
//! state of the local files into the ordered playback list, with repeats
//! and optional silence gaps. The binary writes the resulting lines to the
//! playlist file and checks which files exist.

use vstd::prelude::*;

use crate::text::{dec_digits, push_dec};
use crate::download::{audio_name_spec, audio_file_name};

verus! {

/// Joining a file name onto a directory path, as path joining renders it:
/// an empty directory contributes nothing, a trailing separator is reused,
/// and otherwise one separator is inserted.
pub open spec fn joined_path(dir: Seq<char>, name: Seq<char>) -> Seq<char> {
    if dir.len() == 0 {
        name
    } else if dir.last() == '/' {
        dir + name
    } else {
        dir + seq!['/'] + name
    }
}

/// Joins a relative file name onto a directory path.
pub fn join_path(dir: &str, name: &str) -> (r: String)
    ensures
        r@ == joined_path(dir@, name@),
{
    proof {
        reveal_strlit("/");
    }
    let n = dir.unicode_len();
    let mut r = String::from_str(dir);
    if n > 0 && dir.get_char(n - 1) != '/' {
        r.append("/");
    }
    r.append(name);
    proof {
        assert(r@ =~= joined_path(dir@, name@));
    }
    r
}

/// The name of the reusable silence clip for one gap duration; keying the
/// name by the duration lets repeated runs with the same gap share it.
pub open spec fn silence_name_spec(gap_ms: nat) -> Seq<char> {
    ".silence_"@ + dec_digits(gap_ms) + "ms.mp3"@
}

pub fn silence_file_name(gap_ms: u32) -> (r: String)
    ensures
        r@ == silence_name_spec(gap_ms as nat),
{
    let mut s = String::from_str(".silence_");
    push_dec(&mut s, gap_ms);
    s.append("ms.mp3");
    s
}

/// The stable name of the produced playlist file.
pub fn playlist_file_name() -> (r: String)
    ensures
        r@ == "hifz_ayah.m3u"@,
{
    String::from_str("hifz_ayah.m3u")
}

/// The name of the pointer file recording the most recent playlist.
pub fn pointer_file_name() -> (r: String)
    ensures
        r@ == "latest_playlist.txt"@,
{
    String::from_str("latest_playlist.txt")
}

/// Whether a gap of this length is audible enough to insert: the fixed
/// 500ms threshold below which gaps are deliberately omitted.
pub open spec fn gap_audible(gap_ms: u32) -> bool {
    gap_ms > 500
}

/// The lines the first `k` of `repeat` plays of one audio file produce:
/// the file after each play, with the silence clip between consecutive
/// plays (never after the last).
pub open spec fn rep_lines(mp3: Seq<char>, esil: Option<Seq<char>>, k: nat, repeat: nat) -> Seq<
    Seq<char>,
>
    decreases k,
{
    if k == 0 {
        seq![]
    } else {
        let prev = rep_lines(mp3, esil, (k - 1) as nat, repeat).push(mp3);
        if k < repeat && esil is Some {
            prev.push(esil->0)
        } else {
            prev
        }
    }
}

/// The lines one present verse contributes: its repeats, then one more
/// silence line before the next verse when a clip is in effect.
pub open spec fn ayah_block(mp3: Seq<char>, esil: Option<Seq<char>>, repeat: nat) -> Seq<
    Seq<char>,
> {
    rep_lines(mp3, esil, repeat, repeat) + (if esil is Some {
        seq![esil->0]
    } else {
        seq![]
    })
}

/// The silence clip that is actually inserted: the one obtained, and only
/// when the requested gap crosses the audibility threshold.
pub open spec fn effective_silence(silence: Option<Seq<char>>, gap_ms: u32) -> Option<Seq<char>> {
    if gap_audible(gap_ms) {
        silence
    } else {
        None
    }
}

/// The body of the playlist: for each selected verse, in order, its block
/// when its audio file is present, and nothing when it is missing.
pub open spec fn playlist_body(
    dir: Seq<char>,
    ayahs: Seq<u32>,
    present: Seq<bool>,
    repeat: nat,
    esil: Option<Seq<char>>,
) -> Seq<Seq<char>>
    decreases ayahs.len(),
{
    if ayahs.len() == 0 {
        seq![]
    } else {
        let rest = playlist_body(dir, ayahs.drop_last(), present.drop_last(), repeat, esil);
        if present.last() {
            rest + ayah_block(
                joined_path(dir, audio_name_spec(ayahs.last() as nat)),
                esil,
                repeat,
            )
        } else {
            rest
        }
    }
}

/// The verses skipped for a missing audio file, in order.
pub open spec fn skipped_model(ayahs: Seq<u32>, present: Seq<bool>) -> Seq<u32>
    decreases ayahs.len(),
{
    if ayahs.len() == 0 {
        seq![]
    } else {
        let rest = skipped_model(ayahs.drop_last(), present.drop_last());
        if present.last() {
            rest
        } else {
            rest.push(ayahs.last())
        }
    }
}

/// The full playlist: the format header, then the body.
pub open spec fn playlist_model(
    dir: Seq<char>,
    ayahs: Seq<u32>,
    present: Seq<bool>,
    repeat: nat,
    gap_ms: u32,
    silence: Option<Seq<char>>,
) -> Seq<Seq<char>> {
    seq!["#EXTM3U"@] + playlist_body(dir, ayahs, present, repeat, effective_silence(silence, gap_ms))
}

/// Synthesizes the playlist lines for the selected verses. `present[i]`
/// says whether the audio file of `ayahs[i]` exists; a missing verse is
/// skipped and reported, never an error. Each present verse is played
/// `repeat` times with the silence clip between repeats and after the
/// final repeat, whenever a clip was obtained and the gap crosses the
/// 500ms threshold.
pub fn playlist_lines(
    dir: &str,
    ayahs: &Vec<u32>,
    present: &Vec<bool>,
    repeat: usize,
    gap_ms: u32,
    silence: &Option<String>,
) -> (r: (Vec<String>, Vec<u32>))
    requires
        ayahs@.len() == present@.len(),
    ensures
        r.0@.map_values(|s: String| s@) == playlist_model(
            dir@,
            ayahs@,
            present@,
            repeat as nat,
            gap_ms,
            silence_view(silence),
        ),
        r.1@ == skipped_model(ayahs@, present@),
{
    let ghost esil = effective_silence(silence_view(silence), gap_ms);
    let mut lines: Vec<String> = Vec::new();
    lines.push(String::from_str("#EXTM3U"));
    let mut skipped: Vec<u32> = Vec::new();
    let gap_on: bool = gap_ms > 500;
    proof {
        assert(lines@.map_values(|s: String| s@) =~~= seq!["#EXTM3U"@] + playlist_body(
            dir@,
            ayahs@.take(0),
            present@.take(0),
            repeat as nat,
            esil,
        ));
    }
    let mut i: usize = 0;
    while i < ayahs.len()
        invariant
            0 <= i <= ayahs@.len(),
            ayahs@.len() == present@.len(),
            lines@.map_values(|s: String| s@) == seq!["#EXTM3U"@] + playlist_body(
                dir@,
                ayahs@.take(i as int),
                present@.take(i as int),
                repeat as nat,
                esil,
            ),
            skipped@ == skipped_model(ayahs@.take(i as int), present@.take(i as int)),
            gap_on == gap_audible(gap_ms),
            esil == effective_silence(silence_view(silence), gap_ms),
        decreases ayahs@.len() - i,
    {
        let ayah = ayahs[i];
        if !present[i] {
            skipped.push(ayah);
        } else {
            let name = audio_file_name(ayah);
            let mp3 = join_path(dir, name.as_str());
            let ghost mp3s = joined_path(dir@, audio_name_spec(ayah as nat));
            let mut k: usize = 0;
            while k < repeat
                invariant
                    0 <= k <= repeat,
                    mp3@ == mp3s,
                    gap_on == gap_audible(gap_ms),
                    esil == effective_silence(silence_view(silence), gap_ms),
                    lines@.map_values(|s: String| s@) == seq!["#EXTM3U"@] + playlist_body(
                        dir@,
                        ayahs@.take(i as int),
                        present@.take(i as int),
                        repeat as nat,
                        esil,
                    ) + rep_lines(mp3s, esil, k as nat, repeat as nat),
                decreases repeat - k,
            {
                let ghost before = lines@.map_values(|s: String| s@);
                lines.push(mp3.clone());
                proof {
                    assert(lines@.map_values(|s: String| s@) =~~= before.push(mp3s));
                }
                k += 1;
                proof {
                    assert(rep_lines(mp3s, esil, k as nat, repeat as nat) == (if k < repeat
                        && esil is Some {
                        rep_lines(mp3s, esil, (k - 1) as nat, repeat as nat).push(mp3s).push(
                            esil->0,
                        )
                    } else {
                        rep_lines(mp3s, esil, (k - 1) as nat, repeat as nat).push(mp3s)
                    }));
                }
                if k < repeat && gap_on {
                    match silence {
                        Some(s) => {
                            proof {
                                assert(esil == Some(s@));
                            }
                            let ghost mid = lines@.map_values(|t: String| t@);
                            lines.push(s.clone());
                            proof {
                                assert(lines@.map_values(|t: String| t@) =~~= mid.push(s@));
                            }
                        },
                        None => {},
                    }
                }
                proof {
                    assert(lines@.map_values(|s: String| s@) =~~= seq!["#EXTM3U"@] + playlist_body(
                        dir@,
                        ayahs@.take(i as int),
                        present@.take(i as int),
                        repeat as nat,
                        esil,
                    ) + rep_lines(mp3s, esil, k as nat, repeat as nat));
                }
            }
            if gap_on {
                match silence {
                    Some(s) => {
                        proof {
                            assert(esil == Some(s@));
                        }
                        let ghost mid = lines@.map_values(|t: String| t@);
                        lines.push(s.clone());
                        proof {
                            assert(lines@.map_values(|t: String| t@) =~~= mid.push(s@));
                        }
                    },
                    None => {},
                }
            }
            proof {
                assert(lines@.map_values(|s: String| s@) =~~= seq!["#EXTM3U"@] + playlist_body(
                    dir@,
                    ayahs@.take(i as int),
                    present@.take(i as int),
                    repeat as nat,
                    esil,
                ) + ayah_block(mp3s, esil, repeat as nat));
            }
        }
        i += 1;
        proof {
            let ta = ayahs@.take(i as int);
            let tp = present@.take(i as int);
            assert(ta.drop_last() =~= ayahs@.take(i as int - 1));
            assert(tp.drop_last() =~= present@.take(i as int - 1));
            assert(ta.last() == ayahs@[i as int - 1]);
            assert(tp.last() == present@[i as int - 1]);
            assert(lines@.map_values(|s: String| s@) =~~= seq!["#EXTM3U"@] + playlist_body(
                dir@,
                ta,
                tp,
                repeat as nat,
                esil,
            ));
            assert(skipped@ =~= skipped_model(ta, tp));
        }
    }
    proof {
        assert(ayahs@.take(ayahs@.len() as int) =~= ayahs@);
        assert(present@.take(present@.len() as int) =~= present@);
    }
    (lines, skipped)
}

/// The per-run output directory: the chapter slug, then the reciter slug,
/// under the chosen root.
pub fn per_surah_base(out: &str, surah_slug: &str, reciter_slug: &str) -> (r: String)
    ensures
        r@ == joined_path(joined_path(out@, surah_slug@), reciter_slug@),
{
    let a = join_path(out, surah_slug);
    join_path(a.as_str(), reciter_slug)
}

/// The silence clip path as a mathematical value.
pub open spec fn silence_view(silence: &Option<String>) -> Option<Seq<char>> {
    match silence {
        Some(s) => Some(s@),
        None => None,
    }
}

/// The index of the last occurrence of `ch` in `s`, or `-1`.
pub open spec fn find_last_char(s: Seq<char>, ch: char) -> int
    decreases s.len(),
{
    if s.len() == 0 {
        -1
    } else if s.last() == ch {
        s.len() - 1
    } else {
        find_last_char(s.drop_last(), ch)
    }
}

proof fn lemma_find_last_char_unique(s: Seq<char>, ch: char, k: int)
    requires
        -1 <= k < s.len(),
        k >= 0 ==> s[k] == ch,
        forall|j: int| k < j < s.len() ==> s[j] != ch,
    ensures
        find_last_char(s, ch) == k,
    decreases s.len(),
{
    if s.len() > 0 {
        if s.last() == ch {
            assert(k == s.len() - 1);
        } else {
            assert(k < s.len() - 1);
            lemma_find_last_char_unique(s.drop_last(), ch, k);
        }
    }
}

/// The stem of a file name carrying the audio extension: the part before
/// the final dot, provided that dot is not the leading character and what
/// follows it reads `mp3`.
pub open spec fn mp3_stem(name: Seq<char>) -> Option<Seq<char>> {
    let k = find_last_char(name, '.');
    if k > 0 && name.skip(k + 1) == "mp3"@ {
        Some(name.take(k))
    } else {
        None
    }
}

/// The verse number a directory entry denotes: a numeric stem with the
/// audio extension; anything else detects nothing.
pub open spec fn detected_verse(name: Seq<char>) -> Option<u32> {
    match mp3_stem(name) {
        Some(st) => if crate::text::is_u32_numeral(st) {
            Some(crate::text::numeral_val(st) as u32)
        } else {
            None
        },
        None => None,
    }
}

/// Examines one file name and returns the verse number it denotes, if any.
fn detect_one(name: &str) -> (r: Option<u32>)
    ensures
        r == detected_verse(name@),
{
    proof {
        reveal_strlit("mp3");
    }
    let cs = crate::text::str_to_chars(name);
    let n = cs.len();
    let mut j = n;
    while j > 0 && cs[j - 1] != '.'
        invariant
            0 <= j <= n,
            n == cs@.len(),
            cs@ == name@,
            forall|p: int| j <= p < n ==> cs@[p] != '.',
        decreases j,
    {
        j -= 1;
    }
    if j == 0 {
        proof {
            lemma_find_last_char_unique(name@, '.', -1);
        }
        return None;
    }
    let k = j - 1;
    proof {
        lemma_find_last_char_unique(name@, '.', k as int);
    }
    if !(n - k - 1 == 3 && cs[k + 1] == 'm' && cs[k + 2] == 'p' && cs[k + 3] == '3') {
        proof {
            assert(name@.skip(k as int + 1) != "mp3"@) by {
                if name@.skip(k as int + 1) == "mp3"@ {
                    assert(name@.skip(k as int + 1).len() == 3);
                    assert(name@.skip(k as int + 1)[0] == 'm');
                    assert(name@.skip(k as int + 1)[1] == 'p');
                    assert(name@.skip(k as int + 1)[2] == '3');
                    assert(cs@[k as int + 1] == 'm');
                    assert(cs@[k as int + 2] == 'p');
                    assert(cs@[k as int + 3] == '3');
                }
            }
        }
        return None;
    }
    proof {
        assert(name@.skip(k as int + 1) =~= "mp3"@);
        assert(cs@.subrange(0, k as int) =~= name@.take(k as int));
    }
    crate::text::parse_u32_range(&cs, 0, k)
}

/// Scans the given directory entries for per-verse audio files and returns
/// the verse numbers found, sorted and without duplicates.
pub fn detect_available_ayahs(names: &Vec<String>) -> (r: Vec<u32>)
    ensures
        crate::text::sorted_unique(r@),
        forall|m: u32|
            r@.contains(m) <==> exists|i: int|
                0 <= i < names@.len() && detected_verse(#[trigger] names@[i]@) == Some(m),
{
    let mut out: Vec<u32> = Vec::new();
    let mut i: usize = 0;
    while i < names.len()
        invariant
            0 <= i <= names@.len(),
            crate::text::sorted_unique(out@),
            forall|m: u32|
                out@.contains(m) <==> exists|p: int|
                    0 <= p < i && detected_verse(#[trigger] names@[p]@) == Some(m),
        decreases names@.len() - i,
    {
        let ghost out0 = out@;
        match detect_one(names[i].as_str()) {
            Some(v) => {
                crate::text::insert_sorted_unique(&mut out, v);
            },
            None => {},
        }
        i += 1;
        proof {
            assert forall|m: u32|
                out@.contains(m) <==> exists|p: int|
                    0 <= p < i && detected_verse(#[trigger] names@[p]@) == Some(m) by {
                if out@.contains(m) {
                    if out0.contains(m) {
                        let p = choose|p: int|
                            0 <= p < i - 1 && detected_verse(#[trigger] names@[p]@) == Some(m);
                        assert(detected_verse(names@[p]@) == Some(m));
                    } else {
                        assert(detected_verse(names@[i - 1]@) == Some(m));
                    }
                }
                if exists|p: int|
                    0 <= p < i && detected_verse(#[trigger] names@[p]@) == Some(m) {
                    let p = choose|p: int|
                        0 <= p < i && detected_verse(#[trigger] names@[p]@) == Some(m);
                    if p < i - 1 {
                        assert(out0.contains(m));
                    }
                }
            }
        }
    }
    out
}

} // verus!

verus! {

/// A malformed verse-range specification, carrying the offending token.
#[derive(Debug)]
pub struct SpecParseError {
    pub token: String,
}

/// Whether one nonempty selection token is well-formed: a single numeral,
/// or `low-high` with both sides numerals and `low <= high`.
pub open spec fn token_valid(t: Seq<char>) -> bool {
    let k = crate::text::find_char(t, '-');
    if k == t.len() {
        crate::text::is_u32_numeral(t)
    } else {
        crate::text::is_u32_numeral(t.take(k)) && crate::text::is_u32_numeral(t.skip(k + 1))
            && crate::text::numeral_val(t.take(k)) <= crate::text::numeral_val(t.skip(k + 1))
    }
}

/// Which verse numbers one well-formed token selects.
pub open spec fn token_covers(t: Seq<char>, n: u32) -> bool {
    let k = crate::text::find_char(t, '-');
    if k == t.len() {
        crate::text::numeral_val(t) == n
    } else {
        crate::text::numeral_val(t.take(k)) <= n <= crate::text::numeral_val(t.skip(k + 1))
    }
}

/// An empty token is ignored; a nonempty one must be well-formed.
pub open spec fn token_ok(t: Seq<char>) -> bool {
    t.len() == 0 || token_valid(t)
}

/// A nonempty, well-formed token that selects `n`.
pub open spec fn covered_by(t: Seq<char>, n: u32) -> bool {
    t.len() > 0 && token_valid(t) && token_covers(t, n)
}

/// The trimmed comma-separated tokens of a selection string.
pub open spec fn selection_tokens(s: Seq<char>) -> Seq<Seq<char>> {
    crate::text::comma_split(s).map_values(|t: Seq<char>| crate::text::trimmed(t))
}

/// Whether the whole selection string parses.
pub open spec fn selection_valid(s: Seq<char>) -> bool {
    forall|i: int| 0 <= i < selection_tokens(s).len() ==> token_ok(
        #[trigger] selection_tokens(s)[i],
    )
}

/// Whether some token of the selection selects `n`.
pub open spec fn selection_covers(s: Seq<char>, n: u32) -> bool {
    exists|i: int| 0 <= i < selection_tokens(s).len() && covered_by(
        #[trigger] selection_tokens(s)[i],
        n,
    )
}

/// `t` is the first token of the selection that does not parse.
pub open spec fn first_bad_token_of(s: Seq<char>, t: Seq<char>) -> bool {
    exists|i: int|
        {
            &&& 0 <= i < selection_tokens(s).len()
            &&& #[trigger] selection_tokens(s)[i] == t
            &&& !token_ok(selection_tokens(s)[i])
            &&& forall|j: int| 0 <= j < i ==> token_ok(#[trigger] selection_tokens(s)[j])
        }
}

/// Peels the first token off a selection string whose first comma stands
/// at `k` (or which has none, `k == s.len()`).
proof fn lemma_selection_step(s: Seq<char>, k: int)
    requires
        0 <= k <= s.len(),
        forall|j: int| 0 <= j < k ==> s[j] != ',',
        k < s.len() ==> s[k] == ',',
    ensures
        k < s.len() ==> selection_tokens(s) == seq![crate::text::trimmed(s.take(k))]
            + selection_tokens(s.skip(k + 1)),
        k == s.len() ==> selection_tokens(s) == seq![crate::text::trimmed(s)],
{
    crate::text::lemma_comma_split_at(s, k);
    crate::text::lemma_comma_split_len(s);
    if k < s.len() {
        crate::text::lemma_comma_split_len(s.skip(k + 1));
        assert(selection_tokens(s) =~= seq![crate::text::trimmed(s.take(k))] + selection_tokens(
            s.skip(k + 1),
        ));
    } else {
        assert(selection_tokens(s) =~= seq![crate::text::trimmed(s)]);
    }
}

/// How validity, coverage and the first bad token of a selection decompose
/// into its first token and the rest.
proof fn lemma_selection_compose(s: Seq<char>, k: int)
    requires
        0 <= k < s.len(),
        forall|j: int| 0 <= j < k ==> s[j] != ',',
        s[k] == ',',
    ensures
        selection_valid(s) <==> (token_ok(crate::text::trimmed(s.take(k))) && selection_valid(
            s.skip(k + 1),
        )),
        forall|m: u32|
            #[trigger] selection_covers(s, m) <==> (covered_by(crate::text::trimmed(s.take(k)), m)
                || selection_covers(s.skip(k + 1), m)),
        !token_ok(crate::text::trimmed(s.take(k))) ==> first_bad_token_of(
            s,
            crate::text::trimmed(s.take(k)),
        ),
        forall|t: Seq<char>|
            token_ok(crate::text::trimmed(s.take(k))) && #[trigger] first_bad_token_of(
                s.skip(k + 1),
                t,
            ) ==> first_bad_token_of(s, t),
{
    lemma_selection_step(s, k);
    let h = crate::text::trimmed(s.take(k));
    let rest = s.skip(k + 1);
    let toks = selection_tokens(s);
    let toks2 = selection_tokens(rest);
    assert(toks == seq![h] + toks2);
    assert(toks[0] == h);
    assert(forall|i: int| 0 <= i < toks2.len() ==> #[trigger] toks2[i] == toks[i + 1]);
    if token_ok(h) && selection_valid(rest) {
        assert forall|i: int| 0 <= i < toks.len() implies token_ok(#[trigger] toks[i]) by {
            if i > 0 {
                assert(toks[i] == toks2[i - 1]);
            }
        }
    }
    if selection_valid(s) {
        assert forall|i: int| 0 <= i < toks2.len() implies token_ok(#[trigger] toks2[i]) by {
            assert(toks2[i] == toks[i + 1]);
            assert(token_ok(toks[i + 1]));
        }
    }
    assert forall|m: u32| #[trigger]
        selection_covers(s, m) <==> (covered_by(h, m) || selection_covers(rest, m)) by {
        if selection_covers(s, m) {
            let i = choose|i: int|
                0 <= i < toks.len() && covered_by(#[trigger] toks[i], m);
            if i == 0 {
                assert(covered_by(h, m));
            } else {
                assert(toks2[i - 1] == toks[i]);
                assert(selection_covers(rest, m));
            }
        }
        if covered_by(h, m) {
            assert(covered_by(toks[0], m));
            assert(selection_covers(s, m));
        }
        if selection_covers(rest, m) {
            let i = choose|i: int|
                0 <= i < toks2.len() && covered_by(#[trigger] toks2[i], m);
            assert(toks[i + 1] == toks2[i]);
            assert(selection_covers(s, m));
        }
    }
    if !token_ok(h) {
        assert(toks[0] == h && !token_ok(toks[0]));
        assert(first_bad_token_of(s, h));
    }
    assert forall|t: Seq<char>|
        token_ok(h) && #[trigger] first_bad_token_of(rest, t) implies first_bad_token_of(
        s,
        t,
    ) by {
        let i = choose|i: int|
            {
                &&& 0 <= i < toks2.len()
                &&& #[trigger] toks2[i] == t
                &&& !token_ok(toks2[i])
                &&& forall|j: int| 0 <= j < i ==> token_ok(#[trigger] toks2[j])
            };
        assert(toks[i + 1] == t);
        assert forall|j: int| 0 <= j < i + 1 implies token_ok(#[trigger] toks[j]) by {
            if j > 0 {
                assert(toks[j] == toks2[j - 1]);
                assert(token_ok(toks2[j - 1]));
            }
        }
        assert(first_bad_token_of(s, t));
    }
}

/// Handles one trimmed nonempty token standing at `cs[lo..hi]`: checks its
/// shape and folds the verse numbers it selects into `out`.
#[verifier::rlimit(50)]
fn apply_token(cs: &Vec<char>, lo: usize, hi: usize, out: &mut Vec<u32>) -> (r: Result<
    (),
    SpecParseError,
>)
    requires
        lo < hi <= cs@.len(),
        crate::text::sorted_unique(old(out)@),
    ensures
        r is Ok ==> token_valid(cs@.subrange(lo as int, hi as int)),
        r is Ok ==> crate::text::sorted_unique(final(out)@),
        r is Ok ==> forall|m: u32|
            final(out)@.contains(m) <==> (old(out)@.contains(m) || token_covers(
                cs@.subrange(lo as int, hi as int),
                m,
            )),
        r matches Err(e) ==> !token_valid(cs@.subrange(lo as int, hi as int)) && e.token@
            == cs@.subrange(lo as int, hi as int),
{
    let ghost t = cs@.subrange(lo as int, hi as int);
    let mut d = lo;
    while d < hi && cs[d] != '-'
        invariant
            lo <= d <= hi <= cs@.len(),
            forall|j: int| lo <= j < d ==> cs@[j] != '-',
        decreases hi - d,
    {
        d += 1;
    }
    proof {
        assert forall|j: int| 0 <= j < d - lo implies t[j] != '-' by {
            assert(t[j] == cs@[lo + j]);
        }
        if d < hi {
            assert(t[d - lo] == cs@[d as int]);
        }
        crate::text::lemma_find_char_unique(t, '-', d - lo);
    }
    if d == hi {
        match crate::text::parse_u32_range(cs, lo, hi) {
            Some(v) => {
                crate::text::insert_sorted_unique(out, v);
                return Ok(());
            },
            None => {
                return Err(SpecParseError { token: crate::text::range_to_string(cs, lo, hi) });
            },
        }
    }
    let a = match crate::text::parse_u32_range(cs, lo, d) {
        Some(a) => a,
        None => {
            proof {
                assert(t.take(d - lo) =~= cs@.subrange(lo as int, d as int));
            }
            return Err(SpecParseError { token: crate::text::range_to_string(cs, lo, hi) });
        },
    };
    let b = match crate::text::parse_u32_range(cs, d + 1, hi) {
        Some(b) => b,
        None => {
            proof {
                assert(t.skip(d - lo + 1) =~= cs@.subrange(d as int + 1, hi as int));
            }
            return Err(SpecParseError { token: crate::text::range_to_string(cs, lo, hi) });
        },
    };
    proof {
        assert(t.take(d - lo) =~= cs@.subrange(lo as int, d as int));
        assert(t.skip(d - lo + 1) =~= cs@.subrange(d as int + 1, hi as int));
    }
    if a > b {
        return Err(SpecParseError { token: crate::text::range_to_string(cs, lo, hi) });
    }
    let ghost out0 = out@;
    let mut x = a;
    while x < b
        invariant
            a <= x <= b,
            crate::text::sorted_unique(out@),
            forall|m: u32| out@.contains(m) <==> (out0.contains(m) || (a <= m < x)),
        decreases b - x,
    {
        crate::text::insert_sorted_unique(out, x);
        x += 1;
    }
    let ghost before_last = out@;
    crate::text::insert_sorted_unique(out, b);
    proof {
        assert(token_valid(t));
        assert forall|m: u32| out@.contains(m) <==> (out0.contains(m) || token_covers(t, m)) by {
            assert(out@.contains(m) <==> (before_last.contains(m) || m == b));
            assert(before_last.contains(m) <==> (out0.contains(m) || (a <= m && m < b)));
            assert(token_covers(t, m) <==> (a <= m && m <= b));
        }
    }
    Ok(())
}

/// Parses the selection from position `pos` on and folds every selected
/// verse number into `out`.
#[verifier::rlimit(50)]
fn parse_rec(cs: &Vec<char>, pos: usize, out: &mut Vec<u32>) -> (r: Result<(), SpecParseError>)
    requires
        pos <= cs@.len(),
        crate::text::sorted_unique(old(out)@),
    ensures
        r is Ok ==> selection_valid(cs@.skip(pos as int)),
        r is Ok ==> crate::text::sorted_unique(final(out)@),
        r is Ok ==> forall|m: u32|
            final(out)@.contains(m) <==> (old(out)@.contains(m) || selection_covers(
                cs@.skip(pos as int),
                m,
            )),
        r matches Err(e) ==> !selection_valid(cs@.skip(pos as int)) && first_bad_token_of(
            cs@.skip(pos as int),
            e.token@,
        ),
    decreases cs@.len() - pos,
{
    let ghost rest = cs@.skip(pos as int);
    let mut c = pos;
    while c < cs.len() && cs[c] != ','
        invariant
            pos <= c <= cs@.len(),
            forall|j: int| pos <= j < c ==> cs@[j] != ',',
        decreases cs@.len() - c,
    {
        c += 1;
    }
    proof {
        assert forall|j: int| 0 <= j < c - pos implies rest[j] != ',' by {
            assert(rest[j] == cs@[pos + j]);
        }
        if c < cs@.len() {
            assert(rest[c - pos] == cs@[c as int]);
        }
        assert(rest.take(c - pos) =~= cs@.subrange(pos as int, c as int));
    }
    let (lo, hi) = crate::text::trim_range(cs, pos, c);
    let ghost t = crate::text::trimmed(rest.take(c - pos));
    proof {
        assert(t == cs@.subrange(lo as int, hi as int));
    }
    let head_result: Result<(), SpecParseError> = if lo == hi {
        proof {
            assert(t.len() == 0);
        }
        Ok(())
    } else {
        apply_token(cs, lo, hi, out)
    };
    if c == cs.len() {
        proof {
            lemma_selection_step(rest, c - pos);
            assert(rest.take(c - pos) =~= rest);
            assert(selection_tokens(rest) == seq![t]);
            assert(selection_tokens(rest)[0] == t);
        }
        match head_result {
            Ok(()) => {
                proof {
                    assert forall|i: int|
                        0 <= i < selection_tokens(rest).len() implies token_ok(
                        #[trigger] selection_tokens(rest)[i],
                    ) by {
                        assert(selection_tokens(rest)[i] == t);
                    }
                    assert forall|m: u32|
                        out@.contains(m) <==> (old(out)@.contains(m) || selection_covers(
                            rest,
                            m,
                        )) by {
                        if selection_covers(rest, m) {
                            let i = choose|i: int|
                                0 <= i < selection_tokens(rest).len() && covered_by(
                                    #[trigger] selection_tokens(rest)[i],
                                    m,
                                );
                            assert(selection_tokens(rest)[i] == t);
                        }
                        if t.len() > 0 && token_covers(t, m) {
                            assert(covered_by(selection_tokens(rest)[0], m));
                        }
                    }
                }
                return Ok(());
            },
            Err(e) => {
                proof {
                    assert(!token_ok(t));
                    assert(first_bad_token_of(rest, t));
                }
                return Err(e);
            },
        }
    }
    proof {
        lemma_selection_compose(rest, c - pos);
        assert(rest.skip(c - pos + 1) =~= cs@.skip(c + 1));
    }
    match head_result {
        Ok(()) => {
            let ghost mid = out@;
            let next = c + 1;
            let ghost rest2 = cs@.skip(next as int);
            proof {
                assert(rest.skip(c - pos + 1) =~= rest2);
            }
            match parse_rec(cs, next, out) {
                Ok(()) => {
                    proof {
                        assert forall|m: u32|
                            out@.contains(m) <==> (old(out)@.contains(m) || selection_covers(
                                rest,
                                m,
                            )) by {
                            assert(out@.contains(m) <==> (mid.contains(m) || selection_covers(
                                rest2,
                                m,
                            )));
                            if lo == hi {
                                assert(t.len() == 0);
                                assert(!covered_by(t, m));
                                assert(mid == old(out)@);
                            } else {
                                assert(t.len() > 0);
                                assert(mid.contains(m) <==> (old(out)@.contains(m)
                                    || token_covers(t, m)));
                            }
                            assert(selection_covers(rest, m) <==> (covered_by(t, m)
                                || selection_covers(rest.skip(c - pos + 1), m)));
                        }
                    }
                    Ok(())
                },
                Err(e) => Err(e),
            }
        },
        Err(e) => {
            proof {
                assert(!token_ok(t));
            }
            Err(e)
        },
    }
}

/// Parses a verse selection such as a comma-separated list of numbers and
/// inclusive low-high ranges into the sorted, duplicate-free list of the
/// selected verse numbers. Whitespace around tokens is ignored, empty
/// tokens are skipped, and an inverted range or an unreadable number fails
/// with the offending token.
pub fn parse_verses_spec(input: &str) -> (r: Result<Vec<u32>, SpecParseError>)
    ensures
        match r {
            Ok(v) => selection_valid(input@) && crate::text::sorted_unique(v@) && (forall|m: u32|
                v@.contains(m) <==> selection_covers(input@, m)),
            Err(e) => !selection_valid(input@) && first_bad_token_of(input@, e.token@),
        },
{
    let cs = crate::text::str_to_chars(input);
    let mut out: Vec<u32> = Vec::new();
    proof {
        assert(cs@.skip(0) =~= input@);
    }
    match parse_rec(&cs, 0, &mut out) {
        Ok(()) => Ok(out),
        Err(e) => Err(e),
    }
}

} // verus!
