//! Resolving human-readable chapter and reciter names to canonical ids:
//! key normalization over compatibility-decomposed text, slug building,
//! and first-match lookup against the upstream listings.

use vstd::prelude::*;

use unicode_normalization::UnicodeNormalization;

use crate::text::{dec3_digits, push_char, push_dec3, range_to_string, str_to_chars};

verus! {

/// One chapter as the upstream lists it.
#[derive(Clone, Debug)]
pub struct Chapter {
    pub id: u32,
    pub name_simple: String,
    pub name_complex: String,
}

/// One reciter as the upstream lists it.
#[derive(Clone, Debug)]
pub struct Reciter {
    pub id: u32,
    pub reciter_name: String,
    pub style: Option<String>,
}

/// What compatibility decomposition (NFKD) yields for these characters.
pub uninterp spec fn nfkd_of(s: Seq<char>) -> Seq<char>;

/// Relies on unicode_normalization's `nfkd`: the compatibility
/// decomposition of the characters, a function of the input alone.
#[verifier::external_body]
fn nfkd(s: &str) -> (r: String)
    ensures
        r@ == nfkd_of(s@),
{
    s.nfkd().collect()
}

/// What Unicode lowercasing yields for these characters.
pub uninterp spec fn lower_of(s: Seq<char>) -> Seq<char>;

/// Relies on str::to_lowercase: the Unicode lowercase of the characters,
/// a function of the input alone.
#[verifier::external_body]
fn lowercase(s: &str) -> (r: String)
    ensures
        r@ == lower_of(s@),
{
    s.to_lowercase()
}

pub open spec fn is_ascii_char(c: char) -> bool {
    (c as u32) < 128
}

/// An ASCII letter or digit, of either case.
pub open spec fn is_ascii_alnum_ci(c: char) -> bool {
    (48 <= (c as u32) && (c as u32) <= 57) || (65 <= (c as u32) && (c as u32) <= 90) || (97 <= (
    c as u32) && (c as u32) <= 122)
}

/// ASCII uppercase letters mapped to lowercase; everything else unchanged.
pub open spec fn ascii_lower(c: char) -> char {
    if 65 <= (c as u32) && (c as u32) <= 90 {
        (((c as u32) + 32) as u8) as char
    } else {
        c
    }
}

/// The lookup-key fold: keep the ASCII letters and digits, lowercased, and
/// drop everything else.
pub open spec fn norm_fold(s: Seq<char>) -> Seq<char>
    decreases s.len(),
{
    if s.len() == 0 {
        Seq::empty()
    } else {
        let rest = norm_fold(s.drop_last());
        let c = s.last();
        if is_ascii_char(c) && is_ascii_alnum_ci(c) {
            rest.push(ascii_lower(c))
        } else {
            rest
        }
    }
}

/// The normalized key of a display name: its compatibility decomposition
/// reduced to lowercased ASCII letters and digits.
pub fn norm_key(s: &str) -> (r: String)
    ensures
        r@ == norm_fold(nfkd_of(s@)),
{
    let d = nfkd(s);
    let cs = str_to_chars(d.as_str());
    let mut out = String::new();
    let mut i: usize = 0;
    while i < cs.len()
        invariant
            0 <= i <= cs@.len(),
            cs@ == nfkd_of(s@),
            out@ == norm_fold(cs@.take(i as int)),
        decreases cs@.len() - i,
    {
        let c = cs[i];
        let u = c as u32;
        if u < 128 && ((48 <= u && u <= 57) || (65 <= u && u <= 90) || (97 <= u && u <= 122)) {
            let lc: char = if 65 <= u && u <= 90 {
                ((u + 32) as u8) as char
            } else {
                c
            };
            push_char(&mut out, lc);
        }
        i += 1;
        proof {
            assert(cs@.take(i as int).drop_last() =~= cs@.take(i as int - 1));
            assert(cs@.take(i as int).last() == cs@[i as int - 1]);
        }
    }
    proof {
        assert(cs@.take(cs@.len() as int) =~= cs@);
    }
    out
}

/// The dash-collapsed raw slug of lowercased text: letters and digits are
/// kept, every run of anything else becomes one dash.
pub open spec fn slug_raw(s: Seq<char>) -> Seq<char>
    decreases s.len(),
{
    if s.len() == 0 {
        Seq::empty()
    } else {
        let rest = slug_raw(s.drop_last());
        let c = s.last();
        if is_ascii_char(c) && is_ascii_alnum_ci(c) {
            rest.push(c)
        } else if rest.len() > 0 && rest.last() == '-' {
            rest
        } else {
            rest.push('-')
        }
    }
}

pub open spec fn trim_dash_start(s: Seq<char>) -> Seq<char>
    decreases s.len(),
{
    if s.len() > 0 && s[0] == '-' {
        trim_dash_start(s.skip(1))
    } else {
        s
    }
}

pub open spec fn trim_dash_end(s: Seq<char>) -> Seq<char>
    decreases s.len(),
{
    if s.len() > 0 && s.last() == '-' {
        trim_dash_end(s.drop_last())
    } else {
        s
    }
}

/// The slug of lowercased text: the raw slug with dangling dashes removed.
pub open spec fn slug_of(s: Seq<char>) -> Seq<char> {
    trim_dash_end(trim_dash_start(slug_raw(s)))
}

proof fn lemma_trim_dash_start_at(s: Seq<char>, j: int)
    requires
        0 <= j <= s.len(),
        forall|t: int| 0 <= t < j ==> s[t] == '-',
        j < s.len() ==> s[j] != '-',
    ensures
        trim_dash_start(s) == s.skip(j),
    decreases j,
{
    if j == 0 {
        assert(s.skip(0) =~= s);
    } else {
        lemma_trim_dash_start_at(s.skip(1), j - 1);
        assert(s.skip(1).skip(j - 1) =~= s.skip(j));
    }
}

proof fn lemma_trim_dash_end_at(s: Seq<char>, j: int)
    requires
        0 <= j <= s.len(),
        forall|t: int| j <= t < s.len() ==> s[t] == '-',
        j > 0 ==> s[j - 1] != '-',
    ensures
        trim_dash_end(s) == s.take(j),
    decreases s.len(),
{
    if j == s.len() {
        assert(s.take(j) =~= s);
    } else {
        lemma_trim_dash_end_at(s.drop_last(), j);
        assert(s.drop_last().take(j) =~= s.take(j));
    }
}

/// The canonical slug of a display name: its compatibility decomposition,
/// lowercased, reduced to dash-separated letter and digit runs.
pub fn slugify(s: &str) -> (r: String)
    ensures
        r@ == slug_of(lower_of(nfkd_of(s@))),
{
    let d = nfkd(s);
    let l = lowercase(d.as_str());
    let cs = str_to_chars(l.as_str());
    let mut raw: Vec<char> = Vec::new();
    let mut i: usize = 0;
    while i < cs.len()
        invariant
            0 <= i <= cs@.len(),
            cs@ == lower_of(nfkd_of(s@)),
            raw@ == slug_raw(cs@.take(i as int)),
        decreases cs@.len() - i,
    {
        let c = cs[i];
        let u = c as u32;
        if u < 128 && ((48 <= u && u <= 57) || (65 <= u && u <= 90) || (97 <= u && u <= 122)) {
            raw.push(c);
        } else {
            let need_dash = if raw.len() == 0 {
                true
            } else {
                raw[raw.len() - 1] != '-'
            };
            if need_dash {
                raw.push('-');
            }
        }
        i += 1;
        proof {
            assert(cs@.take(i as int).drop_last() =~= cs@.take(i as int - 1));
            assert(cs@.take(i as int).last() == cs@[i as int - 1]);
        }
    }
    proof {
        assert(cs@.take(cs@.len() as int) =~= cs@);
    }
    let mut lo: usize = 0;
    while lo < raw.len() && raw[lo] == '-'
        invariant
            0 <= lo <= raw@.len(),
            forall|t: int| 0 <= t < lo ==> raw@[t] == '-',
        decreases raw@.len() - lo,
    {
        lo += 1;
    }
    let mut hi = raw.len();
    while hi > lo && raw[hi - 1] == '-'
        invariant
            lo <= hi <= raw@.len(),
            forall|t: int| hi <= t < raw@.len() ==> raw@[t] == '-',
        decreases hi,
    {
        hi -= 1;
    }
    proof {
        lemma_trim_dash_start_at(raw@, lo as int);
        lemma_trim_dash_end_at(raw@.skip(lo as int), hi - lo);
        assert(raw@.skip(lo as int).take(hi - lo) =~= raw@.subrange(lo as int, hi as int));
    }
    range_to_string(&raw, lo, hi)
}

/// The canonical folder slug of a chapter: its slug, a dash, and the id
/// zero-padded to three digits, keeping folder names unambiguous.
pub fn chapter_slug(c: &Chapter) -> (r: String)
    ensures
        r@ == slug_of(lower_of(nfkd_of(c.name_simple@))) + seq!['-'] + dec3_digits(c.id as nat),
{
    let mut r = slugify(c.name_simple.as_str());
    push_char(&mut r, '-');
    push_dec3(&mut r, c.id);
    r
}

/// `needle` occurs contiguously inside `hay`.
pub open spec fn has_substring(hay: Seq<char>, needle: Seq<char>) -> bool {
    exists|i: int|
        0 <= i <= hay.len() - needle.len() && #[trigger] hay.subrange(i, i + needle.len())
            == needle
}

fn contains_seq(hay: &Vec<char>, needle: &Vec<char>) -> (r: bool)
    ensures
        r == has_substring(hay@, needle@),
{
    let nl = needle.len();
    let hl = hay.len();
    if nl > hl {
        return false;
    }
    if nl == 0 {
        proof {
            assert(hay@.subrange(0, 0 + needle@.len() as int) =~= needle@);
        }
        return true;
    }
    let mut i: usize = 0;
    while i <= hl - nl
        invariant
            0 <= i <= hl - nl + 1,
            nl == needle@.len(),
            hl == hay@.len(),
            1 <= nl <= hl,
            forall|p: int|
                0 <= p < i ==> #[trigger] hay@.subrange(p, p + needle@.len()) != needle@,
        decreases hl - nl + 1 - i,
    {
        let mut j: usize = 0;
        let mut matched = true;
        while j < nl
            invariant
                0 <= j <= nl,
                i + nl <= hl,
                nl == needle@.len(),
                hl == hay@.len(),
                matched ==> forall|q: int| 0 <= q < j ==> hay@[i + q] == needle@[q],
                !matched ==> hay@.subrange(i as int, i + needle@.len()) != needle@,
            decreases nl - j,
        {
            if hay[i + j] != needle[j] {
                proof {
                    assert(hay@.subrange(i as int, i + needle@.len())[j as int] != needle@[
                        j as int]);
                }
                matched = false;
                j = nl;
            } else {
                j += 1;
            }
        }
        if matched {
            proof {
                assert(hay@.subrange(i as int, i + needle@.len()) =~= needle@);
            }
            return true;
        }
        i += 1;
    }
    proof {
        assert forall|p: int|
            0 <= p <= hay@.len() - needle@.len() implies #[trigger] hay@.subrange(
            p,
            p + needle@.len(),
        ) != needle@ by {
            assert(p < i);
        }
    }
    false
}

/// Whether a chapter answers a lookup string: by id when the string is a
/// numeral, else by its normalized simple or complex name.
pub open spec fn chapter_matches_spec(c: Chapter, s: Seq<char>) -> bool {
    if crate::text::is_u32_numeral(s) {
        c.id == crate::text::numeral_val(s)
    } else {
        norm_fold(nfkd_of(c.name_simple@)) == norm_fold(nfkd_of(s)) || norm_fold(
            nfkd_of(c.name_complex@),
        ) == norm_fold(nfkd_of(s))
    }
}

/// Finds the first chapter answering the lookup string: by id for a
/// numeral, else by normalized-name equality against the server's names.
pub fn resolve_chapter<'a>(chapters: &'a Vec<Chapter>, spec_text: &str) -> (r: Option<
    &'a Chapter,
>)
    ensures
        r matches Some(c) ==> exists|i: int|
            0 <= i < chapters@.len() && *c == chapters@[i] && chapter_matches_spec(
                #[trigger] chapters@[i],
                spec_text@,
            ) && (forall|j: int| 0 <= j < i ==> !chapter_matches_spec(
                #[trigger] chapters@[j],
                spec_text@,
            )),
        r is None ==> forall|i: int|
            0 <= i < chapters@.len() ==> !chapter_matches_spec(
                #[trigger] chapters@[i],
                spec_text@,
            ),
{
    let cs = str_to_chars(spec_text);
    proof {
        assert(cs@.subrange(0, cs@.len() as int) =~= spec_text@);
    }
    let parsed = crate::text::parse_u32_range(&cs, 0, cs.len());
    let key = norm_key(spec_text);
    let mut i: usize = 0;
    while i < chapters.len()
        invariant
            0 <= i <= chapters@.len(),
            parsed matches Some(n) ==> crate::text::is_u32_numeral(spec_text@)
                && crate::text::numeral_val(spec_text@) == n,
            parsed is None ==> !crate::text::is_u32_numeral(spec_text@),
            key@ == norm_fold(nfkd_of(spec_text@)),
            forall|j: int| 0 <= j < i ==> !chapter_matches_spec(
                #[trigger] chapters@[j],
                spec_text@,
            ),
        decreases chapters@.len() - i,
    {
        let c = &chapters[i];
        let hit = match parsed {
            Some(n) => c.id == n,
            None => {
                let ks = norm_key(c.name_simple.as_str());
                if ks == key {
                    true
                } else {
                    let kc = norm_key(c.name_complex.as_str());
                    kc == key
                }
            },
        };
        if hit {
            return Some(c);
        }
        i += 1;
    }
    None
}

/// Whether a reciter answers a lookup string: by id when the string is a
/// numeral, else by normalized-name containment either way round, or by an
/// exact style match.
pub open spec fn reciter_matches_spec(rc: Reciter, s: Seq<char>) -> bool {
    if crate::text::is_u32_numeral(s) {
        rc.id == crate::text::numeral_val(s)
    } else {
        let key = norm_fold(nfkd_of(s));
        let name = norm_fold(nfkd_of(rc.reciter_name@));
        let style = match rc.style {
            Some(st) => norm_fold(nfkd_of(st@)),
            None => Seq::<char>::empty(),
        };
        has_substring(name, key) || has_substring(key, name) || (style.len() > 0 && style == key)
    }
}

/// Finds the first reciter answering the lookup string: by id for a
/// numeral, else by key containment against the server's names or an
/// exact style match.
pub fn resolve_reciter<'a>(reciters: &'a Vec<Reciter>, spec_text: &str) -> (r: Option<
    &'a Reciter,
>)
    ensures
        r matches Some(rc) ==> exists|i: int|
            0 <= i < reciters@.len() && *rc == reciters@[i] && reciter_matches_spec(
                #[trigger] reciters@[i],
                spec_text@,
            ) && (forall|j: int| 0 <= j < i ==> !reciter_matches_spec(
                #[trigger] reciters@[j],
                spec_text@,
            )),
        r is None ==> forall|i: int|
            0 <= i < reciters@.len() ==> !reciter_matches_spec(
                #[trigger] reciters@[i],
                spec_text@,
            ),
{
    let cs = str_to_chars(spec_text);
    proof {
        assert(cs@.subrange(0, cs@.len() as int) =~= spec_text@);
    }
    let parsed = crate::text::parse_u32_range(&cs, 0, cs.len());
    let key = norm_key(spec_text);
    let key_cs = str_to_chars(key.as_str());
    let mut i: usize = 0;
    while i < reciters.len()
        invariant
            0 <= i <= reciters@.len(),
            parsed matches Some(n) ==> crate::text::is_u32_numeral(spec_text@)
                && crate::text::numeral_val(spec_text@) == n,
            parsed is None ==> !crate::text::is_u32_numeral(spec_text@),
            key@ == norm_fold(nfkd_of(spec_text@)),
            key_cs@ == key@,
            forall|j: int| 0 <= j < i ==> !reciter_matches_spec(
                #[trigger] reciters@[j],
                spec_text@,
            ),
        decreases reciters@.len() - i,
    {
        let rc = &reciters[i];
        let hit = match parsed {
            Some(n) => rc.id == n,
            None => {
                let name = norm_key(rc.reciter_name.as_str());
                let name_cs = str_to_chars(name.as_str());
                if contains_seq(&name_cs, &key_cs) || contains_seq(&key_cs, &name_cs) {
                    true
                } else {
                    match &rc.style {
                        Some(st) => {
                            let style = norm_key(st.as_str());
                            style.as_str().unicode_len() > 0 && style == key
                        },
                        None => false,
                    }
                }
            },
        };
        if hit {
            return Some(rc);
        }
        i += 1;
    }
    None
}

} // verus!
