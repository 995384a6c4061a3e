//! Small verified text utilities: decimal formatting with zero padding,
//! digit parsing, and building strings character by character.

use vstd::prelude::*;

verus! {

/// The character for one decimal digit value.
pub open spec fn digit_char(d: int) -> char {
    if d == 0 {
        '0'
    } else if d == 1 {
        '1'
    } else if d == 2 {
        '2'
    } else if d == 3 {
        '3'
    } else if d == 4 {
        '4'
    } else if d == 5 {
        '5'
    } else if d == 6 {
        '6'
    } else if d == 7 {
        '7'
    } else if d == 8 {
        '8'
    } else {
        '9'
    }
}

/// The usual decimal representation of `n`, most significant digit first,
/// with no leading zeros (a single `'0'` for zero).
pub open spec fn dec_digits(n: nat) -> Seq<char>
    decreases n,
{
    if n < 10 {
        seq![digit_char(n as int)]
    } else {
        dec_digits(n / 10).push(digit_char((n % 10) as int))
    }
}

/// Relies on String::push appending one character, as std documents.
#[verifier::external_body]
pub(crate) fn push_char(s: &mut String, c: char)
    ensures
        final(s)@ == old(s)@.push(c),
{
    s.push(c);
}

fn digit_char_exec(d: u32) -> (r: char)
    requires
        d < 10,
    ensures
        r == digit_char(d as int),
{
    if d == 0 {
        '0'
    } else if d == 1 {
        '1'
    } else if d == 2 {
        '2'
    } else if d == 3 {
        '3'
    } else if d == 4 {
        '4'
    } else if d == 5 {
        '5'
    } else if d == 6 {
        '6'
    } else if d == 7 {
        '7'
    } else if d == 8 {
        '8'
    } else {
        '9'
    }
}

/// Appends the decimal digits of `n` to `out`.
pub fn push_dec(out: &mut String, n: u32)
    ensures
        final(out)@ == old(out)@ + dec_digits(n as nat),
    decreases n,
{
    if n >= 10 {
        push_dec(out, n / 10);
        let c = digit_char_exec(n % 10);
        push_char(out, c);
        proof {
            assert(out@ =~= old(out)@ + dec_digits(n as nat));
        }
    } else {
        let c = digit_char_exec(n);
        push_char(out, c);
        proof {
            assert(out@ =~= old(out)@ + dec_digits(n as nat));
        }
    }
}

/// The decimal representation of `n` as a string.
pub fn dec_string(n: u32) -> (r: String)
    ensures
        r@ == dec_digits(n as nat),
{
    let mut s = String::new();
    push_dec(&mut s, n);
    proof {
        assert(s@ =~= dec_digits(n as nat));
    }
    s
}

/// Decimal representation zero-padded on the left to at least three digits.
pub open spec fn dec3_digits(n: nat) -> Seq<char> {
    let d = dec_digits(n);
    if d.len() >= 3 {
        d
    } else if d.len() == 2 {
        seq!['0'] + d
    } else {
        seq!['0', '0'] + d
    }
}

proof fn lemma_dec_digits_len(n: nat)
    ensures
        dec_digits(n).len() >= 1,
        n < 10 ==> dec_digits(n).len() == 1,
        10 <= n < 100 ==> dec_digits(n).len() == 2,
        n >= 100 ==> dec_digits(n).len() >= 3,
    decreases n,
{
    if n >= 10 {
        lemma_dec_digits_len(n / 10);
    }
}

/// Appends `n` zero-padded to at least three digits, as `{:03}` formatting does.
pub fn push_dec3(out: &mut String, n: u32)
    ensures
        final(out)@ == old(out)@ + dec3_digits(n as nat),
{
    proof {
        lemma_dec_digits_len(n as nat);
    }
    if n < 10 {
        push_char(out, '0');
        push_char(out, '0');
    } else if n < 100 {
        push_char(out, '0');
    }
    push_dec(out, n);
    proof {
        assert(out@ =~= old(out)@ + dec3_digits(n as nat));
    }
}

/// Reads a string into its characters.
pub fn str_to_chars(s: &str) -> (r: Vec<char>)
    ensures
        r@ == s@,
{
    let n = s.unicode_len();
    let mut r: Vec<char> = Vec::new();
    let mut i: usize = 0;
    while i < n
        invariant
            0 <= i <= n,
            n == s@.len(),
            r@ == s@.take(i as int),
        decreases n - i,
    {
        let c = s.get_char(i);
        r.push(c);
        i += 1;
        proof {
            assert(r@ =~= s@.take(i as int));
        }
    }
    proof {
        assert(s@.take(n as int) =~= s@);
    }
    r
}

/// Collects `cs[lo..hi]` back into a string.
pub(crate) fn range_to_string(cs: &Vec<char>, lo: usize, hi: usize) -> (r: String)
    requires
        lo <= hi <= cs@.len(),
    ensures
        r@ == cs@.subrange(lo as int, hi as int),
{
    let mut r = String::new();
    let mut i = lo;
    while i < hi
        invariant
            lo <= i <= hi <= cs@.len(),
            r@ == cs@.subrange(lo as int, i as int),
        decreases hi - i,
    {
        push_char(&mut r, cs[i]);
        i += 1;
        proof {
            assert(r@ =~= cs@.subrange(lo as int, i as int));
        }
    }
    r
}

} // verus!

verus! {

/// Whitespace that is ignored around selection tokens.
pub open spec fn is_space(c: char) -> bool {
    c == ' ' || c == '\t' || c == '\n' || c == '\r' || c == '\u{b}' || c == '\u{c}'
}

fn is_space_exec(c: char) -> (r: bool)
    ensures
        r == is_space(c),
{
    c == ' ' || c == '\t' || c == '\n' || c == '\r' || c == '\u{b}' || c == '\u{c}'
}

pub open spec fn trim_start(s: Seq<char>) -> Seq<char>
    decreases s.len(),
{
    if s.len() > 0 && is_space(s[0]) {
        trim_start(s.skip(1))
    } else {
        s
    }
}

pub open spec fn trim_end(s: Seq<char>) -> Seq<char>
    decreases s.len(),
{
    if s.len() > 0 && is_space(s.last()) {
        trim_end(s.drop_last())
    } else {
        s
    }
}

/// A token with its surrounding whitespace removed.
pub open spec fn trimmed(s: Seq<char>) -> Seq<char> {
    trim_end(trim_start(s))
}

proof fn lemma_trim_start_at(s: Seq<char>, j: int)
    requires
        0 <= j <= s.len(),
        forall|t: int| 0 <= t < j ==> is_space(s[t]),
        j < s.len() ==> !is_space(s[j]),
    ensures
        trim_start(s) == s.skip(j),
    decreases j,
{
    if j == 0 {
        assert(s.skip(0) =~= s);
    } else {
        lemma_trim_start_at(s.skip(1), j - 1);
        assert(s.skip(1).skip(j - 1) =~= s.skip(j));
    }
}

proof fn lemma_trim_end_at(s: Seq<char>, j: int)
    requires
        0 <= j <= s.len(),
        forall|t: int| j <= t < s.len() ==> is_space(s[t]),
        j > 0 ==> !is_space(s[j - 1]),
    ensures
        trim_end(s) == s.take(j),
    decreases s.len(),
{
    if j == s.len() {
        assert(s.take(j) =~= s);
    } else {
        assert(is_space(s.last()));
        lemma_trim_end_at(s.drop_last(), j);
        assert(s.drop_last().take(j) =~= s.take(j));
    }
}

/// Narrows `[lo, hi)` to the subrange that survives trimming.
pub(crate) fn trim_range(cs: &Vec<char>, lo: usize, hi: usize) -> (r: (usize, usize))
    requires
        lo <= hi <= cs@.len(),
    ensures
        lo <= r.0 <= r.1 <= hi,
        cs@.subrange(r.0 as int, r.1 as int) == trimmed(
            cs@.subrange(lo as int, hi as int),
        ),
{
    let ghost s = cs@.subrange(lo as int, hi as int);
    let mut a = lo;
    while a < hi && is_space_exec(cs[a])
        invariant
            lo <= a <= hi <= cs@.len(),
            forall|t: int| lo <= t < a ==> is_space(cs@[t]),
        decreases hi - a,
    {
        a += 1;
    }
    let mut b = hi;
    while b > a && is_space_exec(cs[b - 1])
        invariant
            a <= b <= hi <= cs@.len(),
            forall|t: int| b <= t < hi ==> is_space(cs@[t]),
        decreases b,
    {
        b -= 1;
    }
    proof {
        lemma_trim_start_at(s, a - lo);
        assert(trim_start(s) =~= cs@.subrange(a as int, hi as int));
        lemma_trim_end_at(cs@.subrange(a as int, hi as int), b - a);
        assert(cs@.subrange(a as int, hi as int).take(b - a) =~= cs@.subrange(
            a as int,
            b as int,
        ));
    }
    (a, b)
}

/// The value of one decimal digit character, `-1` for any other character.
pub open spec fn digit_val(c: char) -> int {
    if c == '0' {
        0
    } else if c == '1' {
        1
    } else if c == '2' {
        2
    } else if c == '3' {
        3
    } else if c == '4' {
        4
    } else if c == '5' {
        5
    } else if c == '6' {
        6
    } else if c == '7' {
        7
    } else if c == '8' {
        8
    } else if c == '9' {
        9
    } else {
        -1
    }
}

pub open spec fn is_digit_char(c: char) -> bool {
    digit_val(c) >= 0
}

pub open spec fn all_digits(s: Seq<char>) -> bool {
    forall|i: int| 0 <= i < s.len() ==> is_digit_char(s[i])
}

/// The number the digit string denotes, read left to right.
pub open spec fn digits_val(s: Seq<char>) -> int
    decreases s.len(),
{
    if s.len() == 0 {
        0
    } else {
        digits_val(s.drop_last()) * 10 + digit_val(s.last())
    }
}

/// The digits of a numeral, an optional leading plus sign allowed.
pub open spec fn numeral_body(s: Seq<char>) -> Seq<char> {
    if s.len() > 0 && s[0] == '+' {
        s.skip(1)
    } else {
        s
    }
}

/// Whether `s` is a numeral a 32-bit parse accepts.
pub open spec fn is_u32_numeral(s: Seq<char>) -> bool {
    let b = numeral_body(s);
    b.len() > 0 && all_digits(b) && digits_val(b) <= u32::MAX
}

/// The value of a numeral.
pub open spec fn numeral_val(s: Seq<char>) -> int {
    digits_val(numeral_body(s))
}

proof fn lemma_digits_val_nonneg(s: Seq<char>)
    requires
        all_digits(s),
    ensures
        digits_val(s) >= 0,
    decreases s.len(),
{
    if s.len() > 0 {
        assert(all_digits(s.drop_last()));
        lemma_digits_val_nonneg(s.drop_last());
    }
}

proof fn lemma_digits_exceed(b: Seq<char>, i: int)
    requires
        0 <= i < b.len(),
        all_digits(b.take(i)),
        is_digit_char(b[i]),
        digits_val(b.take(i)) * 10 + digit_val(b[i]) > u32::MAX,
    ensures
        all_digits(b) ==> digits_val(b) > u32::MAX,
{
    if all_digits(b) {
        lemma_digits_val_mono(b, i + 1);
        assert(b.take(i + 1).drop_last() =~= b.take(i));
        assert(b.take(i + 1).last() == b[i]);
        assert(digits_val(b.take(i + 1)) == digits_val(b.take(i)) * 10 + digit_val(b[i]));
    }
}

proof fn lemma_digits_val_mono(s: Seq<char>, i: int)
    requires
        0 <= i <= s.len(),
        all_digits(s),
    ensures
        digits_val(s.take(i)) <= digits_val(s),
    decreases s.len() - i,
{
    if i == s.len() {
        assert(s.take(i) =~= s);
    } else {
        lemma_digits_val_mono(s, i + 1);
        assert(s.take(i + 1).drop_last() =~= s.take(i));
        assert(all_digits(s.take(i)));
        lemma_digits_val_nonneg(s.take(i));
        assert(digits_val(s.take(i + 1)) == digits_val(s.take(i)) * 10 + digit_val(
            s.take(i + 1).last(),
        ));
        assert(is_digit_char(s[i]));
    }
}

fn digit_of(c: char) -> (r: Option<u32>)
    ensures
        r is Some <==> is_digit_char(c),
        r matches Some(d) ==> d == digit_val(c),
{
    if c == '0' {
        Some(0)
    } else if c == '1' {
        Some(1)
    } else if c == '2' {
        Some(2)
    } else if c == '3' {
        Some(3)
    } else if c == '4' {
        Some(4)
    } else if c == '5' {
        Some(5)
    } else if c == '6' {
        Some(6)
    } else if c == '7' {
        Some(7)
    } else if c == '8' {
        Some(8)
    } else if c == '9' {
        Some(9)
    } else {
        None
    }
}

/// Parses `cs[lo..hi]` the way a 32-bit unsigned parse does: an optional
/// leading plus sign, then at least one digit, the value fitting in 32
/// bits; anything else fails.
pub(crate) fn parse_u32_range(cs: &Vec<char>, lo: usize, hi: usize) -> (r: Option<u32>)
    requires
        lo <= hi <= cs@.len(),
    ensures
        ({
            let s = cs@.subrange(lo as int, hi as int);
            match r {
                Some(n) => is_u32_numeral(s) && numeral_val(s) == n,
                None => !is_u32_numeral(s),
            }
        }),
{
    let ghost s = cs@.subrange(lo as int, hi as int);
    let start = if hi > lo && cs[lo] == '+' {
        lo + 1
    } else {
        lo
    };
    proof {
        assert(cs@.subrange(start as int, hi as int) =~= numeral_body(s));
    }
    let ghost b = numeral_body(s);
    if start == hi {
        return None;
    }
    let mut acc: u32 = 0;
    let mut p = start;
    while p < hi
        invariant
            lo <= start <= p <= hi <= cs@.len(),
            b == cs@.subrange(start as int, hi as int),
            b == numeral_body(cs@.subrange(lo as int, hi as int)),
            all_digits(b.take(p - start)),
            acc == digits_val(b.take(p - start)),
        decreases hi - p,
    {
        let d = match digit_of(cs[p]) {
            Some(d) => d,
            None => {
                proof {
                    assert(b[p - start] == cs@[p as int]);
                    assert(!is_digit_char(b[p - start]));
                    assert(!all_digits(b)) by {
                        if all_digits(b) {
                            assert(is_digit_char(b[p - start]));
                        }
                    }
                    assert(!is_u32_numeral(cs@.subrange(lo as int, hi as int)));
                }
                return None;
            },
        };
        proof {
            assert(b.take(p - start + 1).drop_last() =~= b.take(p - start));
            assert(b.take(p - start + 1).last() == b[p - start]);
            assert(b[p - start] == cs@[p as int]);
        }
        if acc > (0xffff_ffffu32 - d) / 10 {
            proof {
                lemma_digits_val_nonneg(b.take(p - start));
                assert(acc * 10 + d > u32::MAX) by (nonlinear_arith)
                    requires
                        acc > (0xffff_ffffu32 - d) / 10,
                        d < 10,
                        acc >= 0,
                ;
                lemma_digits_exceed(b, p - start);
                assert(!is_u32_numeral(cs@.subrange(lo as int, hi as int)));
            }
            return None;
        }
        acc = acc * 10 + d;
        p += 1;
    }
    proof {
        assert(b.take(hi - start) =~= b);
        lemma_digits_val_nonneg(b);
    }
    Some(acc)
}

/// The index of the first occurrence of `ch` in `s`, or `s.len()`.
pub open spec fn find_char(s: Seq<char>, ch: char) -> int
    decreases s.len(),
{
    if s.len() == 0 {
        0
    } else if s[0] == ch {
        0
    } else {
        1 + find_char(s.skip(1), ch)
    }
}

pub proof fn lemma_find_char(s: Seq<char>, ch: char)
    ensures
        0 <= find_char(s, ch) <= s.len(),
        find_char(s, ch) < s.len() ==> s[find_char(s, ch)] == ch,
        forall|j: int| 0 <= j < find_char(s, ch) ==> s[j] != ch,
    decreases s.len(),
{
    if s.len() > 0 && s[0] != ch {
        lemma_find_char(s.skip(1), ch);
        assert forall|j: int| 0 <= j < find_char(s, ch) implies s[j] != ch by {
            if j > 0 {
                assert(s.skip(1)[j - 1] != ch);
            }
        }
    }
}

pub proof fn lemma_find_char_unique(s: Seq<char>, ch: char, k: int)
    requires
        0 <= k <= s.len(),
        forall|j: int| 0 <= j < k ==> s[j] != ch,
        k < s.len() ==> s[k] == ch,
    ensures
        find_char(s, ch) == k,
{
    lemma_find_char(s, ch);
    let f = find_char(s, ch);
    if f < k {
        assert(s[f] == ch);
        assert(s[f] != ch);
    }
    if k < f {
        assert(s[k] != ch);
        assert(s[k] == ch);
    }
}

/// Strictly increasing: sorted with no duplicates.
pub open spec fn sorted_unique(s: Seq<u32>) -> bool {
    forall|i: int, j: int| 0 <= i < j < s.len() ==> s[i] < s[j]
}

/// Inserts `x` into a strictly increasing vector, keeping it strictly
/// increasing; a value already present is left alone.
pub(crate) fn insert_sorted_unique(v: &mut Vec<u32>, x: u32)
    requires
        sorted_unique(old(v)@),
    ensures
        sorted_unique(final(v)@),
        forall|m: u32| final(v)@.contains(m) <==> (old(v)@.contains(m) || m == x),
{
    let mut i: usize = 0;
    while i < v.len() && v[i] < x
        invariant
            0 <= i <= v@.len(),
            v@ == old(v)@,
            forall|j: int| 0 <= j < i ==> v@[j] < x,
        decreases v@.len() - i,
    {
        i += 1;
    }
    if i < v.len() && v[i] == x {
        proof {
            assert(v@.contains(x));
            assert forall|m: u32| v@.contains(m) <==> (old(v)@.contains(m) || m == x) by {}
        }
        return ;
    }
    proof {
        assert(i < v@.len() ==> v@[i as int] > x);
    }
    v.insert(i, x);
    proof {
        assert forall|a: int, b: int| 0 <= a < b < v@.len() implies v@[a] < v@[b] by {
            if b < i {
            } else if a < i && b == i {
            } else if a < i && b > i {
                assert(v@[b] == old(v)@[b - 1]);
                assert(old(v)@[b - 1] >= x || old(v)@[b - 1] > x || true);
                if b - 1 == i as int - 1 {
                } else {
                    assert(old(v)@[i as int] > x || i as int >= old(v)@.len());
                }
            } else if a == i {
                assert(v@[b] == old(v)@[b - 1]);
            } else {
                assert(v@[a] == old(v)@[a - 1]);
                assert(v@[b] == old(v)@[b - 1]);
            }
        }
        assert forall|m: u32| v@.contains(m) implies (old(v)@.contains(m) || m == x) by {
            let idx = choose|idx: int| 0 <= idx < v@.len() && v@[idx] == m;
            if idx < i {
                assert(old(v)@[idx] == m);
            } else if idx == i {
            } else {
                assert(old(v)@[idx - 1] == m);
            }
        }
        assert forall|m: u32| (old(v)@.contains(m) || m == x) implies v@.contains(m) by {
            if m == x {
                assert(v@[i as int] == m);
            } else {
                let idx = choose|idx: int| 0 <= idx < old(v)@.len() && old(v)@[idx] == m;
                if idx < i {
                    assert(v@[idx] == m);
                } else {
                    assert(v@[idx + 1] == m);
                }
            }
        }
    }
}

/// The comma-separated pieces of `s`, in order; `n` commas give `n + 1`
/// pieces, empty pieces included.
pub open spec fn comma_split(s: Seq<char>) -> Seq<Seq<char>>
    decreases s.len(),
{
    if s.len() == 0 {
        seq![Seq::empty()]
    } else if s[0] == ',' {
        seq![Seq::empty()] + comma_split(s.skip(1))
    } else {
        let r = comma_split(s.skip(1));
        seq![seq![s[0]] + r[0]] + r.skip(1)
    }
}

pub proof fn lemma_comma_split_len(s: Seq<char>)
    ensures
        comma_split(s).len() >= 1,
    decreases s.len(),
{
    if s.len() > 0 {
        lemma_comma_split_len(s.skip(1));
    }
}

/// Splitting a string whose first comma stands at `k`: the piece before it,
/// then the pieces of what follows; a comma-free string is one piece.
pub proof fn lemma_comma_split_at(s: Seq<char>, k: int)
    requires
        0 <= k <= s.len(),
        forall|j: int| 0 <= j < k ==> s[j] != ',',
    ensures
        k < s.len() && s[k] == ',' ==> comma_split(s) == seq![s.take(k)] + comma_split(
            s.skip(k + 1),
        ),
        k == s.len() ==> comma_split(s) == seq![s],
    decreases k, s.len(),
{
    lemma_comma_split_len(s);
    if k == 0 {
        if 0 < s.len() && s[0] == ',' {
            assert(s.take(0) =~= Seq::<char>::empty());
            assert(seq![s.take(0)] + comma_split(s.skip(1)) =~= seq![Seq::<char>::empty()]
                + comma_split(s.skip(1)));
        } else if s.len() == 0 {
            assert(seq![s] =~~= seq![Seq::<char>::empty()]);
        }
    } else {
        assert(s[0] != ',');
        let r = comma_split(s.skip(1));
        lemma_comma_split_len(s.skip(1));
        lemma_comma_split_at(s.skip(1), k - 1);
        if k < s.len() && s[k] == ',' {
            assert(s.skip(1)[k - 1] == ',');
            assert(r == seq![s.skip(1).take(k - 1)] + comma_split(s.skip(1).skip(k)));
            assert(s.skip(1).skip(k) =~= s.skip(k + 1));
            assert(r[0] == s.skip(1).take(k - 1));
            assert(seq![s[0]] + s.skip(1).take(k - 1) =~= s.take(k));
            assert(r.skip(1) =~= comma_split(s.skip(k + 1)));
            assert(comma_split(s) =~= seq![s.take(k)] + comma_split(s.skip(k + 1)));
        } else if k == s.len() {
            assert(r == seq![s.skip(1)]);
            assert(seq![s[0]] + s.skip(1) =~= s);
            assert(comma_split(s) =~~= seq![s]);
        }
    }
}

} // verus!
