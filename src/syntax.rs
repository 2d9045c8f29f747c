//! Byte-level syntax of a PPM file: whitespace, comment lines, tokens and
//! decimal numbers.
//!
//! A comment line is a line whose first byte that is not whitespace is `#`;
//! it runs to the end of its line. Tokens are the maximal runs of bytes that
//! are neither whitespace nor part of a comment line.
use vstd::prelude::*;

verus! {

/// ASCII whitespace: space, tab, line feed, vertical tab, form feed, carriage return.
pub open spec fn is_space(b: u8) -> bool {
    b == 0x20 || b == 0x09 || b == 0x0a || b == 0x0b || b == 0x0c || b == 0x0d
}

/// Only whitespace stands between the start of the line holding position `k` and `k`.
pub open spec fn blank_before(s: Seq<u8>, k: int) -> bool
    decreases k,
{
    if k <= 0 {
        true
    } else if s[k - 1] == 0x0a {
        true
    } else {
        is_space(s[k - 1]) && blank_before(s, k - 1)
    }
}

/// Where the next token starts when scanning from `k`, where `comment` tells
/// whether `k` lies inside a comment line; `s.len()` when no token is left.
pub open spec fn token_start(s: Seq<u8>, k: int, comment: bool) -> int
    decreases s.len() - k,
{
    if k >= s.len() {
        s.len() as int
    } else if comment {
        token_start(s, k + 1, s[k] != 0x0a)
    } else if is_space(s[k]) {
        token_start(s, k + 1, false)
    } else if s[k] == 0x23 && blank_before(s, k) {
        token_start(s, k + 1, true)
    } else {
        k
    }
}

/// The first whitespace position at or after `k`, or the end of `s`.
pub open spec fn token_end(s: Seq<u8>, k: int) -> int
    decreases s.len() - k,
{
    if k >= s.len() || is_space(s[k]) {
        k
    } else {
        token_end(s, k + 1)
    }
}

/// The tokens of `s` from position `k` on, each as its start and end position,
/// in order.
pub open spec fn tokens(s: Seq<u8>, k: int) -> Seq<(int, int)>
    decreases s.len() - k,
{
    let st = token_start(s, k, false);
    let e = token_end(s, st);
    if k < e && st < e && e <= s.len() {
        seq![(st, e)] + tokens(s, e)
    } else {
        Seq::empty()
    }
}

/// The bytes of a token.
pub open spec fn token_text(s: Seq<u8>, t: (int, int)) -> Seq<u8> {
    s.subrange(t.0, t.1)
}

/// Positions as mathematical integers.
pub open spec fn spans_view(v: Seq<(usize, usize)>) -> Seq<(int, int)> {
    v.map_values(|p: (usize, usize)| (p.0 as int, p.1 as int))
}

pub open spec fn is_digit(b: u8) -> bool {
    0x30 <= b <= 0x39
}

/// The value of a string of decimal digits.
pub open spec fn digits_value(t: Seq<u8>) -> nat
    decreases t.len(),
{
    if t.len() == 0 {
        0
    } else {
        digits_value(t.drop_last()) * 10 + (t.last() - 0x30) as nat
    }
}

/// The number that `t` spells in decimal, where `t` is a non-empty string of
/// digits whose value is at most `bound`.
pub open spec fn decimal(t: Seq<u8>, bound: nat) -> Option<nat> {
    if t.len() > 0 && (forall|i: int| 0 <= i < t.len() ==> is_digit(#[trigger] t[i]))
        && digits_value(t) <= bound {
        Some(digits_value(t))
    } else {
        None
    }
}

pub proof fn lemma_token_start(s: Seq<u8>, k: int, comment: bool)
    requires
        0 <= k <= s.len(),
    ensures
        k <= token_start(s, k, comment) <= s.len(),
        token_start(s, k, comment) < s.len() ==> !is_space(s[token_start(s, k, comment)]),
    decreases s.len() - k,
{
    if k < s.len() {
        lemma_token_start(s, k + 1, s[k] != 0x0a);
        lemma_token_start(s, k + 1, false);
        lemma_token_start(s, k + 1, true);
    }
}

pub proof fn lemma_token_end(s: Seq<u8>, k: int)
    requires
        0 <= k <= s.len(),
    ensures
        k <= token_end(s, k) <= s.len(),
        forall|j: int| k <= j < token_end(s, k) ==> !is_space(#[trigger] s[j]),
    decreases s.len() - k,
{
    if k < s.len() && !is_space(s[k]) {
        lemma_token_end(s, k + 1);
    }
}

/// Every token found from `k` lies between `k` and the end of `s`.
pub proof fn lemma_tokens_bounds(s: Seq<u8>, k: int)
    requires
        0 <= k <= s.len(),
    ensures
        forall|i: int|
            0 <= i < tokens(s, k).len() ==> k <= #[trigger] tokens(s, k)[i].0 < tokens(s, k)[i].1
                <= s.len(),
    decreases s.len() - k,
{
    let st = token_start(s, k, false);
    let e = token_end(s, st);
    lemma_token_start(s, k, false);
    lemma_token_end(s, st);
    if k < e && st < e && e <= s.len() {
        lemma_tokens_bounds(s, e);
        assert forall|i: int| 0 <= i < tokens(s, k).len() implies k <= #[trigger] tokens(
            s,
            k,
        )[i].0 < tokens(s, k)[i].1 <= s.len() by {
            if i > 0 {
                assert(tokens(s, k)[i] == tokens(s, e)[i - 1]);
            }
        }
    }
}

proof fn lemma_blank_after_token(s: Seq<u8>, e: int)
    requires
        0 < e <= s.len(),
        !is_space(s[e - 1]),
    ensures
        !blank_before(s, e),
{
}

proof fn lemma_digits_prefix(t: Seq<u8>, j: int)
    requires
        0 <= j <= t.len(),
    ensures
        digits_value(t.subrange(0, j)) <= digits_value(t),
    decreases t.len(),
{
    if j == t.len() {
        assert(t.subrange(0, j) =~= t);
    } else {
        lemma_digits_prefix(t.drop_last(), j);
        assert(t.drop_last().subrange(0, j) =~= t.subrange(0, j));
    }
}

pub fn is_space_byte(b: u8) -> (r: bool)
    ensures
        r == is_space(b),
{
    b == 0x20 || b == 0x09 || b == 0x0a || b == 0x0b || b == 0x0c || b == 0x0d
}

/// Skips whitespace and comment lines from `k`; `blank` tells whether only
/// whitespace precedes `k` on its line.
fn skip_to_token(s: &[u8], k: usize, blank: bool) -> (r: usize)
    requires
        k <= s@.len(),
        blank == blank_before(s@, k as int),
    ensures
        r as int == token_start(s@, k as int, false),
{
    let mut i: usize = k;
    let mut comment = false;
    let mut blank = blank;
    while i < s.len()
        invariant
            k <= i <= s@.len(),
            blank == blank_before(s@, i as int),
            token_start(s@, i as int, comment) == token_start(s@, k as int, false),
        decreases s@.len() - i,
    {
        let b = s[i];
        if comment {
            comment = b != 0x0a;
        } else if is_space_byte(b) {
        } else if b == 0x23 && blank {
            comment = true;
        } else {
            return i;
        }
        blank = b == 0x0a || (is_space_byte(b) && blank);
        i += 1;
    }
    i
}

fn find_token_end(s: &[u8], k: usize) -> (r: usize)
    requires
        k <= s@.len(),
    ensures
        r as int == token_end(s@, k as int),
{
    let mut i: usize = k;
    while i < s.len() && !is_space_byte(s[i])
        invariant
            k <= i <= s@.len(),
            token_end(s@, i as int) == token_end(s@, k as int),
        decreases s@.len() - i,
    {
        i += 1;
    }
    i
}

/// The next token at or after `k`, as its start and end; `(s.len(), s.len())`
/// when none is left. `blank` tells whether only whitespace precedes `k` on
/// its line.
pub fn next_token(s: &[u8], k: usize, blank: bool) -> (r: (usize, usize))
    requires
        k <= s@.len(),
        blank == blank_before(s@, k as int),
    ensures
        r.0 as int == token_start(s@, k as int, false),
        r.1 as int == token_end(s@, r.0 as int),
        k <= r.0 <= r.1 <= s@.len(),
        r.0 < s@.len() ==> r.0 < r.1 && !blank_before(s@, r.1 as int) && tokens(s@, k as int)
            == seq![(r.0 as int, r.1 as int)] + tokens(s@, r.1 as int),
        r.0 == s@.len() ==> r.1 == r.0 && tokens(s@, k as int) == Seq::<(int, int)>::empty(),
{
    let st = skip_to_token(s, k, blank);
    proof {
        lemma_token_start(s@, k as int, false);
    }
    let e = find_token_end(s, st);
    proof {
        lemma_token_end(s@, st as int);
        if st < s.len() {
            lemma_token_end(s@, st + 1);
            assert(!is_space(s@[e - 1]));
            lemma_blank_after_token(s@, e as int);
        }
    }
    (st, e)
}

/// All tokens from position `k` to the end of `s`.
pub fn tokens_from(s: &[u8], k: usize, blank: bool) -> (r: Vec<(usize, usize)>)
    requires
        k <= s@.len(),
        blank == blank_before(s@, k as int),
    ensures
        spans_view(r@) == tokens(s@, k as int),
        forall|i: int| 0 <= i < r@.len() ==> r@[i].0 <= #[trigger] r@[i].1 <= s@.len(),
{
    let mut out: Vec<(usize, usize)> = Vec::new();
    let mut pos = k;
    let mut blank = blank;
    loop
        invariant
            pos <= s@.len(),
            blank == blank_before(s@, pos as int),
            spans_view(out@) + tokens(s@, pos as int) == tokens(s@, k as int),
            forall|i: int| 0 <= i < out@.len() ==> out@[i].0 <= #[trigger] out@[i].1 <= s@.len(),
        decreases s@.len() - pos,
    {
        let (st, e) = next_token(s, pos, blank);
        if st == s.len() {
            assert(spans_view(out@) + tokens(s@, pos as int) =~= spans_view(out@));
            return out;
        }
        proof {
            let ghost old_out = out@;
            assert(spans_view(old_out.push((st, e))) =~= spans_view(old_out) + seq![(st as int, e as int)]);
            assert(spans_view(old_out) + seq![(st as int, e as int)] + tokens(s@, e as int)
                =~= spans_view(old_out) + (seq![(st as int, e as int)] + tokens(s@, e as int)));
        }
        out.push((st, e));
        pos = e;
        blank = false;
    }
}

/// The number spelled by the bytes `s[start..end]`, where they are decimal
/// digits whose value is at most `bound`.
pub fn parse_decimal(s: &[u8], start: usize, end: usize, bound: usize) -> (r: Option<usize>)
    requires
        start <= end <= s@.len(),
    ensures
        match decimal(s@.subrange(start as int, end as int), bound as nat) {
            Some(v) => r == Some(v as usize),
            None => r is None,
        },
{
    let ghost t = s@.subrange(start as int, end as int);
    if start == end {
        return None;
    }
    let mut acc: usize = 0;
    let mut i: usize = start;
    while i < end
        invariant
            start <= i <= end <= s@.len(),
            t == s@.subrange(start as int, end as int),
            acc as nat == digits_value(t.subrange(0, i - start)),
            acc <= bound,
            forall|j: int| 0 <= j < i - start ==> is_digit(#[trigger] t[j]),
        decreases end - i,
    {
        let b = s[i];
        if b < 0x30 || b > 0x39 {
            assert(!is_digit(t[i - start]));
            return None;
        }
        let d = (b - 0x30) as usize;
        let ghost next = t.subrange(0, i - start + 1);
        assert(next.drop_last() =~= t.subrange(0, i - start));
        assert(digits_value(next) == acc * 10 + d);
        if d > bound || acc > (bound - d) / 10 {
            proof {
                assert(acc * 10 + d > bound) by (nonlinear_arith)
                    requires
                        d > bound || acc > (bound - d) / 10,
                        d <= bound ==> bound - d >= 0,
                ;
                lemma_digits_prefix(t, i - start + 1);
            }
            return None;
        }
        assert(acc * 10 + d <= bound) by (nonlinear_arith)
            requires
                acc <= (bound - d) / 10,
                d <= bound,
        ;
        acc = acc * 10 + d;
        i += 1;
    }
    assert(t.subrange(0, end - start) =~= t);
    Some(acc)
}

} // verus!
