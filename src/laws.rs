//! Laws that relate the decoder's results to its input.
use crate::image::{binary_start, channel, decode_of, field, header_of, pixel_tokens, Encoding};
use crate::syntax::{
    blank_before, is_space, lemma_token_end, lemma_token_start, lemma_tokens_bounds, token_end,
    token_start, token_text, tokens,
};
use vstd::prelude::*;

verus! {

/// An image that decodes holds three bytes for each of its `width * height`
/// pixels.
pub proof fn decoded_pixel_count(s: Seq<u8>)
    requires
        decode_of(s) is Ok,
    ensures
        decode_of(s) matches Ok((_, w, h, _, px)) ==> px.len() == w * h * 3,
{
    lemma_tokens_bounds(s, 0);
}

/// An ASCII file decodes only if it holds exactly `3 * width * height` pixel
/// tokens; with too few or too many, decoding fails.
pub proof fn ascii_token_count(s: Seq<u8>)
    requires
        header_of(s) matches Ok((enc, _, _, _)) && enc == Encoding::Ascii,
    ensures
        header_of(s) matches Ok((_, w, h, _)) ==> {
            &&& decode_of(s) is Ok ==> pixel_tokens(s).len() == w * h * 3
            &&& pixel_tokens(s).len() != w * h * 3 ==> decode_of(s) is Err
            &&& decode_of(s) is Ok <==> (pixel_tokens(s).len() == w * h * 3 && forall|i: int|
                0 <= i < pixel_tokens(s).len() ==> #[trigger] channel(
                    token_text(s, pixel_tokens(s)[i]),
                ) is Some)
        },
{
}

/// A comment line inserted at the start of a line that comes before the last
/// header token changes nothing that decoding gives.
pub proof fn comment_line_transparent(s: Seq<u8>, k: int, c: Seq<u8>)
    requires
        0 <= k <= s.len(),
        line_start(s, k),
        is_comment_line(c),
        tokens(s, 0).len() >= 4 ==> k <= tokens(s, 0)[3].0,
    ensures
        decode_of(insert_at(s, k, c)) == decode_of(s),
{
    let t = insert_at(s, k, c);
    let l = c.len() as int;
    lemma_inserted(s, k, c);
    lemma_tokens_prefix(s, t, k, c, 0);
    lemma_tokens_bounds(s, 0);
    let ts = tokens(s, 0);
    let tt = tokens(t, 0);
    assert(tt.len() == ts.len());
    assert forall|i: int| 0 <= i < ts.len() implies token_text(t, #[trigger] tt[i]) == token_text(
        s,
        ts[i],
    ) by {
        if ts[i].0 < k {
            assert(tt[i] == ts[i]);
        } else {
            assert(tt[i] == (ts[i].0 + l, ts[i].1 + l));
        }
        assert(token_text(t, tt[i]) =~= token_text(s, ts[i]));
    }
    if ts.len() >= 1 {
        assert(field(t, 0) == field(s, 0));
    }
    if ts.len() >= 2 {
        assert(field(t, 1) == field(s, 1));
    }
    if ts.len() >= 3 {
        assert(field(t, 2) == field(s, 2));
    }
    if ts.len() >= 4 {
        assert(field(t, 3) == field(s, 3));
        assert(tt[3] == (ts[3].0 + l, ts[3].1 + l));
        assert(binary_start(t) == binary_start(s) + l);
    }
    assert(header_of(t) == header_of(s));
    if let Ok((enc, w, h, _)) = header_of(s) {
        let need = w * h * 3;
        if enc == Encoding::Binary {
            let p = binary_start(s);
            if s.len() - p >= need {
                assert(t.subrange(p + l, p + l + need) =~= s.subrange(p, p + need));
            }
        } else {
            let ps = pixel_tokens(s);
            let pt = pixel_tokens(t);
            assert forall|i: int| 0 <= i < ps.len() implies token_text(t, #[trigger] pt[i])
                == token_text(s, ps[i]) by {
                assert(pt[i] == tt[i + 4]);
                assert(ps[i] == ts[i + 4]);
            }
            assert(pt.len() == ps.len());
            if exists|i: int| 0 <= i < ps.len() && #[trigger] channel(token_text(s, ps[i])) is None {
                let i = choose|i: int| 0 <= i < ps.len() && #[trigger] channel(token_text(s, ps[i])) is None;
                assert(channel(token_text(t, pt[i])) is None);
            } else {
                assert forall|i: int| 0 <= i < pt.len() implies #[trigger] channel(token_text(t, pt[i])) is Some by {
                    assert(token_text(t, pt[i]) == token_text(s, ps[i]));
                    assert(channel(token_text(s, ps[i])) is Some);
                }
                if ps.len() == need {
                    assert forall|i: int| 0 <= i < need implies channel(token_text(t, pt[i]))
                        == #[trigger] channel(token_text(s, ps[i])) by {
                        assert(token_text(t, pt[i]) == token_text(s, ps[i]));
                    }
                    assert(Seq::new(need, |i: int| channel(token_text(t, pt[i])).unwrap())
                        =~= Seq::new(need, |i: int| channel(token_text(s, ps[i])).unwrap()));
                }
            }
        }
    }
}

/// `s` with `c` inserted at position `k`.
pub open spec fn insert_at(s: Seq<u8>, k: int, c: Seq<u8>) -> Seq<u8> {
    s.subrange(0, k) + c + s.subrange(k, s.len() as int)
}

/// `c` is one comment line: `#`, bytes other than a line feed, and a line feed.
pub open spec fn is_comment_line(c: Seq<u8>) -> bool {
    &&& c.len() >= 2
    &&& c[0] == 0x23
    &&& c.last() == 0x0a
    &&& forall|i: int| 0 < i < c.len() - 1 ==> #[trigger] c[i] != 0x0a
}

/// Position `k` starts a line of `s`.
pub open spec fn line_start(s: Seq<u8>, k: int) -> bool {
    k == 0 || (0 < k <= s.len() && s[k - 1] == 0x0a)
}

/// `t` is `s` with the comment line `c` inserted at the line start `k`.
spec fn inserted(s: Seq<u8>, t: Seq<u8>, k: int, c: Seq<u8>) -> bool {
    &&& 0 <= k <= s.len()
    &&& line_start(s, k)
    &&& is_comment_line(c)
    &&& t.len() == s.len() + c.len()
    &&& forall|i: int| 0 <= i < k ==> #[trigger] t[i] == s[i]
    &&& forall|i: int| 0 <= i < c.len() ==> t[k + i] == #[trigger] c[i]
    &&& forall|i: int| k <= i < s.len() ==> t[i + c.len()] == #[trigger] s[i]
}

/// Token positions of `s` carried over to `s` with `l` bytes inserted at `k`.
spec fn shift_from(ts: Seq<(int, int)>, k: int, l: int) -> Seq<(int, int)> {
    ts.map_values(|p: (int, int)| if p.0 < k { p } else { (p.0 + l, p.1 + l) })
}

proof fn lemma_inserted(s: Seq<u8>, k: int, c: Seq<u8>)
    requires
        0 <= k <= s.len(),
        line_start(s, k),
        is_comment_line(c),
    ensures
        inserted(s, insert_at(s, k, c), k, c),
{
    let t = insert_at(s, k, c);
    assert forall|i: int| 0 <= i < c.len() implies t[k + i] == #[trigger] c[i] by {
        assert(t[k + i] == (s.subrange(0, k) + c)[k + i]);
    }
    assert forall|i: int| k <= i < s.len() implies t[i + c.len()] == #[trigger] s[i] by {
        assert(t[i + c.len()] == s.subrange(k, s.len() as int)[i - k]);
    }
}

proof fn lemma_blank_prefix(s: Seq<u8>, t: Seq<u8>, k: int, c: Seq<u8>, j: int)
    requires
        inserted(s, t, k, c),
        0 <= j <= k,
    ensures
        blank_before(t, j) == blank_before(s, j),
    decreases j,
{
    if j > 0 {
        assert(t[j - 1] == s[j - 1]);
        lemma_blank_prefix(s, t, k, c, j - 1);
    }
}

proof fn lemma_blank_shift(s: Seq<u8>, t: Seq<u8>, k: int, c: Seq<u8>, j: int)
    requires
        inserted(s, t, k, c),
        k <= j <= s.len(),
    ensures
        blank_before(t, j + c.len()) == blank_before(s, j),
    decreases j,
{
    if j == k {
        assert(t[k + (c.len() - 1)] == c[c.len() - 1]);
    } else {
        assert(t[(j - 1) + c.len()] == s[j - 1]);
        lemma_blank_shift(s, t, k, c, j - 1);
    }
}

proof fn lemma_end_shift(s: Seq<u8>, t: Seq<u8>, k: int, c: Seq<u8>, j: int)
    requires
        inserted(s, t, k, c),
        k <= j <= s.len(),
    ensures
        token_end(t, j + c.len()) == token_end(s, j) + c.len(),
    decreases s.len() - j,
{
    if j < s.len() {
        assert(t[j + c.len()] == s[j]);
        lemma_end_shift(s, t, k, c, j + 1);
    }
}

proof fn lemma_start_shift(s: Seq<u8>, t: Seq<u8>, k: int, c: Seq<u8>, j: int, m: bool)
    requires
        inserted(s, t, k, c),
        k <= j <= s.len(),
    ensures
        token_start(t, j + c.len(), m) == token_start(s, j, m) + c.len(),
    decreases s.len() - j,
{
    if j < s.len() {
        assert(t[j + c.len()] == s[j]);
        lemma_blank_shift(s, t, k, c, j);
        lemma_start_shift(s, t, k, c, j + 1, s[j] != 0x0a);
        lemma_start_shift(s, t, k, c, j + 1, false);
        lemma_start_shift(s, t, k, c, j + 1, true);
    }
}

proof fn lemma_comment_skip(s: Seq<u8>, t: Seq<u8>, k: int, c: Seq<u8>, i: int)
    requires
        inserted(s, t, k, c),
        1 <= i <= c.len() - 1,
    ensures
        token_start(t, k + i, true) == token_start(t, k + c.len(), false),
    decreases c.len() - i,
{
    assert(t[k + i] == c[i]);
    if i < c.len() - 1 {
        lemma_comment_skip(s, t, k, c, i + 1);
    }
}

proof fn lemma_start_prefix(s: Seq<u8>, t: Seq<u8>, k: int, c: Seq<u8>, j: int, m: bool)
    requires
        inserted(s, t, k, c),
        0 <= j <= k,
        j == k ==> !m,
    ensures
        token_start(s, j, m) < k ==> token_start(t, j, m) == token_start(s, j, m),
        token_start(s, j, m) >= k ==> token_start(s, j, m) == token_start(s, k, false)
            && token_start(t, j, m) == token_start(s, k, false) + c.len(),
    decreases k - j,
{
    lemma_blank_prefix(s, t, k, c, j);
    if j == k {
        assert(t[k + 0] == c[0]);
        lemma_comment_skip(s, t, k, c, 1);
        lemma_start_shift(s, t, k, c, k, false);
        lemma_token_start(s, k, false);
    } else {
        assert(t[j] == s[j]);
        lemma_start_prefix(s, t, k, c, j + 1, s[j] != 0x0a);
        lemma_start_prefix(s, t, k, c, j + 1, false);
        if j + 1 < k {
            lemma_start_prefix(s, t, k, c, j + 1, true);
        }
    }
}

proof fn lemma_end_prefix(s: Seq<u8>, t: Seq<u8>, k: int, c: Seq<u8>, j: int)
    requires
        inserted(s, t, k, c),
        0 <= j < k,
    ensures
        token_end(t, j) == token_end(s, j),
        token_end(s, j) < k,
    decreases k - j,
{
    assert(t[j] == s[j]);
    if !is_space(s[j]) {
        lemma_end_prefix(s, t, k, c, j + 1);
    }
}

proof fn lemma_tokens_shift(s: Seq<u8>, t: Seq<u8>, k: int, c: Seq<u8>, j: int)
    requires
        inserted(s, t, k, c),
        k <= j <= s.len(),
    ensures
        tokens(t, j + c.len()) == shift_from(tokens(s, j), k, c.len() as int),
    decreases s.len() - j,
{
    let l = c.len() as int;
    let st = token_start(s, j, false);
    let e = token_end(s, st);
    lemma_token_start(s, j, false);
    lemma_token_end(s, st);
    lemma_start_shift(s, t, k, c, j, false);
    lemma_end_shift(s, t, k, c, st);
    if j < e && st < e && e <= s.len() {
        lemma_tokens_shift(s, t, k, c, e);
        assert(shift_from(tokens(s, j), k, l) =~= seq![(st + l, e + l)] + shift_from(
            tokens(s, e),
            k,
            l,
        ));
    } else {
        assert(shift_from(tokens(s, j), k, l) =~= Seq::<(int, int)>::empty());
    }
}

proof fn lemma_tokens_prefix(s: Seq<u8>, t: Seq<u8>, k: int, c: Seq<u8>, j: int)
    requires
        inserted(s, t, k, c),
        0 <= j <= k,
    ensures
        tokens(t, j) == shift_from(tokens(s, j), k, c.len() as int),
        forall|i: int|
            0 <= i < tokens(s, j).len() && #[trigger] tokens(s, j)[i].0 < k ==> tokens(s, j)[i].1
                < k,
    decreases k - j,
{
    let l = c.len() as int;
    let st = token_start(s, j, false);
    let e = token_end(s, st);
    lemma_token_start(s, j, false);
    lemma_token_end(s, st);
    lemma_start_prefix(s, t, k, c, j, false);
    if st < k {
        lemma_end_prefix(s, t, k, c, st);
        assert(!is_space(s[st]));
        lemma_token_end(s, st + 1);
        lemma_tokens_prefix(s, t, k, c, e);
        assert(shift_from(tokens(s, j), k, l) =~= seq![(st, e)] + shift_from(tokens(s, e), k, l));
        assert forall|i: int|
            0 <= i < tokens(s, j).len() && #[trigger] tokens(s, j)[i].0 < k implies tokens(
            s,
            j,
        )[i].1 < k by {
            if i > 0 {
                assert(tokens(s, j)[i] == tokens(s, e)[i - 1]);
            }
        }
    } else {
        lemma_end_shift(s, t, k, c, st);
        lemma_tokens_bounds(s, j);
        if st < s.len() {
            assert(!is_space(s[st]));
            lemma_token_end(s, st + 1);
            lemma_tokens_shift(s, t, k, c, e);
            lemma_tokens_bounds(s, e);
            assert(shift_from(tokens(s, j), k, l) =~= seq![(st + l, e + l)] + shift_from(
                tokens(s, e),
                k,
                l,
            ));
        } else {
            assert(shift_from(tokens(s, j), k, l) =~= Seq::<(int, int)>::empty());
        }
    }
}

} // verus!
