//! The decoded image, the decoder, and the conversion into packed RGB words.
use crate::syntax::{
    blank_before, decimal, next_token, parse_decimal, spans_view, token_text, tokens, tokens_from,
};
use rayon::iter::IntoParallelRefIterator;
use rayon::iter::ParallelIterator;
use rayon::slice::ParallelSlice;
use vstd::prelude::*;
use vstd::slice::{slice_subrange, slice_to_vec};
use vstd::string::StringExecFns;

verus! {

/// Why a file is not a decodable PPM image.
#[derive(Debug, Clone, Copy, PartialEq, Eq, Structural)]
pub enum DecodeError {
    /// Fewer than four header tokens.
    MissingField,
    /// The magic number is neither `P3` nor `P6`.
    UnsupportedFormat,
    /// Width, height or maximum value is not a number of its type.
    MalformedHeaderField,
    /// Fewer pixel bytes or tokens than the dimensions call for.
    TruncatedPayload,
    /// More ASCII pixel tokens than the dimensions call for.
    TrailingData,
    /// An ASCII pixel token that is not an integer in `0..=255`.
    InvalidPixelValue,
}

/// How the pixels are stored after the header.
#[derive(Debug, Clone, Copy, PartialEq, Eq, Structural)]
pub enum Encoding {
    /// `P3`: decimal numbers separated by whitespace.
    Ascii,
    /// `P6`: raw bytes.
    Binary,
}

/// A decoded image. `pixels` holds `width * height` RGB triples, row by row,
/// three bytes each.
pub struct Image {
    pub filename: String,
    pub magic_number: String,
    pub width: usize,
    pub height: usize,
    pub max_val: u16,
    pub pixels: Vec<u8>,
}

/// The packed word of one pixel: red in bits 16..24, green in 8..16, blue in 0..8.
pub open spec fn packed(r: u8, g: u8, b: u8) -> u32 {
    (r as int * 65536 + g as int * 256 + b as int) as u32
}

/// The encoding that a magic number names.
pub open spec fn encoding_of(m: Seq<u8>) -> Option<Encoding> {
    if m == seq![0x50u8, 0x33u8] {
        Some(Encoding::Ascii)
    } else if m == seq![0x50u8, 0x36u8] {
        Some(Encoding::Binary)
    } else {
        None
    }
}

/// The magic number of an encoding, as text.
pub open spec fn magic_text(e: Encoding) -> Seq<char> {
    match e {
        Encoding::Ascii => seq!['P', '3'],
        Encoding::Binary => seq!['P', '6'],
    }
}

/// The bytes of the `i`-th token of the file.
pub open spec fn field(s: Seq<u8>, i: int) -> Seq<u8> {
    token_text(s, tokens(s, 0)[i])
}

/// The header of a file: encoding, width, height and maximum value; or the
/// error that decoding it reports.
pub open spec fn header_of(s: Seq<u8>) -> Result<(Encoding, nat, nat, nat), DecodeError> {
    let n = tokens(s, 0).len();
    if n < 1 {
        Err(DecodeError::MissingField)
    } else if encoding_of(field(s, 0)) is None {
        Err(DecodeError::UnsupportedFormat)
    } else if n < 2 {
        Err(DecodeError::MissingField)
    } else if decimal(field(s, 1), usize::MAX as nat) is None {
        Err(DecodeError::MalformedHeaderField)
    } else if n < 3 {
        Err(DecodeError::MissingField)
    } else if decimal(field(s, 2), usize::MAX as nat) is None {
        Err(DecodeError::MalformedHeaderField)
    } else if n < 4 {
        Err(DecodeError::MissingField)
    } else if decimal(field(s, 3), u16::MAX as nat) is None {
        Err(DecodeError::MalformedHeaderField)
    } else {
        Ok(
            (
                encoding_of(field(s, 0)).unwrap(),
                decimal(field(s, 1), usize::MAX as nat).unwrap(),
                decimal(field(s, 2), usize::MAX as nat).unwrap(),
                decimal(field(s, 3), u16::MAX as nat).unwrap(),
            ),
        )
    }
}

/// Where the raw bytes of a binary file begin: after the fourth token and the
/// one whitespace byte that follows it.
pub open spec fn binary_start(s: Seq<u8>) -> int {
    let e = tokens(s, 0)[3].1;
    if e < s.len() {
        e + 1
    } else {
        e
    }
}

/// The pixel tokens of an ASCII file: every token after the header.
pub open spec fn pixel_tokens(s: Seq<u8>) -> Seq<(int, int)> {
    tokens(s, 0).skip(4)
}

/// The value of one ASCII pixel token.
pub open spec fn channel(t: Seq<u8>) -> Option<u8> {
    match decimal(t, 255) {
        Some(v) => Some(v as u8),
        None => None,
    }
}

/// The pixel bytes of a file whose header declared `enc`, `w` and `h`; or the
/// error that decoding them reports.
pub open spec fn pixels_of(s: Seq<u8>, enc: Encoding, w: nat, h: nat) -> Result<Seq<u8>, DecodeError> {
    let need = w * h * 3;
    match enc {
        Encoding::Binary => {
            let p = binary_start(s);
            if s.len() - p < need {
                Err(DecodeError::TruncatedPayload)
            } else {
                Ok(s.subrange(p, p + need))
            }
        },
        Encoding::Ascii => {
            let ts = pixel_tokens(s);
            if exists|i: int| 0 <= i < ts.len() && #[trigger] channel(token_text(s, ts[i])) is None {
                Err(DecodeError::InvalidPixelValue)
            } else if ts.len() < need {
                Err(DecodeError::TruncatedPayload)
            } else if ts.len() > need {
                Err(DecodeError::TrailingData)
            } else {
                Ok(Seq::new(need, |i: int| channel(token_text(s, ts[i])).unwrap()))
            }
        },
    }
}

/// What decoding the file `s` gives: encoding, width, height, maximum value
/// and pixel bytes; or the first error met.
pub open spec fn decode_of(s: Seq<u8>) -> Result<(Encoding, nat, nat, nat, Seq<u8>), DecodeError> {
    match header_of(s) {
        Err(e) => Err(e),
        Ok((enc, w, h, m)) => match pixels_of(s, enc, w, h) {
            Err(e) => Err(e),
            Ok(px) => Ok((enc, w, h, m, px)),
        },
    }
}

impl Image {
    /// The pixel bytes, three per pixel (red, green, blue), row by row.
    pub open spec fn pixel_data(&self) -> Seq<u8> {
        self.pixels@
    }

    /// A valid image: a known magic number, and three bytes for each pixel.
    pub open spec fn wf(&self) -> bool {
        &&& (self.magic_number@ == magic_text(Encoding::Ascii) || self.magic_number@ == magic_text(
            Encoding::Binary,
        ))
        &&& self.pixel_data().len() == self.width * self.height * 3
    }

    /// An image of the given parts.
    pub fn new(
        filename: String,
        magic_number: String,
        width: usize,
        height: usize,
        max_val: u16,
        pixels: Box<[u8]>,
    ) -> (r: Image)
        ensures
            r.filename == filename,
            r.magic_number == magic_number,
            r.width == width,
            r.height == height,
            r.max_val == max_val,
            r.pixel_data() == pixels@,
    {
        Image { filename, magic_number, width, height, max_val, pixels: pixels.into_vec() }
    }

    /// Decodes the contents `data` of a PPM file; `filename` labels the image.
    pub fn decode(filename: String, data: &[u8]) -> (r: Result<Image, DecodeError>)
        ensures
            match decode_of(data@) {
                Ok((enc, w, h, m, px)) => r matches Ok(img) && img.filename == filename
                    && img.magic_number@ == magic_text(enc) && img.width == w && img.height == h
                    && img.max_val == m && img.pixel_data() == px,
                Err(e) => r == Err::<Image, DecodeError>(e),
            },
            r matches Ok(img) ==> img.wf(),
    {
        let ghost s = data@;
        let ghost all = tokens(s, 0);
        assert(blank_before(s, 0));
        let (s0, e0) = next_token(data, 0, true);
        if s0 == data.len() {
            return Err(DecodeError::MissingField);
        }
        assert(all[0] == (s0 as int, e0 as int));
        assert(field(s, 0) =~= data@.subrange(s0 as int, e0 as int));
        let enc = if e0 - s0 == 2 && data[s0] == 0x50 && data[s0 + 1] == 0x33 {
            assert(field(s, 0) =~= seq![0x50u8, 0x33u8]);
            Encoding::Ascii
        } else if e0 - s0 == 2 && data[s0] == 0x50 && data[s0 + 1] == 0x36 {
            assert(field(s, 0) =~= seq![0x50u8, 0x36u8]);
            Encoding::Binary
        } else {
            proof {
                let f = field(s, 0);
                let a3 = seq![0x50u8, 0x33u8];
                let a6 = seq![0x50u8, 0x36u8];
                assert(a3.len() == 2 && a3[0] == 0x50 && a3[1] == 0x33);
                assert(a6.len() == 2 && a6[0] == 0x50 && a6[1] == 0x36);
                if f.len() == 2 {
                    assert(f[0] == data@[s0 as int]);
                    assert(f[1] == data@[s0 + 1]);
                }
                assert(f != a3);
                assert(f != a6);
            }
            return Err(DecodeError::UnsupportedFormat);
        };
        let (s1, e1) = next_token(data, e0, false);
        if s1 == data.len() {
            return Err(DecodeError::MissingField);
        }
        assert(all[1] == (s1 as int, e1 as int));
        let width = match parse_decimal(data, s1, e1, usize::MAX) {
            Some(v) => v,
            None => {
                return Err(DecodeError::MalformedHeaderField);
            },
        };
        let (s2, e2) = next_token(data, e1, false);
        if s2 == data.len() {
            return Err(DecodeError::MissingField);
        }
        assert(all[2] == (s2 as int, e2 as int));
        let height = match parse_decimal(data, s2, e2, usize::MAX) {
            Some(v) => v,
            None => {
                return Err(DecodeError::MalformedHeaderField);
            },
        };
        let (s3, e3) = next_token(data, e2, false);
        if s3 == data.len() {
            return Err(DecodeError::MissingField);
        }
        assert(all[3] == (s3 as int, e3 as int));
        let max_val = match parse_decimal(data, s3, e3, 0xffff) {
            Some(v) => v as u16,
            None => {
                return Err(DecodeError::MalformedHeaderField);
            },
        };
        assert(header_of(s) == Ok::<(Encoding, nat, nat, nat), DecodeError>(
            (enc, width as nat, height as nat, max_val as nat),
        ));
        let ghost need = width * height * 3;
        let pixels = match enc {
            Encoding::Binary => {
                let p = if e3 < data.len() {
                    e3 + 1
                } else {
                    e3
                };
                let n = match width.checked_mul(height) {
                    Some(wh) => wh.checked_mul(3),
                    None => None,
                };
                let n = match n {
                    Some(n) => n,
                    None => {
                        assert(need > usize::MAX) by (nonlinear_arith)
                            requires
                                need == width * height * 3,
                                width * height > usize::MAX || width * height * 3 > usize::MAX,
                        ;
                        return Err(DecodeError::TruncatedPayload);
                    },
                };
                if data.len() - p < n {
                    return Err(DecodeError::TruncatedPayload);
                }
                slice_to_vec(slice_subrange(data, p, p + n))
            },
            Encoding::Ascii => {
                let spans = tokens_from(data, e3, false);
                assert(spans_view(spans@) =~= pixel_tokens(s));
                let values = parse_channels(data, spans.as_slice());
                proof {
                    assert forall|j: int| 0 <= j < values@.len() implies #[trigger] values@[j]
                        == channel(token_text(s, pixel_tokens(s)[j])) by {
                        assert(spans_view(spans@)[j] == (spans@[j].0 as int, spans@[j].1 as int));
                    }
                }
                let mut px: Vec<u8> = Vec::new();
                let mut i: usize = 0;
                while i < values.len()
                    invariant
                        enc == Encoding::Ascii,
                        s == data@,
                        header_of(s) == Ok::<(Encoding, nat, nat, nat), DecodeError>(
                            (enc, width as nat, height as nat, max_val as nat),
                        ),
                        values@.len() == spans@.len(),
                        i <= values@.len(),
                        px@.len() == i,
                        spans_view(spans@) == pixel_tokens(s),
                        forall|j: int|
                            0 <= j < values@.len() ==> #[trigger] values@[j] == channel(
                                token_text(s, pixel_tokens(s)[j]),
                            ),
                        forall|j: int| 0 <= j < i ==> values@[j] == Some(#[trigger] px@[j]),
                    decreases values@.len() - i,
                {
                    match values[i] {
                        Some(v) => px.push(v),
                        None => {
                            let ghost ts = pixel_tokens(s);
                            assert(channel(token_text(s, ts[i as int])) is None);
                            assert(ts.len() == spans_view(spans@).len());
                            assert(pixels_of(s, enc, width as nat, height as nat) == Err::<
                                Seq<u8>,
                                DecodeError,
                            >(DecodeError::InvalidPixelValue));
                            return Err(DecodeError::InvalidPixelValue);
                        },
                    }
                    i += 1;
                }
                proof {
                    let ts = pixel_tokens(s);
                    assert forall|j: int| 0 <= j < ts.len() implies #[trigger] channel(
                        token_text(s, ts[j]),
                    ) is Some by {
                        assert(values@[j] == Some(px@[j]));
                    }
                    assert(!exists|j: int|
                        0 <= j < ts.len() && #[trigger] channel(token_text(s, ts[j])) is None);
                }
                let n = match width.checked_mul(height) {
                    Some(wh) => wh.checked_mul(3),
                    None => None,
                };
                match n {
                    Some(n) => {
                        if spans.len() < n {
                            return Err(DecodeError::TruncatedPayload);
                        } else if spans.len() > n {
                            return Err(DecodeError::TrailingData);
                        }
                    },
                    None => {
                        assert(need > usize::MAX) by (nonlinear_arith)
                            requires
                                need == width * height * 3,
                                width * height > usize::MAX || width * height * 3 > usize::MAX,
                        ;
                        return Err(DecodeError::TruncatedPayload);
                    },
                }
                assert(px@ =~= Seq::new(
                    need as nat,
                    |j: int| channel(token_text(s, pixel_tokens(s)[j])).unwrap(),
                ));
                px
            },
        };
        let magic_number = match enc {
            Encoding::Ascii => {
                proof {
                    reveal_strlit("P3");
                }
                String::from_str("P3")
            },
            Encoding::Binary => {
                proof {
                    reveal_strlit("P6");
                }
                String::from_str("P6")
            },
        };
        assert(magic_number@ =~= magic_text(enc));
        Ok(Image { filename, magic_number, width, height, max_val, pixels })
    }

    /// One packed word per pixel, in pixel order: `(r << 16) | (g << 8) | b`.
    pub fn to_minifb_buffer(&self) -> (r: Vec<u32>)
        requires
            self.wf(),
        ensures
            r@.len() == self.width * self.height,
            forall|i: int|
                0 <= i < r@.len() ==> #[trigger] r@[i] == packed(
                    self.pixel_data()[3 * i],
                    self.pixel_data()[3 * i + 1],
                    self.pixel_data()[3 * i + 2],
                ),
    {
        pack_triples(self.pixels.as_slice())
    }
}

/// Packs one RGB triple into the low 24 bits of a word.
pub fn pack_rgb(r: u8, g: u8, b: u8) -> (w: u32)
    ensures
        w == packed(r, g, b),
        w as int == r as int * 65536 + g as int * 256 + b as int,
{
    let (r32, g32, b32) = (r as u32, g as u32, b as u32);
    assert((r32 << 16u32) | (g32 << 8u32) | b32 == r32 * 65536 + g32 * 256 + b32) by (bit_vector)
        requires
            r32 < 256,
            g32 < 256,
            b32 < 256,
    ;
    (r32 << 16u32) | (g32 << 8u32) | b32
}

fn pack_triple(c: &[u8]) -> (w: u32)
    requires
        c@.len() == 3,
    ensures
        w == packed(c@[0], c@[1], c@[2]),
{
    pack_rgb(c[0], c[1], c[2])
}

/// The value of the pixel token `s[sp.0..sp.1]`.
fn channel_value(s: &[u8], sp: &(usize, usize)) -> (r: Option<u8>)
    requires
        sp.0 <= sp.1 <= s@.len(),
    ensures
        r == channel(s@.subrange(sp.0 as int, sp.1 as int)),
{
    match parse_decimal(s, sp.0, sp.1, 255) {
        Some(v) => Some(v as u8),
        None => None,
    }
}

/// Relies on rayon's `par_chunks(3)`, which hands out consecutive chunks of
/// three bytes when the length is a multiple of three, and on `collect` into
/// a `Vec`, which keeps the chunks' order.
#[verifier::external_body]
fn pack_triples(p: &[u8]) -> (r: Vec<u32>)
    requires
        p@.len() % 3 == 0,
    ensures
        r@.len() == p@.len() / 3,
        forall|i: int|
            0 <= i < r@.len() ==> #[trigger] r@[i] == packed(p@[3 * i], p@[3 * i + 1], p@[3 * i + 2]),
{
    p.par_chunks(3).map(|c| pack_triple(c)).collect()
}

/// Relies on rayon's `par_iter` over a slice and `collect` into a `Vec`: one
/// result for each span, in the order of the spans.
#[verifier::external_body]
fn parse_channels(s: &[u8], spans: &[(usize, usize)]) -> (r: Vec<Option<u8>>)
    requires
        forall|i: int| 0 <= i < spans@.len() ==> spans@[i].0 <= #[trigger] spans@[i].1 <= s@.len(),
    ensures
        r@.len() == spans@.len(),
        forall|i: int|
            0 <= i < r@.len() ==> #[trigger] r@[i] == channel(
                s@.subrange(spans@[i].0 as int, spans@[i].1 as int),
            ),
{
    spans.par_iter().map(|sp| channel_value(s, sp)).collect()
}

} // verus!
