//! The wire format, as specification functions.
//!
//! An encoded sprite sheet is, in order: the three magic marker bytes, the
//! palette entry count (a palette-id field), the palette entries (four raw
//! RGBA bytes each, in ascending id order), the width and the derived
//! height (dimension fields), and the token stream. A token is either an
//! ordinary palette reference (one palette-id field) or a background run:
//! the reserved all-ones palette-id field followed by a one-byte run
//! length.
//!
//! [`spec_encoding`] gives the exact bytes an image encodes to;
//! [`spec_decode`] gives the exact outcome of decoding arbitrary bytes.
//! The executable codec in [`crate::codec`] is proved equal to these, and
//! [`crate::correctness`] relates the two to each other.

use vstd::prelude::*;

use crate::pixel::{spec_background, Pixel};
use crate::wire::{be_bytes, be_value, pow256};

verus! {

/// Typed failures of encoding and decoding.
#[derive(Clone, Copy, PartialEq, Eq, Structural, Debug)]
pub enum CodecError {
    /// The input does not begin with the magic marker.
    MagicMismatch,
    /// The input ended before the palette count could be read.
    TruncatedHeader,
    /// The input ended inside the palette table.
    TruncatedPalette,
    /// The input ended before width and height could be read.
    TruncatedDimensions,
    /// Width times height exceeds the addressable range.
    DimensionOverflow,
    /// The input ended before the declared pixel count was produced.
    TruncatedTokenStream,
    /// The input ended after a run marker, before its length byte.
    TruncatedRunLength,
    /// A token referenced a palette id at or past the palette size.
    InvalidPaletteReference,
    /// A run would produce more pixels than the declared image size.
    OverlongRun,
    /// Encoding only: more distinct non-background colors than the
    /// palette-id width can name.
    PaletteOverflow,
}

/// The three leading marker bytes of every encoding.
pub open spec fn spec_magic() -> Seq<u8> {
    seq![0xCAu8, 0xC1u8, 0xC7u8]
}

/// The palette of a pixel sequence: its distinct non-background colors,
/// in first-seen scan order. The id of a color is its index here.
pub open spec fn spec_palette(pixels: Seq<Pixel>) -> Seq<Pixel>
    decreases pixels.len(),
{
    if pixels.len() == 0 {
        Seq::empty()
    } else {
        let rest = spec_palette(pixels.drop_last());
        let p = pixels.last();
        if p.is_background() || rest.contains(p) {
            rest
        } else {
            rest.push(p)
        }
    }
}

/// Palette entries are pairwise distinct and never the background pixel.
pub proof fn lemma_palette_distinct(pixels: Seq<Pixel>)
    ensures
        forall|j: int, k: int|
            0 <= j < k < spec_palette(pixels).len() ==> #[trigger] spec_palette(pixels)[j]
                != #[trigger] spec_palette(pixels)[k],
        forall|k: int|
            0 <= k < spec_palette(pixels).len() ==> !(#[trigger] spec_palette(
                pixels,
            )[k]).is_background(),
    decreases pixels.len(),
{
    if pixels.len() > 0 {
        lemma_palette_distinct(pixels.drop_last());
        let rest = spec_palette(pixels.drop_last());
        let p = pixels.last();
        if !p.is_background() && !rest.contains(p) {
            assert(forall|j: int| 0 <= j < rest.len() ==> #[trigger] rest[j] != p);
        }
    }
}

/// A color occurs at only one palette index, so that index is its id.
pub proof fn lemma_palette_index_unique(pixels: Seq<Pixel>, id: int, p: Pixel)
    requires
        0 <= id < spec_palette(pixels).len(),
        spec_palette(pixels)[id] == p,
    ensures
        spec_palette(pixels).index_of(p) == id,
{
    lemma_palette_distinct(pixels);
    let pal = spec_palette(pixels);
    assert(pal.contains(p)) by {
        assert(pal[id] == p);
    };
    let j = pal.index_of(p);
    assert(0 <= j < pal.len() && pal[j] == p);
    if j < id {
        assert(spec_palette(pixels)[j] != spec_palette(pixels)[id]);
        assert(false);
    }
    if id < j {
        assert(spec_palette(pixels)[id] != spec_palette(pixels)[j]);
        assert(false);
    }
}

/// Every non-background pixel of the buffer appears in its palette.
pub proof fn lemma_palette_contains(pixels: Seq<Pixel>, i: int)
    requires
        0 <= i < pixels.len(),
        !pixels[i].is_background(),
    ensures
        spec_palette(pixels).contains(pixels[i]),
    decreases pixels.len(),
{
    let rest = spec_palette(pixels.drop_last());
    let p = pixels.last();
    if i == pixels.len() - 1 {
        if !p.is_background() && !rest.contains(p) {
            assert(spec_palette(pixels).last() == p);
        }
    } else {
        lemma_palette_contains(pixels.drop_last(), i);
        let j = choose|j: int| 0 <= j < rest.len() && rest[j] == pixels[i];
        if p.is_background() || rest.contains(p) {
        } else {
            assert(spec_palette(pixels)[j] == pixels[i]);
        }
    }
}

/// The palette of a prefix of the buffer is a prefix of the palette of
/// the whole buffer.
pub proof fn lemma_palette_take_prefix(pixels: Seq<Pixel>, i: int)
    requires
        0 <= i <= pixels.len(),
    ensures
        spec_palette(pixels.take(i)).len() <= spec_palette(pixels).len(),
        spec_palette(pixels.take(i)) =~= spec_palette(pixels).subrange(
            0,
            spec_palette(pixels.take(i)).len() as int,
        ),
    decreases pixels.len() - i,
{
    if i == pixels.len() {
        assert(pixels.take(i) =~= pixels);
    } else {
        lemma_palette_take_prefix(pixels, i + 1);
        let cur = spec_palette(pixels.take(i));
        let next = spec_palette(pixels.take(i + 1));
        assert(pixels.take(i + 1).drop_last() =~= pixels.take(i));
        assert(pixels.take(i + 1).last() == pixels[i]);
        let p = pixels[i];
        if p.is_background() || cur.contains(p) {
            assert(next == cur);
        } else {
            assert(next == cur.push(p));
            assert(cur =~= next.subrange(0, cur.len() as int));
        }
    }
}

/// One unit of the encoded pixel stream.
pub enum Token {
    /// An ordinary palette reference.
    Index(nat),
    /// A run of background pixels; the count is between 1 and 255.
    Run(nat),
}

/// The token stream for `pixels`, entered with `run` background pixels
/// already pending. A pending run is flushed before any ordinary token,
/// when it saturates the one-byte counter at 255, and at the end of the
/// scan; runs of zero are never emitted.
pub open spec fn spec_tokens(pixels: Seq<Pixel>, palette: Seq<Pixel>, run: nat) -> Seq<Token>
    decreases pixels.len(),
{
    if pixels.len() == 0 {
        if run == 0 {
            Seq::empty()
        } else {
            seq![Token::Run(run)]
        }
    } else {
        let p = pixels.first();
        let rest = pixels.drop_first();
        if p.is_background() {
            if run == 255 {
                seq![Token::Run(255)] + spec_tokens(rest, palette, 1)
            } else {
                spec_tokens(rest, palette, run + 1)
            }
        } else {
            let flushed = if run == 0 {
                Seq::<Token>::empty()
            } else {
                seq![Token::Run(run)]
            };
            flushed + seq![Token::Index(palette.index_of(p) as nat)] + spec_tokens(
                rest,
                palette,
                0,
            )
        }
    }
}

/// How many pixels one token produces.
pub open spec fn spec_token_count(t: Token) -> nat {
    match t {
        Token::Index(_) => 1,
        Token::Run(n) => n,
    }
}

/// How many pixels a token stream produces.
pub open spec fn spec_stream_pixel_count(ts: Seq<Token>) -> nat
    decreases ts.len(),
{
    if ts.len() == 0 {
        0
    } else {
        spec_token_count(ts.first()) + spec_stream_pixel_count(ts.drop_first())
    }
}

/// What the encoder guarantees of every token it emits: run lengths are
/// between 1 and 255 and palette references are in range.
pub open spec fn spec_token_wf(t: Token, palette: Seq<Pixel>) -> bool {
    match t {
        Token::Index(i) => i < palette.len(),
        Token::Run(n) => 1 <= n <= 255,
    }
}

pub proof fn lemma_pixel_count_concat(a: Seq<Token>, b: Seq<Token>)
    ensures
        spec_stream_pixel_count(a + b) == spec_stream_pixel_count(a) + spec_stream_pixel_count(
            b,
        ),
    decreases a.len(),
{
    if a.len() == 0 {
        assert(a + b =~= b);
    } else {
        assert((a + b).drop_first() =~= a.drop_first() + b);
        lemma_pixel_count_concat(a.drop_first(), b);
    }
}

/// Every token the encoder emits is well formed, and the stream
/// produces exactly the pending run plus one pixel per buffer entry.
pub proof fn lemma_tokens_wf(pixels: Seq<Pixel>, palette: Seq<Pixel>, run: nat)
    requires
        run <= 255,
        forall|k: int|
            0 <= k < pixels.len() && !(#[trigger] pixels[k]).is_background() ==> palette.contains(
                pixels[k],
            ),
    ensures
        forall|k: int|
            0 <= k < spec_tokens(pixels, palette, run).len() ==> spec_token_wf(
                #[trigger] spec_tokens(pixels, palette, run)[k],
                palette,
            ),
        spec_stream_pixel_count(spec_tokens(pixels, palette, run)) == run + pixels.len(),
    decreases pixels.len(),
{
    reveal_with_fuel(spec_stream_pixel_count, 3);
    if pixels.len() == 0 {
        if run > 0 {
            assert(seq![Token::Run(run)].drop_first() =~= Seq::<Token>::empty());
        }
    } else {
        let p = pixels.first();
        let rest = pixels.drop_first();
        assert(pixels[0] == p);
        assert(forall|k: int|
            0 <= k < rest.len() && !(#[trigger] rest[k]).is_background() ==> palette.contains(
                rest[k],
            )) by {
            assert(forall|k: int| 0 <= k < rest.len() ==> rest[k] == #[trigger] pixels[k + 1]);
        };
        if p.is_background() {
            if run == 255 {
                lemma_tokens_wf(rest, palette, 1);
                let tr = spec_tokens(rest, palette, 1);
                let ts = seq![Token::Run(255)] + tr;
                assert(spec_tokens(pixels, palette, run) == ts);
                lemma_pixel_count_concat(seq![Token::Run(255)], tr);
                assert(forall|k: int|
                    0 <= k < ts.len() ==> spec_token_wf(#[trigger] ts[k], palette)) by {
                    assert(forall|k: int| 1 <= k < ts.len() ==> ts[k] == #[trigger] tr[k - 1]);
                    assert(ts[0] == Token::Run(255));
                };
            } else {
                lemma_tokens_wf(rest, palette, run + 1);
            }
        } else {
            assert(palette.contains(p));
            let idx = palette.index_of(p);
            assert(0 <= idx < palette.len() && palette[idx] == p);
            lemma_tokens_wf(rest, palette, 0);
            let tr = spec_tokens(rest, palette, 0);
            let flushed = if run == 0 {
                Seq::<Token>::empty()
            } else {
                seq![Token::Run(run)]
            };
            let ixt = seq![Token::Index(idx as nat)];
            let ts = flushed + ixt + tr;
            assert(spec_tokens(pixels, palette, run) == ts);
            lemma_pixel_count_concat(flushed + ixt, tr);
            lemma_pixel_count_concat(flushed, ixt);
            assert(forall|k: int| 0 <= k < ts.len() ==> spec_token_wf(#[trigger] ts[k], palette))
                by {
                let fl = flushed.len() as int;
                assert(forall|k: int| fl + 1 <= k < ts.len() ==> ts[k] == #[trigger] tr[k - fl
                    - 1]);
                assert(ts[fl] == Token::Index(idx as nat));
                if run > 0 {
                    assert(ts[0] == Token::Run(run));
                }
            };
        }
    }
}

/// The bytes of one token: a palette reference is one palette-id field;
/// a run is the reserved all-ones field followed by the count byte.
pub open spec fn spec_token_bytes(t: Token, pw: nat) -> Seq<u8> {
    match t {
        Token::Index(i) => be_bytes(i, pw),
        Token::Run(n) => be_bytes((pow256(pw) - 1) as nat, pw).push(n as u8),
    }
}

/// The bytes of a token stream.
pub open spec fn spec_stream_bytes(ts: Seq<Token>, pw: nat) -> Seq<u8>
    decreases ts.len(),
{
    if ts.len() == 0 {
        Seq::empty()
    } else {
        spec_token_bytes(ts.first(), pw) + spec_stream_bytes(ts.drop_first(), pw)
    }
}

/// Token serialization distributes over concatenation.
pub proof fn lemma_stream_bytes_concat(a: Seq<Token>, b: Seq<Token>, pw: nat)
    ensures
        spec_stream_bytes(a + b, pw) == spec_stream_bytes(a, pw) + spec_stream_bytes(b, pw),
    decreases a.len(),
{
    if a.len() == 0 {
        assert(a + b =~= b);
        assert(spec_stream_bytes(a, pw) + spec_stream_bytes(b, pw) =~= spec_stream_bytes(b, pw));
    } else {
        assert((a + b).drop_first() =~= a.drop_first() + b);
        lemma_stream_bytes_concat(a.drop_first(), b, pw);
        assert(spec_token_bytes(a.first(), pw) + (spec_stream_bytes(a.drop_first(), pw)
            + spec_stream_bytes(b, pw)) =~= (spec_token_bytes(a.first(), pw) + spec_stream_bytes(
            a.drop_first(),
            pw,
        )) + spec_stream_bytes(b, pw));
    }
}

pub proof fn lemma_stream_bytes_singleton(t: Token, pw: nat)
    ensures
        spec_stream_bytes(seq![t], pw) == spec_token_bytes(t, pw),
{
    reveal_with_fuel(spec_stream_bytes, 3);
    assert(seq![t].drop_first() =~= Seq::<Token>::empty());
    assert(seq![t].first() == t);
    assert(spec_token_bytes(t, pw) + Seq::<u8>::empty() =~= spec_token_bytes(t, pw));
}

/// A background pixel below the counter limit only extends the pending
/// run.
pub proof fn lemma_tokens_step_bg(pixels: Seq<Pixel>, palette: Seq<Pixel>, i: int, run: nat)
    requires
        0 <= i < pixels.len(),
        pixels[i].is_background(),
        run < 255,
    ensures
        spec_tokens(pixels.skip(i), palette, run) == spec_tokens(
            pixels.skip(i + 1),
            palette,
            run + 1,
        ),
{
    assert(pixels.skip(i).first() == pixels[i]);
    assert(pixels.skip(i).drop_first() =~= pixels.skip(i + 1));
}

/// A background pixel at a saturated counter flushes a run of 255 and
/// starts a fresh run of one.
pub proof fn lemma_tokens_step_bg_flush(pixels: Seq<Pixel>, palette: Seq<Pixel>, i: int, pw: nat)
    requires
        0 <= i < pixels.len(),
        pixels[i].is_background(),
    ensures
        spec_stream_bytes(spec_tokens(pixels.skip(i), palette, 255), pw) == spec_token_bytes(
            Token::Run(255),
            pw,
        ) + spec_stream_bytes(spec_tokens(pixels.skip(i + 1), palette, 1), pw),
{
    assert(pixels.skip(i).first() == pixels[i]);
    assert(pixels.skip(i).drop_first() =~= pixels.skip(i + 1));
    lemma_stream_bytes_concat(
        seq![Token::Run(255)],
        spec_tokens(pixels.skip(i + 1), palette, 1),
        pw,
    );
    lemma_stream_bytes_singleton(Token::Run(255), pw);
}

/// An ordinary pixel flushes any pending run and emits its palette
/// reference.
pub proof fn lemma_tokens_step_color(
    pixels: Seq<Pixel>,
    palette: Seq<Pixel>,
    i: int,
    run: nat,
    pw: nat,
)
    requires
        0 <= i < pixels.len(),
        !pixels[i].is_background(),
    ensures
        spec_stream_bytes(spec_tokens(pixels.skip(i), palette, run), pw) == (if run == 0 {
            Seq::<u8>::empty()
        } else {
            spec_token_bytes(Token::Run(run), pw)
        }) + spec_token_bytes(Token::Index(palette.index_of(pixels[i]) as nat), pw)
            + spec_stream_bytes(spec_tokens(pixels.skip(i + 1), palette, 0), pw),
{
    assert(pixels.skip(i).first() == pixels[i]);
    assert(pixels.skip(i).drop_first() =~= pixels.skip(i + 1));
    let p = pixels[i];
    let flushed = if run == 0 {
        Seq::<Token>::empty()
    } else {
        seq![Token::Run(run)]
    };
    let ix = seq![Token::Index(palette.index_of(p) as nat)];
    let rest = spec_tokens(pixels.skip(i + 1), palette, 0);
    assert(spec_tokens(pixels.skip(i), palette, run) == flushed + ix + rest);
    lemma_stream_bytes_concat(flushed + ix, rest, pw);
    lemma_stream_bytes_concat(flushed, ix, pw);
    lemma_stream_bytes_singleton(Token::Index(palette.index_of(p) as nat), pw);
    if run == 0 {
        assert(spec_stream_bytes(flushed, pw) =~= Seq::<u8>::empty());
        assert(Seq::<u8>::empty() + spec_token_bytes(
            Token::Index(palette.index_of(p) as nat),
            pw,
        ) =~= spec_token_bytes(Token::Index(palette.index_of(p) as nat), pw));
    } else {
        lemma_stream_bytes_singleton(Token::Run(run), pw);
    }
}

/// The palette table bytes: each entry as its four channel bytes.
pub open spec fn spec_palette_bytes(palette: Seq<Pixel>) -> Seq<u8>
    decreases palette.len(),
{
    if palette.len() == 0 {
        Seq::empty()
    } else {
        let p = palette.first();
        seq![p.r, p.g, p.b, p.a] + spec_palette_bytes(palette.drop_first())
    }
}

/// Palette serialization distributes over concatenation.
pub proof fn lemma_palette_bytes_concat(a: Seq<Pixel>, b: Seq<Pixel>)
    ensures
        spec_palette_bytes(a + b) == spec_palette_bytes(a) + spec_palette_bytes(b),
    decreases a.len(),
{
    if a.len() == 0 {
        assert(a + b =~= b);
        assert(spec_palette_bytes(a) + spec_palette_bytes(b) =~= spec_palette_bytes(b));
    } else {
        assert((a + b).drop_first() =~= a.drop_first() + b);
        lemma_palette_bytes_concat(a.drop_first(), b);
        let p = a.first();
        assert(seq![p.r, p.g, p.b, p.a] + (spec_palette_bytes(a.drop_first())
            + spec_palette_bytes(b)) =~= (seq![p.r, p.g, p.b, p.a] + spec_palette_bytes(
            a.drop_first(),
        )) + spec_palette_bytes(b));
    }
}

/// The palette table takes four bytes per entry.
pub proof fn lemma_palette_bytes_len(palette: Seq<Pixel>)
    ensures
        spec_palette_bytes(palette).len() == 4 * palette.len(),
    decreases palette.len(),
{
    if palette.len() > 0 {
        lemma_palette_bytes_len(palette.drop_first());
    }
}

pub proof fn lemma_palette_bytes_singleton(p: Pixel)
    ensures
        spec_palette_bytes(seq![p]) == seq![p.r, p.g, p.b, p.a],
{
    reveal_with_fuel(spec_palette_bytes, 3);
    assert(seq![p].drop_first() =~= Seq::<Pixel>::empty());
    assert(seq![p].first() == p);
    assert(seq![p.r, p.g, p.b, p.a] + Seq::<u8>::empty() =~= seq![p.r, p.g, p.b, p.a]);
}

/// Height derived from the pixel count and the width; zero when the
/// width is zero.
pub open spec fn spec_height(width: nat, len: nat) -> nat {
    if width == 0 {
        0
    } else {
        len / width
    }
}

/// The encoding of an image of declared width `width` and pixel buffer
/// `pixels`, with `dw`-byte dimension fields and `pw`-byte palette-id
/// fields.
pub open spec fn spec_encoding(width: nat, pixels: Seq<Pixel>, dw: nat, pw: nat) -> Seq<u8> {
    let palette = spec_palette(pixels);
    spec_magic() + be_bytes(palette.len(), pw) + spec_palette_bytes(palette) + be_bytes(width, dw)
        + be_bytes(spec_height(width, pixels.len()), dw) + spec_stream_bytes(
        spec_tokens(pixels, palette, 0),
        pw,
    )
}

/// What a successful decode denotes: the declared width and the
/// reassembled pixel buffer.
pub struct DecodedImage {
    pub width: nat,
    pub pixels: Seq<Pixel>,
}

/// The first `count` palette entries read from `d`, four bytes each.
pub open spec fn spec_parse_palette(d: Seq<u8>, count: nat) -> Seq<Pixel>
    decreases count,
{
    if count == 0 {
        Seq::empty()
    } else {
        seq![(Pixel { r: d[0], g: d[1], b: d[2], a: d[3] })] + spec_parse_palette(
            d.skip(4),
            (count - 1) as nat,
        )
    }
}

pub proof fn lemma_parse_palette_len(d: Seq<u8>, count: nat)
    ensures
        spec_parse_palette(d, count).len() == count,
    decreases count,
{
    if count > 0 {
        lemma_parse_palette_len(d.skip(4), (count - 1) as nat);
    }
}

/// Entry `k` of the parsed palette is read from bytes `4k..4k+4`.
pub proof fn lemma_parse_palette_index(d: Seq<u8>, count: nat, k: int)
    requires
        0 <= k < count,
        4 * count <= d.len(),
    ensures
        spec_parse_palette(d, count)[k] == (Pixel {
            r: d[4 * k],
            g: d[4 * k + 1],
            b: d[4 * k + 2],
            a: d[4 * k + 3],
        }),
    decreases count,
{
    lemma_parse_palette_len(d.skip(4), (count - 1) as nat);
    if k > 0 {
        lemma_parse_palette_index(d.skip(4), (count - 1) as nat, k - 1);
        assert(d.skip(4)[4 * (k - 1)] == d[4 * k]);
        assert(d.skip(4)[4 * (k - 1) + 1] == d[4 * k + 1]);
        assert(d.skip(4)[4 * (k - 1) + 2] == d[4 * k + 2]);
        assert(d.skip(4)[4 * (k - 1) + 3] == d[4 * k + 3]);
    }
}

/// A run of `n` background pixels.
pub open spec fn spec_bg_run(n: nat) -> Seq<Pixel> {
    Seq::new(n, |i: int| spec_background())
}

/// Decoding of the token stream `d`: reads tokens until exactly `need`
/// pixels are produced, then ignores whatever bytes remain.
pub open spec fn spec_decode_tokens(d: Seq<u8>, palette: Seq<Pixel>, pw: nat, need: nat) -> Result<
    Seq<Pixel>,
    CodecError,
>
    decreases d.len(), need,
{
    if need == 0 {
        Ok(Seq::empty())
    } else if d.len() < pw {
        Err(CodecError::TruncatedTokenStream)
    } else {
        let id = be_value(d.take(pw as int));
        let d1 = d.skip(pw as int);
        if id == pow256(pw) - 1 {
            if d1.len() < 1 {
                Err(CodecError::TruncatedRunLength)
            } else {
                let n = d1.first() as nat;
                let d2 = d1.drop_first();
                if n > need {
                    Err(CodecError::OverlongRun)
                } else {
                    match spec_decode_tokens(d2, palette, pw, (need - n) as nat) {
                        Ok(rest) => Ok(spec_bg_run(n) + rest),
                        Err(e) => Err(e),
                    }
                }
            }
        } else {
            if id >= palette.len() {
                Err(CodecError::InvalidPaletteReference)
            } else {
                match spec_decode_tokens(d1, palette, pw, (need - 1) as nat) {
                    Ok(rest) => Ok(seq![palette[id as int]] + rest),
                    Err(e) => Err(e),
                }
            }
        }
    }
}

/// The outcome of decoding arbitrary bytes `data` with `dw`-byte
/// dimension fields and `pw`-byte palette-id fields: the decoded image,
/// or the error raised at the first violation.
pub open spec fn spec_decode(data: Seq<u8>, dw: nat, pw: nat) -> Result<
    DecodedImage,
    CodecError,
> {
    if data.len() < 3 || data.take(3) != spec_magic() {
        Err(CodecError::MagicMismatch)
    } else {
        let d1 = data.skip(3);
        if d1.len() < pw {
            Err(CodecError::TruncatedHeader)
        } else {
            let count = be_value(d1.take(pw as int));
            let d2 = d1.skip(pw as int);
            if d2.len() < 4 * count {
                Err(CodecError::TruncatedPalette)
            } else {
                let palette = spec_parse_palette(d2, count);
                let d3 = d2.skip(4 * count as int);
                if d3.len() < dw {
                    Err(CodecError::TruncatedDimensions)
                } else {
                    let width = be_value(d3.take(dw as int));
                    let d4 = d3.skip(dw as int);
                    if d4.len() < dw {
                        Err(CodecError::TruncatedDimensions)
                    } else {
                        let height = be_value(d4.take(dw as int));
                        let d5 = d4.skip(dw as int);
                        if width * height > usize::MAX {
                            Err(CodecError::DimensionOverflow)
                        } else {
                            match spec_decode_tokens(d5, palette, pw, width * height) {
                                Ok(pixels) => Ok(DecodedImage { width, pixels }),
                                Err(e) => Err(e),
                            }
                        }
                    }
                }
            }
        }
    }
}

} // verus!
