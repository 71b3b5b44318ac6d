//! The guarantees that relate encoding and decoding.
//!
//! [`lemma_round_trip`] is the losslessness theorem: decoding the
//! encoding of any image that satisfies the invariants and fits the
//! chosen field widths restores the image exactly. Together with the
//! contracts of [`crate::codec::Image::encode`] and
//! [`crate::codec::Image::decode`], which pin the executable codec to
//! [`spec_encoding`] and [`spec_decode`], it carries over to the
//! executable functions.

use vstd::prelude::*;

use crate::format::{
    lemma_palette_contains, lemma_parse_palette_index, lemma_parse_palette_len,
    lemma_stream_bytes_concat, lemma_stream_bytes_singleton, lemma_tokens_wf, spec_bg_run,
    spec_decode, spec_decode_tokens, spec_encoding, spec_height, spec_magic, spec_palette,
    spec_palette_bytes, spec_parse_palette, spec_stream_bytes, spec_stream_pixel_count,
    spec_token_bytes, spec_token_count, spec_token_wf, spec_tokens, CodecError, DecodedImage,
    Token,
};
use crate::pixel::Pixel;
use crate::wire::{be_bytes, lemma_be_bytes_len, lemma_be_value_of_be_bytes, pow256};

verus! {

/// Parsing a serialized palette table restores it, whatever follows it.
pub proof fn lemma_parse_of_palette_bytes(pal: Seq<Pixel>, rest: Seq<u8>)
    ensures
        spec_parse_palette(spec_palette_bytes(pal) + rest, pal.len()) == pal,
    decreases pal.len(),
{
    if pal.len() == 0 {
        assert(spec_parse_palette(spec_palette_bytes(pal) + rest, 0) =~= pal);
    } else {
        let p = pal.first();
        let d = spec_palette_bytes(pal) + rest;
        lemma_parse_of_palette_bytes(pal.drop_first(), rest);
        assert(d.skip(4) =~= spec_palette_bytes(pal.drop_first()) + rest);
        assert(d[0] == p.r && d[1] == p.g && d[2] == p.b && d[3] == p.a);
        assert(seq![(Pixel { r: d[0], g: d[1], b: d[2], a: d[3] })] + pal.drop_first() =~= pal);
    }
}

/// Decoding the serialized token stream of `pixels`, entered with `run`
/// pending background pixels, yields those background pixels followed
/// by `pixels`.
pub proof fn lemma_decode_tokens_of_stream(
    pixels: Seq<Pixel>,
    pal: Seq<Pixel>,
    run: nat,
    pw: nat,
)
    requires
        1 <= pw,
        pal.len() < pow256(pw),
        run <= 255,
        forall|k: int|
            0 <= k < pixels.len() && !(#[trigger] pixels[k]).is_background() ==> pal.contains(
                pixels[k],
            ),
    ensures
        spec_decode_tokens(
            spec_stream_bytes(spec_tokens(pixels, pal, run), pw),
            pal,
            pw,
            run + pixels.len(),
        ) == Ok::<Seq<Pixel>, CodecError>(spec_bg_run(run) + pixels),
    decreases pixels.len(), run,
{
    let max = (pow256(pw) - 1) as nat;
    lemma_be_bytes_len(max, pw);
    lemma_be_value_of_be_bytes(max, pw);
    if pixels.len() == 0 {
        if run == 0 {
            assert(spec_tokens(pixels, pal, run) =~= Seq::<Token>::empty());
            assert(spec_bg_run(0) + pixels =~= Seq::<Pixel>::empty());
        } else {
            lemma_stream_bytes_singleton(Token::Run(run), pw);
            let bytes = be_bytes(max, pw).push(run as u8);
            assert(spec_stream_bytes(spec_tokens(pixels, pal, run), pw) == bytes);
            assert(bytes.take(pw as int) =~= be_bytes(max, pw));
            assert(bytes.skip(pw as int) =~= seq![run as u8]);
            assert(seq![run as u8].first() as nat == run);
            assert(seq![run as u8].drop_first() =~= Seq::<u8>::empty());
            assert(spec_decode_tokens(Seq::<u8>::empty(), pal, pw, 0) == Ok::<
                Seq<Pixel>,
                CodecError,
            >(Seq::<Pixel>::empty()));
            assert(spec_bg_run(run) + Seq::<Pixel>::empty() =~= spec_bg_run(run));
            assert(spec_bg_run(run) + pixels =~= spec_bg_run(run));
        }
    } else {
        let p = pixels.first();
        let rest = pixels.drop_first();
        assert(pixels[0] == p);
        assert(forall|k: int|
            0 <= k < rest.len() && !(#[trigger] rest[k]).is_background() ==> pal.contains(
                rest[k],
            )) by {
            assert(forall|k: int| 0 <= k < rest.len() ==> rest[k] == #[trigger] pixels[k + 1]);
        };
        if p.is_background() {
            if run == 255 {
                assert(spec_tokens(pixels, pal, run) == seq![Token::Run(255)] + spec_tokens(
                    rest,
                    pal,
                    1,
                ));
                lemma_stream_bytes_concat(seq![Token::Run(255)], spec_tokens(rest, pal, 1), pw);
                lemma_stream_bytes_singleton(Token::Run(255), pw);
                let tail = spec_stream_bytes(spec_tokens(rest, pal, 1), pw);
                let bytes = be_bytes(max, pw).push(255u8) + tail;
                assert(spec_stream_bytes(spec_tokens(pixels, pal, run), pw) == bytes);
                assert(bytes.take(pw as int) =~= be_bytes(max, pw));
                assert(bytes.skip(pw as int) =~= seq![255u8] + tail);
                assert((seq![255u8] + tail).first() == 255u8);
                assert((seq![255u8] + tail).drop_first() =~= tail);
                lemma_decode_tokens_of_stream(rest, pal, 1, pw);
                assert(spec_decode_tokens(tail, pal, pw, 1 + rest.len()) == Ok::<
                    Seq<Pixel>,
                    CodecError,
                >(spec_bg_run(1) + rest));
                assert(run + pixels.len() - 255 == 1 + rest.len());
                assert(spec_bg_run(255) + (spec_bg_run(1) + rest) =~= spec_bg_run(run) + pixels);
            } else {
                assert(spec_tokens(pixels, pal, run) == spec_tokens(rest, pal, run + 1));
                lemma_decode_tokens_of_stream(rest, pal, run + 1, pw);
                assert(spec_bg_run(run + 1) + rest =~= spec_bg_run(run) + pixels);
            }
        } else {
            assert(pal.contains(p));
            let idx = pal.index_of(p);
            assert(0 <= idx < pal.len() && pal[idx] == p);
            assert(idx < max);
            lemma_be_bytes_len(idx as nat, pw);
            lemma_be_value_of_be_bytes(idx as nat, pw);
            let ixt = seq![Token::Index(idx as nat)];
            let ix_bytes = spec_token_bytes(Token::Index(idx as nat), pw);
            let tail = spec_stream_bytes(spec_tokens(rest, pal, 0), pw);
            if run == 0 {
                assert(spec_tokens(pixels, pal, run) == Seq::<Token>::empty() + ixt
                    + spec_tokens(rest, pal, 0));
                assert(Seq::<Token>::empty() + ixt + spec_tokens(rest, pal, 0) =~= ixt
                    + spec_tokens(rest, pal, 0));
                lemma_stream_bytes_concat(ixt, spec_tokens(rest, pal, 0), pw);
                lemma_stream_bytes_singleton(Token::Index(idx as nat), pw);
                let bytes = ix_bytes + tail;
                assert(spec_stream_bytes(spec_tokens(pixels, pal, run), pw) == bytes);
                assert(bytes.take(pw as int) =~= be_bytes(idx as nat, pw));
                assert(bytes.skip(pw as int) =~= tail);
                lemma_decode_tokens_of_stream(rest, pal, 0, pw);
                assert(spec_decode_tokens(tail, pal, pw, rest.len()) == Ok::<
                    Seq<Pixel>,
                    CodecError,
                >(spec_bg_run(0) + rest));
                assert(spec_bg_run(0) + rest =~= rest);
                assert(seq![pal[idx]] + rest =~= spec_bg_run(run) + pixels);
            } else {
                // A pending run is flushed first; what remains is exactly
                // the stream for the same pixels with no pending run.
                let flushed = seq![Token::Run(run)];
                assert(spec_tokens(pixels, pal, run) == flushed + ixt + spec_tokens(
                    rest,
                    pal,
                    0,
                ));
                assert(spec_tokens(pixels, pal, 0) == Seq::<Token>::empty() + ixt + spec_tokens(
                    rest,
                    pal,
                    0,
                ));
                assert(flushed + ixt + spec_tokens(rest, pal, 0) =~= flushed + (Seq::<
                    Token,
                >::empty() + ixt + spec_tokens(rest, pal, 0)));
                lemma_stream_bytes_concat(flushed, spec_tokens(pixels, pal, 0), pw);
                lemma_stream_bytes_singleton(Token::Run(run), pw);
                let tail0 = spec_stream_bytes(spec_tokens(pixels, pal, 0), pw);
                let bytes = be_bytes(max, pw).push(run as u8) + tail0;
                assert(spec_stream_bytes(spec_tokens(pixels, pal, run), pw) == bytes);
                assert(bytes.take(pw as int) =~= be_bytes(max, pw));
                assert(bytes.skip(pw as int) =~= seq![run as u8] + tail0);
                assert((seq![run as u8] + tail0).first() as nat == run);
                assert((seq![run as u8] + tail0).drop_first() =~= tail0);
                lemma_decode_tokens_of_stream(pixels, pal, 0, pw);
                assert(spec_decode_tokens(tail0, pal, pw, pixels.len()) == Ok::<
                    Seq<Pixel>,
                    CodecError,
                >(spec_bg_run(0) + pixels));
                assert(spec_bg_run(0) + pixels =~= pixels);
                assert(spec_bg_run(run) + pixels =~= spec_bg_run(run) + (spec_bg_run(0)
                    + pixels));
            }
        }
    }
}

/// Losslessness: decoding the encoding of any image that satisfies the
/// image invariants, whose derived height fits the dimension width, and
/// whose distinct non-background colors fit the palette-id width,
/// restores exactly the declared width and the pixel buffer.
pub proof fn lemma_round_trip(width: nat, pixels: Seq<Pixel>, dw: nat, pw: nat)
    requires
        1 <= dw,
        1 <= pw,
        width < pow256(dw),
        width == 0 ==> pixels.len() == 0,
        width > 0 ==> pixels.len() % width == 0 && pixels.len() / width < pow256(dw),
        pixels.len() <= usize::MAX,
        spec_palette(pixels).len() < pow256(pw),
    ensures
        spec_decode(spec_encoding(width, pixels, dw, pw), dw, pw) == Ok::<
            DecodedImage,
            CodecError,
        >(DecodedImage { width, pixels }),
{
    let pal = spec_palette(pixels);
    let height = spec_height(width, pixels.len());
    let enc = spec_encoding(width, pixels, dw, pw);
    let m = spec_magic();
    let c = be_bytes(pal.len(), pw);
    let pb = spec_palette_bytes(pal);
    let wb = be_bytes(width, dw);
    let hb = be_bytes(height, dw);
    let tb = spec_stream_bytes(spec_tokens(pixels, pal, 0), pw);
    lemma_be_bytes_len(pal.len(), pw);
    lemma_be_bytes_len(width, dw);
    lemma_be_bytes_len(height, dw);
    crate::format::lemma_palette_bytes_len(pal);
    lemma_be_value_of_be_bytes(pal.len(), pw);
    lemma_be_value_of_be_bytes(width, dw);
    lemma_be_value_of_be_bytes(height, dw);
    assert(enc == m + c + pb + wb + hb + tb);
    assert(enc.take(3) =~= m);
    let d1 = enc.skip(3);
    assert(d1 =~= c + pb + wb + hb + tb);
    assert(d1.take(pw as int) =~= c);
    let d2 = d1.skip(pw as int);
    assert(d2 =~= pb + (wb + hb + tb));
    lemma_parse_of_palette_bytes(pal, wb + hb + tb);
    assert(spec_parse_palette(d2, pal.len()) == pal);
    let d3 = d2.skip(4 * (pal.len() as int));
    assert(d3 =~= wb + hb + tb);
    assert(d3.take(dw as int) =~= wb);
    let d4 = d3.skip(dw as int);
    assert(d4 =~= hb + tb);
    assert(d4.take(dw as int) =~= hb);
    let d5 = d4.skip(dw as int);
    assert(d5 =~= tb);
    assert(width * height == pixels.len()) by {
        if width > 0 {
            vstd::arithmetic::div_mod::lemma_fundamental_div_mod(pixels.len() as int,
                width as int);
        }
    };
    assert(forall|k: int|
        0 <= k < pixels.len() && !(#[trigger] pixels[k]).is_background() ==> pal.contains(
            pixels[k],
        )) by {
        assert forall|k: int|
            0 <= k < pixels.len() && !(#[trigger] pixels[k]).is_background() implies pal.contains(
            pixels[k],
        ) by {
            lemma_palette_contains(pixels, k);
        };
    };
    lemma_decode_tokens_of_stream(pixels, pal, 0, pw);
    assert(spec_decode_tokens(tb, pal, pw, pixels.len()) == Ok::<Seq<Pixel>, CodecError>(
        spec_bg_run(0) + pixels,
    ));
    assert(spec_bg_run(0) + pixels =~= pixels);
}

/// Cutting the serialized bytes of a well-formed token stream anywhere
/// short of their end makes its decoding fail: with `TruncatedRunLength`
/// when the cut falls right after a run marker, with
/// `TruncatedTokenStream` otherwise.
pub proof fn lemma_decode_tokens_prefix_fails(ts: Seq<Token>, pal: Seq<Pixel>, pw: nat, j: int)
    requires
        1 <= pw,
        pal.len() < pow256(pw),
        forall|k: int| 0 <= k < ts.len() ==> spec_token_wf(#[trigger] ts[k], pal),
        0 <= j < spec_stream_bytes(ts, pw).len(),
    ensures
        spec_decode_tokens(
            spec_stream_bytes(ts, pw).take(j),
            pal,
            pw,
            spec_stream_pixel_count(ts),
        ) == Err::<Seq<Pixel>, CodecError>(CodecError::TruncatedTokenStream)
            || spec_decode_tokens(
            spec_stream_bytes(ts, pw).take(j),
            pal,
            pw,
            spec_stream_pixel_count(ts),
        ) == Err::<Seq<Pixel>, CodecError>(CodecError::TruncatedRunLength),
    decreases ts.len(),
{
    let max = (pow256(pw) - 1) as nat;
    lemma_be_bytes_len(max, pw);
    lemma_be_value_of_be_bytes(max, pw);
    if ts.len() == 0 {
        assert(spec_stream_bytes(ts, pw).len() == 0);
    }
    let t = ts.first();
    let rest = ts.drop_first();
    let tb = spec_token_bytes(t, pw);
    let tail = spec_stream_bytes(rest, pw);
    let bytes = spec_stream_bytes(ts, pw);
    assert(bytes == tb + tail);
    let need = spec_stream_pixel_count(ts);
    assert(need == spec_token_count(t) + spec_stream_pixel_count(rest));
    assert(ts[0] == t);
    assert(spec_token_wf(t, pal));
    assert(need >= 1);
    assert(forall|k: int| 0 <= k < rest.len() ==> spec_token_wf(#[trigger] rest[k], pal)) by {
        assert(forall|k: int| 0 <= k < rest.len() ==> rest[k] == #[trigger] ts[k + 1]);
    };
    let prefix = bytes.take(j);
    match t {
        Token::Index(i) => {
            lemma_be_bytes_len(i, pw);
            assert(tb.len() == pw);
            if j < pw {
                assert(prefix.len() < pw);
            } else {
                lemma_be_value_of_be_bytes(i, pw);
                assert(prefix.take(pw as int) =~= be_bytes(i, pw));
                assert(i < max);
                let j2 = j - pw;
                assert(prefix.skip(pw as int) =~= tail.take(j2));
                assert(j2 < tail.len());
                lemma_decode_tokens_prefix_fails(rest, pal, pw, j2);
            }
        },
        Token::Run(n) => {
            assert(tb == be_bytes(max, pw).push(n as u8));
            assert(tb.len() == pw + 1);
            if j < pw {
                assert(prefix.len() < pw);
            } else if j == pw {
                assert(prefix =~= be_bytes(max, pw));
                assert(prefix.take(pw as int) =~= be_bytes(max, pw));
                assert(prefix.skip(pw as int) =~= Seq::<u8>::empty());
            } else {
                assert(prefix.take(pw as int) =~= be_bytes(max, pw));
                let j2 = j - pw - 1;
                assert(prefix.skip(pw as int) =~= seq![n as u8] + tail.take(j2));
                assert((seq![n as u8] + tail.take(j2)).first() as nat == n);
                assert((seq![n as u8] + tail.take(j2)).drop_first() =~= tail.take(j2));
                assert(n <= need);
                assert(j2 < tail.len());
                lemma_decode_tokens_prefix_fails(rest, pal, pw, j2);
            }
        },
    }
}

/// Truncating a valid encoding anywhere short of its end makes decoding
/// fail with the error of the field the cut lands in: inside the magic
/// marker a `MagicMismatch`; then, region by region, `TruncatedHeader`,
/// `TruncatedPalette` and `TruncatedDimensions`; and inside the token
/// stream (in particular when only the final byte is dropped) a
/// `TruncatedTokenStream`, or `TruncatedRunLength` right after a run
/// marker. Decoding a strict prefix never succeeds.
#[verifier::rlimit(100)]
#[verifier::spinoff_prover]
pub proof fn lemma_truncation_fails(width: nat, pixels: Seq<Pixel>, dw: nat, pw: nat, j: int)
    requires
        1 <= dw,
        1 <= pw,
        width < pow256(dw),
        width == 0 ==> pixels.len() == 0,
        width > 0 ==> pixels.len() % width == 0 && pixels.len() / width < pow256(dw),
        pixels.len() <= usize::MAX,
        spec_palette(pixels).len() < pow256(pw),
        0 <= j < spec_encoding(width, pixels, dw, pw).len(),
    ensures
        ({
            let r = spec_decode(spec_encoding(width, pixels, dw, pw).take(j), dw, pw);
            let c = spec_palette(pixels).len() as int;
            let pwi = pw as int;
            let dwi = dw as int;
            &&& (j < 3 ==> r == Err::<DecodedImage, CodecError>(CodecError::MagicMismatch))
            &&& (3 <= j < 3 + pwi ==> r == Err::<DecodedImage, CodecError>(
                CodecError::TruncatedHeader,
            ))
            &&& (3 + pwi <= j < 3 + pwi + 4 * c ==> r == Err::<DecodedImage, CodecError>(
                CodecError::TruncatedPalette,
            ))
            &&& (3 + pwi + 4 * c <= j < 3 + pwi + 4 * c + 2 * dwi ==> r == Err::<
                DecodedImage,
                CodecError,
            >(CodecError::TruncatedDimensions))
            &&& (3 + pwi + 4 * c + 2 * dwi <= j ==> r == Err::<DecodedImage, CodecError>(
                CodecError::TruncatedTokenStream,
            ) || r == Err::<DecodedImage, CodecError>(CodecError::TruncatedRunLength))
        }),
{
    let pal = spec_palette(pixels);
    let cl = pal.len() as int;
    let height = spec_height(width, pixels.len());
    let enc = spec_encoding(width, pixels, dw, pw);
    let m = spec_magic();
    let cb = be_bytes(pal.len(), pw);
    let pb = spec_palette_bytes(pal);
    let wb = be_bytes(width, dw);
    let hb = be_bytes(height, dw);
    let ts = spec_tokens(pixels, pal, 0);
    let tb = spec_stream_bytes(ts, pw);
    lemma_be_bytes_len(pal.len(), pw);
    lemma_be_bytes_len(width, dw);
    lemma_be_bytes_len(height, dw);
    crate::format::lemma_palette_bytes_len(pal);
    lemma_be_value_of_be_bytes(pal.len(), pw);
    lemma_be_value_of_be_bytes(width, dw);
    lemma_be_value_of_be_bytes(height, dw);
    assert(enc == m + cb + pb + wb + hb + tb);
    let d1 = enc.skip(3);
    let d2 = d1.skip(pw as int);
    let d3 = d2.skip(4 * cl);
    let d4 = d3.skip(dw as int);
    let d5 = d4.skip(dw as int);
    assert(d1 =~= cb + pb + wb + hb + tb);
    assert(d2 =~= pb + (wb + hb + tb));
    assert(d3 =~= wb + hb + tb);
    assert(d4 =~= hb + tb);
    assert(d5 =~= tb);
    let prefix = enc.take(j);
    if j < 3 {
        assert(prefix.len() < 3);
    } else {
        assert(prefix.take(3) =~= m);
        let p1 = prefix.skip(3);
        assert(p1 =~= d1.take(j - 3));
        if j < 3 + pw {
            assert(p1.len() < pw);
        } else {
            assert(p1.take(pw as int) =~= cb);
            let p2 = p1.skip(pw as int);
            assert(p2 =~= d2.take(j - 3 - pw));
            if j < 3 + pw + 4 * cl {
                assert(p2.len() < 4 * pal.len());
            } else {
                lemma_parse_of_palette_bytes(pal, wb + hb + tb);
                assert(spec_parse_palette(d2, pal.len()) == pal);
                lemma_parse_palette_len(p2, pal.len());
                assert forall|k: int| 0 <= k < cl implies spec_parse_palette(p2, pal.len())[k]
                    == pal[k] by {
                    lemma_parse_palette_index(p2, pal.len(), k);
                    lemma_parse_palette_index(d2, pal.len(), k);
                };
                assert(spec_parse_palette(p2, pal.len()) =~= pal);
                let p3 = p2.skip(4 * cl);
                assert(p3 =~= d3.take(j - 3 - pw - 4 * cl));
                if j < 3 + pw + 4 * cl + dw {
                    assert(p3.len() < dw);
                } else {
                    assert(p3.take(dw as int) =~= wb);
                    let p4 = p3.skip(dw as int);
                    assert(p4 =~= d4.take(j - 3 - pw - 4 * cl - dw));
                    if j < 3 + pw + 4 * cl + 2 * dw {
                        assert(p4.len() < dw);
                    } else {
                        assert(p4.take(dw as int) =~= hb);
                        let p5 = p4.skip(dw as int);
                        let j5 = j - 3 - pw - 4 * cl - 2 * dw;
                        assert(p5 =~= tb.take(j5));
                        assert(width * height == pixels.len()) by {
                            if width > 0 {
                                vstd::arithmetic::div_mod::lemma_fundamental_div_mod(
                                    pixels.len() as int,
                                    width as int,
                                );
                            }
                        };
                        assert(forall|k: int|
                            0 <= k < pixels.len() && !(#[trigger] pixels[k]).is_background()
                                ==> pal.contains(pixels[k])) by {
                            assert forall|k: int|
                                0 <= k < pixels.len() && !(
                                #[trigger] pixels[k]).is_background() implies pal.contains(
                                pixels[k],
                            ) by {
                                lemma_palette_contains(pixels, k);
                            };
                        };
                        lemma_tokens_wf(pixels, pal, 0);
                        assert(spec_stream_pixel_count(ts) == pixels.len());
                        assert(j5 < tb.len());
                        lemma_decode_tokens_prefix_fails(ts, pal, pw, j5);
                    }
                }
            }
        }
    }
}

} // verus!
