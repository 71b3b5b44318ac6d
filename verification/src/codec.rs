//! The in-memory image and the executable codec.
//!
//! [`Image::encode`] and [`Image::decode`] are proved equal to the
//! specification-level [`spec_encoding`] and [`spec_decode`] of
//! [`crate::format`]: encoding emits exactly the specified bytes (or
//! reports a palette overflow before any byte is produced), and decoding
//! of arbitrary bytes returns exactly the specified image or error.

use vstd::prelude::*;

use crate::format::{
    lemma_palette_bytes_concat, lemma_palette_bytes_singleton, lemma_palette_distinct,
    lemma_palette_index_unique, lemma_palette_take_prefix, lemma_parse_palette_index,
    lemma_parse_palette_len, lemma_tokens_step_bg, lemma_tokens_step_bg_flush,
    lemma_tokens_step_color, spec_bg_run, spec_decode, spec_decode_tokens, spec_encoding,
    spec_height, spec_magic, spec_palette, spec_palette_bytes, spec_parse_palette,
    spec_stream_bytes, spec_token_bytes, spec_tokens, CodecError, DecodedImage, Token,
};
use crate::pixel::Pixel;
use crate::wire::{pow256, WireUint};

verus! {

/// An image: a declared width of dimension type `D` and a row-major
/// pixel buffer. The height is not stored; it is derived as pixel count
/// divided by width.
#[derive(Debug)]
pub struct Image<D> {
    pub width: D,
    pub pixels: Vec<Pixel>,
}

impl<D: WireUint> Image<D> {
    /// The invariants an image must satisfy: a zero width forces an
    /// empty buffer, and otherwise the buffer length is an exact
    /// multiple of the width, with the derived height representable in
    /// the dimension type.
    pub open spec fn wf(self) -> bool {
        &&& (self.width.val() == 0 ==> self.pixels@.len() == 0)
        &&& (self.width.val() > 0 ==> self.pixels@.len() % self.width.val() == 0
            && self.pixels@.len() / self.width.val() < pow256(D::byte_width()))
    }

    /// The derived height of the image.
    pub open spec fn spec_height(self) -> nat {
        spec_height(self.width.val(), self.pixels@.len())
    }

    /// The marker bytes every encoding starts with.
    pub fn magic_string() -> (r: Vec<u8>)
        ensures
            r@ == spec_magic(),
    {
        let mut v: Vec<u8> = Vec::new();
        v.push(0xCA);
        v.push(0xC1);
        v.push(0xC7);
        proof {
            assert(v@ =~= spec_magic());
        }
        v
    }

    /// The derived height: pixel count divided by width, zero for a
    /// zero width.
    pub fn height(&self) -> (r: D)
        requires
            self.wf(),
        ensures
            r.val() == self.spec_height(),
    {
        proof {
            self.width.lemma_val();
        }
        let w: usize = self.width.to_usize();
        if w == 0 {
            D::from_usize(0)
        } else {
            D::from_usize(self.pixels.len() / w)
        }
    }
}

/// Element-wise comparison of two pixel buffers.
fn pixels_eq(a: &Vec<Pixel>, b: &Vec<Pixel>) -> (r: bool)
    ensures
        r == (a@ == b@),
{
    if a.len() != b.len() {
        return false;
    }
    let mut k: usize = 0;
    while k < a.len()
        invariant
            a@.len() == b@.len(),
            k <= a@.len(),
            forall|t: int| 0 <= t < k ==> a@[t] == b@[t],
        decreases a@.len() - k,
    {
        if !(a[k] == b[k]) {
            return false;
        }
        k += 1;
    }
    proof {
        assert(a@ =~= b@);
    }
    true
}

impl<D: WireUint> PartialEq for Image<D> {
    /// Two images are equal when their widths and pixel buffers are.
    fn eq(&self, other: &Image<D>) -> (r: bool) {
        let widths_eq: bool = self.width.to_usize() == other.width.to_usize();
        proof {
            if self.width.val() == other.width.val() {
                self.width.lemma_val_injective(other.width);
            }
        }
        widths_eq && pixels_eq(&self.pixels, &other.pixels)
    }
}

impl<D: WireUint> vstd::std_specs::cmp::PartialEqSpecImpl for Image<D> {
    open spec fn obeys_eq_spec() -> bool {
        true
    }

    open spec fn eq_spec(&self, other: &Image<D>) -> bool {
        self.width == other.width && self.pixels@ == other.pixels@
    }
}

/// The index of `p` in the palette built so far, if it already has one.
fn palette_find(palette: &Vec<Pixel>, p: Pixel) -> (r: Option<usize>)
    ensures
        match r {
            Some(id) => id < palette@.len() && palette@[id as int] == p,
            None => !palette@.contains(p),
        },
{
    let mut j: usize = 0;
    while j < palette.len()
        invariant
            j <= palette@.len(),
            forall|k: int| 0 <= k < j ==> palette@[k] != p,
        decreases palette@.len() - j,
    {
        if palette[j] == p {
            return Some(j);
        }
        j += 1;
    }
    None
}

impl<D: WireUint> Image<D> {
    /// Encodes the image with `P`-wide palette-id fields.
    ///
    /// Succeeds with exactly the bytes of [`spec_encoding`] whenever the
    /// distinct non-background colors fit the palette-id width (the
    /// all-ones id is reserved for the run marker); otherwise fails with
    /// `PaletteOverflow` and produces no output.
    pub fn encode<P: WireUint>(&self) -> (r: Result<Vec<u8>, CodecError>)
        requires
            self.wf(),
        ensures
            match r {
                Ok(bytes) => spec_palette(self.pixels@).len() < pow256(P::byte_width())
                    && bytes@ == spec_encoding(
                    self.width.val(),
                    self.pixels@,
                    D::byte_width(),
                    P::byte_width(),
                ),
                Err(e) => e == CodecError::PaletteOverflow && spec_palette(self.pixels@).len()
                    >= pow256(P::byte_width()),
            },
    {
        proof {
            D::lemma_width();
            P::lemma_width();
            self.width.lemma_val();
            lemma_palette_distinct(self.pixels@);
        }
        let ghost pixels = self.pixels@;
        let ghost pal_all = spec_palette(pixels);
        let ghost pw = P::byte_width();
        let max_id: usize = P::max_field_value();

        let mut palette: Vec<Pixel> = Vec::new();
        let mut body: Vec<u8> = Vec::new();
        let mut run: u8 = 0;
        let mut i: usize = 0;
        proof {
            assert(pixels.skip(0) =~= pixels);
            assert(body@ + spec_stream_bytes(spec_tokens(pixels, pal_all, 0), pw)
                =~= spec_stream_bytes(spec_tokens(pixels, pal_all, 0), pw));
        }
        while i < self.pixels.len()
            invariant
                i <= self.pixels@.len(),
                pixels == self.pixels@,
                pal_all == spec_palette(pixels),
                pw == P::byte_width(),
                1 <= pw,
                max_id as nat + 1 == pow256(pw),
                palette@ == spec_palette(pixels.take(i as int)),
                palette@.len() <= max_id,
                run as nat <= 255,
                spec_stream_bytes(spec_tokens(pixels, pal_all, 0), pw) == body@
                    + spec_stream_bytes(spec_tokens(pixels.skip(i as int), pal_all, run as nat), pw),
            decreases self.pixels@.len() - i,
        {
            let p = self.pixels[i];
            let ghost body_pre = body@;
            if p == Pixel::transparent_black() {
                if run == 255 {
                    P::push_be(max_id, &mut body);
                    body.push(255);
                    proof {
                        lemma_tokens_step_bg_flush(pixels, pal_all, i as int, pw);
                        assert(body@ =~= body_pre + spec_token_bytes(Token::Run(255), pw));
                        assert(body_pre + spec_token_bytes(Token::Run(255), pw)
                            + spec_stream_bytes(
                            spec_tokens(pixels.skip(i as int + 1), pal_all, 1),
                            pw,
                        ) =~= body_pre + (spec_token_bytes(Token::Run(255), pw)
                            + spec_stream_bytes(
                            spec_tokens(pixels.skip(i as int + 1), pal_all, 1),
                            pw,
                        )));
                    }
                    run = 1;
                } else {
                    proof {
                        lemma_tokens_step_bg(pixels, pal_all, i as int, run as nat);
                    }
                    run = run + 1;
                }
                proof {
                    assert(pixels.take(i as int + 1).drop_last() =~= pixels.take(i as int));
                    assert(pixels.take(i as int + 1).last() == pixels[i as int]);
                    assert(spec_palette(pixels.take(i as int + 1)) == palette@);
                }
            } else {
                let ghost run_pre = run as nat;
                if run > 0 {
                    P::push_be(max_id, &mut body);
                    body.push(run);
                    run = 0;
                    proof {
                        assert(body@ =~= body_pre + spec_token_bytes(Token::Run(run_pre), pw));
                    }
                }
                let id: usize;
                match palette_find(&palette, p) {
                    Some(found) => {
                        id = found;
                        proof {
                            assert(pixels.take(i as int + 1).drop_last() =~= pixels.take(
                                i as int,
                            ));
                            assert(pixels.take(i as int + 1).last() == pixels[i as int]);
                            assert(palette@.contains(p)) by {
                                assert(palette@[id as int] == p);
                            };
                            assert(spec_palette(pixels.take(i as int + 1)) == palette@);
                        }
                    },
                    None => {
                        if palette.len() == max_id {
                            proof {
                                assert(pixels.take(i as int + 1).drop_last() =~= pixels.take(
                                    i as int,
                                ));
                                assert(pixels.take(i as int + 1).last() == pixels[i as int]);
                                assert(spec_palette(pixels.take(i as int + 1)) == palette@.push(
                                    p,
                                ));
                                lemma_palette_take_prefix(pixels, i as int + 1);
                            }
                            return Err(CodecError::PaletteOverflow);
                        }
                        id = palette.len();
                        palette.push(p);
                        proof {
                            assert(pixels.take(i as int + 1).drop_last() =~= pixels.take(
                                i as int,
                            ));
                            assert(pixels.take(i as int + 1).last() == pixels[i as int]);
                            assert(spec_palette(pixels.take(i as int + 1)) == palette@);
                        }
                    },
                }
                P::push_be(id, &mut body);
                proof {
                    // The id the loop found or assigned is the pixel's index in
                    // the final palette.
                    lemma_palette_take_prefix(pixels, i as int + 1);
                    assert(palette@[id as int] == p);
                    assert(pal_all[id as int] == p);
                    lemma_palette_index_unique(pixels, id as int, p);
                    let j = pal_all.index_of(p);
                    assert(j == id as int);
                    lemma_tokens_step_color(pixels, pal_all, i as int, run_pre, pw);
                    let flush_bytes = if run_pre == 0 {
                        Seq::<u8>::empty()
                    } else {
                        spec_token_bytes(Token::Run(run_pre), pw)
                    };
                    let ix_bytes = spec_token_bytes(Token::Index(j as nat), pw);
                    let rest_bytes = spec_stream_bytes(
                        spec_tokens(pixels.skip(i as int + 1), pal_all, 0),
                        pw,
                    );
                    assert(body@ =~= body_pre + flush_bytes + ix_bytes);
                    assert(body_pre + (flush_bytes + ix_bytes + rest_bytes) =~= (body_pre
                        + flush_bytes + ix_bytes) + rest_bytes);
                }
            }
            i += 1;
        }
        if run > 0 {
            let ghost body_pre = body@;
            let ghost run_pre = run as nat;
            P::push_be(max_id, &mut body);
            body.push(run);
            proof {
                assert(body@ =~= body_pre + spec_token_bytes(Token::Run(run_pre), pw));
                assert(pixels.skip(pixels.len() as int) =~= Seq::<Pixel>::empty());
                crate::format::lemma_stream_bytes_singleton(Token::Run(run_pre), pw);
            }
        }
        proof {
            assert(pixels.skip(pixels.len() as int) =~= Seq::<Pixel>::empty());
            assert(pixels.take(pixels.len() as int) =~= pixels);
            assert(palette@ == pal_all);
            assert(body@ == spec_stream_bytes(spec_tokens(pixels, pal_all, 0), pw)) by {
                if run == 0 {
                    assert(spec_stream_bytes(
                        spec_tokens(pixels.skip(pixels.len() as int), pal_all, 0),
                        pw,
                    ) =~= Seq::<u8>::empty());
                }
            };
        }

        let mut out: Vec<u8> = Vec::new();
        out.push(0xCA);
        out.push(0xC1);
        out.push(0xC7);
        proof {
            assert(out@ =~= spec_magic());
        }
        P::push_be(palette.len(), &mut out);
        let ghost table_base = out@;
        let mut j: usize = 0;
        while j < palette.len()
            invariant
                j <= palette@.len(),
                out@ == table_base + spec_palette_bytes(palette@.take(j as int)),
            decreases palette@.len() - j,
        {
            let e = palette[j];
            out.push(e.r);
            out.push(e.g);
            out.push(e.b);
            out.push(e.a);
            proof {
                assert(palette@.take(j as int + 1) =~= palette@.take(j as int) + seq![e]);
                lemma_palette_bytes_concat(palette@.take(j as int), seq![e]);
                lemma_palette_bytes_singleton(e);
                assert(out@ =~= table_base + (spec_palette_bytes(palette@.take(j as int))
                    + seq![e.r, e.g, e.b, e.a]));
            }
            j += 1;
        }
        proof {
            assert(palette@.take(palette@.len() as int) =~= palette@);
        }
        let w: usize = self.width.to_usize();
        D::push_be(w, &mut out);
        let h: usize = if w == 0 {
            0
        } else {
            self.pixels.len() / w
        };
        D::push_be(h, &mut out);
        out.append(&mut body);
        proof {
            assert(out@ =~= spec_encoding(self.width.val(), pixels, D::byte_width(), pw));
        }
        Ok(out)
    }

    /// Decodes an arbitrary, untrusted byte slice with `P`-wide
    /// palette-id fields.
    ///
    /// Returns exactly what [`spec_decode`] gives for the input: the
    /// reconstructed image (which satisfies the image invariants), or
    /// the typed error raised at the first violation. It never panics.
    pub fn decode<P: WireUint>(data: &[u8]) -> (r: Result<Image<D>, CodecError>)
        ensures
            match r {
                Ok(img) => img.wf() && spec_decode(data@, D::byte_width(), P::byte_width())
                    == Ok::<DecodedImage, CodecError>(
                    DecodedImage { width: img.width.val(), pixels: img.pixels@ },
                ),
                Err(e) => spec_decode(data@, D::byte_width(), P::byte_width())
                    == Err::<DecodedImage, CodecError>(e),
            },
    {
        let (palette, width_f, height_f, size, pos) = match Self::decode_header::<P>(data) {
            Ok(h) => h,
            Err(e) => {
                return Err(e);
            },
        };
        let pixels: Vec<Pixel> = match decode_tokens::<P>(data, pos, &palette, size) {
            Ok(px) => px,
            Err(e) => {
                return Err(e);
            },
        };
        let img = Image { width: width_f, pixels };
        proof {
            width_f.lemma_val();
            height_f.lemma_val();
            assert(img.pixels@.len() == size as nat);
            if width_f.val() > 0 {
                assert(size as nat % width_f.val() == 0 && size as nat / width_f.val()
                    == height_f.val()) by (nonlinear_arith)
                    requires
                        width_f.val() > 0,
                        size as nat == width_f.val() * height_f.val(),
                ;
            }
            assert(img.wf());
        }
        Ok(img)
    }

    /// Parses the magic marker, the palette table and the dimensions,
    /// leaving the token stream at the returned offset. On success the
    /// outcome of the whole decode is the outcome of replaying that
    /// token stream.
    #[verifier::rlimit(100)]
    fn decode_header<P: WireUint>(data: &[u8]) -> (r: Result<
        (Vec<Pixel>, D, D, usize, usize),
        CodecError,
    >)
        ensures
            match r {
                Ok(h) => h.4 <= data@.len() && h.3 as nat == h.1.val() * h.2.val()
                    && spec_decode(data@, D::byte_width(), P::byte_width())
                    == (match spec_decode_tokens(
                    data@.skip(h.4 as int),
                    h.0@,
                    P::byte_width(),
                    h.3 as nat,
                ) {
                    Ok(px) => Ok::<DecodedImage, CodecError>(
                        DecodedImage { width: h.1.val(), pixels: px },
                    ),
                    Err(e) => Err::<DecodedImage, CodecError>(e),
                }),
                Err(e) => spec_decode(data@, D::byte_width(), P::byte_width())
                    == Err::<DecodedImage, CodecError>(e),
            },
    {
        proof {
            D::lemma_width();
            P::lemma_width();
        }
        let ghost dw = D::byte_width();
        let ghost pwg = P::byte_width();
        let n: usize = data.len();
        if n < 3 {
            return Err(CodecError::MagicMismatch);
        }
        if data[0] != 0xCA || data[1] != 0xC1 || data[2] != 0xC7 {
            proof {
                assert(data@.take(3)[0] == data@[0]);
                assert(data@.take(3)[1] == data@[1]);
                assert(data@.take(3)[2] == data@[2]);
                assert(data@.take(3) != spec_magic());
            }
            return Err(CodecError::MagicMismatch);
        }
        proof {
            assert(data@.take(3) =~= spec_magic());
        }
        let ghost d1 = data@.skip(3);
        let pw: usize = P::width_in_bytes();
        let dx: usize = D::width_in_bytes();

        if n - 3 < pw {
            return Err(CodecError::TruncatedHeader);
        }
        let count_f: P = P::read_be(data, 3);
        let count: usize = count_f.to_usize();
        let mut pos: usize = 3 + pw;
        proof {
            assert(d1.take(pwg as int) =~= data@.subrange(3, 3 + pwg as int));
        }
        let ghost d2 = d1.skip(pwg as int);
        proof {
            assert(d2 =~= data@.skip(pos as int));
        }

        let palette: Vec<Pixel> = match decode_palette(data, pos, count) {
            Ok(p) => p,
            Err(e) => {
                return Err(e);
            },
        };
        pos = pos + 4 * count;
        let ghost d3 = d2.skip(4 * (count as int));
        proof {
            assert(d3 =~= data@.skip(pos as int));
        }

        if n - pos < dx {
            return Err(CodecError::TruncatedDimensions);
        }
        let width_f: D = D::read_be(data, pos);
        proof {
            assert(d3.take(dw as int) =~= data@.subrange(pos as int, pos as int + dw as int));
        }
        pos += dx;
        let ghost d4 = d3.skip(dw as int);
        proof {
            assert(d4 =~= data@.skip(pos as int));
        }
        if n - pos < dx {
            return Err(CodecError::TruncatedDimensions);
        }
        let height_f: D = D::read_be(data, pos);
        proof {
            assert(d4.take(dw as int) =~= data@.subrange(pos as int, pos as int + dw as int));
        }
        pos += dx;
        let ghost d5 = d4.skip(dw as int);
        proof {
            assert(d5 =~= data@.skip(pos as int));
        }

        let w: usize = width_f.to_usize();
        let h: usize = height_f.to_usize();
        let size: usize = match w.checked_mul(h) {
            Some(s) => s,
            None => {
                return Err(CodecError::DimensionOverflow);
            },
        };
        proof {
            assert(spec_parse_palette(d2, count as nat) == palette@);
            assert(width_f.val() * height_f.val() == size as nat);
        }
        Ok((palette, width_f, height_f, size, pos))
    }
}

/// Reads the `count` four-byte palette entries that start at byte
/// `start`, in id order.
#[verifier::loop_isolation(false)]
fn decode_palette(data: &[u8], start: usize, count: usize) -> (r: Result<Vec<Pixel>, CodecError>)
    requires
        start <= data@.len(),
    ensures
        match r {
            Ok(pal) => start + 4 * count <= data@.len() && pal@ == spec_parse_palette(
                data@.skip(start as int),
                count as nat,
            ) && pal@.len() == count,
            Err(e) => e == CodecError::TruncatedPalette && data@.len() < start + 4 * count,
        },
{
    let ghost d = data@.skip(start as int);
    let n: usize = data.len();
    let mut palette: Vec<Pixel> = Vec::new();
    let mut pos: usize = start;
    let mut j: usize = 0;
    while j < count
        invariant
            j <= count,
            pos as int == start + 4 * (j as int),
            pos <= n,
            palette@.len() == j as nat,
            forall|k: int|
                0 <= k < j ==> palette@[k] == (Pixel {
                    r: d[4 * k],
                    g: d[4 * k + 1],
                    b: d[4 * k + 2],
                    a: d[4 * k + 3],
                }),
        decreases count - j,
    {
        if n - pos < 4 {
            return Err(CodecError::TruncatedPalette);
        }
        let px = Pixel::from_bytes([data[pos], data[pos + 1], data[pos + 2], data[pos + 3]]);
        proof {
            assert(d[4 * (j as int)] == data@[pos as int]);
            assert(d[4 * (j as int) + 1] == data@[pos as int + 1]);
            assert(d[4 * (j as int) + 2] == data@[pos as int + 2]);
            assert(d[4 * (j as int) + 3] == data@[pos as int + 3]);
        }
        palette.push(px);
        pos += 4;
        j += 1;
    }
    proof {
        lemma_parse_palette_len(d, count as nat);
        assert forall|k: int| 0 <= k < count implies palette@[k] == spec_parse_palette(
            d,
            count as nat,
        )[k] by {
            lemma_parse_palette_index(d, count as nat, k);
        };
        assert(palette@ =~= spec_parse_palette(d, count as nat));
    }
    Ok(palette)
}

/// Replays the token stream that starts at byte `start` until exactly
/// `size` pixels are produced.
#[verifier::loop_isolation(false)]
#[verifier::rlimit(60)]
fn decode_tokens<P: WireUint>(data: &[u8], start: usize, palette: &Vec<Pixel>, size: usize) -> (r:
    Result<Vec<Pixel>, CodecError>)
    requires
        start <= data@.len(),
    ensures
        match r {
            Ok(px) => px@.len() == size && spec_decode_tokens(
                data@.skip(start as int),
                palette@,
                P::byte_width(),
                size as nat,
            ) == Ok::<Seq<Pixel>, CodecError>(px@),
            Err(e) => spec_decode_tokens(
                data@.skip(start as int),
                palette@,
                P::byte_width(),
                size as nat,
            ) == Err::<Seq<Pixel>, CodecError>(e),
        },
{
    proof {
        P::lemma_width();
    }
    let ghost d = data@.skip(start as int);
    let ghost pwg = P::byte_width();
    let pw: usize = P::width_in_bytes();
    let max_id: usize = P::max_field_value();
    let n: usize = data.len();
    let mut pixels: Vec<Pixel> = Vec::new();
    let mut pos: usize = start;
    proof {
        if spec_decode_tokens(d, palette@, pwg, size as nat) is Ok {
            let rest = spec_decode_tokens(d, palette@, pwg, size as nat)->Ok_0;
            assert(pixels@ + rest =~= rest);
        }
    }
    while pixels.len() < size
        invariant
            start <= pos <= n,
            pixels@.len() <= size,
            spec_decode_tokens(d, palette@, pwg, size as nat) == (match spec_decode_tokens(
                data@.skip(pos as int),
                palette@,
                pwg,
                (size - pixels@.len()) as nat,
            ) {
                Ok(rest) => Ok::<Seq<Pixel>, CodecError>(pixels@ + rest),
                Err(e) => Err::<Seq<Pixel>, CodecError>(e),
            }),
        decreases n - pos,
    {
        let ghost cur = data@.skip(pos as int);
        let ghost need = (size - pixels@.len()) as nat;
        if n - pos < pw {
            return Err(CodecError::TruncatedTokenStream);
        }
        let id_f: P = P::read_be(data, pos);
        let id: usize = id_f.to_usize();
        proof {
            assert(cur.take(pwg as int) =~= data@.subrange(pos as int, pos as int + pwg as int));
        }
        pos += pw;
        proof {
            assert(cur.skip(pwg as int) =~= data@.skip(pos as int));
        }
        if id == max_id {
            if n - pos < 1 {
                return Err(CodecError::TruncatedRunLength);
            }
            let rc: u8 = data[pos];
            proof {
                assert(cur.skip(pwg as int).first() == data@[pos as int]);
            }
            pos += 1;
            proof {
                assert(cur.skip(pwg as int).drop_first() =~= data@.skip(pos as int));
            }
            let remaining: usize = size - pixels.len();
            if rc as usize > remaining {
                return Err(CodecError::OverlongRun);
            }
            let ghost px_pre = pixels@;
            let mut t: usize = 0;
            while t < rc as usize
                invariant
                    t <= rc as usize,
                    pixels@ == px_pre + spec_bg_run(t as nat),
                decreases rc as usize - t,
            {
                pixels.push(Pixel::transparent_black());
                proof {
                    assert(px_pre + spec_bg_run((t + 1) as nat) =~= (px_pre + spec_bg_run(
                        t as nat,
                    )).push(crate::pixel::spec_background()));
                }
                t += 1;
            }
            proof {
                let rest_r = spec_decode_tokens(
                    data@.skip(pos as int),
                    palette@,
                    pwg,
                    (size - pixels@.len()) as nat,
                );
                assert(spec_decode_tokens(cur, palette@, pwg, need) == (match rest_r {
                    Ok(rest) => Ok::<Seq<Pixel>, CodecError>(spec_bg_run(rc as nat) + rest),
                    Err(e) => Err::<Seq<Pixel>, CodecError>(e),
                }));
                if rest_r is Ok {
                    let rest = rest_r->Ok_0;
                    assert(px_pre + (spec_bg_run(rc as nat) + rest) =~= (px_pre + spec_bg_run(
                        rc as nat,
                    )) + rest);
                }
            }
        } else {
            if id >= palette.len() {
                return Err(CodecError::InvalidPaletteReference);
            }
            let px = palette[id];
            let ghost px_pre = pixels@;
            pixels.push(px);
            proof {
                let rest_r = spec_decode_tokens(
                    data@.skip(pos as int),
                    palette@,
                    pwg,
                    (size - pixels@.len()) as nat,
                );
                assert(spec_decode_tokens(cur, palette@, pwg, need) == (match rest_r {
                    Ok(rest) => Ok::<Seq<Pixel>, CodecError>(seq![palette@[id as int]] + rest),
                    Err(e) => Err::<Seq<Pixel>, CodecError>(e),
                }));
                if rest_r is Ok {
                    let rest = rest_r->Ok_0;
                    assert(px_pre + (seq![palette@[id as int]] + rest) =~= px_pre.push(
                        palette@[id as int],
                    ) + rest);
                }
            }
        }
    }
    proof {
        assert(pixels@ + Seq::<Pixel>::empty() =~= pixels@);
    }
    Ok(pixels)
}

} // verus!
