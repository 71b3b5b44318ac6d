//! Big-endian unsigned integer fields of a configurable byte width.
//!
//! Every multi-byte field of the wire format (palette count, palette ids,
//! width, height) is an unsigned big-endian integer of a width fixed at
//! compile time. [`WireUint`] abstracts over that width; it is implemented
//! for `u8`, `u16` and `u32`.

use vstd::prelude::*;

verus! {

/// `256^w`: the number of values of a `w`-byte unsigned field.
pub open spec fn pow256(w: nat) -> nat
    decreases w,
{
    if w == 0 {
        1
    } else {
        256 * pow256((w - 1) as nat)
    }
}

/// The big-endian byte string of `v`, `w` bytes long, most significant
/// byte first. Callers establish `v < pow256(w)` wherever the value is
/// meant to be recoverable.
pub open spec fn be_bytes(v: nat, w: nat) -> Seq<u8>
    decreases w,
{
    if w == 0 {
        Seq::empty()
    } else {
        be_bytes(v / 256, (w - 1) as nat).push((v % 256) as u8)
    }
}

/// The value of a big-endian byte string.
pub open spec fn be_value(s: Seq<u8>) -> nat
    decreases s.len(),
{
    if s.len() == 0 {
        0
    } else {
        be_value(s.drop_last()) * 256 + (s.last() as nat)
    }
}

/// `pow256` at the widths the codec instantiates.
pub proof fn lemma_pow256_values()
    ensures
        pow256(0) == 1,
        pow256(1) == 256,
        pow256(2) == 0x10000,
        pow256(3) == 0x1000000,
        pow256(4) == 0x100000000,
{
    assert(pow256(0) == 1);
    assert(pow256(1) == 256);
    assert(pow256(2) == 0x10000);
    assert(pow256(3) == 0x1000000);
    assert(pow256(4) == 0x100000000);
}

pub proof fn lemma_be_bytes_len(v: nat, w: nat)
    ensures
        be_bytes(v, w).len() == w,
    decreases w,
{
    if w > 0 {
        lemma_be_bytes_len(v / 256, (w - 1) as nat);
    }
}

/// Reading back the big-endian bytes of a fitting value restores it.
pub proof fn lemma_be_value_of_be_bytes(v: nat, w: nat)
    requires
        v < pow256(w),
    ensures
        be_value(be_bytes(v, w)) == v,
    decreases w,
{
    if w > 0 {
        let prev = (w - 1) as nat;
        assert(v / 256 < pow256(prev)) by {
            assert(v < 256 * pow256(prev));
        };
        lemma_be_bytes_len(v / 256, prev);
        let b = be_bytes(v, w);
        assert(b.drop_last() =~= be_bytes(v / 256, prev));
        assert(b.last() == (v % 256) as u8);
        lemma_be_value_of_be_bytes(v / 256, prev);
        assert(v == (v / 256) * 256 + v % 256) by {
            vstd::arithmetic::div_mod::lemma_fundamental_div_mod(v as int, 256);
        };
    }
}

/// An unsigned integer type used as a fixed-width big-endian field of the
/// wire format. The trait fixes the byte width, gives each value a
/// mathematical meaning, and supplies the verified read and write
/// primitives the codec needs.
pub trait WireUint: Copy + Sized {
    /// The width of the field on the wire, in bytes.
    spec fn byte_width() -> nat;

    /// The numeric value of a field.
    spec fn val(self) -> nat;

    /// The width is between one and four bytes and every field value fits
    /// in `usize`.
    proof fn lemma_width()
        ensures
            1 <= Self::byte_width() <= 4,
            pow256(Self::byte_width()) <= usize::MAX + 1,
    ;

    /// Every value of the type fits in its wire width.
    proof fn lemma_val(self)
        ensures
            self.val() < pow256(Self::byte_width()),
    ;

    /// Values with the same numeric meaning are the same value.
    proof fn lemma_val_injective(self, other: Self)
        requires
            self.val() == other.val(),
        ensures
            self == other,
    ;

    /// The byte width as a runtime value.
    fn width_in_bytes() -> (r: usize)
        ensures
            r as nat == Self::byte_width(),
    ;

    /// The largest representable field value. For palette-id fields it is
    /// reserved as the background-run marker.
    fn max_field_value() -> (r: usize)
        ensures
            r as nat + 1 == pow256(Self::byte_width()),
    ;

    /// The numeric value of a field, as a `usize`.
    fn to_usize(self) -> (r: usize)
        ensures
            r as nat == self.val(),
    ;

    /// The field whose numeric value is `v`.
    fn from_usize(v: usize) -> (r: Self)
        requires
            (v as nat) < pow256(Self::byte_width()),
        ensures
            r.val() == v as nat,
    ;

    /// Reads the big-endian field starting at byte `pos` of `data`.
    fn read_be(data: &[u8], pos: usize) -> (r: Self)
        requires
            pos + Self::byte_width() <= data@.len(),
        ensures
            r.val() == be_value(data@.subrange(pos as int, pos + Self::byte_width())),
    ;

    /// Appends the big-endian bytes of `v` to `out`.
    fn push_be(v: usize, out: &mut Vec<u8>)
        requires
            (v as nat) < pow256(Self::byte_width()),
        ensures
            final(out)@ == old(out)@ + be_bytes(v as nat, Self::byte_width()),
    ;
}

impl WireUint for u8 {
    open spec fn byte_width() -> nat {
        1
    }

    open spec fn val(self) -> nat {
        self as nat
    }

    proof fn lemma_width() {
        lemma_pow256_values();
    }

    proof fn lemma_val(self) {
        lemma_pow256_values();
    }

    proof fn lemma_val_injective(self, other: Self) {
    }

    fn width_in_bytes() -> (r: usize) {
        1
    }

    fn max_field_value() -> (r: usize) {
        proof {
            lemma_pow256_values();
        }
        255
    }

    fn to_usize(self) -> (r: usize) {
        self as usize
    }

    fn from_usize(v: usize) -> (r: Self) {
        proof {
            lemma_pow256_values();
        }
        v as u8
    }

    fn read_be(data: &[u8], pos: usize) -> (r: Self) {
        let b0: u8 = data[pos];
        proof {
            reveal_with_fuel(be_value, 3);
            let s = data@.subrange(pos as int, pos as int + 1);
            assert(s.drop_last() =~= Seq::<u8>::empty());
            assert(s.last() == b0);
            assert(be_value(s) == b0 as nat);
        }
        b0
    }

    fn push_be(v: usize, out: &mut Vec<u8>) {
        proof {
            lemma_pow256_values();
        }
        let b0: u8 = v as u8;
        out.push(b0);
        proof {
            reveal_with_fuel(be_bytes, 3);
            assert(be_bytes(v as nat, 1) =~= seq![b0]);
            assert(final(out)@ =~= old(out)@ + be_bytes(v as nat, 1));
        }
    }
}

impl WireUint for u16 {
    open spec fn byte_width() -> nat {
        2
    }

    open spec fn val(self) -> nat {
        self as nat
    }

    proof fn lemma_width() {
        lemma_pow256_values();
    }

    proof fn lemma_val(self) {
        lemma_pow256_values();
    }

    proof fn lemma_val_injective(self, other: Self) {
    }

    fn width_in_bytes() -> (r: usize) {
        2
    }

    fn max_field_value() -> (r: usize) {
        proof {
            lemma_pow256_values();
        }
        65535
    }

    fn to_usize(self) -> (r: usize) {
        self as usize
    }

    fn from_usize(v: usize) -> (r: Self) {
        proof {
            lemma_pow256_values();
        }
        v as u16
    }

    fn read_be(data: &[u8], pos: usize) -> (r: Self) {
        let b0: u16 = data[pos] as u16;
        let b1: u16 = data[pos + 1] as u16;
        let r: u16 = b0 * 256 + b1;
        proof {
            reveal_with_fuel(be_value, 4);
            let s = data@.subrange(pos as int, pos as int + 2);
            assert(s.drop_last() =~= data@.subrange(pos as int, pos as int + 1));
            assert(s.drop_last().drop_last() =~= Seq::<u8>::empty());
            assert(be_value(s.drop_last()) == (s[0] as nat));
            assert(be_value(s) == (s[0] as nat) * 256 + (s[1] as nat));
        }
        r
    }

    fn push_be(v: usize, out: &mut Vec<u8>) {
        proof {
            lemma_pow256_values();
        }
        let b0: u8 = (v / 256) as u8;
        let b1: u8 = (v % 256) as u8;
        out.push(b0);
        out.push(b1);
        proof {
            reveal_with_fuel(be_bytes, 4);
            let n = v as nat;
            assert(n / 256 < 256);
            assert(b0 as nat == (n / 256) % 256);
            assert(b1 as nat == n % 256);
            assert(be_bytes(n, 2) =~= seq![b0, b1]);
            assert(final(out)@ =~= old(out)@ + be_bytes(n, 2));
        }
    }
}

impl WireUint for u32 {
    open spec fn byte_width() -> nat {
        4
    }

    open spec fn val(self) -> nat {
        self as nat
    }

    proof fn lemma_width() {
        lemma_pow256_values();
    }

    proof fn lemma_val(self) {
        lemma_pow256_values();
    }

    proof fn lemma_val_injective(self, other: Self) {
    }

    fn width_in_bytes() -> (r: usize) {
        4
    }

    fn max_field_value() -> (r: usize) {
        proof {
            lemma_pow256_values();
        }
        4294967295
    }

    fn to_usize(self) -> (r: usize) {
        self as usize
    }

    fn from_usize(v: usize) -> (r: Self) {
        proof {
            lemma_pow256_values();
        }
        v as u32
    }

    fn read_be(data: &[u8], pos: usize) -> (r: Self) {
        let b0: u32 = data[pos] as u32;
        let b1: u32 = data[pos + 1] as u32;
        let b2: u32 = data[pos + 2] as u32;
        let b3: u32 = data[pos + 3] as u32;
        let r: u32 = ((b0 * 256 + b1) * 256 + b2) * 256 + b3;
        proof {
            reveal_with_fuel(be_value, 6);
            let s = data@.subrange(pos as int, pos as int + 4);
            assert(s.drop_last() =~= data@.subrange(pos as int, pos as int + 3));
            assert(s.drop_last().drop_last() =~= data@.subrange(pos as int, pos as int + 2));
            assert(s.drop_last().drop_last().drop_last() =~= data@.subrange(
                pos as int,
                pos as int + 1,
            ));
            assert(s.drop_last().drop_last().drop_last().drop_last() =~= Seq::<u8>::empty());
            assert(be_value(s.drop_last().drop_last().drop_last()) == (s[0] as nat));
            assert(be_value(s.drop_last().drop_last()) == (s[0] as nat) * 256 + (s[1] as nat));
            assert(be_value(s.drop_last()) == ((s[0] as nat) * 256 + (s[1] as nat)) * 256 + (
            s[2] as nat));
            assert(be_value(s) == (((s[0] as nat) * 256 + (s[1] as nat)) * 256 + (s[2] as nat))
                * 256 + (s[3] as nat));
        }
        r
    }

    fn push_be(v: usize, out: &mut Vec<u8>) {
        proof {
            lemma_pow256_values();
        }
        let b0: u8 = (v / 16777216) as u8;
        let b1: u8 = ((v / 65536) % 256) as u8;
        let b2: u8 = ((v / 256) % 256) as u8;
        let b3: u8 = (v % 256) as u8;
        out.push(b0);
        out.push(b1);
        out.push(b2);
        out.push(b3);
        proof {
            reveal_with_fuel(be_bytes, 6);
            let n = v as nat;
            vstd::arithmetic::div_mod::lemma_div_denominator(v as int, 256, 256);
            vstd::arithmetic::div_mod::lemma_div_denominator(v as int, 65536, 256);
            assert(n / 256 / 256 == n / 65536);
            assert(n / 65536 / 256 == n / 16777216);
            assert(n / 16777216 < 256);
            assert(b0 as nat == (n / 16777216) % 256);
            assert(b1 as nat == (n / 65536) % 256);
            assert(b2 as nat == (n / 256) % 256);
            assert(b3 as nat == n % 256);
            assert(be_bytes(n, 4) =~= seq![b0, b1, b2, b3]);
            assert(final(out)@ =~= old(out)@ + be_bytes(n, 4));
        }
    }
}

} // verus!
