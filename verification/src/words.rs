//! The 64-bit storage word and its big-endian byte layout.
//!
//! A word stores eight bytes, most significant first: byte 0 is bits 63..56
//! and byte 7 is bits 7..0. These definitions are shared by the memory's
//! byte-stream views.

use vstd::prelude::*;

verus! {

/// The eight bytes of a word, most significant first.
pub open spec fn spec_word_bytes(w: u64) -> Seq<u8> {
    seq![
        (w >> 56) as u8,
        (w >> 48) as u8,
        (w >> 40) as u8,
        (w >> 32) as u8,
        (w >> 24) as u8,
        (w >> 16) as u8,
        (w >> 8) as u8,
        w as u8,
    ]
}

/// The byte at position `i` of a buffer, or zero past its end: the value
/// that right-padding a partial final group with zeroes stores there.
pub open spec fn spec_padded_byte(b: Seq<u8>, i: int) -> u8 {
    if 0 <= i < b.len() {
        b[i]
    } else {
        0
    }
}

/// The word that stores the `k`-th eight-byte group of a buffer, big-endian,
/// zero-padded on the right when fewer than eight bytes remain.
pub open spec fn spec_word_of_bytes(b: Seq<u8>, k: int) -> u64 {
    ((spec_padded_byte(b, 8 * k) as u64) << 56)
        | ((spec_padded_byte(b, 8 * k + 1) as u64) << 48)
        | ((spec_padded_byte(b, 8 * k + 2) as u64) << 40)
        | ((spec_padded_byte(b, 8 * k + 3) as u64) << 32)
        | ((spec_padded_byte(b, 8 * k + 4) as u64) << 24)
        | ((spec_padded_byte(b, 8 * k + 5) as u64) << 16)
        | ((spec_padded_byte(b, 8 * k + 6) as u64) << 8)
        | (spec_padded_byte(b, 8 * k + 7) as u64)
}

/// How many words a buffer of `len` bytes occupies: groups of eight,
/// a partial final group counting as one.
pub open spec fn spec_num_words(len: nat) -> nat {
    (len + 7) / 8
}

/// Packing eight bytes into a word and unpacking it give the bytes back.
pub proof fn lemma_word_bytes_of_word(b: Seq<u8>, k: int)
    ensures
        spec_word_bytes(spec_word_of_bytes(b, k)) =~= Seq::new(
            8,
            |j: int| spec_padded_byte(b, 8 * k + j),
        ),
{
    let b0 = spec_padded_byte(b, 8 * k);
    let b1 = spec_padded_byte(b, 8 * k + 1);
    let b2 = spec_padded_byte(b, 8 * k + 2);
    let b3 = spec_padded_byte(b, 8 * k + 3);
    let b4 = spec_padded_byte(b, 8 * k + 4);
    let b5 = spec_padded_byte(b, 8 * k + 5);
    let b6 = spec_padded_byte(b, 8 * k + 6);
    let b7 = spec_padded_byte(b, 8 * k + 7);
    let w = spec_word_of_bytes(b, k);
    assert(w == ((b0 as u64) << 56) | ((b1 as u64) << 48) | ((b2 as u64) << 40) | ((b3 as u64)
        << 32) | ((b4 as u64) << 24) | ((b5 as u64) << 16) | ((b6 as u64) << 8) | (b7 as u64));
    assert((w >> 56) as u8 == b0 && (w >> 48) as u8 == b1 && (w >> 40) as u8 == b2 && (w >> 32)
        as u8 == b3 && (w >> 24) as u8 == b4 && (w >> 16) as u8 == b5 && (w >> 8) as u8 == b6 && w
        as u8 == b7) by (bit_vector)
        requires
            w == ((b0 as u64) << 56) | ((b1 as u64) << 48) | ((b2 as u64) << 40) | ((b3 as u64)
                << 32) | ((b4 as u64) << 24) | ((b5 as u64) << 16) | ((b6 as u64) << 8) | (
            b7 as u64),
    ;
}

/// Two buffers that agree on an eight-byte group, padding included, store
/// the same word for it.
pub proof fn lemma_word_of_bytes_agree(b1: Seq<u8>, b2: Seq<u8>, k: int)
    requires
        forall|idx: int|
            8 * k <= idx < 8 * k + 8 ==> #[trigger] spec_padded_byte(b1, idx) == spec_padded_byte(
                b2,
                idx,
            ),
    ensures
        spec_word_of_bytes(b1, k) == spec_word_of_bytes(b2, k),
{
    assert(spec_padded_byte(b1, 8 * k) == spec_padded_byte(b2, 8 * k));
    assert(spec_padded_byte(b1, 8 * k + 1) == spec_padded_byte(b2, 8 * k + 1));
    assert(spec_padded_byte(b1, 8 * k + 2) == spec_padded_byte(b2, 8 * k + 2));
    assert(spec_padded_byte(b1, 8 * k + 3) == spec_padded_byte(b2, 8 * k + 3));
    assert(spec_padded_byte(b1, 8 * k + 4) == spec_padded_byte(b2, 8 * k + 4));
    assert(spec_padded_byte(b1, 8 * k + 5) == spec_padded_byte(b2, 8 * k + 5));
    assert(spec_padded_byte(b1, 8 * k + 6) == spec_padded_byte(b2, 8 * k + 6));
    assert(spec_padded_byte(b1, 8 * k + 7) == spec_padded_byte(b2, 8 * k + 7));
}

/// A word is zero exactly when all eight of its bytes are zero.
pub proof fn lemma_zero_word_zero_bytes(w: u64)
    ensures
        (w == 0) <==> (forall|j: int| 0 <= j < 8 ==> spec_word_bytes(w)[j] == 0),
{
    if w == 0 {
        assert((w >> 56) as u8 == 0 && (w >> 48) as u8 == 0 && (w >> 40) as u8 == 0 && (w >> 32)
            as u8 == 0 && (w >> 24) as u8 == 0 && (w >> 16) as u8 == 0 && (w >> 8) as u8 == 0 && w
            as u8 == 0) by (bit_vector)
            requires
                w == 0,
        ;
        assert forall|j: int| 0 <= j < 8 implies spec_word_bytes(w)[j] == 0 by {
            assert(spec_word_bytes(w) =~= Seq::new(8, |i: int| 0u8));
        }
    } else {
        assert((w >> 56) as u8 != 0 || (w >> 48) as u8 != 0 || (w >> 40) as u8 != 0 || (w >> 32)
            as u8 != 0 || (w >> 24) as u8 != 0 || (w >> 16) as u8 != 0 || (w >> 8) as u8 != 0 || w
            as u8 != 0) by (bit_vector)
            requires
                w != 0,
        ;
        let j = if (w >> 56) as u8 != 0 {
            0int
        } else if (w >> 48) as u8 != 0 {
            1int
        } else if (w >> 40) as u8 != 0 {
            2int
        } else if (w >> 32) as u8 != 0 {
            3int
        } else if (w >> 24) as u8 != 0 {
            4int
        } else if (w >> 16) as u8 != 0 {
            5int
        } else if (w >> 8) as u8 != 0 {
            6int
        } else {
            7int
        };
        assert(spec_word_bytes(w)[j] != 0);
    }
}

/// Splits a 64-bit word into its eight bytes, most significant first.
pub fn u64_to_u8arr(w: u64) -> (r: [u8; 8])
    ensures
        r@ == spec_word_bytes(w),
{
    let r: [u8; 8] = [
        (w >> 56 & 0xFF) as u8,
        (w >> 48 & 0xFF) as u8,
        (w >> 40 & 0xFF) as u8,
        (w >> 32 & 0xFF) as u8,
        (w >> 24 & 0xFF) as u8,
        (w >> 16 & 0xFF) as u8,
        (w >> 8 & 0xFF) as u8,
        (w & 0xFF) as u8,
    ];
    proof {
        assert((w >> 56 & 0xFF) as u8 == (w >> 56) as u8 && (w >> 48 & 0xFF) as u8 == (w
            >> 48) as u8 && (w >> 40 & 0xFF) as u8 == (w >> 40) as u8 && (w >> 32 & 0xFF)
            as u8 == (w >> 32) as u8 && (w >> 24 & 0xFF) as u8 == (w >> 24) as u8 && (w
            >> 16 & 0xFF) as u8 == (w >> 16) as u8 && (w >> 8 & 0xFF) as u8 == (w >> 8) as u8
            && (w & 0xFF) as u8 == w as u8) by (bit_vector);
        assert(r@ =~= spec_word_bytes(w));
    }
    r
}

} // verus!
