//! UTF-16 encoding and decoding of text, big-endian code units.
//!
//! A character below `0x10000` is one code unit; a character above is a
//! surrogate pair: a high unit in `0xD800..0xDC00` and a low unit in
//! `0xDC00..0xE000`. Decoding rejects ill-formed input (an unpaired
//! surrogate) rather than substituting replacement characters.

use vstd::prelude::*;
use crate::render::push_char;

verus! {

/// Whether the code unit is the first (high) half of a surrogate pair.
pub open spec fn spec_is_high_surrogate(u: u16) -> bool {
    0xD800 <= u < 0xDC00
}

/// Whether the code unit is the second (low) half of a surrogate pair.
pub open spec fn spec_is_low_surrogate(u: u16) -> bool {
    0xDC00 <= u < 0xE000
}

/// The code units that encode one character.
pub open spec fn spec_utf16_units_of_char(c: char) -> Seq<u16> {
    let v = c as u32;
    if v < 0x10000 {
        seq![v as u16]
    } else {
        seq![
            (0xD800 + ((v - 0x10000) / 0x400)) as u16,
            (0xDC00 + ((v - 0x10000) % 0x400)) as u16,
        ]
    }
}

/// The code units that encode a text, character by character.
pub open spec fn spec_utf16_encode(s: Seq<char>) -> Seq<u16>
    decreases s.len(),
{
    if s.len() == 0 {
        Seq::empty()
    } else {
        spec_utf16_units_of_char(s[0]) + spec_utf16_encode(s.drop_first())
    }
}

/// The text that a code unit sequence decodes to, or nothing when the
/// sequence is ill-formed: a lone low surrogate, or a high surrogate not
/// followed by a low one.
pub open spec fn spec_utf16_decode(units: Seq<u16>) -> Option<Seq<char>>
    decreases units.len(),
{
    if units.len() == 0 {
        Some(Seq::empty())
    } else {
        let u = units[0];
        if !spec_is_high_surrogate(u) && !spec_is_low_surrogate(u) {
            match spec_utf16_decode(units.drop_first()) {
                Some(rest) => Some(seq![((u as u32) as char)] + rest),
                None => None,
            }
        } else if spec_is_high_surrogate(u) && units.len() >= 2 && spec_is_low_surrogate(
            units[1],
        ) {
            let v = (0x10000 + (u - 0xD800) * 0x400 + (units[1] - 0xDC00)) as u32;
            match spec_utf16_decode(units.skip(2)) {
                Some(rest) => Some(seq![(v as char)] + rest),
                None => None,
            }
        } else {
            None
        }
    }
}

/// The big-endian byte serialization of a code unit sequence: two bytes per
/// unit, most significant first.
pub open spec fn spec_utf16_be_bytes(units: Seq<u16>) -> Seq<u8> {
    Seq::new(
        2 * units.len(),
        |i: int|
            if i % 2 == 0 {
                (units[i / 2] / 256) as u8
            } else {
                (units[i / 2] % 256) as u8
            },
    )
}

/// The big-endian UTF-16 byte serialization of a text.
pub open spec fn spec_utf16_bytes(s: Seq<char>) -> Seq<u8> {
    spec_utf16_be_bytes(spec_utf16_encode(s))
}

/// A character's value is a Unicode scalar: at most 0x10FFFF and never in
/// the surrogate gap 0xD800..0xE000.
proof fn lemma_char_scalar(c: char)
    ensures
        c as u32 <= 0x10FFFF,
        !(0xD800 <= (c as u32) && (c as u32) < 0xE000),
{
    vstd::utf8::char_is_scalar(c);
}

/// Appending a character to a text appends exactly its code units.
pub proof fn lemma_utf16_encode_push(s: Seq<char>, c: char)
    ensures
        spec_utf16_encode(s.push(c)) == spec_utf16_encode(s) + spec_utf16_units_of_char(c),
    decreases s.len(),
{
    let t = s.push(c);
    if s.len() == 0 {
        assert(t[0] == c);
        assert(t.drop_first() =~= Seq::<char>::empty());
        assert(spec_utf16_encode(t) == spec_utf16_units_of_char(c) + spec_utf16_encode(
            t.drop_first(),
        ));
        assert(spec_utf16_encode(Seq::<char>::empty()) == Seq::<u16>::empty());
        assert(spec_utf16_encode(t) =~= spec_utf16_encode(s) + spec_utf16_units_of_char(c));
    } else {
        assert(t[0] == s[0]);
        assert(t.drop_first() =~= s.drop_first().push(c));
        lemma_utf16_encode_push(s.drop_first(), c);
        assert(spec_utf16_encode(t) == spec_utf16_units_of_char(s[0]) + spec_utf16_encode(
            t.drop_first(),
        ));
        assert(spec_utf16_encode(t) =~= spec_utf16_encode(s) + spec_utf16_units_of_char(c));
    }
}

/// Encoding never emits a zero code unit for a text without the null
/// character, and never emits more than two units per character.
pub proof fn lemma_utf16_encode_nonzero(s: Seq<char>)
    requires
        forall|i: int| 0 <= i < s.len() ==> (#[trigger] s[i]) as u32 != 0,
    ensures
        forall|t: int|
            0 <= t < spec_utf16_encode(s).len() ==> (#[trigger] spec_utf16_encode(s)[t]) != 0,
        spec_utf16_encode(s).len() <= 2 * s.len(),
    decreases s.len(),
{
    if s.len() > 0 {
        let c = s[0];
        lemma_char_scalar(c);
        let units = spec_utf16_units_of_char(c);
        let v = c as u32;
        if v >= 0x10000 {
            assert((v - 0x10000) / 0x400 <= 0x3FF && (v - 0x10000) % 0x400 <= 0x3FF)
                by (nonlinear_arith)
                requires
                    0x10000 <= v <= 0x10FFFF,
            ;
            assert(units[0] != 0 && units[1] != 0);
        } else {
            assert(units[0] == v as u16);
            assert(units[0] != 0);
        }
        assert(forall|i: int|
            0 <= i < s.drop_first().len() ==> (#[trigger] s.drop_first()[i]) as u32 != 0);
        lemma_utf16_encode_nonzero(s.drop_first());
        assert forall|t: int|
            0 <= t < spec_utf16_encode(s).len() implies (#[trigger] spec_utf16_encode(s)[t])
            != 0 by {
            if t >= units.len() {
                assert(spec_utf16_encode(s)[t] == spec_utf16_encode(s.drop_first())[t
                    - units.len()]);
            }
        }
    }
}

/// Decoding inverts encoding: every text comes back from its own code
/// units, so the encoding round-trips exactly.
pub proof fn lemma_utf16_decode_encode(s: Seq<char>)
    ensures
        spec_utf16_decode(spec_utf16_encode(s)) == Some(s),
    decreases s.len(),
{
    if s.len() == 0 {
        assert(spec_utf16_encode(s).len() == 0);
        assert(spec_utf16_decode(spec_utf16_encode(s)) == Some(Seq::<char>::empty()));
        assert(s =~= Seq::<char>::empty());
    } else {
        let c = s[0];
        let v = c as u32;
        lemma_char_scalar(c);
        let units = spec_utf16_units_of_char(c);
        let rest = spec_utf16_encode(s.drop_first());
        let all = spec_utf16_encode(s);
        assert(all == units + rest);
        lemma_utf16_decode_encode(s.drop_first());
        if v < 0x10000 {
            let u = (v as u16);
            assert(all[0] == u);
            assert(!spec_is_high_surrogate(u) && !spec_is_low_surrogate(u));
            assert(all.drop_first() =~= rest);
            assert((u as u32) == v);
            vstd::utf8::char_u32_cast(c, v);
            assert(((u as u32) as char) == c);
            assert(seq![c] + s.drop_first() =~= s);
        } else {
            let w = v - 0x10000;
            assert((0 <= w / 0x400 <= 0x3FF) && (0 <= w % 0x400 <= 0x3FF)) by (nonlinear_arith)
                requires
                    0 <= w <= 0xFFFFF,
            ;
            let hi = (0xD800 + w / 0x400) as u16;
            let lo = (0xDC00 + w % 0x400) as u16;
            assert(units == seq![hi, lo]);
            assert(all[0] == hi && all[1] == lo);
            assert(spec_is_high_surrogate(hi) && spec_is_low_surrogate(lo));
            assert(all.len() >= 2);
            vstd::arithmetic::div_mod::lemma_fundamental_div_mod(w as int, 0x400);
            assert(0x10000 + (hi - 0xD800) * 0x400 + (lo - 0xDC00) == v);
            assert(all.skip(2) =~= rest);
            vstd::utf8::char_u32_cast(c, v);
            assert(((0x10000 + (hi - 0xD800) * 0x400 + (lo - 0xDC00)) as u32 as char) == c);
            assert(seq![c] + s.drop_first() =~= s);
        }
    }
}

/// Relies on `char::from_u32` of std: the result is the character with that
/// value exactly when the value is a Unicode scalar (at most 0x10FFFF and
/// outside the surrogate gap), and nothing otherwise.
#[verifier::external_body]
fn char_from_u32(v: u32) -> (r: Option<char>)
    ensures
        r matches Some(c) ==> c as u32 == v,
        (r is Some) <==> (v < 0xD800 || (0xE000 <= v && v <= 0x10FFFF)),
{
    char::from_u32(v)
}

/// Encodes a text into UTF-16 code units, character by character.
pub fn encode_utf16_units(s: &str) -> (r: Vec<u16>)
    ensures
        r@ == spec_utf16_encode(s@),
{
    let n: usize = s.unicode_len();
    let mut units: Vec<u16> = Vec::new();
    let mut i: usize = 0;
    proof {
        assert(s@.take(0) =~= Seq::<char>::empty());
        assert(units@ =~= spec_utf16_encode(s@.take(0)));
    }
    while i < n
        invariant
            i <= n == s@.len(),
            units@ == spec_utf16_encode(s@.take(i as int)),
        decreases n - i,
    {
        let c: char = s.get_char(i);
        let v: u32 = c as u32;
        proof {
            lemma_char_scalar(c);
        }
        let ghost units0: Seq<u16> = units@;
        if v < 0x10000 {
            units.push(v as u16);
            proof {
                assert(units@ =~= units0 + spec_utf16_units_of_char(c));
            }
        } else {
            let w: u32 = v - 0x10000;
            proof {
                assert(w / 0x400 <= 0x3FF && w % 0x400 <= 0x3FF) by (nonlinear_arith)
                    requires
                        w <= 0xFFFFF,
                ;
            }
            units.push((0xD800 + w / 0x400) as u16);
            units.push((0xDC00 + w % 0x400) as u16);
            proof {
                assert(units@ =~= units0 + spec_utf16_units_of_char(c));
            }
        }
        proof {
            assert(s@.take(i + 1).drop_last() =~= s@.take(i as int));
            assert(s@.take(i + 1).last() == s@[i as int]);
            assert(s@.take(i + 1) =~= s@.take(i as int).push(s@[i as int]));
            lemma_utf16_encode_push(s@.take(i as int), s@[i as int]);
        }
        i = i + 1;
    }
    proof {
        assert(s@.take(n as int) =~= s@);
    }
    units
}

/// Serializes code units as big-endian bytes, two per unit.
pub fn units_to_be_bytes(units: &Vec<u16>) -> (r: Vec<u8>)
    ensures
        r@ == spec_utf16_be_bytes(units@),
{
    let mut bytes: Vec<u8> = Vec::new();
    let mut i: usize = 0;
    while i < units.len()
        invariant
            i <= units@.len(),
            bytes@ == spec_utf16_be_bytes(units@.take(i as int)),
        decreases units@.len() - i,
    {
        let u: u16 = units[i];
        bytes.push((u / 256) as u8);
        bytes.push((u % 256) as u8);
        i = i + 1;
        proof {
            assert(bytes@ =~= spec_utf16_be_bytes(units@.take(i as int)));
        }
    }
    proof {
        assert(units@.take(units@.len() as int) =~= units@);
    }
    bytes
}

/// Decodes UTF-16 code units into characters, pairing surrogates; nothing
/// comes back when the units are ill-formed.
pub fn decode_utf16_units(units: &Vec<u16>) -> (r: Option<Vec<char>>)
    ensures
        r matches Some(cs) ==> spec_utf16_decode(units@) == Some(cs@),
        r is None ==> spec_utf16_decode(units@) is None,
{
    let mut chars: Vec<char> = Vec::new();
    let mut i: usize = 0;
    proof {
        assert(units@.skip(0) =~= units@);
        if spec_utf16_decode(units@) is Some {
            let rest = spec_utf16_decode(units@)->Some_0;
            assert(chars@ + rest =~= rest);
        }
    }
    while i < units.len()
        invariant
            i <= units@.len(),
            spec_utf16_decode(units@) == (match spec_utf16_decode(units@.skip(i as int)) {
                Some(rest) => Some(chars@ + rest),
                None => None::<Seq<char>>,
            }),
        decreases units@.len() - i,
    {
        let ghost tail: Seq<u16> = units@.skip(i as int);
        let ghost chars0: Seq<char> = chars@;
        let u: u16 = units[i];
        proof {
            assert(tail[0] == units@[i as int]);
        }
        if u < 0xD800 || u >= 0xE000 {
            let c: Option<char> = char_from_u32(u as u32);
            match c {
                Some(c) => {
                    chars.push(c);
                    proof {
                        assert(tail.drop_first() =~= units@.skip(i + 1));
                        assert(((u as u32) as char) == c) by {
                            vstd::utf8::char_u32_cast(c, u as u32);
                        }
                        if spec_utf16_decode(units@.skip(i + 1)) is Some {
                            let rest = spec_utf16_decode(units@.skip(i + 1))->Some_0;
                            assert(chars@ + rest =~= chars0 + (seq![((u as u32) as char)] + rest));
                        }
                    }
                    i = i + 1;
                },
                None => {
                    proof {
                        assert(false);
                    }
                },
            }
        } else if u < 0xDC00 && i + 1 < units.len() && units[i + 1] >= 0xDC00 && units[i + 1]
            < 0xE000 {
            let lo: u16 = units[i + 1];
            let v: u32 = 0x10000 + ((u - 0xD800) as u32) * 0x400 + ((lo - 0xDC00) as u32);
            proof {
                assert(v <= 0x10FFFF);
                assert(tail[1] == units@[i + 1]);
                assert(tail.len() >= 2);
            }
            let c: Option<char> = char_from_u32(v);
            match c {
                Some(c) => {
                    chars.push(c);
                    proof {
                        assert(tail.skip(2) =~= units@.skip(i + 2));
                        assert(((v as u32) as char) == c) by {
                            vstd::utf8::char_u32_cast(c, v);
                        }
                        if spec_utf16_decode(units@.skip(i + 2)) is Some {
                            let rest = spec_utf16_decode(units@.skip(i + 2))->Some_0;
                            assert(chars@ + rest =~= chars0 + (seq![(v as char)] + rest));
                        }
                    }
                    i = i + 2;
                },
                None => {
                    proof {
                        assert(false);
                    }
                },
            }
        } else {
            proof {
                if tail.len() >= 2 {
                    assert(tail[1] == units@[i + 1]);
                }
                assert(spec_utf16_decode(tail) is None);
            }
            return None;
        }
    }
    proof {
        assert(units@.skip(units@.len() as int) =~= Seq::<u16>::empty());
        assert(chars@ + Seq::<char>::empty() =~= chars@);
    }
    Some(chars)
}

/// Builds a string holding exactly these characters.
pub fn chars_to_string(cs: &Vec<char>) -> (r: String)
    ensures
        r@ == cs@,
{
    let mut s: String = String::new();
    let mut i: usize = 0;
    while i < cs.len()
        invariant
            i <= cs@.len(),
            s@ == cs@.take(i as int),
        decreases cs@.len() - i,
    {
        push_char(&mut s, cs[i]);
        i = i + 1;
        proof {
            assert(s@ =~= cs@.take(i as int));
        }
    }
    proof {
        assert(cs@.take(cs@.len() as int) =~= cs@);
    }
    s
}

} // verus!
