//! The sparse word-addressed memory.
//!
//! A memory maps 32-bit addresses to 64-bit words. An absent address means
//! "never written or explicitly deleted", which is distinct from an address
//! that holds the stored value zero. Byte-stream and UTF-16 string views are
//! layered on top of the word storage.

use vstd::prelude::*;
use std::collections::HashMap;
use crate::words::spec_num_words;
use crate::words::spec_padded_byte;
use crate::words::spec_word_bytes;
use crate::words::spec_word_of_bytes;
use crate::words::u64_to_u8arr;
use crate::words::lemma_word_of_bytes_agree;
use crate::utf16::spec_utf16_be_bytes;
use crate::utf16::spec_utf16_bytes;
use crate::words::lemma_word_bytes_of_word;
use crate::utf16::spec_utf16_decode;

verus! {

broadcast use vstd::std_specs::hash::group_hash_axioms;

/// Whether address `a` is one of the words that storing a buffer of `len`
/// bytes at `start` occupies.
pub open spec fn spec_stores_at(start: u32, len: nat, a: u32) -> bool {
    start <= a < start + spec_num_words(len)
}

/// The memory after storing a byte buffer as words at consecutive addresses
/// from `start`: one word per eight-byte group, big-endian, the final
/// partial group zero-padded on the right. Other addresses are untouched.
pub open spec fn spec_store_bytes(m: Map<u32, u64>, start: u32, b: Seq<u8>) -> Map<u32, u64> {
    Map::new(
        |a: u32| m.contains_key(a) || spec_stores_at(start, b.len(), a),
        |a: u32|
            if spec_stores_at(start, b.len(), a) {
                spec_word_of_bytes(b, a - start)
            } else {
                m[a]
            },
    )
}

/// The first `i` eight-byte groups of a buffer, or the whole buffer when it
/// has fewer.
pub open spec fn spec_word_prefix(b: Seq<u8>, i: int) -> Seq<u8> {
    if 8 * i <= b.len() {
        b.take(8 * i)
    } else {
        b
    }
}

/// The bytes that a bounded read collects from `addr` on: eight per stored
/// word, truncated to exactly `len` bytes, but ending early at the first
/// absent address. A zero-valued word does not end the read.
pub open spec fn spec_read_bytes(m: Map<u32, u64>, addr: int, len: nat) -> Seq<u8>
    decreases len,
{
    if len == 0 {
        Seq::empty()
    } else if !(0 <= addr <= u32::MAX) || !m.contains_key(addr as u32) {
        Seq::empty()
    } else if len >= 8 {
        spec_word_bytes(m[addr as u32]) + spec_read_bytes(m, addr + 1, (len - 8) as nat)
    } else {
        spec_word_bytes(m[addr as u32]).take(len as int)
    }
}

/// The bytes that a terminator scan collects from `addr` on: eight per
/// stored word, ending before the first zero-valued word or at the first
/// absent address; the terminating word's bytes are excluded.
pub open spec fn spec_eom_bytes(m: Map<u32, u64>, addr: int) -> Seq<u8>
    decreases 0x1_0000_0000 - addr,
{
    if !(0 <= addr <= u32::MAX) {
        Seq::empty()
    } else if !m.contains_key(addr as u32) || m[addr as u32] == 0 {
        Seq::empty()
    } else {
        spec_word_bytes(m[addr as u32]) + spec_eom_bytes(m, addr + 1)
    }
}

/// Whether this address would end a terminator scan: it is absent or holds
/// the value zero.
pub open spec fn spec_is_terminator(m: Map<u32, u64>, a: u32) -> bool {
    !m.contains_key(a) || m[a] == 0
}

/// Whether a terminator scan from `start` ends at all: some address from
/// `start` on is absent or holds the value zero.
pub open spec fn spec_has_terminator(m: Map<u32, u64>, start: u32) -> bool {
    exists|a: u32| start <= a && #[trigger] spec_is_terminator(m, a)
}

/// The bytes of `n` consecutive stored words from `addr` on.
pub open spec fn spec_words_bytes(m: Map<u32, u64>, addr: int, n: nat) -> Seq<u8>
    decreases n,
{
    if n == 0 {
        Seq::empty()
    } else {
        spec_word_bytes(m[addr as u32]) + spec_words_bytes(m, addr + 1, (n - 1) as nat)
    }
}

/// The UTF-16 code units read from a big-endian byte stream, two bytes per
/// unit, up to but excluding the first zero unit; a trailing odd byte is
/// never part of a unit.
pub open spec fn spec_units_until_zero(bytes: Seq<u8>) -> Seq<u16>
    decreases bytes.len(),
{
    if bytes.len() < 2 {
        Seq::empty()
    } else {
        let u = ((bytes[0] as int) * 256 + (bytes[1] as int)) as u16;
        if u == 0 {
            Seq::empty()
        } else {
            seq![u] + spec_units_until_zero(bytes.skip(2))
        }
    }
}

/// The failure of a string read: the bytes in memory are not well-formed
/// UTF-16 (an unpaired surrogate). It is distinct from a memory miss, which
/// merely ends the scan.
#[derive(Clone, Copy, PartialEq, Eq, Structural, Debug)]
pub struct Utf16Error;

/// A sparse mapping from 32-bit addresses to 64-bit words. Writes take the
/// memory exclusively (`&mut`), so a write overlapping another access is a
/// compile error rather than silent aliasing.
pub struct Memory {
    map: HashMap<u32, u64>,
}

impl View for Memory {
    type V = Map<u32, u64>;

    closed spec fn view(&self) -> Map<u32, u64> {
        self.map@
    }
}

impl Memory {
    /// An empty memory, sized for 2^16 live entries before any rehash.
    pub fn new() -> (r: Memory)
        ensures
            r@ == Map::<u32, u64>::empty(),
    {
        Memory { map: HashMap::with_capacity(65536) }
    }

    /// Whether data exists at this address.
    pub fn contains(&self, addr: &u32) -> (r: bool)
        ensures
            r == self@.contains_key(*addr),
    {
        self.map.contains_key(addr)
    }

    /// Writes a word to this address, inserting or overwriting; it always
    /// succeeds.
    pub fn write(&mut self, addr: u32, content: u64)
        ensures
            final(self)@ == old(self)@.insert(addr, content),
    {
        self.map.insert(addr, content);
    }

    /// Reads the word at this address: nothing exactly when the address is
    /// absent, otherwise the stored word, including an explicitly stored zero.
    pub fn read(&self, addr: u32) -> (r: Option<u64>)
        ensures
            self@.contains_key(addr) ==> r == Some(self@[addr]),
            !self@.contains_key(addr) ==> r is None,
    {
        match self.map.get(&addr) {
            Some(content) => Some(*content),
            None => None,
        }
    }

    /// Deletes the word at this address; a no-op if the address is absent.
    pub fn delete(&mut self, addr: &u32)
        ensures
            final(self)@ == old(self)@.remove(*addr),
    {
        if self.contains(addr) {
            self.map.remove(addr);
        } else {
            proof {
                assert(old(self)@.remove(*addr) =~= old(self)@);
            }
        }
    }

    /// Stores a byte buffer into memory: one word per eight-byte group,
    /// big-endian within each group, the final partial group zero-padded on
    /// the right, at consecutive addresses from `start` (one address per
    /// word, not per byte).
    pub fn write_bytes(&mut self, start: u32, bytes: &[u8])
        requires
            start + spec_num_words(bytes@.len()) <= 0x1_0000_0000,
        ensures
            final(self)@ == spec_store_bytes(old(self)@, start, bytes@),
    {
        let len: usize = bytes.len();
        let nwords: usize = len / 8 + if len % 8 != 0 {
            1
        } else {
            0
        };
        assert(nwords == spec_num_words(bytes@.len()));
        let mut i: usize = 0;
        proof {
            assert(spec_word_prefix(bytes@, 0).len() == 0);
            assert(spec_num_words(spec_word_prefix(bytes@, 0).len()) == 0);
            assert(self@ =~= spec_store_bytes(old(self)@, start, spec_word_prefix(bytes@, 0)));
        }
        while i < nwords
            invariant
                nwords == spec_num_words(bytes@.len()),
                len == bytes@.len(),
                start + nwords <= 0x1_0000_0000,
                i <= nwords,
                self@ == spec_store_bytes(old(self)@, start, spec_word_prefix(bytes@, i as int)),
            decreases nwords - i,
        {
            proof {
                vstd::arithmetic::div_mod::lemma_fundamental_div_mod(len as int, 8);
                assert(8 * i <= len);
            }
            let base: usize = 8 * i;
            let w: u64 = word_from_bytes(bytes, base);
            proof {
                assert(base as int / 8 == i) by (nonlinear_arith)
                    requires
                        base == 8 * i,
                ;
            }
            let ghost prev: Map<u32, u64> = self@;
            let ghost i0: int = i as int;
            let a_i: u32 = start + (i as u32);
            self.write(a_i, w);
            i = i + 1;
            proof {
                let orig = old(self)@;
                let p_old = spec_word_prefix(bytes@, i0);
                let p_new = spec_word_prefix(bytes@, i0 + 1);
                assert(self@ == prev.insert(a_i, w));
                assert(w == spec_word_of_bytes(bytes@, i0));
                assert(p_old.len() == 8 * i0);
                assert(spec_num_words(p_old.len()) == i0) by (nonlinear_arith)
                    requires
                        p_old.len() == 8 * i0,
                        i0 >= 0,
                ;
                assert(8 * i0 < p_new.len() <= 8 * (i0 + 1));
                assert(spec_num_words(p_new.len()) == i0 + 1) by (nonlinear_arith)
                    requires
                        8 * i0 < p_new.len() <= 8 * (i0 + 1),
                        i0 >= 0,
                ;
                assert forall|idx: int|
                    0 <= idx < 8 * i0 + 8 implies #[trigger] spec_padded_byte(p_new, idx)
                    == spec_padded_byte(bytes@, idx) by {
                    if idx < p_new.len() {
                        assert(p_new[idx] == bytes@[idx]);
                    }
                }
                assert forall|idx: int|
                    0 <= idx < 8 * i0 implies #[trigger] spec_padded_byte(p_old, idx)
                    == spec_padded_byte(bytes@, idx) by {
                    assert(p_old[idx] == bytes@[idx]);
                }
                let s_new = spec_store_bytes(orig, start, p_new);
                assert forall|a: u32|
                    #[trigger] s_new.contains_key(a) == self@.contains_key(a) && (
                    self@.contains_key(a) ==> self@[a] == s_new[a]) by {
                    if a == a_i {
                        lemma_word_of_bytes_agree(p_new, bytes@, i0);
                        assert(s_new[a] == spec_word_of_bytes(p_new, a - start));
                    } else if start <= a < start + i0 {
                        lemma_word_of_bytes_agree(p_old, p_new, a - start);
                        assert(self@[a] == prev[a]);
                        assert(prev[a] == spec_word_of_bytes(p_old, a - start));
                    } else {
                        assert(!spec_stores_at(start, p_new.len(), a));
                        assert(!spec_stores_at(start, p_old.len(), a));
                    }
                }
                assert(self@ =~= s_new);
            }
        }
        proof {
            assert(spec_word_prefix(bytes@, i as int) =~= bytes@);
            assert(self@ =~= spec_store_bytes(old(self)@, start, bytes@));
        }
    }

    /// Collects bytes from consecutive words starting at `start` until the
    /// first absent address or the first zero-valued word, whose bytes are
    /// excluded; a scan from `start` must have such a terminator somewhere.
    pub fn read_bytes_eom(&self, start: u32) -> (r: Vec<u8>)
        requires
            spec_has_terminator(self@, start),
        ensures
            r@ == spec_eom_bytes(self@, start as int),
    {
        let mut addr: u32 = start;
        let mut buf: Vec<u8> = Vec::with_capacity(64);
        loop
            invariant
                start <= addr,
                spec_has_terminator(self@, addr),
                spec_eom_bytes(self@, start as int) == buf@ + spec_eom_bytes(self@, addr as int),
            decreases u32::MAX - addr,
        {
            let data: Option<u64> = self.read(addr);
            match data {
                Some(data) => {
                    if data == 0 {
                        proof {
                            assert(buf@ + spec_eom_bytes(self@, addr as int) =~= buf@);
                        }
                        return buf;
                    }
                    let ghost buf0: Seq<u8> = buf@;
                    push_word_bytes(&mut buf, data);
                    proof {
                        assert(spec_eom_bytes(self@, addr as int) == spec_word_bytes(data)
                            + spec_eom_bytes(self@, addr as int + 1));
                        assert(buf@ + spec_eom_bytes(self@, addr as int + 1) =~= buf0
                            + spec_eom_bytes(self@, addr as int));
                        let witness = choose|a: u32|
                            addr <= a && #[trigger] spec_is_terminator(self@, a);
                        assert(!spec_is_terminator(self@, addr));
                        assert(witness != addr);
                        assert(addr < u32::MAX);
                        assert((addr + 1) as u32 <= witness && spec_is_terminator(self@, witness));
                        assert(spec_has_terminator(self@, (addr + 1) as u32));
                    }
                    addr = addr + 1;
                },
                None => {
                    proof {
                        assert(buf@ + spec_eom_bytes(self@, addr as int) =~= buf@);
                    }
                    return buf;
                },
            }
        }
    }

    /// Collects up to `len` bytes from consecutive words starting at
    /// `start`, eight per word; the result is truncated to exactly `len`
    /// bytes, or shorter when an absent address ends the read early. A
    /// zero-valued word does not end the read.
    pub fn read_bytes(&self, start: u32, len: u32) -> (r: Vec<u8>)
        requires
            len <= 8 * (0x1_0000_0000 - start as int) || (exists|a: u32|
                a >= start && !(#[trigger] self@.contains_key(a))),
        ensures
            r@ == spec_read_bytes(self@, start as int, len as nat),
    {
        let mut buf: Vec<u8> = Vec::with_capacity(len as usize);
        if len == 0 {
            return buf;
        }
        let mut addr: u32 = start;
        loop
            invariant
                start <= addr,
                buf@.len() == 8 * (addr - start),
                buf@.len() < len,
                spec_read_bytes(self@, start as int, len as nat) == buf@ + spec_read_bytes(
                    self@,
                    addr as int,
                    (len - buf@.len()) as nat,
                ),
                len - buf@.len() <= 8 * (0x1_0000_0000 - addr as int) || (exists|a: u32|
                    a >= addr && !(#[trigger] self@.contains_key(a))),
            decreases len - buf@.len(),
        {
            let data: Option<u64> = self.read(addr);
            match data {
                Some(data) => {
                    let rem: usize = len as usize - buf.len();
                    let ghost buf0: Seq<u8> = buf@;
                    if rem >= 8 {
                        push_word_bytes(&mut buf, data);
                        proof {
                            assert(spec_read_bytes(self@, addr as int, rem as nat)
                                == spec_word_bytes(data) + spec_read_bytes(
                                self@,
                                addr as int + 1,
                                (rem - 8) as nat,
                            ));
                            assert(buf@ + spec_read_bytes(self@, addr as int + 1, (rem - 8) as nat)
                                =~= buf0 + spec_read_bytes(self@, addr as int, rem as nat));
                        }
                        if rem == 8 {
                            proof {
                                assert(buf@ + spec_read_bytes(self@, addr as int + 1, 0) =~= buf@);
                            }
                            return buf;
                        }
                        proof {
                            if !(len - buf@.len() <= 8 * (0x1_0000_0000 - addr as int - 1)) {
                                let witness = choose|a: u32|
                                    a >= addr && !(#[trigger] self@.contains_key(a));
                                assert(witness != addr);
                                assert(witness >= addr + 1);
                            }
                            assert(addr < u32::MAX);
                        }
                        addr = addr + 1;
                    } else {
                        push_word_prefix(&mut buf, data, rem);
                        proof {
                            assert(spec_read_bytes(self@, addr as int, rem as nat)
                                == spec_word_bytes(data).take(rem as int));
                            assert(buf@ =~= buf0 + spec_read_bytes(self@, addr as int, rem as nat));
                        }
                        return buf;
                    }
                },
                None => {
                    proof {
                        assert(buf@ + spec_read_bytes(
                            self@,
                            addr as int,
                            (len - buf@.len()) as nat,
                        ) =~= buf@);
                    }
                    return buf;
                },
            }
        }
    }

    /// Reads a UTF-16 big-endian string from memory: scans words to the
    /// first zero word or absent address, takes code units up to the first
    /// zero unit, and decodes them; ill-formed UTF-16 is a decode failure,
    /// not a crash.
    pub fn read_utf16(&self, start: u32) -> (r: Result<String, Utf16Error>)
        requires
            spec_has_terminator(self@, start),
        ensures
            ({
                let units = spec_units_until_zero(spec_eom_bytes(self@, start as int));
                match r {
                    Ok(s) => spec_utf16_decode(units) == Some(s@),
                    Err(_) => spec_utf16_decode(units) is None,
                }
            }),
    {
        let bytes: Vec<u8> = self.read_bytes_eom(start);
        let units: Vec<u16> = units_from_bytes(&bytes);
        match crate::utf16::decode_utf16_units(&units) {
            Some(chars) => Ok(crate::utf16::chars_to_string(&chars)),
            None => Err(Utf16Error),
        }
    }

    /// Writes a string into memory as big-endian UTF-16 code units, stored
    /// via the byte view; no explicit terminator is appended, so reading the
    /// string back relies on the memory past it being zero or absent.
    pub fn write_utf16(&mut self, start: u32, string: String)
        requires
            start + spec_num_words(spec_utf16_bytes(string@).len()) <= 0x1_0000_0000,
        ensures
            final(self)@ == spec_store_bytes(old(self)@, start, spec_utf16_bytes(string@)),
    {
        let units: Vec<u16> = crate::utf16::encode_utf16_units(string.as_str());
        let bytes: Vec<u8> = crate::utf16::units_to_be_bytes(&units);
        self.write_bytes(start, bytes.as_slice());
    }
}

/// The byte at offset `base + j` of the buffer, or the zero padding byte
/// past its end.
fn padded_byte(bytes: &[u8], base: usize, j: usize) -> (r: u8)
    ensures
        r == spec_padded_byte(bytes@, base + j),
{
    if base < bytes.len() && j < bytes.len() - base {
        bytes[base + j]
    } else {
        0
    }
}

/// The word that stores the eight-byte group of the buffer beginning at
/// offset `base`, big-endian, zero-padded on the right past the end.
fn word_from_bytes(bytes: &[u8], base: usize) -> (w: u64)
    requires
        base % 8 == 0,
    ensures
        w == spec_word_of_bytes(bytes@, base as int / 8),
{
    let b0: u8 = padded_byte(bytes, base, 0);
    let b1: u8 = padded_byte(bytes, base, 1);
    let b2: u8 = padded_byte(bytes, base, 2);
    let b3: u8 = padded_byte(bytes, base, 3);
    let b4: u8 = padded_byte(bytes, base, 4);
    let b5: u8 = padded_byte(bytes, base, 5);
    let b6: u8 = padded_byte(bytes, base, 6);
    let b7: u8 = padded_byte(bytes, base, 7);
    let w: u64 = ((b0 as u64) << 56) | ((b1 as u64) << 48) | ((b2 as u64) << 40) | ((b3 as u64)
        << 32) | ((b4 as u64) << 24) | ((b5 as u64) << 16) | ((b6 as u64) << 8) | (b7 as u64);
    proof {
        vstd::arithmetic::div_mod::lemma_fundamental_div_mod(base as int, 8);
        assert(8 * (base as int / 8) == base as int);
    }
    w
}

/// Appends the first `n` bytes of the word's big-endian byte group.
fn push_word_prefix(buf: &mut Vec<u8>, w: u64, n: usize)
    requires
        n <= 8,
    ensures
        final(buf)@ == old(buf)@ + spec_word_bytes(w).take(n as int),
{
    let arr: [u8; 8] = u64_to_u8arr(w);
    let mut j: usize = 0;
    proof {
        assert(buf@ =~= old(buf)@ + spec_word_bytes(w).take(0));
    }
    while j < n
        invariant
            j <= n <= 8,
            arr@ == spec_word_bytes(w),
            buf@ == old(buf)@ + spec_word_bytes(w).take(j as int),
        decreases n - j,
    {
        buf.push(arr[j]);
        j = j + 1;
        proof {
            assert(buf@ =~= old(buf)@ + spec_word_bytes(w).take(j as int));
        }
    }
}

/// Appends all eight bytes of the word's big-endian byte group.
fn push_word_bytes(buf: &mut Vec<u8>, w: u64)
    ensures
        final(buf)@ == old(buf)@ + spec_word_bytes(w),
{
    push_word_prefix(buf, w, 8);
    proof {
        assert(spec_word_bytes(w).take(8) =~= spec_word_bytes(w));
    }
}

/// The UTF-16 code units of a big-endian byte stream, up to but excluding
/// the first zero unit.
fn units_from_bytes(bytes: &Vec<u8>) -> (r: Vec<u16>)
    ensures
        r@ == spec_units_until_zero(bytes@),
{
    let mut units: Vec<u16> = Vec::new();
    let mut i: usize = 0;
    proof {
        assert(bytes@.skip(0) =~= bytes@);
    }
    while i < bytes.len() && i + 1 < bytes.len()
        invariant
            i <= bytes@.len(),
            spec_units_until_zero(bytes@) == units@ + spec_units_until_zero(
                bytes@.skip(i as int),
            ),
        decreases bytes@.len() - i,
    {
        let ghost tail: Seq<u8> = bytes@.skip(i as int);
        let ghost units0: Seq<u16> = units@;
        let u: u16 = (bytes[i] as u16) * 256 + (bytes[i + 1] as u16);
        proof {
            assert(tail[0] == bytes@[i as int] && tail[1] == bytes@[i + 1]);
        }
        if u == 0 {
            proof {
                assert(spec_units_until_zero(tail) =~= Seq::<u16>::empty());
                assert(units@ + spec_units_until_zero(tail) =~= units@);
            }
            return units;
        }
        units.push(u);
        i = i + 2;
        proof {
            assert(tail.skip(2) =~= bytes@.skip(i as int));
            assert(spec_units_until_zero(tail) == seq![u] + spec_units_until_zero(
                bytes@.skip(i as int),
            ));
            assert(units@ + spec_units_until_zero(bytes@.skip(i as int)) =~= units0
                + spec_units_until_zero(tail));
        }
    }
    proof {
        assert(spec_units_until_zero(bytes@.skip(i as int)) =~= Seq::<u16>::empty());
        assert(units@ + spec_units_until_zero(bytes@.skip(i as int)) =~= units@);
    }
    units
}

/// An address never written stays absent: a fresh memory lacks every
/// address, and writing or deleting some other address cannot create it.
/// By `contains` and `read`, such an address reports no data and reads nothing.
pub proof fn lemma_untouched_address_absent(m: Map<u32, u64>, a: u32, b: u32, v: u64)
    requires
        !m.contains_key(a),
        a != b,
    ensures
        !Map::<u32, u64>::empty().contains_key(a),
        !m.insert(b, v).contains_key(a),
        !m.remove(b).contains_key(a),
{
}

/// A write makes the address read back exactly the written word, and a
/// second write to the same address overwrites it: the last write wins.
pub proof fn lemma_last_write_wins(m: Map<u32, u64>, a: u32, v: u64, v2: u64)
    ensures
        m.insert(a, v).contains_key(a),
        m.insert(a, v)[a] == v,
        m.insert(a, v).insert(a, v2)[a] == v2,
{
}

/// A delete leaves the address absent whatever was written before, and a
/// delete of an absent address changes nothing at all.
pub proof fn lemma_delete_absent(m: Map<u32, u64>, a: u32, v: u64)
    ensures
        !m.remove(a).contains_key(a),
        !m.insert(a, v).remove(a).contains_key(a),
        !m.contains_key(a) ==> m.remove(a) == m,
{
    if !m.contains_key(a) {
        assert(m.remove(a) =~= m);
    }
}


/// A run of zero bytes.
spec fn zero_seq(n: nat) -> Seq<u8> {
    Seq::new(n, |i: int| 0u8)
}

/// A bounded read of exactly the stored length returns a stored buffer
/// unchanged: reading back `b.len()` bytes after storing `b` on any prior
/// memory yields `b`, whether or not the length is a multiple of eight.
pub proof fn lemma_store_read_round_trip(m: Map<u32, u64>, start: u32, b: Seq<u8>)
    requires
        start + spec_num_words(b.len()) <= 0x1_0000_0000,
    ensures
        spec_read_bytes(spec_store_bytes(m, start, b), start as int, b.len()) == b,
{
    lemma_store_read_from(m, start, b, 0);
    assert(b.skip(0) =~= b);
}

/// The tail of the round trip: from word `j` on, the read returns the
/// remaining bytes of the stored buffer.
proof fn lemma_store_read_from(m: Map<u32, u64>, start: u32, b: Seq<u8>, j: nat)
    requires
        start + spec_num_words(b.len()) <= 0x1_0000_0000,
        8 * j <= b.len(),
    ensures
        spec_read_bytes(spec_store_bytes(m, start, b), start + j, (b.len() - 8 * j) as nat)
            == b.skip(8 * j as int),
    decreases b.len() - 8 * j,
{
    let s = spec_store_bytes(m, start, b);
    let rem = (b.len() - 8 * j) as nat;
    let n = spec_num_words(b.len());
    if rem == 0 {
        assert(b.skip(8 * j as int) =~= Seq::<u8>::empty());
    } else {
        assert(j < n) by (nonlinear_arith)
            requires
                8 * j < b.len(),
                n == (b.len() + 7) / 8,
        ;
        let a = (start + j) as u32;
        assert(spec_stores_at(start, b.len(), a));
        assert(s.contains_key(a) && s[a] == spec_word_of_bytes(b, j as int));
        lemma_word_bytes_of_word(b, j as int);
        let wb = spec_word_bytes(s[a]);
        if rem >= 8 {
            lemma_store_read_from(m, start, b, j + 1);
            assert(spec_read_bytes(s, start + j, rem) == wb + spec_read_bytes(
                s,
                start + j + 1,
                (rem - 8) as nat,
            ));
            assert(wb + b.skip(8 * (j + 1) as int) =~= b.skip(8 * j as int));
        } else {
            assert(spec_read_bytes(s, start + j, rem) == wb.take(rem as int));
            assert(wb.take(rem as int) =~= b.skip(8 * j as int));
        }
    }
}

/// The final word of a stored buffer whose length is not a multiple of
/// eight carries zeroes in its padding bytes, past the true length.
pub proof fn lemma_final_word_padding(b: Seq<u8>, j: int)
    requires
        b.len() % 8 != 0,
        b.len() % 8 <= j < 8,
    ensures
        spec_word_bytes(spec_word_of_bytes(b, b.len() as int / 8))[j] == 0,
{
    lemma_word_bytes_of_word(b, b.len() as int / 8);
    vstd::arithmetic::div_mod::lemma_fundamental_div_mod(b.len() as int, 8);
    assert(8 * (b.len() as int / 8) + j >= b.len());
}

/// The bytes of `n` consecutive nonzero stored words followed by a
/// terminator are exactly what the terminator scan returns.
proof fn lemma_eom_words(m: Map<u32, u64>, start: u32, n: nat)
    requires
        start + n <= u32::MAX,
        forall|a: u32|
            start <= a < start + n ==> (#[trigger] m.contains_key(a)) && m[a] != 0,
        spec_is_terminator(m, (start + n) as u32),
    ensures
        spec_eom_bytes(m, start as int) == spec_words_bytes(m, start as int, n),
    decreases n,
{
    if n == 0 {
        assert(spec_is_terminator(m, start));
    } else {
        assert(m.contains_key(start) && m[start] != 0);
        assert forall|a: u32|
            (start + 1) as u32 <= a < (start + 1) as u32 + (n - 1) implies (
        #[trigger] m.contains_key(a)) && m[a] != 0 by {
            assert(start <= a < start + n);
        }
        lemma_eom_words(m, (start + 1) as u32, (n - 1) as nat);
    }
}

/// The bytes of `n` consecutive stored words are exactly what a bounded
/// read of `8 * n` bytes returns, zero-valued words included.
proof fn lemma_read_words(m: Map<u32, u64>, start: u32, n: nat)
    requires
        start + n <= 0x1_0000_0000,
        forall|a: u32| start <= a < start + n ==> #[trigger] m.contains_key(a),
    ensures
        spec_read_bytes(m, start as int, 8 * n) == spec_words_bytes(m, start as int, n),
    decreases n,
{
    if n > 0 {
        assert(m.contains_key(start));
        assert forall|a: u32|
            (start + 1) as u32 <= a < (start + 1) as u32 + (n - 1) implies #[trigger] m.contains_key(
            a,
        ) by {
            assert(start <= a < start + n);
        }
        lemma_read_words(m, (start + 1) as u32, (n - 1) as nat);
        if n == 1 {
            assert(spec_read_bytes(m, start as int + 1, 0) =~= Seq::<u8>::empty());
            assert(spec_word_bytes(m[start]) + spec_read_bytes(m, start as int + 1, 0)
                =~= spec_word_bytes(m[start]));
            assert(spec_word_bytes(m[start]) + spec_words_bytes(m, start as int + 1, 0)
                =~= spec_word_bytes(m[start]));
        }
    }
}

/// The terminator contrast: a terminator scan stops at the first
/// zero-valued word and excludes its bytes, while a bounded read of enough
/// length runs right through the zero word and includes them.
pub proof fn lemma_terminator_scan(m: Map<u32, u64>, start: u32, n: nat)
    requires
        start + n <= u32::MAX,
        forall|a: u32|
            start <= a < start + n ==> (#[trigger] m.contains_key(a)) && m[a] != 0,
        m.contains_key((start + n) as u32),
        m[(start + n) as u32] == 0,
    ensures
        spec_eom_bytes(m, start as int) == spec_words_bytes(m, start as int, n),
        spec_read_bytes(m, start as int, 8 * (n + 1)) == spec_words_bytes(m, start as int, n + 1),
{
    assert(spec_is_terminator(m, (start + n) as u32));
    lemma_eom_words(m, start, n);
    assert forall|a: u32| start <= a < start + (n + 1) implies #[trigger] m.contains_key(a) by {
        if a < start + n {
        } else {
            assert(a == (start + n) as u32);
        }
    }
    lemma_read_words(m, start, (n + 1) as nat);
}

/// The bytes of the words that store a buffer are the buffer itself plus
/// its zero padding, from word `j` on.
proof fn lemma_stored_words_padded(m: Map<u32, u64>, start: u32, b: Seq<u8>, j: nat)
    requires
        start + spec_num_words(b.len()) <= 0x1_0000_0000,
        j <= spec_num_words(b.len()),
        forall|a: u32|
            start <= a < start + spec_num_words(b.len()) ==> (#[trigger] m.contains_key(a)) && m[a]
                == spec_word_of_bytes(b, a - start),
    ensures
        spec_words_bytes(m, start + j, (spec_num_words(b.len()) - j) as nat) == Seq::new(
            (8 * (spec_num_words(b.len()) - j)) as nat,
            |t: int| spec_padded_byte(b, 8 * j + t),
        ),
    decreases spec_num_words(b.len()) - j,
{
    let n = spec_num_words(b.len());
    if j == n {
        assert(spec_words_bytes(m, start + j, 0) =~= Seq::new(
            0,
            |t: int| spec_padded_byte(b, 8 * j + t),
        ));
    } else {
        let a = (start + j) as u32;
        assert(start + j <= 0xFFFF_FFFF);
        assert(a == start + j);
        assert(start <= a < start + n);
        assert(m.contains_key(a));
        assert(m[a] == spec_word_of_bytes(b, a - start));
        assert(a - start == j as int);
        assert(m[a] == spec_word_of_bytes(b, j as int));
        lemma_word_bytes_of_word(b, j as int);
        lemma_stored_words_padded(m, start, b, j + 1);
        assert(spec_words_bytes(m, start + j, (n - j) as nat) == spec_word_bytes(m[a])
            + spec_words_bytes(m, start + j + 1, (n - j - 1) as nat));
        assert(spec_word_bytes(m[a]) + Seq::new(
            (8 * (n - j - 1)) as nat,
            |t: int| spec_padded_byte(b, 8 * (j + 1) + t),
        ) =~= Seq::new((8 * (n - j)) as nat, |t: int| spec_padded_byte(b, 8 * j + t)));
    }
}

/// Reading UTF-16 big-endian bytes back as code units, zero padding after
/// them, recovers exactly the nonzero units.
proof fn lemma_units_scan(units: Seq<u16>, pad: nat)
    requires
        pad % 2 == 0,
        forall|t: int| 0 <= t < units.len() ==> (#[trigger] units[t]) != 0,
    ensures
        spec_units_until_zero(spec_utf16_be_bytes(units) + zero_seq(pad)) == units,
    decreases units.len(),
{
    let bytes = spec_utf16_be_bytes(units) + zero_seq(pad);
    if units.len() == 0 {
        if pad == 0 {
            assert(bytes.len() < 2);
            assert(spec_units_until_zero(bytes) =~= units);
        } else {
            assert(pad >= 2);
            assert(bytes[0] == 0 && bytes[1] == 0);
            assert(spec_units_until_zero(bytes) =~= units);
        }
    } else {
        let u0 = units[0];
        assert(bytes[0] == (u0 / 256) as u8 && bytes[1] == (u0 % 256) as u8);
        vstd::arithmetic::div_mod::lemma_fundamental_div_mod(u0 as int, 256);
        assert(u0 / 256 <= 255 && u0 % 256 <= 255);
        assert(((bytes[0] as int) * 256 + (bytes[1] as int)) as u16 == u0);
        assert forall|t: int|
            0 <= t < units.drop_first().len() implies (#[trigger] units.drop_first()[t])
            != 0 by {
            assert(units.drop_first()[t] == units[t + 1]);
        }
        lemma_units_scan(units.drop_first(), pad);
        assert(bytes.skip(2) =~= spec_utf16_be_bytes(units.drop_first()) + zero_seq(pad));
        assert(seq![u0] + units.drop_first() =~= units);
    }
}

/// The string round trip: a text without the null character, stored by the
/// UTF-16 writer into memory that is absent across the written range and
/// one address past it, is exactly what the string reader's scan, unit
/// collection and decode recover.
pub proof fn lemma_utf16_round_trip(m: Map<u32, u64>, start: u32, text: Seq<char>)
    requires
        forall|i: int| 0 <= i < text.len() ==> ((#[trigger] text[i]) as u32) != 0,
        forall|a: u32|
            start <= a <= start + spec_num_words(spec_utf16_bytes(text).len()) ==> !(
            #[trigger] m.contains_key(a)),
        start + spec_num_words(spec_utf16_bytes(text).len()) <= u32::MAX,
    ensures
        ({
            let m2 = spec_store_bytes(m, start, spec_utf16_bytes(text));
            &&& spec_has_terminator(m2, start)
            &&& spec_utf16_decode(spec_units_until_zero(spec_eom_bytes(m2, start as int)))
                == Some(text)
        }),
{
    let units = crate::utf16::spec_utf16_encode(text);
    let b = spec_utf16_bytes(text);
    let n = spec_num_words(b.len());
    let m2 = spec_store_bytes(m, start, b);
    crate::utf16::lemma_utf16_encode_nonzero(text);
    assert(b.len() == 2 * units.len());
    let term = (start + n) as u32;
    assert(!spec_stores_at(start, b.len(), term));
    assert(!m2.contains_key(term));
    assert(spec_is_terminator(m2, term));
    assert(start <= term && spec_is_terminator(m2, term));
    assert(spec_has_terminator(m2, start));
    assert forall|a: u32|
        start <= a < start + n implies (#[trigger] m2.contains_key(a)) && m2[a] != 0 by {
        let k: int = a - start;
        assert(spec_stores_at(start, b.len(), a));
        assert(m2[a] == spec_word_of_bytes(b, k));
        assert(8 * k <= b.len() - 2) by (nonlinear_arith)
            requires
                0 <= k < n,
                n == (b.len() + 7) / 8,
                b.len() % 2 == 0,
        ;
        if spec_word_of_bytes(b, k) == 0 {
            lemma_word_bytes_of_word(b, k);
            crate::words::lemma_zero_word_zero_bytes(spec_word_of_bytes(b, k));
            assert(spec_word_bytes(spec_word_of_bytes(b, k))[0] == 0);
            assert(spec_word_bytes(spec_word_of_bytes(b, k))[1] == 0);
            assert(spec_padded_byte(b, 8 * k) == 0 && spec_padded_byte(b, 8 * k + 1) == 0);
            assert(b[8 * k] == 0 && b[8 * k + 1] == 0);
            let t: int = 4 * k;
            assert(b[2 * t] == (units[t] / 256) as u8 && b[2 * t + 1] == (units[t] % 256) as u8);
            vstd::arithmetic::div_mod::lemma_fundamental_div_mod(units[t] as int, 256);
            assert(units[t] == 0);
            assert(false);
        }
    }
    lemma_eom_words(m2, start, n);
    assert forall|a: u32|
        start <= a < start + n implies (#[trigger] m2.contains_key(a)) && m2[a]
        == spec_word_of_bytes(b, a - start) by {
        assert(spec_stores_at(start, b.len(), a));
    }
    lemma_stored_words_padded(m2, start, b, 0);
    let pb = Seq::new((8 * n) as nat, |t: int| spec_padded_byte(b, t));
    assert(spec_words_bytes(m2, start as int, n) == pb);
    let pad = (8 * n - b.len()) as nat;
    assert(pad % 2 == 0) by (nonlinear_arith)
        requires
            pad == 8 * n - b.len(),
            b.len() % 2 == 0,
            8 * n >= b.len(),
    ;
    assert(8 * n >= b.len()) by (nonlinear_arith)
        requires
            n == (b.len() + 7) / 8,
    ;
    assert(pb =~= spec_utf16_be_bytes(units) + zero_seq(pad));
    lemma_units_scan(units, pad);
    assert(spec_units_until_zero(spec_eom_bytes(m2, start as int)) == units);
    crate::utf16::lemma_utf16_decode_encode(text);
}



} // verus!
