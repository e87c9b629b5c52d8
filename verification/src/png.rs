//! The PNG encoder the application icon is written with: CRC-32 and Adler-32
//! checksums, an LSB-first bit writer for deflate, the fixed-Huffman codes
//! for literals and lengths, and the file's signature and chunks.
use vstd::prelude::*;
use crate::deflate::{block_bits, deflate, is_deflate_of, lz77_tokens};
use crate::inflate::inflate;

verus! {

/// One bit of the reflected CRC-32 division by 0xEDB88320.
pub open spec fn crc_shift(c: u32) -> u32 {
    if c & 1 != 0 {
        0xEDB8_8320u32 ^ (c >> 1u32)
    } else {
        c >> 1u32
    }
}

/// Eight bits of the division: one byte's worth.
pub open spec fn crc_shift8(c: u32) -> u32 {
    crc_shift(crc_shift(crc_shift(crc_shift(crc_shift(crc_shift(crc_shift(crc_shift(c))))))))
}

/// The running CRC register after `data`, starting from `c`.
pub open spec fn crc_update(c: u32, data: Seq<u8>) -> u32
    decreases data.len(),
{
    if data.len() == 0 {
        c
    } else {
        crc_shift8(crc_update(c, data.drop_last()) ^ (data.last() as u32))
    }
}

/// CRC-32 as PNG and zlib use it: register preset to all ones, reflected
/// polynomial 0xEDB88320, result inverted.
pub open spec fn spec_crc32(data: Seq<u8>) -> u32 {
    crc_update(0xFFFF_FFFFu32, data) ^ 0xFFFF_FFFFu32
}

fn shift8(c0: u32) -> (c: u32)
    ensures
        c == crc_shift8(c0),
{
    let mut c = c0;
    c = if c & 1 != 0 { 0xEDB8_8320 ^ (c >> 1) } else { c >> 1 };
    c = if c & 1 != 0 { 0xEDB8_8320 ^ (c >> 1) } else { c >> 1 };
    c = if c & 1 != 0 { 0xEDB8_8320 ^ (c >> 1) } else { c >> 1 };
    c = if c & 1 != 0 { 0xEDB8_8320 ^ (c >> 1) } else { c >> 1 };
    c = if c & 1 != 0 { 0xEDB8_8320 ^ (c >> 1) } else { c >> 1 };
    c = if c & 1 != 0 { 0xEDB8_8320 ^ (c >> 1) } else { c >> 1 };
    c = if c & 1 != 0 { 0xEDB8_8320 ^ (c >> 1) } else { c >> 1 };
    c = if c & 1 != 0 { 0xEDB8_8320 ^ (c >> 1) } else { c >> 1 };
    c
}

/// The division is linear, so a byte's step splits into the table entry for
/// its low eight bits and the rest of the register shifted down.
proof fn lemma_crc_table_step(x: u32)
    ensures
        crc_shift8(x) == crc_shift8(x & 0xFFu32) ^ (x >> 8u32),
{
    assert(crc_shift8(x) == crc_shift8(x & 0xFFu32) ^ (x >> 8u32)) by (bit_vector);
}

/// CRC-32 of `data`, a byte at a time through a 256-entry table.
pub fn crc32(data: &[u8]) -> (r: u32)
    ensures
        r == spec_crc32(data@),
{
    let mut table: Vec<u32> = Vec::new();
    let mut i: u32 = 0;
    while i < 256
        invariant
            i <= 256,
            table@.len() == i,
            forall|j: int| 0 <= j < i ==> table@[j] == crc_shift8(j as u32),
        decreases 256 - i,
    {
        table.push(shift8(i));
        i = i + 1;
    }
    let mut c: u32 = 0xFFFF_FFFF;
    let mut k: usize = 0;
    while k < data.len()
        invariant
            k <= data@.len(),
            table@.len() == 256,
            forall|j: int| 0 <= j < 256 ==> table@[j] == crc_shift8(j as u32),
            c == crc_update(0xFFFF_FFFFu32, data@.take(k as int)),
        decreases data@.len() - k,
    {
        let b = data[k];
        let x = c ^ (b as u32);
        let idx = x & 0xFF;
        proof {
            lemma_crc_table_step(x);
            assert(x >> 8u32 == c >> 8u32) by (bit_vector)
                requires x == c ^ (b as u32), b < 256;
            assert(data@.take(k + 1).drop_last() =~= data@.take(k as int));
            assert(idx < 256) by (bit_vector) requires idx == x & 0xFF;
        }
        c = table[idx as usize] ^ (c >> 8);
        k = k + 1;
    }
    proof {
        assert(data@.take(k as int) =~= data@);
    }
    c ^ 0xFFFF_FFFF
}

/// The largest prime below 2^16, the Adler-32 modulus.
pub const ADLER_MOD: u32 = 65521;

/// The two Adler-32 sums after `data`: the first is one plus the bytes so
/// far, the second the sum of the successive first sums, both modulo 65521.
pub open spec fn adler_sums(data: Seq<u8>) -> (u32, u32)
    decreases data.len(),
{
    if data.len() == 0 {
        (1, 0)
    } else {
        let (a, b) = adler_sums(data.drop_last());
        let a2 = ((a + data.last()) % 65521) as u32;
        (a2, ((b + a2) % 65521) as u32)
    }
}

proof fn lemma_adler_bounds(data: Seq<u8>)
    ensures
        adler_sums(data).0 < 65521,
        adler_sums(data).1 < 65521,
    decreases data.len(),
{
    if data.len() > 0 {
        lemma_adler_bounds(data.drop_last());
    }
}

/// Adler-32 as zlib uses it: the second sum in the high half, the first in
/// the low.
pub open spec fn spec_adler32(data: Seq<u8>) -> u32 {
    (adler_sums(data).1 << 16u32) | adler_sums(data).0
}

pub fn adler32(data: &[u8]) -> (r: u32)
    ensures
        r == spec_adler32(data@),
{
    let mut a: u32 = 1;
    let mut b: u32 = 0;
    let mut k: usize = 0;
    while k < data.len()
        invariant
            k <= data@.len(),
            (a, b) == adler_sums(data@.take(k as int)),
            a < 65521,
            b < 65521,
        decreases data@.len() - k,
    {
        proof {
            assert(data@.take(k + 1).drop_last() =~= data@.take(k as int));
        }
        a = (a + data[k] as u32) % ADLER_MOD;
        b = (b + a) % ADLER_MOD;
        k = k + 1;
    }
    proof {
        assert(data@.take(k as int) =~= data@);
    }
    (b << 16) | a
}

/// The low `n` bits of `v`, least significant first.
pub open spec fn low_bits(v: u32, n: nat) -> Seq<bool> {
    Seq::new(n, |i: int| (v >> (i as u32)) & 1u32 == 1u32)
}

/// Bytes as a bit string, each byte least significant bit first: the order
/// deflate packs everything but its Huffman codes in.
pub open spec fn byte_bits(bs: Seq<u8>) -> Seq<bool>
    decreases bs.len(),
{
    if bs.len() == 0 {
        Seq::empty()
    } else {
        byte_bits(bs.drop_last()) + low_bits(bs.last() as u32, 8)
    }
}

/// A bit string followed by zero bits up to the next whole byte.
pub open spec fn padded(bits: Seq<bool>) -> Seq<bool> {
    bits + Seq::new(((8 - bits.len() % 8) % 8) as nat, |i: int| false)
}

proof fn lemma_byte_bits_len(bs: Seq<u8>)
    ensures
        byte_bits(bs).len() == 8 * bs.len(),
    decreases bs.len(),
{
    if bs.len() > 0 {
        lemma_byte_bits_len(bs.drop_last());
    }
}

/// An LSB-first bit sink.
pub struct Bits {
    out: Vec<u8>,
    acc: u32,
    n: u32,
}

proof fn lemma_or_shift_bits(acc: u32, value: u32, n: u32, bits: u32)
    requires
        n < 8,
        bits <= 24,
        acc < (1u32 << n),
        value < (1u32 << bits),
    ensures
        low_bits(acc | (value << n), (n + bits) as nat) == low_bits(acc, n as nat) + low_bits(value, bits as nat),
        (acc | (value << n)) < (1u32 << ((n + bits) as u32)),
{
    let a2 = acc | (value << n);
    let l = low_bits(a2, (n + bits) as nat);
    let r = low_bits(acc, n as nat) + low_bits(value, bits as nat);
    assert forall|i: int| 0 <= i < (n + bits) implies l[i] == r[i] by {
        let iu = i as u32;
        if i < n {
            assert(((acc | (value << n)) >> iu) & 1u32 == (acc >> iu) & 1u32) by (bit_vector)
                requires iu < n, n < 8, bits <= 24, acc < (1u32 << n), value < (1u32 << bits);
        } else {
            let ju = (i - n) as u32;
            assert(((acc | (value << n)) >> iu) & 1u32 == (value >> ju) & 1u32) by (bit_vector)
                requires iu == ju + n, ju < bits, n < 8, bits <= 24, acc < (1u32 << n), value < (1u32 << bits);
        }
    }
    assert(l =~= r);
    assert((acc | (value << n)) < (1u32 << ((n + bits) as u32))) by (bit_vector)
        requires n < 8, bits <= 24, acc < (1u32 << n), value < (1u32 << bits);
}

proof fn lemma_split_byte(acc: u32, n: u32)
    requires
        8 <= n <= 31,
        acc < (1u32 << n),
    ensures
        low_bits(acc, n as nat) == low_bits(((acc & 0xFFu32) as u8) as u32, 8) + low_bits(acc >> 8u32, (n - 8) as nat),
        (acc >> 8u32) < (1u32 << ((n - 8) as u32)),
{
    let l = low_bits(acc, n as nat);
    let b = ((acc & 0xFFu32) as u8) as u32;
    assert(((acc & 0xFFu32) as u8) as u32 == acc & 0xFFu32) by (bit_vector);
    let r = low_bits(b, 8) + low_bits(acc >> 8u32, (n - 8) as nat);
    assert forall|i: int| 0 <= i < n implies l[i] == r[i] by {
        let iu = i as u32;
        if i < 8 {
            assert(((acc & 0xFFu32) >> iu) & 1u32 == (acc >> iu) & 1u32) by (bit_vector)
                requires iu < 8;
        } else {
            let ju = (i - 8) as u32;
            assert(((acc >> 8u32) >> ju) & 1u32 == (acc >> iu) & 1u32) by (bit_vector)
                requires iu == ju + 8, iu < 32;
        }
    }
    assert(l =~= r);
    assert((acc >> 8u32) < (1u32 << ((n - 8) as u32))) by (bit_vector)
        requires 8 <= n <= 31, acc < (1u32 << n);
}

impl View for Bits {
    type V = Seq<bool>;

    /// Every bit written so far, in order.
    closed spec fn view(&self) -> Seq<bool> {
        byte_bits(self.out@) + low_bits(self.acc, self.n as nat)
    }
}

impl Bits {
    /// The pending bits are fewer than a byte and nothing above them is set.
    pub closed spec fn inv(&self) -> bool {
        self.n < 8 && self.acc < (1u32 << self.n)
    }

    pub fn new() -> (b: Bits)
        ensures
            b.inv(),
            b@ == Seq::<bool>::empty(),
    {
        let b = Bits { out: Vec::new(), acc: 0, n: 0 };
        proof {
            assert(0u32 < (1u32 << 0u32)) by (bit_vector);
            assert(b@ =~= Seq::<bool>::empty());
        }
        b
    }

    /// Appends the low `bits` bits of `value`, least significant first.
    pub fn put(&mut self, value: u32, bits: u32)
        requires
            old(self).inv(),
            bits <= 24,
            value < (1u32 << bits),
        ensures
            final(self).inv(),
            final(self)@ == old(self)@ + low_bits(value, bits as nat),
    {
        proof {
            lemma_or_shift_bits(self.acc, value, self.n, bits);
        }
        let ghost target = old(self)@ + low_bits(value, bits as nat);
        self.acc = self.acc | (value << self.n);
        self.n = self.n + bits;
        proof {
            assert(byte_bits(self.out@) + low_bits(self.acc, self.n as nat) =~= target);
        }
        while self.n >= 8
            invariant
                self.n <= 31,
                self.acc < (1u32 << self.n),
                byte_bits(self.out@) + low_bits(self.acc, self.n as nat) == target,
            decreases self.n,
        {
            let byte = (self.acc & 0xFF) as u8;
            proof {
                lemma_split_byte(self.acc, self.n);
                let o2 = self.out@.push(byte);
                assert(o2.drop_last() =~= self.out@);
                assert(byte_bits(o2) == byte_bits(self.out@) + low_bits(byte as u32, 8));
            }
            self.out.push(byte);
            self.acc = self.acc >> 8;
            self.n = self.n - 8;
        }
    }

    /// Appends the low `bits` bits of `code`, most significant first: the
    /// order deflate writes its Huffman codes in.
    pub fn put_rev(&mut self, code: u32, bits: u32)
        requires
            old(self).inv(),
            bits <= 24,
            code < (1u32 << bits),
        ensures
            final(self).inv(),
            final(self)@ == old(self)@ + low_bits(code, bits as nat).reverse(),
    {
        let mut r: u32 = 0;
        let mut i: u32 = 0;
        proof {
            assert(forall|j: u32| #[trigger] ((0u32 >> j) & 1u32) == 0u32) by (bit_vector);
            assert(0u32 < (1u32 << bits)) by (bit_vector) requires bits <= 24;
        }
        while i < bits
            invariant
                i <= bits <= 24,
                code < (1u32 << bits),
                r < (1u32 << bits),
                forall|j: u32| j < bits ==> #[trigger] ((r >> j) & 1u32) == (if j + i >= bits {
                    (code >> ((bits - 1 - j) as u32)) & 1u32
                } else {
                    0u32
                }),
            decreases bits - i,
        {
            let bit = (code >> i) & 1;
            let sh = bits - 1 - i;
            let ghost r0 = r;
            proof {
                assert(bit <= 1) by (bit_vector) requires bit == (code >> i) & 1u32;
                assert((r0 >> sh) & 1u32 == (if sh + i >= bits {
                    (code >> ((bits - 1 - sh) as u32)) & 1u32
                } else {
                    0u32
                }));
            }
            r = r | (bit << sh);
            proof {
                assert forall|j: u32| j < bits implies #[trigger] ((r >> j) & 1u32) == (if j + (i + 1) >= bits {
                    (code >> ((bits - 1 - j) as u32)) & 1u32
                } else {
                    0u32
                }) by {
                    let old_bit = (r0 >> j) & 1u32;
                    assert(old_bit == (if j + i >= bits {
                        (code >> ((bits - 1 - j) as u32)) & 1u32
                    } else {
                        0u32
                    }));
                    assert((r >> j) & 1u32 == (if j == sh { bit } else { old_bit })) by (bit_vector)
                        requires r == r0 | (bit << sh), bit <= 1, sh < bits, bits <= 24, j < bits,
                            old_bit == (r0 >> j) & 1u32, (r0 >> sh) & 1u32 == 0u32;
                    if j == sh {
                        assert(bit == (code >> i) & 1u32);
                    }
                }
                assert(r < (1u32 << bits)) by (bit_vector)
                    requires r == r0 | (bit << sh), r0 < (1u32 << bits), bit <= 1, sh < bits, bits <= 24;
            }
            i = i + 1;
        }
        proof {
            let a = low_bits(r, bits as nat);
            let b = low_bits(code, bits as nat).reverse();
            assert forall|j: int| 0 <= j < bits implies a[j] == b[j] by {
                let ju = j as u32;
                assert(((r >> ju) & 1u32) == (code >> ((bits - 1 - ju) as u32)) & 1u32);
            }
            assert(a =~= b);
        }
        self.put(r, bits);
    }

    /// The bytes written, the last one padded with zero bits.
    pub fn finish(self) -> (r: Vec<u8>)
        requires
            self.inv(),
        ensures
            byte_bits(r@) == padded(self@),
    {
        proof {
            lemma_byte_bits_len(self.out@);
            assert(self@.len() % 8 == self.n as int) by (nonlinear_arith)
                requires self@.len() == 8 * self.out@.len() + self.n, self.n < 8;
        }
        let mut out = self.out;
        if self.n > 0 {
            let byte = (self.acc & 0xFF) as u8;
            proof {
                let pad = Seq::new(((8 - self@.len() % 8) % 8) as nat, |i: int| false);
                let o2 = out@.push(byte);
                assert(o2.drop_last() =~= out@);
                let acc0 = self.acc;
                assert(((acc0 & 0xFFu32) as u8) as u32 == acc0 & 0xFFu32) by (bit_vector);
                assert forall|i: int| 0 <= i < 8 implies low_bits(byte as u32, 8)[i] == (low_bits(self.acc, self.n as nat) + pad)[i] by {
                    let iu = i as u32;
                    let n = self.n;
                    let acc = self.acc;
                    if i < n {
                        assert(((acc & 0xFFu32) >> iu) & 1u32 == (acc >> iu) & 1u32) by (bit_vector)
                            requires iu < 8;
                    } else {
                        assert(((acc & 0xFFu32) >> iu) & 1u32 == 0u32) by (bit_vector)
                            requires n <= iu, iu < 8, acc < (1u32 << n), n < 8;
                    }
                }
                assert(low_bits(byte as u32, 8) =~= low_bits(self.acc, self.n as nat) + pad);
                assert(padded(self@) =~= self@ + pad);
            }
            out.push(byte);
        } else {
            proof {
                assert(low_bits(self.acc, 0) =~= Seq::<bool>::empty());
                assert(padded(self@) =~= self@);
            }
        }
        out
    }
}

/// A code of the given length, written most significant bit first.
pub open spec fn huffman_bits(code: u32, len: u32) -> Seq<bool> {
    low_bits(code, len as nat).reverse()
}

/// The fixed Huffman code for a literal byte (RFC 1951, 3.2.6): 0 to 143 take
/// the eight-bit codes from 0x30, 144 to 255 the nine-bit codes from 0x190.
pub open spec fn literal_code(v: u8) -> (u32, u32) {
    if v < 144 {
        ((0x30 + v) as u32, 8)
    } else {
        ((0x190 + (v - 144)) as u32, 9)
    }
}

/// The fixed Huffman code for a length symbol from 256 to 287: 256 to 279
/// take the seven-bit codes from 0, 280 to 287 the eight-bit codes from 0xC0.
pub open spec fn length_symbol_code(sym: u32) -> (u32, u32) {
    if sym < 280 {
        ((sym - 256) as u32, 7)
    } else {
        ((0xC0 + (sym - 280)) as u32, 8)
    }
}

pub fn put_literal(b: &mut Bits, byte: u8)
    requires
        old(b).inv(),
    ensures
        final(b).inv(),
        final(b)@ == old(b)@ + huffman_bits(literal_code(byte).0, literal_code(byte).1),
{
    let v = byte as u32;
    proof {
        assert((1u32 << 8u32) == 256u32) by (bit_vector);
        assert((1u32 << 9u32) == 512u32) by (bit_vector);
    }
    if v < 144 {
        b.put_rev(0x30 + v, 8);
    } else {
        b.put_rev(0x190 + (v - 144), 9);
    }
}

pub fn put_length_code(b: &mut Bits, sym: u32)
    requires
        old(b).inv(),
        256 <= sym <= 287,
    ensures
        final(b).inv(),
        final(b)@ == old(b)@ + huffman_bits(length_symbol_code(sym).0, length_symbol_code(sym).1),
{
    proof {
        assert((1u32 << 7u32) == 128u32) by (bit_vector);
        assert((1u32 << 8u32) == 256u32) by (bit_vector);
    }
    if sym < 280 {
        b.put_rev(sym - 256, 7);
    } else {
        b.put_rev(0xC0 + (sym - 280), 8);
    }
}

/// A 32-bit value as four bytes, most significant first.
pub open spec fn be32(v: u32) -> Seq<u8> {
    seq![(v / 0x100_0000) as u8, (v / 0x1_0000 % 0x100) as u8, (v / 0x100 % 0x100) as u8, (v % 0x100) as u8]
}

fn push_be32(out: &mut Vec<u8>, v: u32)
    ensures
        final(out)@ == old(out)@ + be32(v),
{
    out.push((v / 0x100_0000) as u8);
    out.push((v / 0x1_0000 % 0x100) as u8);
    out.push((v / 0x100 % 0x100) as u8);
    out.push((v % 0x100) as u8);
    proof {
        assert(final(out)@ =~= old(out)@ + be32(v));
    }
}

/// Appends `src[lo..hi]`.
fn append_range(out: &mut Vec<u8>, src: &[u8], lo: usize, hi: usize)
    requires
        lo <= hi <= src@.len(),
    ensures
        final(out)@ == old(out)@ + src@.subrange(lo as int, hi as int),
{
    let ghost start = out@;
    let mut k = lo;
    while k < hi
        invariant
            lo <= k <= hi <= src@.len(),
            out@ == start + src@.subrange(lo as int, k as int),
        decreases hi - k,
    {
        out.push(src[k]);
        proof {
            assert(src@.subrange(lo as int, k + 1) =~= src@.subrange(lo as int, k as int).push(src@[k as int]));
        }
        k = k + 1;
    }
}

/// The PNG file signature.
pub open spec fn signature() -> Seq<u8> {
    seq![0x89, 0x50, 0x4E, 0x47, 0x0D, 0x0A, 0x1A, 0x0A]
}

/// A chunk: the data's length, the four-letter kind, the data, and the CRC-32
/// of kind and data.
pub open spec fn chunk_bytes(kind: Seq<u8>, data: Seq<u8>) -> Seq<u8> {
    be32(data.len() as u32) + kind + data + be32(spec_crc32(kind + data))
}

fn chunk(kind: &[u8], data: &[u8]) -> (c: Vec<u8>)
    ensures
        c@ == chunk_bytes(kind@, data@),
{
    let mut c: Vec<u8> = Vec::new();
    push_be32(&mut c, data.len() as u32);
    append_range(&mut c, kind, 0, kind.len());
    append_range(&mut c, data, 0, data.len());
    let mut crc_in: Vec<u8> = Vec::new();
    append_range(&mut crc_in, kind, 0, kind.len());
    append_range(&mut crc_in, data, 0, data.len());
    proof {
        assert(kind@.subrange(0, kind@.len() as int) =~= kind@);
        assert(data@.subrange(0, data@.len() as int) =~= data@);
        assert(crc_in@ =~= kind@ + data@);
    }
    let crc = crc32(crc_in.as_slice());
    push_be32(&mut c, crc);
    proof {
        assert(c@ =~= chunk_bytes(kind@, data@));
    }
    c
}

/// The image's rows, each of `width` bytes and led by filter byte 0 (none).
pub open spec fn scanlines(rgba: Seq<u8>, width: nat, rows: nat) -> Seq<u8>
    decreases rows,
{
    if rows == 0 {
        Seq::empty()
    } else {
        scanlines(rgba, width, (rows - 1) as nat) + seq![0u8] + rgba.subrange(
            (rows - 1) * width,
            (rows * width) as int,
        )
    }
}

/// The header of a `size` by `size` image: eight-bit RGBA, deflate, no
/// filter method but the basic one, no interlace.
pub open spec fn ihdr(size: u32) -> Seq<u8> {
    be32(size) + be32(size) + seq![8, 6, 0, 0, 0]
}

/// A zlib stream: header 0x78 0x01 (deflate, 32K window, no dictionary), the
/// deflate stream, and the Adler-32 of what it holds.
pub open spec fn zlib_bytes(raw: Seq<u8>, deflated: Seq<u8>) -> Seq<u8> {
    seq![0x78u8, 0x01u8] + deflated + be32(spec_adler32(raw))
}

pub open spec fn kind_ihdr() -> Seq<u8> {
    seq![0x49, 0x48, 0x44, 0x52]
}

pub open spec fn kind_idat() -> Seq<u8> {
    seq![0x49, 0x44, 0x41, 0x54]
}

pub open spec fn kind_iend() -> Seq<u8> {
    seq![0x49, 0x45, 0x4E, 0x44]
}

/// A PNG file of a `size` by `size` image whose scanlines are `raw`, with
/// `deflated` as the deflate stream inside its one IDAT chunk.
pub open spec fn png_file(size: u32, raw: Seq<u8>, deflated: Seq<u8>) -> Seq<u8> {
    signature() + chunk_bytes(kind_ihdr(), ihdr(size)) + chunk_bytes(kind_idat(), zlib_bytes(raw, deflated))
        + chunk_bytes(kind_iend(), Seq::empty())
}

/// Encodes a `size` by `size` RGBA image, rows top to bottom, as a PNG file.
#[verifier::spinoff_prover]
#[verifier::rlimit(40)]
pub fn png(rgba: &[u8], size: usize) -> (r: Vec<u8>)
    requires
        size * size * 4 <= rgba@.len(),
    ensures
        exists|d: Seq<u8>| #![trigger png_file(size as u32, scanlines(rgba@, (size * 4) as nat, size as nat), d)]
            byte_bits(d) == padded(block_bits(lz77_tokens(scanlines(rgba@, (size * 4) as nat, size as nat))))
            && is_deflate_of(d, scanlines(rgba@, (size * 4) as nat, size as nat))
            && inflate(byte_bits(d)) == Some(scanlines(rgba@, (size * 4) as nat, size as nat))
            && r@ == png_file(size as u32, scanlines(rgba@, (size * 4) as nat, size as nat), d),
{
    let ghost width = (size * 4) as nat;
    let n = rgba.len();
    proof {
        assert(size * 4 <= n) by (nonlinear_arith) requires size * size * 4 <= n;
    }
    let row = size * 4;
    let mut raw: Vec<u8> = Vec::new();
    let mut y: usize = 0;
    let mut off: usize = 0;
    while y < size
        invariant
            y <= size,
            row == size * 4,
            width == row,
            size * size * 4 <= n,
            n == rgba@.len(),
            off == y * row,
            raw@ == scanlines(rgba@, width, y as nat),
        decreases size - y,
    {
        proof {
            assert(off + row <= size * size * 4) by (nonlinear_arith)
                requires off == y * row, row == size * 4, y < size;
            assert((y + 1) * row == off + row) by (nonlinear_arith) requires off == y * row;
        }
        raw.push(0u8);
        append_range(&mut raw, rgba, off, off + row);
        proof {
            assert(raw@ =~= scanlines(rgba@, width, (y + 1) as nat));
        }
        off = off + row;
        y = y + 1;
    }
    let d = deflate(raw.as_slice());
    let mut z: Vec<u8> = Vec::new();
    z.push(0x78u8);
    z.push(0x01u8);
    append_range(&mut z, d.as_slice(), 0, d.len());
    let a = adler32(raw.as_slice());
    push_be32(&mut z, a);
    proof {
        assert(d@.subrange(0, d@.len() as int) =~= d@);
        assert(z@ =~= zlib_bytes(raw@, d@));
    }
    let mut head: Vec<u8> = Vec::new();
    let side = #[verifier::truncate] (size as u32);
    push_be32(&mut head, side);
    push_be32(&mut head, side);
    head.push(8u8);
    head.push(6u8);
    head.push(0u8);
    head.push(0u8);
    head.push(0u8);
    proof {
        assert(head@ =~= ihdr(size as u32));
    }
    let k_ihdr: Vec<u8> = vec![0x49, 0x48, 0x44, 0x52];
    let k_idat: Vec<u8> = vec![0x49, 0x44, 0x41, 0x54];
    let k_iend: Vec<u8> = vec![0x49, 0x45, 0x4E, 0x44];
    let none: Vec<u8> = Vec::new();
    let c1 = chunk(k_ihdr.as_slice(), head.as_slice());
    let c2 = chunk(k_idat.as_slice(), z.as_slice());
    let c3 = chunk(k_iend.as_slice(), none.as_slice());
    let mut out: Vec<u8> = vec![0x89, 0x50, 0x4E, 0x47, 0x0D, 0x0A, 0x1A, 0x0A];
    append_range(&mut out, c1.as_slice(), 0, c1.len());
    append_range(&mut out, c2.as_slice(), 0, c2.len());
    append_range(&mut out, c3.as_slice(), 0, c3.len());
    proof {
        assert(k_ihdr@ =~= kind_ihdr());
        assert(k_idat@ =~= kind_idat());
        assert(k_iend@ =~= kind_iend());
        assert(none@ =~= Seq::<u8>::empty());
        assert(c1@.subrange(0, c1@.len() as int) =~= c1@);
        assert(c2@.subrange(0, c2@.len() as int) =~= c2@);
        assert(c3@.subrange(0, c3@.len() as int) =~= c3@);
        assert(out@ =~= png_file(size as u32, raw@, d@));
        assert(byte_bits(d@) == padded(block_bits(lz77_tokens(raw@))));
    }
    out
}

} // verus!
