//! The reading side of the deflate format, for fixed-code blocks, as spec
//! functions: what a decoder makes of a bit string. With it stands the law
//! that a stream `deflate` writes reads back as the bytes it was given.
use vstd::prelude::*;
use crate::deflate::{
    copy_back, dist_base, dist_extra, expand, is_deflate_of, last_le, len_base, len_extra,
    lemma_last_le, lemma_shifts, lemma_tables, token_bits, token_ok, tokens_bits, tokens_ok,
    block_bits, block_header, Token,
};
use crate::png::{byte_bits, huffman_bits, length_symbol_code, literal_code, low_bits, padded};

verus! {

pub open spec fn bit(b: bool) -> nat {
    if b {
        1
    } else {
        0
    }
}

/// The `n` bits from position `p`, least significant first.
pub open spec fn read_lsb(bits: Seq<bool>, p: int, n: nat) -> nat
    decreases n,
{
    if n == 0 {
        0
    } else {
        bit(bits[p]) + 2 * read_lsb(bits, p + 1, (n - 1) as nat)
    }
}

/// The `n` bits from position `p`, most significant first: how a Huffman
/// code is read.
pub open spec fn read_msb(bits: Seq<bool>, p: int, n: nat) -> nat
    decreases n,
{
    if n == 0 {
        0
    } else {
        2 * read_msb(bits, p, (n - 1) as nat) + bit(bits[p + n - 1])
    }
}

/// The symbol whose fixed Huffman code starts at `p`, and the code's length:
/// seven-bit codes 0 to 23 for 256 to 279, eight-bit codes 0x30 to 0xBF for
/// 0 to 143 and 0xC0 to 0xC7 for 280 to 287, nine-bit codes for 144 to 255.
/// None where the bits run out first.
pub open spec fn decode_symbol(bits: Seq<bool>, p: int) -> Option<(nat, nat)> {
    if p < 0 || p + 7 > bits.len() {
        None
    } else if read_msb(bits, p, 7) < 24 {
        Some(((256 + read_msb(bits, p, 7)) as nat, 7))
    } else if p + 8 > bits.len() {
        None
    } else if 0x30 <= read_msb(bits, p, 8) <= 0xBF {
        Some(((read_msb(bits, p, 8) - 0x30) as nat, 8))
    } else if 0xC0 <= read_msb(bits, p, 8) <= 0xC7 {
        Some(((280 + read_msb(bits, p, 8) - 0xC0) as nat, 8))
    } else if p + 9 > bits.len() {
        None
    } else {
        Some(((144 + read_msb(bits, p, 9) - 0x190) as nat, 9))
    }
}

/// A decoded symbol takes seven to nine bits, all of them there.
pub proof fn lemma_decode_symbol_advances(bits: Seq<bool>, p: int)
    ensures
        decode_symbol(bits, p) matches Some((sym, l)) ==> 7 <= l && p + l <= bits.len(),
{
}

/// What a decoder produces from position `p` on, having produced `out`
/// so far: symbols up to the end-of-block symbol, literals appended, copies
/// made from their length and distance. None where the bits run out, a
/// symbol has no meaning, or a copy reaches back before the start.
pub open spec fn inflate_from(bits: Seq<bool>, p: int, out: Seq<u8>) -> Option<Seq<u8>>
    decreases bits.len() - p,
{
    proof {
        lemma_decode_symbol_advances(bits, p);
    }
    match decode_symbol(bits, p) {
        None => None,
        Some((sym, l)) => {
            let q = p + l;
            if sym < 256 {
                inflate_from(bits, q, out.push(sym as u8))
            } else if sym == 256 {
                Some(out)
            } else if sym > 285 {
                None
            } else {
                let li = sym - 257;
                let le = len_extra()[li] as nat;
                if q + le + 5 > bits.len() {
                    None
                } else {
                    let len = len_base()[li] + read_lsb(bits, q, le);
                    let q2 = q + le + 5;
                    let di = read_msb(bits, q + le, 5);
                    if di >= 30 {
                        None
                    } else {
                        let de = dist_extra()[di as int] as nat;
                        if q2 + de > bits.len() {
                            None
                        } else {
                            let dist = dist_base()[di as int] + read_lsb(bits, q2, de);
                            if dist > out.len() {
                                None
                            } else {
                                inflate_from(bits, q2 + de, copy_back(out, dist, len as nat))
                            }
                        }
                    }
                }
            }
        },
    }
}

/// What a decoder makes of a whole stream: one final block with the fixed
/// codes, read to its end-of-block symbol.
pub open spec fn inflate(bits: Seq<bool>) -> Option<Seq<u8>> {
    if bits.len() >= 3 && bits[0] && read_lsb(bits, 1, 2) == 1 {
        inflate_from(bits, 3, Seq::empty())
    } else {
        None
    }
}

/// Halving a value of `nn` bits leaves `nn - 1` bits and its lowest bit.
proof fn lemma_halve(c: u32, nn: u32)
    by (bit_vector)
    requires
        1 <= nn <= 24,
        c < (1u32 << nn),
    ensures
        (c >> 1u32) < (1u32 << ((nn - 1) as u32)),
        c == 2 * (c >> 1u32) + (c & 1u32),
        (c >> 0u32) & 1u32 == c & 1u32,
        c & 1u32 <= 1,
{
}

/// Bit `k` of a halved value is bit `k + 1` of the value.
proof fn lemma_halve_bit(c: u32, k: u32)
    by (bit_vector)
    requires
        k < 24,
    ensures
        ((c >> 1u32) >> k) & 1u32 == (c >> ((k + 1) as u32)) & 1u32,
{
}

/// Reading back a code written most significant bit first gives the code.
proof fn lemma_read_msb(bits: Seq<bool>, p: int, c: u32, n: nat)
    requires
        0 <= p,
        p + n <= bits.len(),
        n <= 24,
        c < (1u32 << (n as u32)),
        bits.subrange(p, p + n) == huffman_bits(c, n as u32),
    ensures
        read_msb(bits, p, n) == c,
    decreases n,
{
    if n > 0 {
        let nn = n as u32;
        let h = c >> 1u32;
        lemma_halve(c, nn);
        let full = huffman_bits(c, nn);
        let part = huffman_bits(h, (nn - 1) as u32);
        assert forall|j: int| 0 <= j < n - 1 implies #[trigger] bits.subrange(p, p + n - 1)[j] == part[j] by {
            assert(bits.subrange(p, p + n - 1)[j] == bits.subrange(p, p + n)[j]);
            let k = (n - 2 - j) as u32;
            lemma_halve_bit(c, k);
        }
        assert(bits.subrange(p, p + n - 1) =~= part);
        lemma_read_msb(bits, p, h, (n - 1) as nat);
        assert(bits[p + n - 1] == bits.subrange(p, p + n)[n - 1]);
        assert(full[n - 1] == low_bits(c, n)[0]);
        assert(low_bits(c, n)[0] == ((c >> 0u32) & 1u32 == 1u32));

        assert(bit(bits[p + n - 1]) == c & 1u32);
        assert(read_msb(bits, p, n) == 2 * read_msb(bits, p, (n - 1) as nat) + bit(bits[p + n - 1]));
    } else {
        lemma_shifts();
    }
}

/// Reading back bits written least significant first gives the value.
proof fn lemma_read_lsb(bits: Seq<bool>, p: int, v: u32, n: nat)
    requires
        0 <= p,
        p + n <= bits.len(),
        n <= 24,
        v < (1u32 << (n as u32)),
        bits.subrange(p, p + n) == low_bits(v, n),
    ensures
        read_lsb(bits, p, n) == v,
    decreases n,
{
    if n > 0 {
        let nn = n as u32;
        let h = v >> 1u32;
        lemma_halve(v, nn);
        let part = low_bits(h, (n - 1) as nat);
        assert forall|j: int| 0 <= j < n - 1 implies #[trigger] bits.subrange(p + 1, p + n)[j] == part[j] by {
            assert(bits.subrange(p + 1, p + n)[j] == bits.subrange(p, p + n)[j + 1]);
            let k = j as u32;
            lemma_halve_bit(v, k);
        }
        assert(bits.subrange(p + 1, p + n) =~= part);
        lemma_read_lsb(bits, p + 1, h, (n - 1) as nat);
        assert(bits[p] == bits.subrange(p, p + n)[0]);
        assert(low_bits(v, n)[0] == ((v >> 0u32) & 1u32 == 1u32));

        assert(bit(bits[p]) == v & 1u32);
    } else {
        lemma_shifts();
    }
}

/// A piece of a bit string that spells `a` then `b` spells each of them.
proof fn lemma_split(bits: Seq<bool>, p: int, a: Seq<bool>, b: Seq<bool>)
    requires
        0 <= p,
        p + a.len() + b.len() <= bits.len(),
        bits.subrange(p, p + a.len() + b.len()) == a + b,
    ensures
        bits.subrange(p, p + a.len()) == a,
        bits.subrange(p + a.len(), p + a.len() + b.len()) == b,
{
    assert forall|j: int| 0 <= j < a.len() implies #[trigger] bits.subrange(p, p + a.len())[j] == a[j] by {
        assert(bits.subrange(p, p + a.len() + b.len())[j] == (a + b)[j]);
    }
    assert forall|j: int| 0 <= j < b.len() implies #[trigger] bits.subrange(p + a.len(), p + a.len() + b.len())[j] == b[j] by {
        assert(bits.subrange(p, p + a.len() + b.len())[a.len() + j] == (a + b)[a.len() + j]);
        assert(bits.subrange(p, p + a.len() + b.len())[a.len() + j] == bits[p + a.len() + j]);
        assert(bits.subrange(p + a.len(), p + a.len() + b.len())[j] == bits[p + a.len() + j]);
        assert((a + b)[a.len() + j] == b[j]);
    }
    assert(bits.subrange(p, p + a.len()) =~= a);
    assert(bits.subrange(p + a.len(), p + a.len() + b.len()) =~= b);
}

/// A literal's code reads back as the literal.
proof fn lemma_literal_reads(bits: Seq<bool>, p: int, b: u8, out: Seq<u8>)
    requires
        0 <= p,
        p + token_bits(Token::Literal(b)).len() <= bits.len(),
        bits.subrange(p, p + token_bits(Token::Literal(b)).len()) == token_bits(Token::Literal(b)),
    ensures
        inflate_from(bits, p, out) == inflate_from(bits, p + token_bits(Token::Literal(b)).len(), out.push(b)),
{
    lemma_shifts();
    let c = literal_code(b).0;
    let n = literal_code(b).1;
    assert(token_bits(Token::Literal(b)).len() == n);
    lemma_read_msb(bits, p, c, n as nat);
    assert(read_msb(bits, p, 8) == 2 * read_msb(bits, p, 7) + bit(bits[p + 7]));
    if n == 9 {
        assert(read_msb(bits, p, 9) == 2 * read_msb(bits, p, 8) + bit(bits[p + 8]));
    }
    assert(decode_symbol(bits, p) == Some((b as nat, n as nat)));
}

/// A copy's codes and extra bits read back as the copy.
proof fn lemma_match_reads(bits: Seq<bool>, p: int, len: usize, dist: usize, out: Seq<u8>)
    requires
        0 <= p,
        token_ok(Token::Match { len, dist }, out.len()),
        p + token_bits(Token::Match { len, dist }).len() <= bits.len(),
        bits.subrange(p, p + token_bits(Token::Match { len, dist }).len()) == token_bits(
            Token::Match { len, dist },
        ),
    ensures
        inflate_from(bits, p, out) == inflate_from(
            bits,
            p + token_bits(Token::Match { len, dist }).len(),
            copy_back(out, dist as int, len as nat),
        ),
{
    lemma_tables();
    lemma_shifts();
    lemma_last_le(len_base(), len as int);
    lemma_last_le(dist_base(), dist as int);
    let li = last_le(len_base(), len as int);
    let sym = (257 + li) as u32;
    let c = length_symbol_code(sym).0;
    let n = length_symbol_code(sym).1;
    let lv = (len - len_base()[li]) as u32;
    let le = len_extra()[li];
    let di = last_le(dist_base(), dist as int);
    let dv = (dist - dist_base()[di]) as u32;
    let de = dist_extra()[di];
    let h = huffman_bits(c, n);
    let lb = low_bits(lv, le as nat);
    let dh = huffman_bits(di as u32, 5);
    let db = low_bits(dv, de as nat);
    assert(token_bits(Token::Match { len, dist }) == h + lb + (dh + db));
    assert(h + lb + (dh + db) =~= h + lb + dh + db);
    lemma_split(bits, p, h + lb + dh, db);
    lemma_split(bits, p, h + lb, dh);
    lemma_split(bits, p, h, lb);
    // The length's extra bits hold less than the span to the next base.
    if li < 27 {
        assert(len_base()[li + 1] - len_base()[li] == (1u32 << (len_extra()[li] as u32)));
        assert(len < len_base()[li + 1]);
    }
    if di < 29 {
        assert(dist_base()[di + 1] - dist_base()[di] == (1u32 << (dist_extra()[di] as u32)));
        assert(dist < dist_base()[di + 1]);
    }
    lemma_read_msb(bits, p, c, n as nat);
    lemma_read_lsb(bits, p + n, lv, le as nat);
    lemma_read_msb(bits, p + n + le, di as u32, 5);
    lemma_read_lsb(bits, p + n + le + 5, dv, de as nat);
    assert(read_msb(bits, p, 8) == 2 * read_msb(bits, p, 7) + bit(bits[p + 7]));
    assert(decode_symbol(bits, p) == Some((sym as nat, n as nat)));
}

proof fn lemma_tokens_bits_concat(a: Seq<Token>, b: Seq<Token>)
    ensures
        tokens_bits(a + b) == tokens_bits(a) + tokens_bits(b),
    decreases b.len(),
{
    if b.len() == 0 {
        assert(a + b =~= a);
        assert(tokens_bits(a) + tokens_bits(b) =~= tokens_bits(a));
    } else {
        lemma_tokens_bits_concat(a, b.drop_last());
        assert((a + b).drop_last() =~= a + b.drop_last());
        assert((a + b).last() == b.last());
        assert(tokens_bits(a + b) =~= tokens_bits(a) + tokens_bits(b));
    }
}

/// Reading the tokens of a block from the first of them on gives what they
/// spell.
proof fn lemma_tokens_read(bits: Seq<bool>, ts: Seq<Token>, k: nat)
    requires
        k <= ts.len(),
        tokens_ok(ts),
        3int + tokens_bits(ts).len() <= bits.len(),
        bits.subrange(3, 3int + tokens_bits(ts).len()) == tokens_bits(ts),
    ensures
        inflate_from(bits, 3int + tokens_bits(ts.take(k as int)).len(), expand(ts.take(k as int)))
            == inflate_from(bits, 3int + tokens_bits(ts).len(), expand(ts)),
    decreases ts.len() - k,
{
    if k == ts.len() {
        assert(ts.take(k as int) =~= ts);
    } else {
        let a = ts.take(k as int);
        let t = ts[k as int];
        let a1 = ts.take(k + 1int);
        let rest = ts.skip(k + 1int);
        assert(a1.drop_last() =~= a);
        assert(a1.last() == t);
        assert(tokens_bits(a1) == tokens_bits(a) + token_bits(t));
        assert(ts =~= a1 + rest);
        lemma_tokens_bits_concat(a1, rest);
        lemma_split(bits, 3, tokens_bits(a1), tokens_bits(rest));
        lemma_split(bits, 3, tokens_bits(a), token_bits(t));
        let p = 3int + tokens_bits(a).len();
        assert(token_ok(t, expand(a).len())) by {
            assert(token_ok(ts[k as int], expand(ts.take(k as int)).len()));
        }
        match t {
            Token::Literal(b) => {
                lemma_literal_reads(bits, p, b, expand(a));
                assert(expand(a1) == expand(a).push(b));
            },
            Token::Match { len, dist } => {
                lemma_match_reads(bits, p, len, dist, expand(a));
                assert(expand(a1) == copy_back(expand(a), dist as int, len as nat));
            },
        }
        lemma_tokens_read(bits, ts, k + 1);
    }
}

/// Deflate's output reads back as its input: a decoder given the bits of a
/// stream `deflate` wrote finds one final fixed-code block and produces
/// exactly the bytes that were deflated.
pub proof fn lemma_deflate_reads_back(d: Seq<u8>, data: Seq<u8>)
    requires
        is_deflate_of(d, data),
    ensures
        inflate(byte_bits(d)) == Some(data),
{
    let ts = choose|ts: Seq<Token>|
        expand(ts) == data && tokens_ok(ts) && byte_bits(d) == padded(#[trigger] block_bits(ts));
    let bits = byte_bits(d);
    let body = tokens_bits(ts);
    let eob = huffman_bits(length_symbol_code(256).0, length_symbol_code(256).1);
    let pad = Seq::new(((8 - block_bits(ts).len() % 8) % 8) as nat, |i: int| false);
    assert(bits == block_header() + body + eob + pad);
    assert(block_header().len() == 3);
    lemma_shifts();
    assert((1u32 >> 0u32) & 1u32 == 1u32 && (1u32 >> 1u32) & 1u32 == 0u32) by (bit_vector);
    assert(bits[0] == block_header()[0]);
    assert(bits[1] == block_header()[1]);
    assert(bits[2] == block_header()[2]);
    assert(block_header()[0] == low_bits(1, 1)[0]);
    assert(block_header()[1] == low_bits(1, 2)[0]);
    assert(block_header()[2] == low_bits(1, 2)[1]);
    assert(read_lsb(bits, 1, 2) == bit(bits[1]) + 2 * read_lsb(bits, 2, 1));
    assert(read_lsb(bits, 2, 1) == bit(bits[2]) + 2 * read_lsb(bits, 3, 0));
    // The tokens, then the end-of-block code, stand where the header ends.
    assert(bits.subrange(3, 3int + body.len()) =~= body) by {
        assert forall|j: int| 0 <= j < body.len() implies #[trigger] bits.subrange(3, 3int + body.len())[j] == body[j] by {
            assert(bits[3 + j] == (block_header() + body)[3 + j]);
        }
    }
    let e = 3int + body.len();
    assert(bits.subrange(e, e + 7) =~= eob) by {
        assert forall|j: int| 0 <= j < 7 implies #[trigger] bits.subrange(e, e + 7)[j] == eob[j] by {
            assert(bits[e + j] == (block_header() + body + eob)[e + j]);
        }
    }
    lemma_tokens_read(bits, ts, 0);
    assert(ts.take(0) =~= Seq::<Token>::empty());
    assert(tokens_bits(ts.take(0)).len() == 0);
    assert(expand(ts.take(0)) == Seq::<u8>::empty());
    lemma_read_msb(bits, e, 0, 7);
    assert(decode_symbol(bits, e) == Some((256nat, 7nat)));
}

} // verus!
