//! Deflate with the fixed Huffman table (RFC 1951) and a hash-chain match
//! finder. Not a strong compressor, but flat monochrome art is nearly all long
//! runs. What is proved is what matters to a reader of the stream: the tokens
//! it encodes spell out the input exactly, and each is written with the codes
//! and extra bits the format assigns it.
use vstd::prelude::*;
use crate::inflate::{inflate, lemma_deflate_reads_back};
use crate::png::{
    Bits, byte_bits, huffman_bits, length_symbol_code, literal_code, low_bits, padded, put_length_code,
    put_literal,
};

verus! {

/// Shortest length of each length symbol 257 to 285.
pub open spec fn len_base() -> Seq<u32> {
    seq![3, 4, 5, 6, 7, 8, 9, 10, 11, 13, 15, 17, 19, 23, 27, 31, 35, 43, 51, 59, 67, 83, 99, 115, 131,
        163, 195, 227, 258]
}

/// Extra bits after each length symbol.
pub open spec fn len_extra() -> Seq<u32> {
    seq![0, 0, 0, 0, 0, 0, 0, 0, 1, 1, 1, 1, 2, 2, 2, 2, 3, 3, 3, 3, 4, 4, 4, 4, 5, 5, 5, 5, 0]
}

/// Shortest distance of each distance symbol 0 to 29.
pub open spec fn dist_base() -> Seq<u32> {
    seq![1, 2, 3, 4, 5, 7, 9, 13, 17, 25, 33, 49, 65, 97, 129, 193, 257, 385, 513, 769, 1025, 1537,
        2049, 3073, 4097, 6145, 8193, 12289, 16385, 24577]
}

/// Extra bits after each distance symbol.
pub open spec fn dist_extra() -> Seq<u32> {
    seq![0, 0, 0, 0, 1, 1, 2, 2, 3, 3, 4, 4, 5, 5, 6, 6, 7, 7, 8, 8, 9, 9, 10, 10, 11, 11, 12, 12, 13,
        13]
}

/// The last index of `tab` whose entry is at most `v`, or -1 where none is.
pub open spec fn last_le(tab: Seq<u32>, v: int) -> int
    decreases tab.len(),
{
    if tab.len() == 0 {
        -1
    } else if tab.last() <= v {
        tab.len() - 1
    } else {
        last_le(tab.drop_last(), v)
    }
}

pub(crate) proof fn lemma_last_le(tab: Seq<u32>, v: int)
    requires
        tab.len() > 0,
        tab[0] <= v,
    ensures
        0 <= last_le(tab, v) < tab.len(),
        tab[last_le(tab, v)] <= v,
        forall|j: int| last_le(tab, v) < j < tab.len() ==> v < #[trigger] tab[j],
    decreases tab.len(),
{
    if tab.last() > v {
        let t = tab.drop_last();
        lemma_last_le(t, v);
        assert forall|j: int| last_le(tab, v) < j < tab.len() implies v < #[trigger] tab[j] by {
            if j < t.len() {
                assert(t[j] == tab[j]);
            }
        }
    }
}

/// Over its first `k` steps, each entry of `base` lies exactly the span of
/// the previous entry's extra bits above it, and no entry takes more than 13
/// extra bits.
pub open spec fn spans_fit(base: Seq<u32>, extra: Seq<u32>, k: nat) -> bool
    decreases k,
{
    if k == 0 {
        true
    } else {
        &&& spans_fit(base, extra, (k - 1) as nat)
        &&& extra[k - 1] <= 13
        &&& base[k as int] - base[k - 1] == (1u32 << (extra[k - 1] as u32))
    }
}

proof fn lemma_spans_fit(base: Seq<u32>, extra: Seq<u32>, k: nat)
    requires
        spans_fit(base, extra, k),
    ensures
        forall|i: int| 0 <= i < k ==> #[trigger] extra[i] <= 13,
        forall|i: int| 0 <= i < k ==> #[trigger] base[i + 1] - base[i] == (1u32 << (extra[i] as u32)),
    decreases k,
{
    if k > 0 {
        lemma_spans_fit(base, extra, (k - 1) as nat);
        assert(base[(k - 1) + 1] == base[k as int]);
    }
}

pub(crate) proof fn lemma_shifts()
    ensures
        (1u32 << 0u32) == 1u32, (1u32 << 1u32) == 2u32, (1u32 << 2u32) == 4u32, (1u32 << 3u32) == 8u32,
        (1u32 << 4u32) == 16u32, (1u32 << 5u32) == 32u32, (1u32 << 6u32) == 64u32,
        (1u32 << 7u32) == 128u32, (1u32 << 8u32) == 256u32, (1u32 << 9u32) == 512u32,
        (1u32 << 10u32) == 1024u32, (1u32 << 11u32) == 2048u32, (1u32 << 12u32) == 4096u32,
        (1u32 << 13u32) == 8192u32,
{
    assert((1u32 << 0u32) == 1u32 && (1u32 << 1u32) == 2u32 && (1u32 << 2u32) == 4u32
        && (1u32 << 3u32) == 8u32 && (1u32 << 4u32) == 16u32 && (1u32 << 5u32) == 32u32
        && (1u32 << 6u32) == 64u32 && (1u32 << 7u32) == 128u32 && (1u32 << 8u32) == 256u32
        && (1u32 << 9u32) == 512u32 && (1u32 << 10u32) == 1024u32 && (1u32 << 11u32) == 2048u32
        && (1u32 << 12u32) == 4096u32 && (1u32 << 13u32) == 8192u32) by (bit_vector);
}

/// The length and distance tables: each symbol's extra bits reach exactly up
/// to the next symbol's base; the last length symbol stands for 258 alone and
/// the last distance symbol reaches past 32768.
pub(crate) proof fn lemma_tables()
    ensures
        len_base().len() == 29,
        len_extra().len() == 29,
        dist_base().len() == 30,
        dist_extra().len() == 30,
        forall|i: int| 0 <= i < 29 ==> #[trigger] len_extra()[i] <= 5,
        forall|i: int| 0 <= i < 27 ==> #[trigger] len_base()[i + 1] - len_base()[i] == (1u32 << (len_extra()[i] as u32)),
        len_base()[28] - len_base()[27] < (1u32 << (len_extra()[27] as u32)),
        forall|i: int| 0 <= i < 30 ==> #[trigger] dist_extra()[i] <= 13,
        forall|i: int| 0 <= i < 29 ==> #[trigger] dist_base()[i + 1] - dist_base()[i] == (1u32 << (dist_extra()[i] as u32)),
        len_base()[0] == 3,
        len_base()[28] == 258,
        len_extra()[28] == 0,
        dist_base()[0] == 1,
        dist_base()[29] == 24577,
        dist_extra()[29] == 13,
{
    lemma_shifts();
    assert(spans_fit(len_base(), len_extra(), 7)) by {
        reveal_with_fuel(spans_fit, 8);
    }
    assert(spans_fit(len_base(), len_extra(), 14)) by {
        reveal_with_fuel(spans_fit, 8);
    }
    assert(spans_fit(len_base(), len_extra(), 21)) by {
        reveal_with_fuel(spans_fit, 8);
    }
    assert(spans_fit(len_base(), len_extra(), 27)) by {
        reveal_with_fuel(spans_fit, 7);
    }
    assert(spans_fit(dist_base(), dist_extra(), 8)) by {
        reveal_with_fuel(spans_fit, 9);
    }
    assert(spans_fit(dist_base(), dist_extra(), 15)) by {
        reveal_with_fuel(spans_fit, 8);
    }
    assert(spans_fit(dist_base(), dist_extra(), 22)) by {
        reveal_with_fuel(spans_fit, 8);
    }
    assert(spans_fit(dist_base(), dist_extra(), 29)) by {
        reveal_with_fuel(spans_fit, 8);
    }
    lemma_spans_fit(len_base(), len_extra(), 27);
    lemma_spans_fit(dist_base(), dist_extra(), 29);
    assert(len_extra()[27] == 5 && len_extra()[28] == 0 && dist_extra()[29] == 13);
    assert forall|i: int| 0 <= i < 29 implies #[trigger] len_extra()[i] <= 5 by {
        if i < 27 {
            assert(len_extra()[i] <= 13);
            assert(len_base()[i + 1] - len_base()[i] == (1u32 << (len_extra()[i] as u32)));
        }
    }
}

fn len_base_table() -> (v: Vec<u32>)
    ensures
        v@ == len_base(),
{
    let v: Vec<u32> = vec![3, 4, 5, 6, 7, 8, 9, 10, 11, 13, 15, 17, 19, 23, 27, 31, 35, 43, 51, 59, 67,
        83, 99, 115, 131, 163, 195, 227, 258];
    proof {
        assert(v@ =~= len_base());
    }
    v
}

fn len_extra_table() -> (v: Vec<u32>)
    ensures
        v@ == len_extra(),
{
    let v: Vec<u32> = vec![0, 0, 0, 0, 0, 0, 0, 0, 1, 1, 1, 1, 2, 2, 2, 2, 3, 3, 3, 3, 4, 4, 4, 4, 5,
        5, 5, 5, 0];
    proof {
        assert(v@ =~= len_extra());
    }
    v
}

fn dist_base_table() -> (v: Vec<u32>)
    ensures
        v@ == dist_base(),
{
    let v: Vec<u32> = vec![1, 2, 3, 4, 5, 7, 9, 13, 17, 25, 33, 49, 65, 97, 129, 193, 257, 385, 513,
        769, 1025, 1537, 2049, 3073, 4097, 6145, 8193, 12289, 16385, 24577];
    proof {
        assert(v@ =~= dist_base());
    }
    v
}

fn dist_extra_table() -> (v: Vec<u32>)
    ensures
        v@ == dist_extra(),
{
    let v: Vec<u32> = vec![0, 0, 0, 0, 1, 1, 2, 2, 3, 3, 4, 4, 5, 5, 6, 6, 7, 7, 8, 8, 9, 9, 10, 10,
        11, 11, 12, 12, 13, 13];
    proof {
        assert(v@ =~= dist_extra());
    }
    v
}

/// `i` is the last index of `tab` whose entry is at most `v`.
proof fn lemma_last_le_at(tab: Seq<u32>, v: int, i: int)
    requires
        0 <= i < tab.len(),
        tab[i] <= v,
        forall|j: int| i < j < tab.len() ==> v < #[trigger] tab[j],
    ensures
        last_le(tab, v) == i,
    decreases tab.len(),
{
    if i < tab.len() - 1 {
        let t = tab.drop_last();
        assert forall|j: int| i < j < t.len() implies v < #[trigger] t[j] by {
            assert(t[j] == tab[j]);
        }
        lemma_last_le_at(t, v, i);
    }
}

/// The slot of `v` in a table: its last entry at most `v`.
fn slot(tab: &Vec<u32>, v: u32) -> (i: usize)
    requires
        tab@.len() > 0,
        tab@[0] <= v,
    ensures
        i as int == last_le(tab@, v as int),
        i < tab@.len(),
{
    let mut i: usize = tab.len() - 1;
    while tab[i] > v
        invariant
            i < tab@.len(),
            tab@[0] <= v,
            forall|j: int| i < j < tab@.len() ==> v < #[trigger] tab@[j],
        decreases i,
    {
        i = i - 1;
    }
    proof {
        lemma_last_le_at(tab@, v as int, i as int);
    }
    i
}

/// One piece of a deflate stream: a byte as it is, or a copy of `len` bytes
/// from `dist` bytes back.
#[derive(Clone, Copy, Debug, PartialEq, Eq, Structural)]
pub enum Token {
    Literal(u8),
    Match { len: usize, dist: usize },
}

/// `out` extended by `len` bytes, each copied from `dist` bytes before it, so
/// a copy may overlap what it is writing.
pub open spec fn copy_back(out: Seq<u8>, dist: int, len: nat) -> Seq<u8>
    decreases len,
{
    if len == 0 {
        out
    } else {
        copy_back(out.push(out[out.len() - dist]), dist, (len - 1) as nat)
    }
}

/// The bytes a token list spells out.
pub open spec fn expand(ts: Seq<Token>) -> Seq<u8>
    decreases ts.len(),
{
    if ts.len() == 0 {
        Seq::empty()
    } else {
        let o = expand(ts.drop_last());
        match ts.last() {
            Token::Literal(b) => o.push(b),
            Token::Match { len, dist } => copy_back(o, dist as int, len as nat),
        }
    }
}

/// The largest window a copy may reach back.
pub const WINDOW: usize = 32768;

/// A token deflate has codes for: a copy of 3 to 258 bytes from 1 to 32768
/// bytes back.
pub open spec fn token_fits(t: Token) -> bool {
    match t {
        Token::Literal(_) => true,
        Token::Match { len, dist } => 3 <= len <= 258 && 1 <= dist <= WINDOW,
    }
}

/// A token deflate can express after `produced` bytes: one it has codes for,
/// that never copies from before the start.
pub open spec fn token_ok(t: Token, produced: nat) -> bool {
    &&& token_fits(t)
    &&& match t {
        Token::Literal(_) => true,
        Token::Match { len, dist } => dist <= produced,
    }
}

pub open spec fn tokens_ok(ts: Seq<Token>) -> bool {
    forall|i: int| 0 <= i < ts.len() ==> token_ok(#[trigger] ts[i], expand(ts.take(i)).len())
}

/// Copying `len` bytes that repeat what stands `dist` before them reproduces
/// them.
proof fn lemma_copy_back(data: Seq<u8>, i: int, dist: int, len: nat)
    requires
        1 <= dist <= i,
        i + len <= data.len(),
        forall|k: int| 0 <= k < len ==> data[i - dist + k] == #[trigger] data[i + k],
    ensures
        copy_back(data.take(i), dist, len) == data.take(i + len),
    decreases len,
{
    if len > 0 {
        let out = data.take(i);
        assert(out[out.len() - dist] == data[i - dist]);
        assert(data[i - dist + 0] == data[i + 0]);
        assert(out.push(out[out.len() - dist]) =~= data.take(i + 1));
        assert forall|k: int| 0 <= k < len - 1 implies data[(i + 1) - dist + k] == #[trigger] data[(i + 1) + k] by {
            assert(data[i - dist + (k + 1)] == data[i + (k + 1)]);
        }
        lemma_copy_back(data, i + 1, dist, (len - 1) as nat);
    }
}

proof fn lemma_expand_push(ts: Seq<Token>, t: Token)
    ensures
        expand(ts.push(t)) == match t {
            Token::Literal(b) => expand(ts).push(b),
            Token::Match { len, dist } => copy_back(expand(ts), dist as int, len as nat),
        },
{
    assert(ts.push(t).drop_last() =~= ts);
}

/// The hash-chain bucket of three bytes: the first shifted up ten bits, the
/// second five, all three combined by exclusive or, kept to fifteen bits.
pub open spec fn hash3(a: u8, b: u8, c: u8) -> usize {
    (((a as usize) << 10usize) ^ ((b as usize) << 5usize) ^ (c as usize)) & 32767usize
}

fn hash_at(data: &[u8], i: usize) -> (h: usize)
    requires
        i + 2 < data@.len(),
    ensures
        h == hash3(data@[i as int], data@[i + 1], data@[i + 2]),
        h < 32768,
{
    let x = ((data[i] as usize) << 10usize) ^ ((data[i + 1] as usize) << 5usize) ^ (data[i + 2] as usize);
    let h = x & 32767usize;
    proof {
        assert(h < 32768) by (bit_vector) requires h == x & 32767usize;
    }
    h
}

/// Every entry of a hash chain table names an earlier position or none.
pub open spec fn chains_before(t: Seq<usize>, i: int) -> bool {
    forall|k: int| 0 <= k < t.len() ==> (#[trigger] t[k] == usize::MAX || t[k] < i)
}

/// How far, counting on from `l` and stopping at `max`, the bytes from `cand`
/// go on repeating those from `i`.
pub open spec fn run_len(data: Seq<u8>, cand: int, i: int, max: int, l: int) -> int
    decreases max - l,
{
    if l < max && data[cand + l] == data[i + l] {
        run_len(data, cand, i, max, l + 1)
    } else {
        l
    }
}

/// The longest run, up to `max`, over which the bytes from `cand` repeat
/// those from `i`.
fn match_len(data: &[u8], cand: usize, i: usize, max: usize) -> (l: usize)
    requires
        cand < i,
        i + max <= data@.len(),
    ensures
        l == run_len(data@, cand as int, i as int, max as int, 0),
        l <= max,
        forall|k: int| 0 <= k < l ==> data@[cand + k] == #[trigger] data@[i + k],
        l == max || data@[cand + l] != data@[i + l],
{
    let len = data.len();
    let mut l: usize = 0;
    while l < max && data[cand + l] == data[i + l]
        invariant
            l <= max,
            cand < i,
            len == data@.len(),
            i + max <= len,
            forall|k: int| 0 <= k < l ==> data@[cand + k] == #[trigger] data@[i + k],
            run_len(data@, cand as int, i as int, max as int, l as int)
                == run_len(data@, cand as int, i as int, max as int, 0),
        decreases max - l,
    {
        l = l + 1;
    }
    l
}

/// The longest match among the candidates on the chain from `cand`: at most
/// `tries` of them, each within the window, the first of the longest kept,
/// and the search cut short by a match of the full 258 bytes. `best` is the
/// (length, distance) found so far.
pub open spec fn search(
    data: Seq<u8>,
    prev: Seq<usize>,
    i: int,
    cand: usize,
    tries: nat,
    best: (int, int),
) -> (int, int)
    decreases tries,
{
    if cand != usize::MAX && tries > 0 && i - cand <= WINDOW {
        let max = if data.len() - i < 258 { data.len() - i } else { 258 };
        let l = run_len(data, cand as int, i, max, 0);
        if l > best.0 && l >= 258 {
            (l, i - cand)
        } else {
            let next = if l > best.0 { (l, i - cand) } else { best };
            search(data, prev, i, prev[cand as int], (tries - 1) as nat, next)
        }
    } else {
        best
    }
}

/// The chain tables after positions `k` up to `end` are entered: each goes
/// to the head of its bucket, and the old head becomes its predecessor.
pub open spec fn register(data: Seq<u8>, tabs: (Seq<usize>, Seq<usize>), k: int, end: int) -> (
    Seq<usize>,
    Seq<usize>,
)
    decreases end - k,
{
    if k < end {
        let h = hash3(data[k], data[k + 1], data[k + 2]) as int;
        register(data, (tabs.0.update(h, k as usize), tabs.1.update(k, tabs.0[h])), k + 1, end)
    } else {
        tabs
    }
}

/// One step of the matcher from the state (bucket heads, predecessors,
/// position, tokens so far): look for a match where three bytes remain, enter
/// the position, then emit the match and enter the positions it covers, or
/// emit a literal.
pub open spec fn lz_step(data: Seq<u8>, st: (Seq<usize>, Seq<usize>, int, Seq<Token>)) -> (
    Seq<usize>,
    Seq<usize>,
    int,
    Seq<Token>,
) {
    let (head, prev, i, ts) = st;
    let n = data.len() as int;
    let hashed = n >= 3 && i <= n - 3;
    let h = hash3(data[i], data[i + 1], data[i + 2]) as int;
    let best = if hashed {
        search(data, prev, i, head[h], 16, (0, 0))
    } else {
        (0, 0)
    };
    let head1 = if hashed { head.update(h, i as usize) } else { head };
    let prev1 = if hashed { prev.update(i, head[h]) } else { prev };
    if best.0 >= 3 {
        let end = if i + best.0 < n - 2 { i + best.0 } else { n - 2 };
        let tabs = register(data, (head1, prev1), i + 1, end);
        (tabs.0, tabs.1, i + best.0, ts.push(Token::Match { len: best.0 as usize, dist: best.1 as usize }))
    } else {
        (head1, prev1, i + 1, ts.push(Token::Literal(data[i])))
    }
}

/// The tokens the matcher emits from state `st` to the end of `data`.
pub closed spec fn lz_run(data: Seq<u8>, st: (Seq<usize>, Seq<usize>, int, Seq<Token>)) -> Seq<Token>
    decreases (if st.2 < data.len() { data.len() - st.2 } else { 0 }),
{
    if st.2 < data.len() {
        lz_run(data, lz_step(data, st))
    } else {
        st.3
    }
}

/// The tokens of `data`: the matcher run from empty chain tables (every
/// bucket and predecessor unset) at the first byte.
pub open spec fn lz77_tokens(data: Seq<u8>) -> Seq<Token> {
    let plen = if data.len() > 0 { data.len() } else { 1 };
    lz_run(
        data,
        (Seq::new(32768, |_k: int| usize::MAX), Seq::new(plen, |_k: int| usize::MAX), 0, Seq::empty()),
    )
}

/// Tokens spelling out `data`: at each position the longest match among up
/// to sixteen earlier positions, within the window, whose three bytes hashed
/// alike, taken when it is at least three bytes long, and a literal byte
/// otherwise; the positions a match covers are entered into the chains too.
pub fn lz77(data: &[u8]) -> (ts: Vec<Token>)
    ensures
        ts@ == lz77_tokens(data@),
        expand(ts@) == data@,
        tokens_ok(ts@),
{
    let n = data.len();
    let mut head: Vec<usize> = Vec::new();
    let mut j: usize = 0;
    while j < 32768
        invariant
            j <= 32768,
            head@.len() == j,
            forall|k: int| 0 <= k < j ==> #[trigger] head@[k] == usize::MAX,
        decreases 32768 - j,
    {
        head.push(usize::MAX);
        j = j + 1;
    }
    let plen = if n > 0 { n } else { 1 };
    let mut prev: Vec<usize> = Vec::new();
    let mut j: usize = 0;
    while j < plen
        invariant
            j <= plen,
            prev@.len() == j,
            forall|k: int| 0 <= k < j ==> #[trigger] prev@[k] == usize::MAX,
        decreases plen - j,
    {
        prev.push(usize::MAX);
        j = j + 1;
    }
    let mut tokens: Vec<Token> = Vec::new();
    let mut i: usize = 0;
    proof {
        assert(data@.take(0) =~= Seq::<u8>::empty());
        assert(head@ =~= Seq::new(32768, |_k: int| usize::MAX));
        assert(prev@ =~= Seq::new(plen as nat, |_k: int| usize::MAX));
        assert(tokens@ =~= Seq::<Token>::empty());
    }
    while i < n
        invariant
            n == data@.len(),
            i <= n,
            head@.len() == 32768,
            prev@.len() == plen,
            plen >= n,
            chains_before(head@, i as int),
            chains_before(prev@, i as int),
            expand(tokens@) == data@.take(i as int),
            tokens_ok(tokens@),
            lz_run(data@, (head@, prev@, i as int, tokens@)) == lz77_tokens(data@),
        decreases n - i,
    {
        let ghost st = (head@, prev@, i as int, tokens@);
        let mut best_len: usize = 0;
        let mut best_dist: usize = 0;
        if n >= 3 && i <= n - 3 {
            let h = hash_at(data, i);
            let mut cand = head[h];
            let mut tries: u32 = 16;
            let ghost found = search(data@, prev@, i as int, cand, 16, (0, 0));
            while cand != usize::MAX && tries > 0 && i - cand <= WINDOW
                invariant_except_break
                    search(data@, prev@, i as int, cand, tries as nat, (best_len as int, best_dist as int))
                        == found,
                invariant
                    n == data@.len(),
                    i + 3 <= n,
                    prev@.len() == plen,
                    plen >= n,
                    chains_before(prev@, i as int),
                    cand == usize::MAX || cand < i,
                    best_len <= 258,
                    best_len <= n - i,
                    best_len > 0 ==> 1 <= best_dist <= i && best_dist <= WINDOW,
                    forall|k: int| 0 <= k < best_len ==> data@[i - best_dist + k] == #[trigger] data@[i + k],
                ensures
                    (best_len as int, best_dist as int) == found,
                decreases tries,
            {
                let max = if n - i < 258 { n - i } else { 258 };
                let l = match_len(data, cand, i, max);
                if l > best_len {
                    best_len = l;
                    best_dist = i - cand;
                    if l >= 258 {
                        break;
                    }
                }
                cand = prev[cand];
                tries = tries - 1;
            }
            prev.set(i, head[h]);
            head.set(h, i);
        }
        proof {
            assert(chains_before(head@, i + 1));
            assert(chains_before(prev@, i + 1));
        }
        let ghost before = tokens@;
        if best_len >= 3 {
            let t = Token::Match { len: best_len, dist: best_dist };
            tokens.push(t);
            proof {
                lemma_expand_push(before, t);
                lemma_copy_back(data@, i as int, best_dist as int, best_len as nat);
                assert forall|q: int| 0 <= q < tokens@.len() implies token_ok(#[trigger] tokens@[q], expand(tokens@.take(q)).len()) by {
                    if q < before.len() {
                        assert(tokens@.take(q) =~= before.take(q));
                    } else {
                        assert(tokens@.take(q) =~= before);
                    }
                }
            }
            // Register the positions the copy skips over, up to the last
            // one that still has three bytes to hash.
            let end = if i + best_len < n - 2 { i + best_len } else { n - 2 };
            let mut k = i + 1;
            let ghost entered = register(data@, (head@, prev@), k as int, end as int);
            while k < end
                invariant
                    n == data@.len(),
                    i < k,
                    end <= n,
                    end <= n - 2,
                    end <= i + best_len,
                    k <= i + best_len,
                    head@.len() == 32768,
                    prev@.len() == plen,
                    plen >= n,
                    chains_before(head@, k as int),
                    chains_before(prev@, k as int),
                    register(data@, (head@, prev@), k as int, end as int) == entered,
                decreases end - k,
            {
                let h = hash_at(data, k);
                prev.set(k, head[h]);
                head.set(h, k);
                k = k + 1;
            }
            i = i + best_len;
            proof {
                assert(lz_step(data@, st) == (head@, prev@, i as int, tokens@));
            }
        } else {
            let t = Token::Literal(data[i]);
            tokens.push(t);
            proof {
                lemma_expand_push(before, t);
                assert(data@.take(i as int).push(data@[i as int]) =~= data@.take(i + 1));
                assert forall|q: int| 0 <= q < tokens@.len() implies token_ok(#[trigger] tokens@[q], expand(tokens@.take(q)).len()) by {
                    if q < before.len() {
                        assert(tokens@.take(q) =~= before.take(q));
                    }
                }
            }
            i = i + 1;
            proof {
                assert(lz_step(data@, st) == (head@, prev@, i as int, tokens@));
            }
        }
    }
    proof {
        assert(data@.take(n as int) =~= data@);
    }
    tokens
}

/// The bits of a copy's length: the length symbol's code, then how far the
/// length lies above the symbol's base, in the symbol's extra bits.
pub open spec fn length_bits(len: int) -> Seq<bool> {
    let li = last_le(len_base(), len);
    let sym = (257 + li) as u32;
    huffman_bits(length_symbol_code(sym).0, length_symbol_code(sym).1) + low_bits(
        (len - len_base()[li]) as u32,
        len_extra()[li] as nat,
    )
}

/// The bits of a copy's distance: the five-bit distance symbol, then how far
/// the distance lies above the symbol's base, in the symbol's extra bits.
pub open spec fn distance_bits(dist: int) -> Seq<bool> {
    let di = last_le(dist_base(), dist);
    huffman_bits(di as u32, 5) + low_bits((dist - dist_base()[di]) as u32, dist_extra()[di] as nat)
}

/// The bits one token is written as with the fixed Huffman codes.
pub open spec fn token_bits(t: Token) -> Seq<bool> {
    match t {
        Token::Literal(b) => huffman_bits(literal_code(b).0, literal_code(b).1),
        Token::Match { len, dist } => length_bits(len as int) + distance_bits(dist as int),
    }
}

pub open spec fn tokens_bits(ts: Seq<Token>) -> Seq<bool>
    decreases ts.len(),
{
    if ts.len() == 0 {
        Seq::empty()
    } else {
        tokens_bits(ts.drop_last()) + token_bits(ts.last())
    }
}

/// The block header: last block, fixed Huffman codes.
pub open spec fn block_header() -> Seq<bool> {
    low_bits(1, 1) + low_bits(1, 2)
}

/// A whole stream: one final fixed-code block holding the tokens, closed by
/// the end-of-block symbol 256.
pub open spec fn block_bits(ts: Seq<Token>) -> Seq<bool> {
    block_header() + tokens_bits(ts) + huffman_bits(length_symbol_code(256).0, length_symbol_code(256).1)
}

/// `d` is a deflate stream of `data`: the bytes of one fixed-code block whose
/// tokens spell out `data`.
pub open spec fn is_deflate_of(d: Seq<u8>, data: Seq<u8>) -> bool {
    exists|ts: Seq<Token>| expand(ts) == data && tokens_ok(ts) && byte_bits(d) == padded(#[trigger] block_bits(ts))
}

fn put_match(
    b: &mut Bits,
    len: usize,
    dist: usize,
    lb: &Vec<u32>,
    le: &Vec<u32>,
    db: &Vec<u32>,
    de: &Vec<u32>,
)
    requires
        old(b).inv(),
        lb@ == len_base(),
        le@ == len_extra(),
        db@ == dist_base(),
        de@ == dist_extra(),
        3 <= len <= 258,
        1 <= dist <= WINDOW,
    ensures
        final(b).inv(),
        final(b)@ == old(b)@ + length_bits(len as int) + distance_bits(dist as int),
{
    proof {
        lemma_tables();
        lemma_shifts();
        lemma_last_le(len_base(), len as int);
        lemma_last_le(dist_base(), dist as int);
    }
    let ghost start = b@;
    let li = slot(lb, len as u32);
    put_length_code(b, 257 + li as u32);
    let extra = le[li];
    if extra > 0 {
        proof {
            if li < 27 {
                assert(len_base()[li + 1] - len_base()[li as int] == (1u32 << (len_extra()[li as int] as u32)));
                assert(len < len_base()[li + 1]);
            } else {
                assert(li == 27);
            }
        }
        b.put(len as u32 - lb[li], extra);
    } else {
        proof {
            assert(low_bits((len - len_base()[li as int]) as u32, 0) =~= Seq::<bool>::empty());
        }
    }
    proof {
        assert(b@ =~= start + length_bits(len as int));
    }
    let ghost mid = b@;
    let di = slot(db, dist as u32);
    proof {
        assert((1u32 << 5u32) == 32u32) by (bit_vector);
    }
    b.put_rev(di as u32, 5);
    let extra = de[di];
    if extra > 0 {
        proof {
            if di < 29 {
                assert(dist_base()[di + 1] - dist_base()[di as int] == (1u32 << (dist_extra()[di as int] as u32)));
                assert(dist < dist_base()[di + 1]);
            }
        }
        b.put(dist as u32 - db[di], extra);
    } else {
        proof {
            assert(low_bits((dist - dist_base()[di as int]) as u32, 0) =~= Seq::<bool>::empty());
        }
    }
    proof {
        assert(b@ =~= mid + distance_bits(dist as int));
    }
}

/// One final block with the fixed Huffman codes holding `ts`, closed by the
/// end-of-block symbol and padded to a whole byte.
pub fn encode_block(ts: &Vec<Token>) -> (r: Vec<u8>)
    requires
        forall|i: int| 0 <= i < ts@.len() ==> token_fits(#[trigger] ts@[i]),
    ensures
        byte_bits(r@) == padded(block_bits(ts@)),
{
    let lb = len_base_table();
    let le = len_extra_table();
    let db = dist_base_table();
    let de = dist_extra_table();
    proof {
        lemma_shifts();
    }
    let mut b = Bits::new();
    b.put(1, 1);
    b.put(1, 2);
    let mut k: usize = 0;
    proof {
        assert(ts@.take(0) =~= Seq::<Token>::empty());
        assert(b@ =~= block_header() + tokens_bits(ts@.take(0)));
    }
    while k < ts.len()
        invariant
            k <= ts@.len(),
            b.inv(),
            lb@ == len_base(),
            le@ == len_extra(),
            db@ == dist_base(),
            de@ == dist_extra(),
            forall|i: int| 0 <= i < ts@.len() ==> token_fits(#[trigger] ts@[i]),
            b@ == block_header() + tokens_bits(ts@.take(k as int)),
        decreases ts@.len() - k,
    {
        let ghost before = b@;
        let t = ts[k];
        match t {
            Token::Literal(x) => {
                put_literal(&mut b, x);
            },
            Token::Match { len, dist } => {
                assert(token_fits(ts@[k as int]));
                put_match(&mut b, len, dist, &lb, &le, &db, &de);
            },
        }
        proof {
            assert(ts@.take(k + 1).drop_last() =~= ts@.take(k as int));
            assert(b@ =~= before + token_bits(t));
        }
        k = k + 1;
    }
    proof {
        assert(ts@.take(k as int) =~= ts@);
        assert((1u32 << 7u32) == 128u32) by (bit_vector);
    }
    put_length_code(&mut b, 256);
    b.finish()
}

/// Deflates `data` into one final block with the fixed Huffman codes, holding
/// the tokens of the hash-chain matcher.
pub fn deflate(data: &[u8]) -> (r: Vec<u8>)
    ensures
        byte_bits(r@) == padded(block_bits(lz77_tokens(data@))),
        is_deflate_of(r@, data@),
        inflate(byte_bits(r@)) == Some(data@),
{
    let ts = lz77(data);
    proof {
        assert forall|i: int| 0 <= i < ts@.len() implies token_fits(#[trigger] ts@[i]) by {
            assert(token_ok(ts@[i], expand(ts@.take(i)).len()));
        }
    }
    let r = encode_block(&ts);
    proof {
        assert(expand(ts@) == data@ && tokens_ok(ts@) && byte_bits(r@) == padded(block_bits(ts@)));
        lemma_deflate_reads_back(r@, data@);
    }
    r
}

} // verus!
