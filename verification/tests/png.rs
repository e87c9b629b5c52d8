use mouse_testing::deflate::{deflate, encode_block, lz77, Token};
use mouse_testing::png::{adler32, crc32, png, Bits};

/// Reads a deflate stream of fixed-code blocks back into bytes.
struct Reader<'a> {
    data: &'a [u8],
    pos: usize,
}

impl<'a> Reader<'a> {
    fn bit(&mut self) -> u32 {
        let b = (self.data[self.pos / 8] >> (self.pos % 8)) & 1;
        self.pos += 1;
        b as u32
    }

    fn bits(&mut self, n: u32) -> u32 {
        let mut v = 0;
        for i in 0..n {
            v |= self.bit() << i;
        }
        v
    }

    fn code(&mut self, n: u32) -> u32 {
        let mut v = 0;
        for _ in 0..n {
            v = (v << 1) | self.bit();
        }
        v
    }

    fn symbol(&mut self) -> u32 {
        let c7 = self.code(7);
        if c7 <= 0x17 {
            return 256 + c7;
        }
        let c8 = (c7 << 1) | self.bit();
        if (0x30..=0xBF).contains(&c8) {
            return c8 - 0x30;
        }
        if (0xC0..=0xC7).contains(&c8) {
            return 280 + c8 - 0xC0;
        }
        let c9 = (c8 << 1) | self.bit();
        assert!((0x190..=0x1FF).contains(&c9));
        144 + c9 - 0x190
    }
}

const LEN_BASE: [u32; 29] = [
    3, 4, 5, 6, 7, 8, 9, 10, 11, 13, 15, 17, 19, 23, 27, 31, 35, 43, 51, 59, 67, 83, 99, 115, 131,
    163, 195, 227, 258,
];
const LEN_EXTRA: [u32; 29] = [
    0, 0, 0, 0, 0, 0, 0, 0, 1, 1, 1, 1, 2, 2, 2, 2, 3, 3, 3, 3, 4, 4, 4, 4, 5, 5, 5, 5, 0,
];
const DIST_BASE: [u32; 30] = [
    1, 2, 3, 4, 5, 7, 9, 13, 17, 25, 33, 49, 65, 97, 129, 193, 257, 385, 513, 769, 1025, 1537,
    2049, 3073, 4097, 6145, 8193, 12289, 16385, 24577,
];
const DIST_EXTRA: [u32; 30] = [
    0, 0, 0, 0, 1, 1, 2, 2, 3, 3, 4, 4, 5, 5, 6, 6, 7, 7, 8, 8, 9, 9, 10, 10, 11, 11, 12, 12, 13,
    13,
];

fn inflate(data: &[u8]) -> Vec<u8> {
    let mut r = Reader { data, pos: 0 };
    assert_eq!(r.bits(1), 1, "one final block");
    assert_eq!(r.bits(2), 1, "fixed Huffman codes");
    let mut out = Vec::new();
    loop {
        let sym = r.symbol();
        if sym < 256 {
            out.push(sym as u8);
        } else if sym == 256 {
            break;
        } else {
            let li = (sym - 257) as usize;
            let len = LEN_BASE[li] + r.bits(LEN_EXTRA[li]);
            let di = r.code(5) as usize;
            let dist = DIST_BASE[di] + r.bits(DIST_EXTRA[di]);
            for _ in 0..len {
                let b = out[out.len() - dist as usize];
                out.push(b);
            }
        }
    }
    // Nothing but zero padding after the end of the block.
    while r.pos % 8 != 0 {
        assert_eq!(r.bit(), 0);
    }
    assert_eq!(r.pos / 8, data.len());
    out
}

fn expand(ts: &[Token]) -> Vec<u8> {
    let mut out = Vec::new();
    for t in ts {
        match *t {
            Token::Literal(b) => out.push(b),
            Token::Match { len, dist } => {
                for _ in 0..len {
                    let b = out[out.len() - dist];
                    out.push(b);
                }
            }
        }
    }
    out
}

fn be32(b: &[u8]) -> u32 {
    u32::from_be_bytes([b[0], b[1], b[2], b[3]])
}

#[test]
fn crc32_matches_the_standard_check_value() {
    assert_eq!(crc32(b"123456789"), 0xCBF4_3926);
    assert_eq!(crc32(b""), 0);
    assert_eq!(crc32(b"IEND"), 0xAE42_6082);
}

#[test]
fn adler32_matches_known_values() {
    assert_eq!(adler32(b"Wikipedia"), 0x11E6_0398);
    assert_eq!(adler32(b""), 1);
}

#[test]
fn adler32_wraps_at_the_modulus() {
    let data = vec![0xFFu8; 5553];
    let (mut a, mut b) = (1u64, 0u64);
    for &x in &data {
        a = (a + x as u64) % 65521;
        b = (b + a) % 65521;
    }
    assert_eq!(adler32(&data), ((b << 16) | a) as u32);
}

#[test]
fn bits_pack_least_significant_first_and_codes_most_significant_first() {
    let mut b = Bits::new();
    b.put(1, 1);
    b.put(1, 2);
    b.put_rev(0b0110000, 7);
    assert_eq!(b.finish(), vec![0b0011_0011, 0b0000_0000]);
}

#[test]
fn finish_pads_with_zero_bits_and_adds_nothing_when_aligned() {
    let mut b = Bits::new();
    b.put(0xAB, 8);
    assert_eq!(b.finish(), vec![0xAB]);
    let mut b = Bits::new();
    b.put(0x5, 3);
    assert_eq!(b.finish(), vec![0x05]);
    assert_eq!(Bits::new().finish(), Vec::<u8>::new());
}

#[test]
fn lz77_spells_out_its_input() {
    let data: Vec<u8> = (0..2000u32).map(|i| ((i * 7) % 13) as u8).collect();
    let ts = lz77(&data);
    assert_eq!(expand(&ts), data);
    assert!(ts.len() < data.len() / 4, "a repeating pattern is mostly copies");
    for t in &ts {
        if let Token::Match { len, dist } = *t {
            assert!((3..=258).contains(&len));
            assert!((1..=32768).contains(&dist));
        }
    }
}

#[test]
fn lz77_of_a_run_is_one_literal_then_copies() {
    let data = vec![7u8; 10];
    let ts = lz77(&data);
    assert_eq!(ts, vec![Token::Literal(7), Token::Match { len: 9, dist: 1 }]);
}

#[test]
fn lz77_takes_the_longest_candidate_on_the_chain() {
    let ts = lz77(b"abcdeabcxyabcde");
    let mut want: Vec<Token> = b"abcde".iter().map(|&b| Token::Literal(b)).collect();
    want.push(Token::Match { len: 3, dist: 5 });
    want.push(Token::Literal(b'x'));
    want.push(Token::Literal(b'y'));
    want.push(Token::Match { len: 5, dist: 10 });
    assert_eq!(ts, want);
}

#[test]
fn lz77_tries_at_most_sixteen_candidates() {
    // "abcQ", then sixteen more "abc" runs, then "abcQ" again: the full
    // four-byte match is the seventeenth candidate back, so it is not seen.
    let mut data = b"abcQ".to_vec();
    for k in 0..16u8 {
        data.extend_from_slice(b"abc");
        data.push(b'A' + k);
    }
    data.extend_from_slice(b"abcQ");
    let ts = lz77(&data);
    let mut want: Vec<Token> = b"abcQ".iter().map(|&b| Token::Literal(b)).collect();
    for k in 0..16u8 {
        want.push(Token::Match { len: 3, dist: 4 });
        want.push(Token::Literal(b'A' + k));
    }
    want.push(Token::Match { len: 3, dist: 4 });
    want.push(Token::Literal(b'Q'));
    assert_eq!(ts, want);
}

#[test]
fn empty_input_deflates_to_an_empty_block() {
    let d = deflate(&[]);
    // Header bits 1, 1, 0 and the seven zero bits of symbol 256.
    assert_eq!(d, vec![0x03, 0x00]);
    assert_eq!(inflate(&d), Vec::<u8>::new());
}

#[test]
fn encode_block_writes_literals_and_copies() {
    let ts = vec![Token::Literal(b'a'), Token::Literal(200), Token::Match { len: 258, dist: 2 }];
    let d = encode_block(&ts);
    let mut want = vec![b'a', 200];
    for _ in 0..258 {
        let b = want[want.len() - 2];
        want.push(b);
    }
    assert_eq!(inflate(&d), want);
}

#[test]
fn encode_block_uses_extra_bits_for_long_distances() {
    let mut ts: Vec<Token> = (0..=255u8).map(Token::Literal).collect();
    for _ in 0..200 {
        ts.push(Token::Literal(0x55));
    }
    ts.push(Token::Match { len: 100, dist: 456 });
    ts.push(Token::Match { len: 13, dist: 5 });
    let d = encode_block(&ts);
    assert_eq!(inflate(&d), expand(&ts));
}

#[test]
fn deflate_round_trips_varied_data() {
    let mut data = Vec::new();
    for i in 0..40_000u32 {
        let x = i.wrapping_mul(2_654_435_761) >> 27;
        data.push(if i % 1000 < 600 { 0 } else { x as u8 });
    }
    let d = deflate(&data);
    assert!(d.len() < data.len());
    assert_eq!(inflate(&d), data);
}

#[test]
fn png_frames_the_image() {
    let size = 3usize;
    let rgba: Vec<u8> = (0..size * size * 4).map(|i| (i * 5) as u8).collect();
    let f = png(&rgba, size);
    assert_eq!(&f[..8], &[0x89, b'P', b'N', b'G', 0x0D, 0x0A, 0x1A, 0x0A]);

    // IHDR
    assert_eq!(be32(&f[8..12]), 13);
    assert_eq!(&f[12..16], b"IHDR");
    assert_eq!(be32(&f[16..20]), 3);
    assert_eq!(be32(&f[20..24]), 3);
    assert_eq!(&f[24..29], &[8, 6, 0, 0, 0]);
    assert_eq!(be32(&f[29..33]), crc32(&f[12..29]));

    // IDAT
    let n = be32(&f[33..37]) as usize;
    assert_eq!(&f[37..41], b"IDAT");
    let z = &f[41..41 + n];
    assert_eq!(be32(&f[41 + n..45 + n]), crc32(&f[37..41 + n]));
    assert_eq!(&z[..2], &[0x78, 0x01]);
    let raw = inflate(&z[2..n - 4]);
    let mut want = Vec::new();
    for y in 0..size {
        want.push(0);
        want.extend_from_slice(&rgba[y * size * 4..(y + 1) * size * 4]);
    }
    assert_eq!(raw, want);
    assert_eq!(be32(&z[n - 4..]), adler32(&want));

    // IEND
    let rest = &f[45 + n..];
    assert_eq!(rest, &[0, 0, 0, 0, b'I', b'E', b'N', b'D', 0xAE, 0x42, 0x60, 0x82]);
}

#[test]
fn png_of_an_empty_image_still_has_every_chunk() {
    let f = png(&[], 0);
    assert_eq!(be32(&f[16..20]), 0);
    assert!(f.ends_with(&[0xAE, 0x42, 0x60, 0x82]));
}
