//! HID report descriptor parsing.
//!
//! Parsing the descriptor gives a decode path that does not depend on the
//! operating system's change-driven element callbacks, and it can be checked
//! against real descriptors without the hardware present.
//!
//! Only what a pointing device needs is modelled: variable input fields with a
//! usage, their bit offset, width and signedness. Array items, which mice do
//! not use for axes or buttons, are skipped rather than half-supported, but
//! their bits still advance the report layout.
//!
//! The meaning of a descriptor is stated here as a walk over its items
//! (`parse_from`): each short item is decoded from its prefix byte and its
//! little-endian data, and `item_step` says what it does to the parser state.
use vstd::prelude::*;
use vstd::arithmetic::power2::{pow2, lemma_pow2_unfold, lemma2_to64};
use vstd::bits::lemma_u8_shr_is_div;

verus! {

/// One decodable field inside an input report.
#[derive(Clone, Copy, Debug, PartialEq, Eq, Structural)]
pub struct Field {
    pub report_id: u8,
    pub usage_page: u16,
    pub usage: u16,
    /// Bit offset within the report, not counting the leading report-ID byte.
    pub bit_offset: u32,
    pub bit_size: u32,
    pub signed: bool,
    pub relative: bool,
}

#[derive(Clone, Debug)]
pub struct ReportMap {
    pub fields: Vec<Field>,
    /// True when the descriptor uses report IDs, so every report is prefixed
    /// with one.
    pub uses_report_ids: bool,
    /// Total input report size in bits, per report id, in order of first use.
    pub report_bits: Vec<(u8, u32)>,
}

impl Default for ReportMap {
    fn default() -> (m: Self)
        ensures
            m.fields@.len() == 0,
            !m.uses_report_ids,
            m.report_bits@.len() == 0,
    {
        ReportMap { fields: Vec::new(), uses_report_ids: false, report_bits: Vec::new() }
    }
}

/// The global items in force at one point of the descriptor.
#[derive(Clone, Copy, Debug, PartialEq, Eq, Structural)]
pub struct GlobalState {
    pub usage_page: u16,
    pub logical_min: i64,
    pub logical_max: i64,
    pub report_size: u32,
    pub report_count: u32,
    pub report_id: u8,
}

impl GlobalState {
    /// Every global item at zero, which is where a descriptor starts.
    pub fn zero() -> (g: Self)
        ensures
            g == GlobalState::spec_zero(),
    {
        GlobalState {
            usage_page: 0,
            logical_min: 0,
            logical_max: 0,
            report_size: 0,
            report_count: 0,
            report_id: 0,
        }
    }

    pub open spec fn spec_zero() -> Self {
        GlobalState {
            usage_page: 0,
            logical_min: 0,
            logical_max: 0,
            report_size: 0,
            report_count: 0,
            report_id: 0,
        }
    }
}

/// The parser's whole state between two items.
pub struct ParseState {
    pub fields: Seq<Field>,
    pub uses_report_ids: bool,
    pub g: GlobalState,
    pub stack: Seq<GlobalState>,
    pub usages: Seq<u32>,
    pub usage_min: Option<u32>,
    pub usage_max: Option<u32>,
    /// Bits of input report laid out so far, per report id.
    pub bit_pos: Seq<(u8, u32)>,
}

pub open spec fn initial_state() -> ParseState {
    ParseState {
        fields: Seq::empty(),
        uses_report_ids: false,
        g: GlobalState::spec_zero(),
        stack: Seq::empty(),
        usages: Seq::empty(),
        usage_min: None,
        usage_max: None,
        bit_pos: Seq::empty(),
    }
}

/// Data bytes carried by a short item, from the two low bits of its prefix.
pub open spec fn item_data_len(prefix: u8) -> int {
    if prefix % 4 == 3 {
        4
    } else {
        (prefix % 4) as int
    }
}

/// The item's data read as an unsigned little-endian number.
pub open spec fn le_unsigned(d: Seq<u8>, at: int, n: int) -> u32 {
    if n == 1 {
        d[at] as u32
    } else if n == 2 {
        (d[at] + 256 * d[at + 1]) as u32
    } else if n == 4 {
        (d[at] + 256 * d[at + 1] + 65536 * d[at + 2] + 16777216 * d[at + 3]) as u32
    } else {
        0
    }
}

/// The item's data read as a two's complement little-endian number.
pub open spec fn le_signed(d: Seq<u8>, at: int, n: int) -> i64 {
    let u = le_unsigned(d, at, n) as int;
    if n == 1 {
        (if u < 0x80 { u } else { u - 0x100 }) as i64
    } else if n == 2 {
        (if u < 0x8000 { u } else { u - 0x1_0000 }) as i64
    } else if n == 4 {
        (if u < 0x8000_0000 { u } else { u - 0x1_0000_0000 }) as i64
    } else {
        0
    }
}

/// Reduction modulo 2^32, the width of a bit offset.
pub open spec fn wrap32(x: int) -> u32 {
    (x % 0x1_0000_0000) as u32
}

/// `a * b`, or `u32::MAX` when the product does not fit.
pub open spec fn sat_mul32(a: u32, b: u32) -> u32 {
    if a * b > u32::MAX {
        u32::MAX
    } else {
        (a * b) as u32
    }
}

/// The usage of the `n`th field of a main item: the `n`th explicit usage,
/// else the usage range (clamped at its maximum), else the last usage repeated,
/// else none.
pub open spec fn usage_for(usages: Seq<u32>, umin: Option<u32>, umax: Option<u32>, n: u32) -> u32 {
    if (n as int) < usages.len() {
        usages[n as int]
    } else if umin is Some && umax is Some {
        if umin->0 + n > umax->0 {
            umax->0
        } else {
            (umin->0 + n) as u32
        }
    } else if usages.len() > 0 {
        usages.last()
    } else {
        0
    }
}

/// The `n`th field an Input item declares, laid out from `cursor`.
pub open spec fn field_at(st: ParseState, cursor: u32, relative: bool, n: u32) -> Field {
    let full = usage_for(st.usages, st.usage_min, st.usage_max, n);
    Field {
        report_id: st.g.report_id,
        // A usage may carry its page in the high half.
        usage_page: if full > 0xFFFF {
            (full / 0x1_0000) as u16
        } else {
            st.g.usage_page
        },
        usage: if full > 0xFFFF {
            (full % 0x1_0000) as u16
        } else {
            full as u16
        },
        bit_offset: wrap32(cursor + n * st.g.report_size),
        bit_size: st.g.report_size,
        signed: st.g.logical_min < 0,
        relative,
    }
}

/// `k` is the first entry of `bp` for report id `id`.
pub open spec fn first_entry(bp: Seq<(u8, u32)>, id: u8, k: int) -> bool {
    &&& 0 <= k < bp.len()
    &&& bp[k].0 == id
    &&& forall|j: int| 0 <= j < k ==> bp[j].0 != id
}

pub open spec fn has_entry(bp: Seq<(u8, u32)>, id: u8) -> bool {
    exists|k: int| 0 <= k < bp.len() && bp[k].0 == id
}

/// Where the next input bits of report `id` start.
pub open spec fn cursor_of(bp: Seq<(u8, u32)>, id: u8) -> u32 {
    if has_entry(bp, id) {
        bp[choose|k: int| first_entry(bp, id, k)].1
    } else {
        0
    }
}

/// The layout after `bits` more bits of report `id`.
pub open spec fn advance_cursor(bp: Seq<(u8, u32)>, id: u8, bits: u32) -> Seq<(u8, u32)> {
    if has_entry(bp, id) {
        let k = choose|k: int| first_entry(bp, id, k);
        bp.update(k, (id, wrap32(bp[k].1 + bits)))
    } else {
        bp.push((id, bits))
    }
}

/// What an Input main item with data `data` does.
pub open spec fn input_step(st: ParseState, data: u32) -> ParseState {
    let constant = data & 1 != 0;
    let variable = data & 2 != 0;
    let relative = data & 4 != 0;
    let cursor = cursor_of(st.bit_pos, st.g.report_id);
    let added = if variable && !constant {
        Seq::new(st.g.report_count as nat, |n: int| field_at(st, cursor, relative, n as u32))
    } else {
        Seq::empty()
    };
    ParseState {
        fields: st.fields + added,
        // Constant and array items still occupy their bits.
        bit_pos: advance_cursor(
            st.bit_pos,
            st.g.report_id,
            sat_mul32(st.g.report_size, st.g.report_count),
        ),
        ..st
    }
}

/// What one short item does to the parser state.
pub open spec fn item_step(st: ParseState, prefix: u8, uval: u32, ival: i64) -> ParseState {
    let tag = prefix / 16;
    let typ = (prefix / 4) % 4;
    if typ == 0 {
        // Main items: only Input lays out bits; every main item ends the
        // local items that applied to it.
        let after = if tag == 8 {
            input_step(st, uval)
        } else {
            st
        };
        ParseState { usages: Seq::empty(), usage_min: None, usage_max: None, ..after }
    } else if typ == 1 {
        // Global items.
        if tag == 0 {
            ParseState { g: GlobalState { usage_page: uval as u16, ..st.g }, ..st }
        } else if tag == 1 {
            ParseState { g: GlobalState { logical_min: ival, ..st.g }, ..st }
        } else if tag == 2 {
            ParseState { g: GlobalState { logical_max: ival, ..st.g }, ..st }
        } else if tag == 7 {
            ParseState { g: GlobalState { report_size: uval, ..st.g }, ..st }
        } else if tag == 8 {
            ParseState {
                g: GlobalState { report_id: uval as u8, ..st.g },
                uses_report_ids: true,
                ..st
            }
        } else if tag == 9 {
            ParseState { g: GlobalState { report_count: uval, ..st.g }, ..st }
        } else if tag == 0xA {
            ParseState { stack: st.stack.push(st.g), ..st }
        } else if tag == 0xB {
            if st.stack.len() > 0 {
                ParseState { g: st.stack.last(), stack: st.stack.drop_last(), ..st }
            } else {
                st
            }
        } else {
            st
        }
    } else if typ == 2 {
        // Local items.
        if tag == 0 {
            ParseState { usages: st.usages.push(uval), ..st }
        } else if tag == 1 {
            ParseState { usage_min: Some(uval), ..st }
        } else if tag == 2 {
            ParseState { usage_max: Some(uval), ..st }
        } else {
            st
        }
    } else {
        st
    }
}

/// The parser state after every item from `pos` onward. A long item is
/// skipped whole; an item the descriptor ends inside of ends the walk.
pub open spec fn parse_from(d: Seq<u8>, pos: int, st: ParseState) -> ParseState
    decreases d.len() - pos,
{
    if pos < 0 || pos >= d.len() {
        st
    } else if d[pos] == 0xFE {
        let next = pos + 3 + (d[pos + 1] as int);
        if pos + 2 >= d.len() || next >= d.len() {
            st
        } else {
            parse_from(d, next, st)
        }
    } else {
        let n = item_data_len(d[pos]);
        if pos + 1 + n > d.len() {
            st
        } else {
            parse_from(
                d,
                pos + 1 + n,
                item_step(st, d[pos], le_unsigned(d, pos + 1, n), le_signed(d, pos + 1, n)),
            )
        }
    }
}

/// The meaning of a whole descriptor.
pub open spec fn spec_parse(d: Seq<u8>) -> ParseState {
    parse_from(d, 0, initial_state())
}

/// The exec parser state; its view is a `ParseState`.
struct Parser {
    fields: Vec<Field>,
    uses_report_ids: bool,
    g: GlobalState,
    stack: Vec<GlobalState>,
    usages: Vec<u32>,
    usage_min: Option<u32>,
    usage_max: Option<u32>,
    bit_pos: Vec<(u8, u32)>,
}

impl Parser {
    spec fn model(&self) -> ParseState {
        ParseState {
            fields: self.fields@,
            uses_report_ids: self.uses_report_ids,
            g: self.g,
            stack: self.stack@,
            usages: self.usages@,
            usage_min: self.usage_min,
            usage_max: self.usage_max,
            bit_pos: self.bit_pos@,
        }
    }

    fn usage_for(&self, n: u32) -> (u: u32)
        ensures
            u == usage_for(self.usages@, self.usage_min, self.usage_max, n),
    {
        if (n as usize) < self.usages.len() {
            self.usages[n as usize]
        } else if self.usage_min.is_some() && self.usage_max.is_some() {
            let lo = self.usage_min.unwrap();
            let hi = self.usage_max.unwrap();
            match lo.checked_add(n) {
                Some(u) => if u > hi { hi } else { u },
                None => hi,
            }
        } else if self.usages.len() > 0 {
            self.usages[self.usages.len() - 1]
        } else {
            0
        }
    }

    fn field_at(&self, cursor: u32, relative: bool, n: u32) -> (f: Field)
        ensures
            f == field_at(self.model(), cursor, relative, n),
    {
        let full = self.usage_for(n);
        let (page, usage) = if full > 0xFFFF {
            ((full / 0x1_0000) as u16, (full % 0x1_0000) as u16)
        } else {
            (self.g.usage_page, full as u16)
        };
        let size = self.g.report_size;
        proof {
            assert((n as int) * (size as int) <= 0xFFFF_FFFFint * 0xFFFF_FFFFint) by (nonlinear_arith)
                requires
                    n <= 0xFFFF_FFFFu32,
                    size <= 0xFFFF_FFFFu32,
            ;
        }
        let wide: u64 = cursor as u64 + (n as u64) * (size as u64);
        let offset = (wide % 0x1_0000_0000) as u32;
        Field {
            report_id: self.g.report_id,
            usage_page: page,
            usage,
            bit_offset: offset,
            bit_size: size,
            signed: self.g.logical_min < 0,
            relative,
        }
    }

    /// Index of the first layout entry for report `id`, if any.
    fn find_entry(&self, id: u8) -> (r: Option<usize>)
        ensures
            match r {
                Some(k) => first_entry(self.bit_pos@, id, k as int),
                None => !has_entry(self.bit_pos@, id),
            },
    {
        let mut k: usize = 0;
        while k < self.bit_pos.len()
            invariant
                k <= self.bit_pos@.len(),
                forall|j: int| 0 <= j < k ==> self.bit_pos@[j].0 != id,
            decreases self.bit_pos@.len() - k,
        {
            if self.bit_pos[k].0 == id {
                return Some(k);
            }
            k = k + 1;
        }
        None
    }

    fn input(&mut self, data: u32)
        ensures
            final(self).model() == input_step(old(self).model(), data),
    {
        let ghost st = self.model();
        let constant = data & 1 != 0;
        let variable = data & 2 != 0;
        let relative = data & 4 != 0;
        let id = self.g.report_id;
        let entry = self.find_entry(id);
        let cursor: u32 = match entry {
            Some(k) => self.bit_pos[k].1,
            None => 0,
        };
        proof {
            match entry {
                Some(k) => {
                    let c = choose|k: int| first_entry(st.bit_pos, id, k);
                    assert(first_entry(st.bit_pos, id, c));
                    assert(c == k as int);
                }
                None => {}
            }
            assert(cursor == cursor_of(st.bit_pos, id));
        }
        if variable && !constant {
            let count = self.g.report_count;
            let ghost base = self.fields@;
            let mut n: u32 = 0;
            while n < count
                invariant
                    n <= count,
                    count == st.g.report_count,
                    self.g == st.g,
                    self.usages@ == st.usages,
                    self.usage_min == st.usage_min,
                    self.usage_max == st.usage_max,
                    self.bit_pos@ == st.bit_pos,
                    self.stack@ == st.stack,
                    self.uses_report_ids == st.uses_report_ids,
                    base == st.fields,
                    self.fields@ == base + Seq::new(
                        n as nat,
                        |j: int| field_at(st, cursor, relative, j as u32),
                    ),
                decreases count - n,
            {
                let f = self.field_at(cursor, relative, n);
                self.fields.push(f);
                proof {
                    assert(self.fields@ =~= base + Seq::new(
                        (n + 1) as nat,
                        |j: int| field_at(st, cursor, relative, j as u32),
                    ));
                }
                n = n + 1;
            }
        } else {
            assert(self.fields@ =~= st.fields + Seq::<Field>::empty());
        }
        let size = self.g.report_size;
        let count = self.g.report_count;
        let bits: u32 = if count != 0 && size > u32::MAX / count {
            u32::MAX
        } else {
            proof {
                if count != 0 {
                    assert(size * count <= u32::MAX) by (nonlinear_arith)
                        requires
                            count != 0,
                            size <= u32::MAX / count,
                    ;
                }
            }
            size * count
        };
        proof {
            if count != 0 && size > u32::MAX / count {
                assert(size * count > u32::MAX) by (nonlinear_arith)
                    requires
                        count != 0,
                        size > u32::MAX / count,
                ;
            }
            assert(bits == sat_mul32(size, count));
        }
        match entry {
            Some(k) => {
                let old_bits = self.bit_pos[k].1;
                let moved = ((old_bits as u64 + bits as u64) % 0x1_0000_0000) as u32;
                self.bit_pos.set(k, (id, moved));
                proof {
                    let c = choose|k: int| first_entry(st.bit_pos, id, k);
                    assert(first_entry(st.bit_pos, id, c));
                    assert(c == k as int);
                }
            }
            None => {
                self.bit_pos.push((id, bits));
            }
        }
        proof {
            let expected = input_step(st, data);
            assert(self.bit_pos@ =~= expected.bit_pos);
            assert(self.fields@ =~= expected.fields);
        }
    }

    fn step(&mut self, prefix: u8, uval: u32, ival: i64)
        ensures
            final(self).model() == item_step(old(self).model(), prefix, uval, ival),
    {
        let tag = prefix / 16;
        let typ = (prefix / 4) % 4;
        if typ == 0 {
            if tag == 8 {
                self.input(uval);
            }
            self.usages = Vec::new();
            self.usage_min = None;
            self.usage_max = None;
        } else if typ == 1 {
            if tag == 0 {
                self.g.usage_page = uval as u16;
            } else if tag == 1 {
                self.g.logical_min = ival;
            } else if tag == 2 {
                self.g.logical_max = ival;
            } else if tag == 7 {
                self.g.report_size = uval;
            } else if tag == 8 {
                self.g.report_id = uval as u8;
                self.uses_report_ids = true;
            } else if tag == 9 {
                self.g.report_count = uval;
            } else if tag == 0xA {
                self.stack.push(self.g);
            } else if tag == 0xB {
                if self.stack.len() > 0 {
                    let prev = self.stack.pop().unwrap();
                    self.g = prev;
                }
            }
        } else if typ == 2 {
            if tag == 0 {
                self.usages.push(uval);
            } else if tag == 1 {
                self.usage_min = Some(uval);
            } else if tag == 2 {
                self.usage_max = Some(uval);
            }
        }
        proof {
            let e = item_step(old(self).model(), prefix, uval, ival);
            assert(self.usages@ =~= e.usages);
            assert(self.stack@ =~= e.stack);
        }
    }
}

/// Reads the data of the short item whose prefix is at `pos`.
fn item_data(d: &[u8], at: usize, n: usize) -> (r: (u32, i64))
    requires
        n == 0 || n == 1 || n == 2 || n == 4,
        at + n <= d@.len(),
    ensures
        r.0 == le_unsigned(d@, at as int, n as int),
        r.1 == le_signed(d@, at as int, n as int),
{
    if n == 0 {
        (0, 0)
    } else if n == 1 {
        let u = d[at] as u32;
        (u, if u < 0x80 { u as i64 } else { u as i64 - 0x100 })
    } else if n == 2 {
        let u = d[at] as u32 + 256 * (d[at + 1] as u32);
        (u, if u < 0x8000 { u as i64 } else { u as i64 - 0x1_0000 })
    } else {
        let u = d[at] as u32 + 256 * (d[at + 1] as u32) + 65536 * (d[at + 2] as u32)
            + 16777216 * (d[at + 3] as u32);
        (u, if u < 0x8000_0000 { u as i64 } else { u as i64 - 0x1_0000_0000 })
    }
}

/// Parses a report descriptor into the fields a pointing device's input
/// reports carry. Never fails: a truncated or malformed descriptor yields
/// whatever its complete items described.
pub fn parse(desc: &[u8]) -> (map: ReportMap)
    ensures
        map.fields@ == spec_parse(desc@).fields,
        map.uses_report_ids == spec_parse(desc@).uses_report_ids,
        map.report_bits@ == spec_parse(desc@).bit_pos,
{
    let mut p = Parser {
        fields: Vec::new(),
        uses_report_ids: false,
        g: GlobalState::zero(),
        stack: Vec::new(),
        usages: Vec::new(),
        usage_min: None,
        usage_max: None,
        bit_pos: Vec::new(),
    };
    proof {
        assert(p.model() == initial_state()) by {
            assert(p.fields@ =~= Seq::<Field>::empty());
            assert(p.stack@ =~= Seq::<GlobalState>::empty());
            assert(p.usages@ =~= Seq::<u32>::empty());
            assert(p.bit_pos@ =~= Seq::<(u8, u32)>::empty());
        }
    }
    let len = desc.len();
    let mut i: usize = 0;
    while i < len
        invariant
            len == desc@.len(),
            parse_from(desc@, i as int, p.model()) == spec_parse(desc@),
        decreases len - i,
    {
        let prefix = desc[i];
        if prefix == 0xFE {
            // Long item: one size byte, one tag byte, then the payload. No
            // pointing device uses them; skip it whole rather than
            // desynchronising the walk.
            if len - i <= 2 {
                i = len;
            } else {
                let size = desc[i + 1] as usize;
                if size > len - i - 3 {
                    i = len;
                } else {
                    i = i + 3 + size;
                }
            }
        } else {
            let n: usize = if prefix % 4 == 3 {
                4
            } else {
                (prefix % 4) as usize
            };
            if len - i < 1 + n {
                i = len;
            } else {
                let (uval, ival) = item_data(desc, i + 1, n);
                p.step(prefix, uval, ival);
                i = i + 1 + n;
            }
        }
    }
    ReportMap { fields: p.fields, uses_report_ids: p.uses_report_ids, report_bits: p.bit_pos }
}


/// Bit `pos` of `data`, counting from the least significant bit of byte 0.
pub open spec fn bit_at(data: Seq<u8>, pos: int) -> int {
    (data[pos / 8] as int / pow2((pos % 8) as nat) as int) % 2
}

/// The `k` bits from `off` read as an unsigned little-endian number.
pub open spec fn bits_value(data: Seq<u8>, off: int, k: nat) -> int
    decreases k,
{
    if k == 0 {
        0
    } else {
        bits_value(data, off, (k - 1) as nat) + bit_at(data, off + k - 1) * pow2(
            (k - 1) as nat,
        )
    }
}

/// What `extract` reads: zero for a width outside 1..=32 or a field that runs
/// past the end of the data; otherwise the field's bits, two's complement when
/// `signed`.
pub open spec fn spec_extract(data: Seq<u8>, off: u32, size: u32, signed: bool) -> i64 {
    if size == 0 || size > 32 || (off + size - 1) / 8 >= data.len() {
        0
    } else {
        let v = bits_value(data, off as int, size as nat);
        if signed && v >= pow2((size - 1) as nat) {
            (v - pow2(size as nat)) as i64
        } else {
            v as i64
        }
    }
}

proof fn lemma_bits_value_bound(data: Seq<u8>, off: int, k: nat)
    ensures
        0 <= bits_value(data, off, k) < pow2(k),
    decreases k,
{
    if k > 0 {
        lemma_bits_value_bound(data, off, (k - 1) as nat);
        lemma_pow2_unfold(k);
        assert(0 <= bit_at(data, off + k - 1) < 2);
        assert(bit_at(data, off + k - 1) * pow2((k - 1) as nat) <= pow2((k - 1) as nat))
            by (nonlinear_arith)
            requires
                0 <= bit_at(data, off + k - 1) < 2,
        ;
    } else {
        assert(pow2(0) == 1) by {
            lemma2_to64();
        }
    }
}

/// Reads `bit_size` bits at `bit_offset` from `data`, little-endian bit order
/// within each byte, sign-extending when asked. A width outside 1..=32, or a
/// field that runs past the end of `data`, reads as zero.
pub fn extract(data: &[u8], bit_offset: u32, bit_size: u32, signed: bool) -> (v: i64)
    ensures
        v == spec_extract(data@, bit_offset, bit_size, signed),
{
    if bit_size == 0 || bit_size > 32 {
        return 0;
    }
    proof {
        lemma2_to64();
    }
    let mut value: u64 = 0;
    let mut weight: u64 = 1;
    let mut b: u32 = 0;
    while b < bit_size
        invariant
            b <= bit_size <= 32,
            weight == pow2(b as nat),
            value == bits_value(data@, bit_offset as int, b as nat),
            b == 0 || (bit_offset + b - 1) / 8 < data@.len(),
        decreases bit_size - b,
    {
        proof {
            lemma_bits_value_bound(data@, bit_offset as int, b as nat);
            lemma_pow2_unfold((b + 1) as nat);
            vstd::arithmetic::power2::lemma_pow2_strictly_increases(b as nat, 32);
        }
        let abs: u64 = bit_offset as u64 + b as u64;
        let byte = abs / 8;
        if byte >= data.len() as u64 {
            return 0;
        }
        let shift = (abs % 8) as u8;
        let x = data[byte as usize];
        let bit = (x >> shift) & 1;
        proof {
            lemma_u8_shr_is_div(x, shift);
            let y = x >> shift;
            assert(y & 1 == y % 2) by (bit_vector);
            assert(y & 1 <= 1) by (bit_vector);
            assert(pow2(32) == 0x1_0000_0000) by {
                lemma2_to64();
            }
            assert(value < weight);
            assert(weight < 0x1_0000_0000);
            assert(bit as int == bit_at(data@, bit_offset + b));
        }
        let ghost before = value;
        if bit != 0 {
            value = value + weight;
        }
        proof {
            let nb = (b + 1) as nat;
            assert(bits_value(data@, bit_offset as int, nb) == bits_value(
                data@,
                bit_offset as int,
                b as nat,
            ) + bit_at(data@, bit_offset + b) * pow2(b as nat));
            if bit != 0 {
                let ba = bit_at(data@, bit_offset + b);
                assert(ba == 1);
                assert(ba * pow2(b as nat) == pow2(b as nat)) by (nonlinear_arith)
                    requires
                        ba == 1,
                ;
            } else {
                let ba = bit_at(data@, bit_offset + b);
                assert(ba == 0);
                assert(ba * pow2(b as nat) == 0) by (nonlinear_arith)
                    requires
                        ba == 0,
                ;
            }
        }
        weight = weight * 2;
        b = b + 1;
    }
    proof {
        lemma_bits_value_bound(data@, bit_offset as int, bit_size as nat);
        lemma_pow2_unfold(bit_size as nat);
        assert((bit_offset + bit_size - 1) / 8 < data@.len());
    }
    if signed && value >= weight / 2 {
        (value as i64) - (weight as i64)
    } else {
        value as i64
    }
}

/// What a mouse report decodes to.
#[derive(Clone, Copy, Debug, PartialEq, Eq, Structural)]
pub struct Decoded {
    pub dx: i32,
    pub dy: i32,
    pub wheel: i32,
    pub hwheel: i32,
    /// Bit n set means button n+1 is currently down.
    pub buttons: u32,
    pub matched_fields: u32,
}

impl Decoded {
    pub open spec fn spec_zero() -> Self {
        Decoded { dx: 0, dy: 0, wheel: 0, hwheel: 0, buttons: 0, matched_fields: 0 }
    }
}

impl Default for Decoded {
    fn default() -> (d: Self)
        ensures
            d == Decoded::spec_zero(),
    {
        Decoded { dx: 0, dy: 0, wheel: 0, hwheel: 0, buttons: 0, matched_fields: 0 }
    }
}

/// The decoded report after taking field `f` into account. Fields a pointing
/// device does not use leave it unchanged.
pub open spec fn decode_field(d: Decoded, f: Field, body: Seq<u8>) -> Decoded {
    let v = spec_extract(body, f.bit_offset, f.bit_size, f.signed);
    let counted = Decoded { matched_fields: (d.matched_fields + 1) as u32, ..d };
    if f.usage_page == 1 && f.usage == 0x30 {
        Decoded { dx: v as i32, ..counted }
    } else if f.usage_page == 1 && f.usage == 0x31 {
        Decoded { dy: v as i32, ..counted }
    } else if f.usage_page == 1 && f.usage == 0x38 {
        Decoded { wheel: v as i32, ..counted }
    } else if f.usage_page == 0x0C && f.usage == 0x0238 {
        // Consumer page AC Pan is the usual horizontal wheel.
        Decoded { hwheel: v as i32, ..counted }
    } else if f.usage_page == 9 && 1 <= f.usage <= 32 {
        Decoded {
            buttons: if v != 0 {
                d.buttons | (1u32 << ((f.usage - 1) as u32))
            } else {
                d.buttons
            },
            ..counted
        }
    } else {
        d
    }
}

/// The report decoded from the first `n` fields.
pub open spec fn decode_prefix(fields: Seq<Field>, body: Seq<u8>, n: nat) -> Decoded
    decreases n,
{
    if n == 0 {
        Decoded::spec_zero()
    } else {
        decode_field(decode_prefix(fields, body, (n - 1) as nat), fields[n - 1], body)
    }
}

proof fn lemma_matched_bound(fields: Seq<Field>, body: Seq<u8>, n: nat)
    requires
        n <= fields.len(),
    ensures
        decode_prefix(fields, body, n).matched_fields <= n,
    decreases n,
{
    if n > 0 {
        lemma_matched_bound(fields, body, (n - 1) as nat);
    }
}

impl ReportMap {
    /// Fields belonging to one report id, in descriptor order.
    pub fn fields_for(&self, report_id: u8) -> (r: Vec<Field>)
        ensures
            r@ == self.fields@.filter(|f: Field| f.report_id == report_id),
    {
        let ghost pred = |f: Field| f.report_id == report_id;
        let mut out: Vec<Field> = Vec::new();
        let mut i: usize = 0;
        while i < self.fields.len()
            invariant
                i <= self.fields@.len(),
                pred == (|f: Field| f.report_id == report_id),
                out@ == self.fields@.take(i as int).filter(pred),
            decreases self.fields@.len() - i,
        {
            let f = self.fields[i];
            proof {
                assert(self.fields@.take(i + 1) =~= self.fields@.take(i as int).push(f));
                self.fields@.take(i as int).lemma_filter_push(f, pred);
            }
            if f.report_id == report_id {
                out.push(f);
            }
            i = i + 1;
        }
        proof {
            assert(self.fields@.take(i as int) =~= self.fields@);
        }
        out
    }

    /// True if this report id carries X, Y or a button.
    pub fn is_pointer_report(&self, report_id: u8) -> (r: bool)
        ensures
            r == exists|i: int|
                0 <= i < self.fields@.len() && #[trigger] is_pointer_field(
                    self.fields@[i],
                    report_id,
                ),
    {
        let mut i: usize = 0;
        while i < self.fields.len()
            invariant
                i <= self.fields@.len(),
                forall|j: int| 0 <= j < i ==> !#[trigger] is_pointer_field(self.fields@[j], report_id),
            decreases self.fields@.len() - i,
        {
            let f = self.fields[i];
            if f.report_id == report_id && ((f.usage_page == 0x01 && (f.usage == 0x30
                || f.usage == 0x31)) || f.usage_page == 0x09) {
                assert(is_pointer_field(self.fields@[i as int], report_id));
                return true;
            }
            i = i + 1;
        }
        false
    }
}

/// Field `f` belongs to report `id` and carries X, Y or a button.
pub open spec fn is_pointer_field(f: Field, id: u8) -> bool {
    f.report_id == id && ((f.usage_page == 0x01 && (f.usage == 0x30 || f.usage == 0x31))
        || f.usage_page == 0x09)
}

/// Decodes one report body. `body` must exclude the report-ID byte.
pub fn decode(fields: &[Field], body: &[u8]) -> (d: Decoded)
    requires
        fields@.len() <= u32::MAX,
    ensures
        d == decode_prefix(fields@, body@, fields@.len()),
{
    let mut d = Decoded::default();
    let mut i: usize = 0;
    while i < fields.len()
        invariant
            i <= fields@.len() <= u32::MAX,
            d == decode_prefix(fields@, body@, i as nat),
        decreases fields@.len() - i,
    {
        proof {
            lemma_matched_bound(fields@, body@, i as nat);
        }
        let f = fields[i];
        let v = extract(body, f.bit_offset, f.bit_size, f.signed);
        if f.usage_page == 0x01 && f.usage == 0x30 {
            d.dx = v as i32;
            d.matched_fields = d.matched_fields + 1;
        } else if f.usage_page == 0x01 && f.usage == 0x31 {
            d.dy = v as i32;
            d.matched_fields = d.matched_fields + 1;
        } else if f.usage_page == 0x01 && f.usage == 0x38 {
            d.wheel = v as i32;
            d.matched_fields = d.matched_fields + 1;
        } else if f.usage_page == 0x0C && f.usage == 0x0238 {
            d.hwheel = v as i32;
            d.matched_fields = d.matched_fields + 1;
        } else if f.usage_page == 0x09 && f.usage >= 1 && f.usage <= 32 {
            if v != 0 {
                d.buttons = d.buttons | (1u32 << ((f.usage - 1) as u32));
            }
            d.matched_fields = d.matched_fields + 1;
        }
        i = i + 1;
    }
    d
}

/// No report id has two entries in a layout.
pub open spec fn ids_distinct(bp: Seq<(u8, u32)>) -> bool {
    forall|a: int, b: int| 0 <= a < b < bp.len() ==> bp[a].0 != bp[b].0
}

proof fn lemma_cursor_at(bp: Seq<(u8, u32)>, id: u8, k: int)
    requires
        ids_distinct(bp),
        0 <= k < bp.len(),
        bp[k].0 == id,
    ensures
        has_entry(bp, id),
        first_entry(bp, id, k),
        cursor_of(bp, id) == bp[k].1,
{
    assert(first_entry(bp, id, k));
    let c = choose|c: int| first_entry(bp, id, c);
    assert(c == k) by {
        if c < k {
            assert(bp[c].0 == id);
        } else if c > k {
            assert(bp[k].0 != id);
        }
    }
}

proof fn lemma_advance(bp: Seq<(u8, u32)>, id: u8, bits: u32, other: u8)
    requires
        ids_distinct(bp),
    ensures
        ids_distinct(advance_cursor(bp, id, bits)),
        has_entry(advance_cursor(bp, id, bits), id),
        cursor_of(advance_cursor(bp, id, bits), id) == wrap32(cursor_of(bp, id) + bits),
        other != id ==> has_entry(advance_cursor(bp, id, bits), other) == has_entry(bp, other),
        other != id ==> cursor_of(advance_cursor(bp, id, bits), other) == cursor_of(bp, other),
{
    let bp2 = advance_cursor(bp, id, bits);
    if has_entry(bp, id) {
        let k0 = choose|k: int| 0 <= k < bp.len() && bp[k].0 == id;
        lemma_cursor_at(bp, id, k0);
        let k = choose|k: int| first_entry(bp, id, k);
        assert(k == k0);
        assert(bp2 == bp.update(k, (id, wrap32(bp[k].1 + bits))));
        assert forall|a: int, b: int| 0 <= a < b < bp2.len() implies bp2[a].0 != bp2[b].0 by {
            assert(bp2[a].0 == bp[a].0 && bp2[b].0 == bp[b].0);
        }
        lemma_cursor_at(bp2, id, k);
        if other != id {
            if has_entry(bp, other) {
                let j = choose|j: int| 0 <= j < bp.len() && bp[j].0 == other;
                lemma_cursor_at(bp, other, j);
                assert(bp2[j] == bp[j]);
                lemma_cursor_at(bp2, other, j);
            }
            if has_entry(bp2, other) {
                let j = choose|j: int| 0 <= j < bp2.len() && bp2[j].0 == other;
                assert(bp[j].0 == other);
            }
        }
    } else {
        assert(bp2 == bp.push((id, bits)));
        assert forall|a: int, b: int| 0 <= a < b < bp2.len() implies bp2[a].0 != bp2[b].0 by {
            if b == bp.len() {
                assert(bp[a].0 != id);
            } else {
                assert(bp2[a] == bp[a] && bp2[b] == bp[b]);
            }
        }
        lemma_cursor_at(bp2, id, bp.len() as int);
        assert(wrap32(0 + bits) == bits);
        if other != id {
            if has_entry(bp, other) {
                let j = choose|j: int| 0 <= j < bp.len() && bp[j].0 == other;
                lemma_cursor_at(bp, other, j);
                assert(bp2[j] == bp[j]);
                lemma_cursor_at(bp2, other, j);
            }
            if has_entry(bp2, other) {
                let j = choose|j: int| 0 <= j < bp2.len() && bp2[j].0 == other;
                assert(j < bp.len());
                assert(bp[j].0 == other);
            }
        }
    }
}

/// The layout the parser keeps: one entry per report id; every field lies
/// inside the bits its report has laid out so far; and the fields of one
/// report come in order of their offsets.
pub open spec fn layout_ok(st: ParseState) -> bool {
    &&& ids_distinct(st.bit_pos)
    &&& forall|i: int|
        0 <= i < st.fields.len() ==> has_entry(st.bit_pos, #[trigger] st.fields[i].report_id)
            && st.fields[i].bit_offset + st.fields[i].bit_size <= cursor_of(st.bit_pos, st.fields[i].report_id)
    &&& forall|i: int, j: int|
        0 <= i < j < st.fields.len() && #[trigger] st.fields[i].report_id == #[trigger] st.fields[j].report_id
            ==> st.fields[i].bit_offset <= st.fields[j].bit_offset
}

/// An Input item's bits fit after what its report has laid out so far.
pub open spec fn input_fits(st: ParseState) -> bool {
    cursor_of(st.bit_pos, st.g.report_id) + st.g.report_size * st.g.report_count <= u32::MAX
}

proof fn lemma_mul_le(n: int, m: int, size: int)
    requires
        0 <= n <= m,
        0 <= size,
    ensures
        n * size <= m * size,
{
    assert(n * size <= m * size) by (nonlinear_arith) requires 0 <= n <= m, 0 <= size;
}

proof fn lemma_input_layout(st: ParseState, data: u32)
    requires
        layout_ok(st),
        input_fits(st),
    ensures
        layout_ok(input_step(st, data)),
{
    let id = st.g.report_id;
    let size = st.g.report_size;
    let count = st.g.report_count;
    let bp = st.bit_pos;
    let cursor = cursor_of(bp, id);
    let constant = data & 1 != 0;
    let variable = data & 2 != 0;
    let relative = data & 4 != 0;
    let added = if variable && !constant {
        Seq::new(count as nat, |n: int| field_at(st, cursor, relative, n as u32))
    } else {
        Seq::empty()
    };
    let out = input_step(st, data);
    assert(out.fields == st.fields + added);
    lemma_mul_le(0, count as int, size as int);
    assert(sat_mul32(size, count) == size * count) by {
        assert(size * count == count * size) by (nonlinear_arith);
    }
    assert(count * size == size * count) by (nonlinear_arith);
    let bits = sat_mul32(size, count);
    assert(wrap32(cursor + bits) == cursor + bits);
    assert forall|o: u8| true implies (o != id ==> has_entry(out.bit_pos, o) == has_entry(bp, o)
        && cursor_of(out.bit_pos, o) == cursor_of(bp, o)) by {
        lemma_advance(bp, id, bits, o);
    }
    lemma_advance(bp, id, bits, id);
    let nc = cursor_of(out.bit_pos, id);
    assert(nc == cursor + size * count);
    // Where each new field lies.
    assert forall|n: int| 0 <= n < added.len() implies (#[trigger] added[n]).report_id == id
        && added[n].bit_size == size && added[n].bit_offset == cursor + n * size
        && cursor + n * size + size <= nc by {
        lemma_mul_le(n + 1, count as int, size as int);
        lemma_mul_le(n, count as int, size as int);
        assert((n + 1) * size == n * size + size) by (nonlinear_arith);
        assert(wrap32(cursor + n * size) == cursor + n * size);
    }
    let f = out.fields;
    let old_len = st.fields.len();
    assert forall|i: int| 0 <= i < f.len() implies has_entry(out.bit_pos, #[trigger] f[i].report_id)
        && f[i].bit_offset + f[i].bit_size <= cursor_of(out.bit_pos, f[i].report_id) by {
        if i < old_len {
            assert(f[i] == st.fields[i]);
            if f[i].report_id != id {
                lemma_advance(bp, id, bits, f[i].report_id);
            }
        } else {
            assert(f[i] == added[i - old_len]);
        }
    }
    assert forall|i: int, j: int|
        0 <= i < j < f.len() && #[trigger] f[i].report_id == #[trigger] f[j].report_id
        implies f[i].bit_offset <= f[j].bit_offset by {
        if j < old_len {
            assert(f[i] == st.fields[i] && f[j] == st.fields[j]);
        } else if i < old_len {
            assert(f[i] == st.fields[i]);
            assert(f[j] == added[j - old_len]);
            assert(f[i].bit_offset + f[i].bit_size <= cursor);
            lemma_mul_le(0, j - old_len, size as int);
        } else {
            assert(f[i] == added[i - old_len] && f[j] == added[j - old_len]);
            lemma_mul_le(i - old_len, j - old_len, size as int);
        }
    }
}

/// Every Input item of the walk from `pos` fits its report's bits in 32
/// bits: the descriptor's inputs add up to fewer than 2^32 bits per report.
pub open spec fn walk_fits(d: Seq<u8>, pos: int, st: ParseState) -> bool
    decreases d.len() - pos,
{
    if pos < 0 || pos >= d.len() {
        true
    } else if d[pos] == 0xFE {
        let next = pos + 3 + (d[pos + 1] as int);
        if pos + 2 >= d.len() || next >= d.len() {
            true
        } else {
            walk_fits(d, next, st)
        }
    } else {
        let n = item_data_len(d[pos]);
        if pos + 1 + n > d.len() {
            true
        } else {
            &&& ((d[pos] / 4) % 4 == 0 && d[pos] / 16 == 8 ==> input_fits(st))
            &&& walk_fits(
                d,
                pos + 1 + n,
                item_step(st, d[pos], le_unsigned(d, pos + 1, n), le_signed(d, pos + 1, n)),
            )
        }
    }
}

/// The walk from `pos` reads a whole Report ID item (prefix 0x84 to 0x87).
pub open spec fn reads_report_id(d: Seq<u8>, pos: int) -> bool
    decreases d.len() - pos,
{
    if pos < 0 || pos >= d.len() {
        false
    } else if d[pos] == 0xFE {
        let next = pos + 3 + (d[pos + 1] as int);
        if pos + 2 >= d.len() || next >= d.len() {
            false
        } else {
            reads_report_id(d, next)
        }
    } else {
        let n = item_data_len(d[pos]);
        if pos + 1 + n > d.len() {
            false
        } else {
            (0x84 <= d[pos] <= 0x87) || reads_report_id(d, pos + 1 + n)
        }
    }
}

proof fn lemma_item_layout(st: ParseState, prefix: u8, uval: u32, ival: i64)
    requires
        layout_ok(st),
        (prefix / 4) % 4 == 0 && prefix / 16 == 8 ==> input_fits(st),
    ensures
        layout_ok(item_step(st, prefix, uval, ival)),
        item_step(st, prefix, uval, ival).uses_report_ids == (st.uses_report_ids || (0x84 <= prefix <= 0x87)),
{
    let out = item_step(st, prefix, uval, ival);
    if (prefix / 4) % 4 == 0 && prefix / 16 == 8 {
        lemma_input_layout(st, uval);
        assert(out.fields == input_step(st, uval).fields);
        assert(out.bit_pos == input_step(st, uval).bit_pos);
    } else {
        assert(out.fields == st.fields);
        assert(out.bit_pos == st.bit_pos);
    }
}

proof fn lemma_walk_layout(d: Seq<u8>, pos: int, st: ParseState)
    requires
        layout_ok(st),
        walk_fits(d, pos, st),
    ensures
        layout_ok(parse_from(d, pos, st)),
        parse_from(d, pos, st).uses_report_ids == (st.uses_report_ids || reads_report_id(d, pos)),
    decreases d.len() - pos,
{
    if pos < 0 || pos >= d.len() {
    } else if d[pos] == 0xFE {
        let next = pos + 3 + (d[pos + 1] as int);
        if !(pos + 2 >= d.len() || next >= d.len()) {
            lemma_walk_layout(d, next, st);
        }
    } else {
        let n = item_data_len(d[pos]);
        if pos + 1 + n <= d.len() {
            let u = le_unsigned(d, pos + 1, n);
            let i = le_signed(d, pos + 1, n);
            lemma_item_layout(st, d[pos], u, i);
            lemma_walk_layout(d, pos + 1 + n, item_step(st, d[pos], u, i));
        }
    }
}

/// The layout a descriptor gives, as long as its inputs add up to fewer
/// than 2^32 bits per report: each report id appears once in the report
/// sizes; every field lies inside its report's bits; the fields of one
/// report come in order of their offsets; and report ids are in use exactly
/// when a whole Report ID item was read.
pub proof fn lemma_parse_layout(d: Seq<u8>)
    requires
        walk_fits(d, 0, initial_state()),
    ensures
        layout_ok(spec_parse(d)),
        spec_parse(d).uses_report_ids == reads_report_id(d, 0),
{
    lemma_walk_layout(d, 0, initial_state());
}

proof fn lemma_shift_mask_u8(b: u8)
    by (bit_vector)
    ensures
        (b >> 0u8) & 1u8 == b % 2u8,
        (b >> 1u8) & 1u8 == (b / 2u8) % 2u8,
        (b >> 2u8) & 1u8 == (b / 4u8) % 2u8,
        (b >> 3u8) & 1u8 == (b / 8u8) % 2u8,
        (b >> 4u8) & 1u8 == (b / 16u8) % 2u8,
        (b >> 5u8) & 1u8 == (b / 32u8) % 2u8,
        (b >> 6u8) & 1u8 == (b / 64u8) % 2u8,
        (b >> 7u8) & 1u8 == (b / 128u8) % 2u8,
{
}

/// Bit `pos` as `bit_at` defines it is the byte shifted down and masked:
/// `(data[pos / 8] >> (pos % 8)) & 1`, so `bits_value` is the sum of those
/// bits, each shifted up to its place.
pub proof fn lemma_bit_at_is_shift_and_mask(data: Seq<u8>, pos: int)
    requires
        0 <= pos,
        pos / 8 < data.len(),
    ensures
        bit_at(data, pos) == ((data[pos / 8] >> ((pos % 8) as u8)) & 1u8) as int,
{
    let byte = data[pos / 8];
    let sh = pos % 8;
    lemma2_to64();
    lemma_shift_mask_u8(byte);
    if sh == 0 {
        assert((pos % 8) as u8 == 0u8);
        assert(((byte >> 0u8) & 1u8) == (byte / 1u8) % 2u8);
        assert(pow2(0) == 1);
        assert(bit_at(data, pos) == (byte as int / 1) % 2);
    } else if sh == 1 {
        assert((pos % 8) as u8 == 1u8);
        assert(((byte >> 1u8) & 1u8) == (byte / 2u8) % 2u8);
        assert(pow2(1) == 2);
        assert(bit_at(data, pos) == (byte as int / 2) % 2);
    } else if sh == 2 {
        assert((pos % 8) as u8 == 2u8);
        assert(((byte >> 2u8) & 1u8) == (byte / 4u8) % 2u8);
        assert(pow2(2) == 4);
        assert(bit_at(data, pos) == (byte as int / 4) % 2);
    } else if sh == 3 {
        assert((pos % 8) as u8 == 3u8);
        assert(((byte >> 3u8) & 1u8) == (byte / 8u8) % 2u8);
        assert(pow2(3) == 8);
        assert(bit_at(data, pos) == (byte as int / 8) % 2);
    } else if sh == 4 {
        assert((pos % 8) as u8 == 4u8);
        assert(((byte >> 4u8) & 1u8) == (byte / 16u8) % 2u8);
        assert(pow2(4) == 16);
        assert(bit_at(data, pos) == (byte as int / 16) % 2);
    } else if sh == 5 {
        assert((pos % 8) as u8 == 5u8);
        assert(((byte >> 5u8) & 1u8) == (byte / 32u8) % 2u8);
        assert(pow2(5) == 32);
        assert(bit_at(data, pos) == (byte as int / 32) % 2);
    } else if sh == 6 {
        assert((pos % 8) as u8 == 6u8);
        assert(((byte >> 6u8) & 1u8) == (byte / 64u8) % 2u8);
        assert(pow2(6) == 64);
        assert(bit_at(data, pos) == (byte as int / 64) % 2);
    } else {
        assert((pos % 8) as u8 == 7u8);
        assert(((byte >> 7u8) & 1u8) == (byte / 128u8) % 2u8);
        assert(pow2(7) == 128);
        assert(bit_at(data, pos) == (byte as int / 128) % 2);
    }
}

/// A Push item (tag 0xA) or a Pop item (tag 0xB) among the global items.
pub open spec fn is_stack_item(prefix: u8) -> bool {
    (prefix / 4) % 4 == 1 && (prefix / 16 == 0xA || prefix / 16 == 0xB)
}

/// The parser state after a run of items, each a prefix with its data read
/// unsigned and signed.
pub open spec fn items_step(st: ParseState, items: Seq<(u8, u32, i64)>) -> ParseState
    decreases items.len(),
{
    if items.len() == 0 {
        st
    } else {
        let x = items.last();
        item_step(items_step(st, items.drop_last()), x.0, x.1, x.2)
    }
}

proof fn lemma_items_keep_stack(st: ParseState, items: Seq<(u8, u32, i64)>)
    requires
        forall|k: int| 0 <= k < items.len() ==> !is_stack_item(#[trigger] items[k].0),
    ensures
        items_step(st, items).stack == st.stack,
    decreases items.len(),
{
    if items.len() > 0 {
        lemma_items_keep_stack(st, items.drop_last());
    }
}

/// A Pop with nothing pushed changes nothing.
pub proof fn lemma_pop_on_empty_stack_is_ignored(st: ParseState, pop: u8, qu: u32, qi: i64)
    requires
        (pop / 4) % 4 == 1,
        pop / 16 == 0xB,
        st.stack.len() == 0,
    ensures
        item_step(st, pop, qu, qi) == st,
{
}

/// Pop undoes Push: a Push item, then any items that neither push nor pop
/// (however they change the globals), then a Pop item, leave the global
/// state and the stack exactly as they were before the Push.
pub proof fn lemma_pop_restores_pushed_globals(
    st: ParseState,
    push: u8,
    pu: u32,
    pi: i64,
    items: Seq<(u8, u32, i64)>,
    pop: u8,
    qu: u32,
    qi: i64,
)
    requires
        (push / 4) % 4 == 1,
        push / 16 == 0xA,
        (pop / 4) % 4 == 1,
        pop / 16 == 0xB,
        forall|k: int| 0 <= k < items.len() ==> !is_stack_item(#[trigger] items[k].0),
    ensures
        item_step(items_step(item_step(st, push, pu, pi), items), pop, qu, qi).g == st.g,
        item_step(items_step(item_step(st, push, pu, pi), items), pop, qu, qi).stack == st.stack,
{
    let s1 = item_step(st, push, pu, pi);
    assert(s1.stack == st.stack.push(st.g));
    lemma_items_keep_stack(s1, items);
    let s2 = items_step(s1, items);
    assert(s2.stack.last() == st.g);
    assert(s2.stack.drop_last() =~= st.stack);
}

} // verus!
