//! The session log: every captured event, written so it can be read back.
//!
//! One CSV file, with the metadata carried in `#` comment lines at the top.
//! The raw event list is the large part, and CSV is both compact and the
//! format every spreadsheet already opens; keeping the metadata in the same
//! file means a reload needs exactly one path, and `#` is the comment
//! character common CSV readers understand.
//!
//! Everything needed to run the analysis again is recorded: per-event
//! timestamps in nanoseconds, per-axis motion, both wheels and button
//! transitions, each tagged with the level it came from, plus the device
//! identity, the host and the clock's own resolution and read cost. Nothing is
//! written that was not captured from the mouse under test.
use vstd::prelude::*;
use crate::battery::{
    Record, spec_encode, spec_decode, is_clean_field, lemma_encode_decode_round_trip,
    lemma_encode_is_one_line,
};
use crate::capture::{motion_counts, motion_counts_of};
use crate::debounce::ButtonEvent;
use crate::polling::{self, Verdict};
use crate::sensor::types::Report;
use crate::text::{
    chars_of, chars_eq, string_of, str_eq, decimal, signed_decimal, parse_unsigned, parse_signed,
    parse_unsigned_at, parse_signed_at, push_decimal, push_signed, push_all, push_str_chars,
    split_on, split_chars, join_with, free_of, lemma_split_join, lemma_decimal_digits,
    lemma_parse_unsigned_decimal, lemma_parse_signed_decimal, all_digits, is_digit,
};

verus! {

broadcast use vstd::string::group_string_axioms;

/// Which level of the input stack an event was captured at.
#[derive(Clone, Copy, Debug, PartialEq, Eq, Structural)]
pub enum Level {
    Device,
    System,
    App,
}

impl Default for Level {
    fn default() -> (l: Self)
        ensures
            l == Level::Device,
    {
        Level::Device
    }
}

/// The word a level is written as.
pub open spec fn level_name(l: Level) -> Seq<char> {
    match l {
        Level::Device => "device"@,
        Level::System => "system"@,
        Level::App => "app"@,
    }
}

/// The level a word names, if any.
pub open spec fn level_named(s: Seq<char>) -> Option<Level> {
    if s == "device"@ {
        Some(Level::Device)
    } else if s == "system"@ {
        Some(Level::System)
    } else if s == "app"@ {
        Some(Level::App)
    } else {
        None
    }
}

/// Every level reads back from its own name.
pub proof fn lemma_level_names()
    ensures
        forall|l: Level| #[trigger] level_named(level_name(l)) == Some(l),
        forall|l: Level| free_of(#[trigger] level_name(l), ',') && level_name(l).len() > 0,
{
    reveal_strlit("device");
    reveal_strlit("system");
    reveal_strlit("app");
    assert("system"@[0] != "device"@[0]);
    assert("app"@.len() != "device"@.len() && "app"@.len() != "system"@.len());
}

impl Level {
    pub fn as_str(self) -> (s: &'static str)
        ensures
            s@ == level_name(self),
    {
        match self {
            Level::Device => "device",
            Level::System => "system",
            Level::App => "app",
        }
    }

    /// All levels, device first.
    pub fn all() -> (r: [Level; 3])
        ensures
            r@ == seq![Level::Device, Level::System, Level::App],
    {
        [Level::Device, Level::System, Level::App]
    }

    pub fn parse(s: &str) -> (r: Option<Level>)
        ensures
            r == level_named(s@),
    {
        if str_eq(s, "device") {
            Some(Level::Device)
        } else if str_eq(s, "system") {
            Some(Level::System)
        } else if str_eq(s, "app") {
            Some(Level::App)
        } else {
            None
        }
    }
}

/// One event as stored. Flat on purpose: this is the file format, and it
/// should be readable without this program.
#[derive(Clone, Copy, Debug, PartialEq, Eq, Structural)]
pub struct Event {
    pub t_ns: u64,
    pub level: Level,
    pub dx: i32,
    pub dy: i32,
    pub wheel: i32,
    pub hwheel: i32,
    /// 0 when this row is motion rather than a button transition.
    pub button: u8,
    /// Only meaningful when `is_button` is set.
    pub down: bool,
    pub is_button: bool,
}

/// The last column: `1` for a press, `0` for a release, empty for motion.
pub open spec fn edge_text(e: Event) -> Seq<char> {
    if e.is_button {
        if e.down {
            seq!['1']
        } else {
            seq!['0']
        }
    } else {
        Seq::empty()
    }
}

/// The columns of an event's row, in header order.
pub open spec fn row_fields(e: Event) -> Seq<Seq<char>> {
    seq![
        decimal(e.t_ns as nat),
        level_name(e.level),
        signed_decimal(e.dx as int),
        signed_decimal(e.dy as int),
        signed_decimal(e.wheel as int),
        signed_decimal(e.hwheel as int),
        decimal(e.button as nat),
        edge_text(e),
    ]
}

/// An event's row in the file.
pub open spec fn row_text(e: Event) -> Seq<char> {
    join_with(row_fields(e), ',')
}

/// What the edge column reads back as: `(is_button, down)`.
pub open spec fn edge_of(s: Seq<char>) -> Option<(bool, bool)> {
    if s.len() == 0 {
        Some((false, false))
    } else if s == seq!['1'] {
        Some((true, true))
    } else if s == seq!['0'] {
        Some((true, false))
    } else {
        None
    }
}

/// An event row read back: the first eight comma-separated fields parsed as
/// the columns, any further fields ignored, and nothing when a field is
/// missing or does not parse.
pub open spec fn spec_parse_row(line: Seq<char>) -> Option<Event> {
    let f = split_on(line, ',');
    if f.len() < 8 {
        None
    } else {
        let t = parse_unsigned(f[0], u64::MAX as nat);
        let lv = level_named(f[1]);
        let dx = parse_signed(f[2], 0x8000_0000, 0x7fff_ffff);
        let dy = parse_signed(f[3], 0x8000_0000, 0x7fff_ffff);
        let wh = parse_signed(f[4], 0x8000_0000, 0x7fff_ffff);
        let hw = parse_signed(f[5], 0x8000_0000, 0x7fff_ffff);
        let b = parse_unsigned(f[6], 255);
        let edge = edge_of(f[7]);
        if t is Some && lv is Some && dx is Some && dy is Some && wh is Some && hw is Some
            && b is Some && edge is Some {
            Some(
                Event {
                    t_ns: t->0 as u64,
                    level: lv->0,
                    dx: dx->0 as i32,
                    dy: dy->0 as i32,
                    wheel: wh->0 as i32,
                    hwheel: hw->0 as i32,
                    button: b->0 as u8,
                    down: (edge->0).1,
                    is_button: (edge->0).0,
                },
            )
        } else {
            None
        }
    }
}

/// A row keeps `down` only for a button transition; a motion row with `down`
/// set cannot be told apart from one without.
pub open spec fn is_canonical(e: Event) -> bool {
    e.is_button || !e.down
}

proof fn lemma_decimal_free(n: nat, c: char)
    requires
        !is_digit(c),
    ensures
        free_of(decimal(n), c),
        decimal(n).len() > 0,
{
    lemma_decimal_digits(n);
}

proof fn lemma_signed_free(v: int, c: char)
    requires
        !is_digit(c),
        c != '-',
    ensures
        free_of(signed_decimal(v), c),
        signed_decimal(v).len() > 0,
{
    if v < 0 {
        lemma_decimal_free((-v) as nat, c);
        let s = signed_decimal(v);
        assert forall|i: int| 0 <= i < s.len() implies #[trigger] s[i] != c by {
            if i > 0 {
                assert(s[i] == decimal((-v) as nat)[i - 1]);
            }
        }
    } else {
        lemma_decimal_free(v as nat, c);
    }
}

/// Every event reads back from its own row, as long as it does not carry a
/// `down` flag on a motion row.
pub proof fn lemma_row_round_trip(e: Event)
    requires
        is_canonical(e),
    ensures
        spec_parse_row(row_text(e)) == Some(e),
{
    let fs = row_fields(e);
    lemma_level_names();
    lemma_decimal_free(e.t_ns as nat, ',');
    lemma_decimal_free(e.button as nat, ',');
    lemma_signed_free(e.dx as int, ',');
    lemma_signed_free(e.dy as int, ',');
    lemma_signed_free(e.wheel as int, ',');
    lemma_signed_free(e.hwheel as int, ',');
    assert(free_of(edge_text(e), ','));
    assert forall|k: int| 0 <= k < fs.len() implies free_of(#[trigger] fs[k], ',') by {
        if k == 1 {
            assert(free_of(level_name(e.level), ','));
        }
    }
    lemma_split_join(fs, ',');
    let f = split_on(row_text(e), ',');
    assert(f == fs);
    lemma_parse_unsigned_decimal(e.t_ns as nat, u64::MAX as nat);
    lemma_parse_unsigned_decimal(e.button as nat, 255);
    lemma_parse_signed_decimal(e.dx as int, 0x8000_0000, 0x7fff_ffff);
    lemma_parse_signed_decimal(e.dy as int, 0x8000_0000, 0x7fff_ffff);
    lemma_parse_signed_decimal(e.wheel as int, 0x8000_0000, 0x7fff_ffff);
    lemma_parse_signed_decimal(e.hwheel as int, 0x8000_0000, 0x7fff_ffff);
    if e.is_button && !e.down {
        assert(seq!['0'][0] != seq!['1'][0]);
        assert(seq!['0'] != seq!['1']);
    }
    assert(edge_of(edge_text(e)) == Some((e.is_button, e.down)));
}

/// Appends an event's row.
fn push_row(out: &mut Vec<char>, e: &Event)
    ensures
        final(out)@ == old(out)@ + row_text(*e),
{
    let mut fields: Vec<Vec<char>> = Vec::new();
    let mut f0: Vec<char> = Vec::new();
    push_decimal(&mut f0, e.t_ns);
    fields.push(f0);
    let mut f1: Vec<char> = Vec::new();
    push_str_chars(&mut f1, e.level.as_str());
    fields.push(f1);
    let mut f2: Vec<char> = Vec::new();
    push_signed(&mut f2, e.dx);
    fields.push(f2);
    let mut f3: Vec<char> = Vec::new();
    push_signed(&mut f3, e.dy);
    fields.push(f3);
    let mut f4: Vec<char> = Vec::new();
    push_signed(&mut f4, e.wheel);
    fields.push(f4);
    let mut f5: Vec<char> = Vec::new();
    push_signed(&mut f5, e.hwheel);
    fields.push(f5);
    let mut f6: Vec<char> = Vec::new();
    push_decimal(&mut f6, e.button as u64);
    fields.push(f6);
    let mut f7: Vec<char> = Vec::new();
    if e.is_button {
        if e.down {
            f7.push('1');
        } else {
            f7.push('0');
        }
    }
    proof {
        assert(f7@ == edge_text(*e));
    }
    fields.push(f7);
    proof {
        assert(fields@.map_values(|v: Vec<char>| v@) =~= row_fields(*e));
    }
    push_joined(out, &fields, ',');
}

/// Appends the pieces with `c` between them.
fn push_joined(out: &mut Vec<char>, fields: &Vec<Vec<char>>, c: char)
    ensures
        final(out)@ == old(out)@ + join_with(fields@.map_values(|v: Vec<char>| v@), c),
{
    let ghost fs = fields@.map_values(|v: Vec<char>| v@);
    let ghost base = old(out)@;
    if fields.len() == 0 {
        proof {
            assert(out@ =~= base + join_with(fs, c));
        }
        return;
    }
    push_all(out, fields[0].as_slice());
    proof {
        assert(fs.take(1).len() == 1);
        assert(fs.take(1)[0] == fields@[0]@);
        assert(out@ == base + join_with(fs.take(1), c));
    }
    let mut i: usize = 1;
    while i < fields.len()
        invariant
            1 <= i <= fields@.len(),
            fs == fields@.map_values(|v: Vec<char>| v@),
            out@ == base + join_with(fs.take(i as int), c),
        decreases fields@.len() - i,
    {
        out.push(c);
        push_all(out, fields[i].as_slice());
        proof {
            crate::text::lemma_join_push(fs.take(i as int), fs[i as int], c);
            assert(fs.take(i + 1) =~= fs.take(i as int).push(fs[i as int]));
            assert(out@ =~= base + (join_with(fs.take(i as int), c) + seq![c] + fs[i as int]));
        }
        i = i + 1;
    }
    proof {
        assert(fs.take(i as int) =~= fs);
    }
}

/// Reads an event row, as [`spec_parse_row`] describes.
fn parse_row(line: &[char]) -> (r: Option<Event>)
    ensures
        r == spec_parse_row(line@),
{
    let f = split_chars(line, ',');
    let ghost fs = f@.map_values(|v: Vec<char>| v@);
    if f.len() < 8 {
        return None;
    }
    proof {
        assert forall|k: int| 0 <= k < 8 implies fs[k] == f@[k]@ by {}
    }
    let t = parse_unsigned_at(f[0].as_slice(), 0, f[0].len(), u64::MAX);
    let lv = level_from(f[1].as_slice());
    let dx = signed_i32(f[2].as_slice());
    let dy = signed_i32(f[3].as_slice());
    let wh = signed_i32(f[4].as_slice());
    let hw = signed_i32(f[5].as_slice());
    let b = parse_unsigned_at(f[6].as_slice(), 0, f[6].len(), 255);
    let edge = edge_from(f[7].as_slice());
    proof {
        assert forall|k: int| 0 <= k < 8 implies f@[k]@.subrange(0, f@[k]@.len() as int) == fs[k] by {
            assert(f@[k]@.subrange(0, f@[k]@.len() as int) =~= f@[k]@);
        }
    }
    match (t, lv, dx, dy, wh, hw, b, edge) {
        (Some(t), Some(lv), Some(dx), Some(dy), Some(wh), Some(hw), Some(b), Some(edge)) => {
            Some(
                Event {
                    t_ns: t,
                    level: lv,
                    dx,
                    dy,
                    wheel: wh,
                    hwheel: hw,
                    button: b as u8,
                    down: edge.1,
                    is_button: edge.0,
                },
            )
        },
        _ => None,
    }
}

fn level_from(cs: &[char]) -> (r: Option<Level>)
    ensures
        r == level_named(cs@),
{
    let s = string_of(cs);
    Level::parse(s.as_str())
}

/// `cs` parsed as an `i32`, the way `str::parse` reads one.
fn signed_i32(cs: &[char]) -> (r: Option<i32>)
    ensures
        r == (match parse_signed(cs@, 0x8000_0000, 0x7fff_ffff) {
            Some(v) => Some(v as i32),
            None => None,
        }),
{
    proof {
        assert(cs@.subrange(0, cs@.len() as int) =~= cs@);
    }
    match parse_signed_at(cs, 0, cs.len(), 0x8000_0000, 0x7fff_ffff) {
        Some((neg, m)) => {
            if neg {
                Some((0i64 - (m as i64)) as i32)
            } else {
                Some(m as i32)
            }
        },
        None => None,
    }
}

fn edge_from(cs: &[char]) -> (r: Option<(bool, bool)>)
    ensures
        r == edge_of(cs@),
{
    if cs.len() == 0 {
        Some((false, false))
    } else if cs.len() == 1 && cs[0] == '1' {
        proof {
            assert(cs@ =~= seq!['1']);
        }
        Some((true, true))
    } else if cs.len() == 1 && cs[0] == '0' {
        proof {
            assert(cs@ =~= seq!['0']);
        }
        Some((true, false))
    } else {
        proof {
            if cs@ == seq!['1'] || cs@ == seq!['0'] {
                assert(cs@.len() == 1);
            }
        }
        None
    }
}

/// Everything about the run that is not an event. The clock figures and the
/// duration are held as the text the file carries for them, so they come
/// back exactly as they were written.
#[derive(Clone, Debug, PartialEq)]
pub struct Meta {
    pub device_name: String,
    pub device_ids: String,
    pub transport: String,
    pub os: String,
    pub arch: String,
    pub cpu: String,
    pub clock: String,
    pub clock_resolution_ns: String,
    pub clock_cost_ns: String,
    pub claimed_hz: String,
    pub claimed_cpi: String,
    /// Warnings the environment raised at capture time, kept because a reload
    /// elsewhere must not lose the reason the numbers were untrustworthy.
    pub warnings: Vec<String>,
    pub duration_s: String,
    /// What each measurement in the battery concluded.
    pub results: Vec<Record>,
    /// Measurements deliberately left out of the battery, by key.
    pub excluded: Vec<String>,
}

/// A battery record as its key, verdict and headline.
pub open spec fn record_model(r: Record) -> (Seq<char>, Option<Verdict>, Seq<char>) {
    (r.key@, r.verdict, r.headline@)
}

/// The metadata as plain text and records.
#[verifier::ext_equal]
pub struct MetaModel {
    pub device_name: Seq<char>,
    pub device_ids: Seq<char>,
    pub transport: Seq<char>,
    pub os: Seq<char>,
    pub arch: Seq<char>,
    pub cpu: Seq<char>,
    pub clock: Seq<char>,
    pub clock_resolution_ns: Seq<char>,
    pub clock_cost_ns: Seq<char>,
    pub claimed_hz: Seq<char>,
    pub claimed_cpi: Seq<char>,
    pub warnings: Seq<Seq<char>>,
    pub duration_s: Seq<char>,
    pub results: Seq<(Seq<char>, Option<Verdict>, Seq<char>)>,
    pub excluded: Seq<Seq<char>>,
}

pub open spec fn texts(v: Seq<String>) -> Seq<Seq<char>> {
    v.map_values(|s: String| s@)
}

impl Meta {
    pub open spec fn model(&self) -> MetaModel {
        MetaModel {
            device_name: self.device_name@,
            device_ids: self.device_ids@,
            transport: self.transport@,
            os: self.os@,
            arch: self.arch@,
            cpu: self.cpu@,
            clock: self.clock@,
            clock_resolution_ns: self.clock_resolution_ns@,
            clock_cost_ns: self.clock_cost_ns@,
            claimed_hz: self.claimed_hz@,
            claimed_cpi: self.claimed_cpi@,
            warnings: texts(self.warnings@),
            duration_s: self.duration_s@,
            results: self.results@.map_values(|r: Record| record_model(r)),
            excluded: texts(self.excluded@),
        }
    }
}

/// Metadata with nothing in it.
pub open spec fn empty_meta() -> MetaModel {
    MetaModel {
        device_name: Seq::empty(),
        device_ids: Seq::empty(),
        transport: Seq::empty(),
        os: Seq::empty(),
        arch: Seq::empty(),
        cpu: Seq::empty(),
        clock: Seq::empty(),
        clock_resolution_ns: Seq::empty(),
        clock_cost_ns: Seq::empty(),
        claimed_hz: Seq::empty(),
        claimed_cpi: Seq::empty(),
        warnings: Seq::empty(),
        duration_s: Seq::empty(),
        results: Seq::empty(),
        excluded: Seq::empty(),
    }
}

impl Default for Meta {
    fn default() -> (m: Self)
        ensures
            m.model() == empty_meta(),
    {
        let m = Meta {
            device_name: String::new(),
            device_ids: String::new(),
            transport: String::new(),
            os: String::new(),
            arch: String::new(),
            cpu: String::new(),
            clock: String::new(),
            clock_resolution_ns: String::new(),
            clock_cost_ns: String::new(),
            claimed_hz: String::new(),
            claimed_cpi: String::new(),
            warnings: Vec::new(),
            duration_s: String::new(),
            results: Vec::new(),
            excluded: Vec::new(),
        };
        proof {
            assert(m.model() =~= empty_meta());
        }
        m
    }
}

/// A whole log: the metadata and every event in capture order.
#[derive(Clone, Debug)]
pub struct SessionLog {
    pub meta: Meta,
    pub events: Vec<Event>,
}

impl Default for SessionLog {
    fn default() -> (l: Self)
        ensures
            l.meta.model() == empty_meta(),
            l.events@.len() == 0,
    {
        SessionLog { meta: Meta::default(), events: Vec::new() }
    }
}

/// The first line of every log.
pub open spec fn magic_line() -> Seq<char> {
    "# mouse-testing session log v1"@
}

/// What a first line has to start with to be read as a log.
pub open spec fn magic_prefix() -> Seq<char> {
    "# mouse-testing session log"@
}

/// The column header line.
pub open spec fn header_line() -> Seq<char> {
    "t_ns,level,dx,dy,wheel,hwheel,button,edge"@
}

/// The note above the header that explains the edge column.
pub open spec fn edge_note() -> Seq<char> {
    "# edge is 1 for press, 0 for release, and empty for motion rows"@
}

/// A value with its line breaks turned into spaces, so it stays on its line.
pub open spec fn escape(s: Seq<char>) -> Seq<char> {
    s.map_values(|c: char| if c == '\n' || c == '\r' { ' ' } else { c })
}

/// A metadata comment line: `# key: value`.
pub open spec fn kv_line(k: Seq<char>, v: Seq<char>) -> Seq<char> {
    "# "@ + k + ": "@ + escape(v)
}

/// The first lines of the file: the identifying line and one line for each
/// single-valued metadata field.
pub open spec fn fixed_lines(m: MetaModel) -> Seq<Seq<char>> {
    seq![
        magic_line(),
        kv_line("device"@, m.device_name),
        kv_line("device_ids"@, m.device_ids),
        kv_line("transport"@, m.transport),
        kv_line("os"@, m.os),
        kv_line("arch"@, m.arch),
        kv_line("cpu"@, m.cpu),
        kv_line("clock"@, m.clock),
        kv_line("claimed_hz"@, m.claimed_hz),
        kv_line("claimed_cpi"@, m.claimed_cpi),
        kv_line("clock_resolution_ns"@, m.clock_resolution_ns),
        kv_line("clock_cost_ns"@, m.clock_cost_ns),
        kv_line("duration_s"@, m.duration_s),
    ]
}

/// The comment block at the top of the file, ending with the header.
pub open spec fn meta_lines(m: MetaModel) -> Seq<Seq<char>> {
    fixed_lines(m) + m.warnings.map_values(|w: Seq<char>| kv_line("warning"@, w)) + m.results.map_values(
        |r: (Seq<char>, Option<Verdict>, Seq<char>)| kv_line("result"@, spec_encode(r.0, r.1, r.2)),
    ) + m.excluded.map_values(|k: Seq<char>| kv_line("excluded"@, k)) + seq![
        edge_note(),
        header_line(),
    ]
}

/// Every line of the file, in order.
pub open spec fn log_lines(m: MetaModel, events: Seq<Event>) -> Seq<Seq<char>> {
    meta_lines(m) + events.map_values(|e: Event| row_text(e))
}

/// Appends `# key: value` and a line feed.
fn push_kv(out: &mut Vec<char>, key: &str, value: &str)
    ensures
        final(out)@ == old(out)@ + kv_line(key@, value@) + seq!['\n'],
{
    let ghost base = old(out)@;
    out.push('#');
    out.push(' ');
    push_str_chars(out, key);
    out.push(':');
    out.push(' ');
    let cs = chars_of(value);
    let mut i: usize = 0;
    let ghost mid = out@;
    while i < cs.len()
        invariant
            i <= cs@.len(),
            cs@ == value@,
            out@ == mid + escape(cs@.take(i as int)),
        decreases cs@.len() - i,
    {
        let c = cs[i];
        out.push(if c == '\n' || c == '\r' { ' ' } else { c });
        proof {
            assert(escape(cs@.take(i + 1)) =~= escape(cs@.take(i as int)).push(
                if c == '\n' || c == '\r' { ' ' } else { c },
            ));
        }
        i = i + 1;
    }
    out.push('\n');
    proof {
        reveal_strlit("# ");
        reveal_strlit(": ");
        assert(cs@.take(i as int) =~= cs@);
        assert(mid =~= base + "# "@ + key@ + ": "@);
        assert(out@ =~= base + kv_line(key@, value@) + seq!['\n']);
    }
}

/// Appends a line and its line feed.
fn push_line(out: &mut Vec<char>, line: &str)
    ensures
        final(out)@ == old(out)@ + line@ + seq!['\n'],
{
    push_str_chars(out, line);
    out.push('\n');
}

impl SessionLog {
    /// The complete file: metadata comments, then the header, then one row
    /// per event.
    pub fn to_csv(&self) -> (s: String)
        ensures
            s@ == crate::text::joined_lines(log_lines(self.meta.model(), self.events@)),
    {
        let m = &self.meta;
        let ghost mm = m.model();
        let mut out: Vec<char> = Vec::new();
        let ghost mut ls: Seq<Seq<char>> = Seq::empty();
        proof {
            assert(out@ =~= crate::text::joined_lines(ls));
        }
        push_line(&mut out, "# mouse-testing session log v1");
        proof {
            crate::text::lemma_joined_push(ls, magic_line());
            ls = ls.push(magic_line());
        }
        push_kv(&mut out, "device", m.device_name.as_str());
        proof {
            crate::text::lemma_joined_push(ls, kv_line("device"@, mm.device_name));
            ls = ls.push(kv_line("device"@, mm.device_name));
        }
        push_kv(&mut out, "device_ids", m.device_ids.as_str());
        proof {
            crate::text::lemma_joined_push(ls, kv_line("device_ids"@, mm.device_ids));
            ls = ls.push(kv_line("device_ids"@, mm.device_ids));
        }
        push_kv(&mut out, "transport", m.transport.as_str());
        proof {
            crate::text::lemma_joined_push(ls, kv_line("transport"@, mm.transport));
            ls = ls.push(kv_line("transport"@, mm.transport));
        }
        push_kv(&mut out, "os", m.os.as_str());
        proof {
            crate::text::lemma_joined_push(ls, kv_line("os"@, mm.os));
            ls = ls.push(kv_line("os"@, mm.os));
        }
        push_kv(&mut out, "arch", m.arch.as_str());
        proof {
            crate::text::lemma_joined_push(ls, kv_line("arch"@, mm.arch));
            ls = ls.push(kv_line("arch"@, mm.arch));
        }
        push_kv(&mut out, "cpu", m.cpu.as_str());
        proof {
            crate::text::lemma_joined_push(ls, kv_line("cpu"@, mm.cpu));
            ls = ls.push(kv_line("cpu"@, mm.cpu));
        }
        push_kv(&mut out, "clock", m.clock.as_str());
        proof {
            crate::text::lemma_joined_push(ls, kv_line("clock"@, mm.clock));
            ls = ls.push(kv_line("clock"@, mm.clock));
        }
        push_kv(&mut out, "claimed_hz", m.claimed_hz.as_str());
        proof {
            crate::text::lemma_joined_push(ls, kv_line("claimed_hz"@, mm.claimed_hz));
            ls = ls.push(kv_line("claimed_hz"@, mm.claimed_hz));
        }
        push_kv(&mut out, "claimed_cpi", m.claimed_cpi.as_str());
        proof {
            crate::text::lemma_joined_push(ls, kv_line("claimed_cpi"@, mm.claimed_cpi));
            ls = ls.push(kv_line("claimed_cpi"@, mm.claimed_cpi));
        }
        push_kv(&mut out, "clock_resolution_ns", m.clock_resolution_ns.as_str());
        proof {
            crate::text::lemma_joined_push(ls, kv_line("clock_resolution_ns"@, mm.clock_resolution_ns));
            ls = ls.push(kv_line("clock_resolution_ns"@, mm.clock_resolution_ns));
        }
        push_kv(&mut out, "clock_cost_ns", m.clock_cost_ns.as_str());
        proof {
            crate::text::lemma_joined_push(ls, kv_line("clock_cost_ns"@, mm.clock_cost_ns));
            ls = ls.push(kv_line("clock_cost_ns"@, mm.clock_cost_ns));
        }
        push_kv(&mut out, "duration_s", m.duration_s.as_str());
        proof {
            crate::text::lemma_joined_push(ls, kv_line("duration_s"@, mm.duration_s));
            ls = ls.push(kv_line("duration_s"@, mm.duration_s));
        }
        let ghost head = ls;
        let mut i: usize = 0;
        while i < m.warnings.len()
            invariant
                mm == m.model(),
                i <= m.warnings@.len(),
                ls == head + mm.warnings.take(i as int).map_values(|w: Seq<char>| kv_line("warning"@, w)),
                out@ == crate::text::joined_lines(ls),
            decreases m.warnings@.len() - i,
        {
            push_kv(&mut out, "warning", m.warnings[i].as_str());
            proof {
                let l = kv_line("warning"@, mm.warnings[i as int]);
                crate::text::lemma_joined_push(ls, l);
                assert(mm.warnings.take(i + 1).map_values(|w: Seq<char>| kv_line("warning"@, w))
                    =~= mm.warnings.take(i as int).map_values(|w: Seq<char>| kv_line("warning"@, w)).push(l));
                ls = ls.push(l);
            }
            i = i + 1;
        }
        proof {
            assert(mm.warnings.take(i as int) =~= mm.warnings);
        }
        let ghost head = ls;
        let mut i: usize = 0;
        while i < m.results.len()
            invariant
                mm == m.model(),
                i <= m.results@.len(),
                ls == head + mm.results.take(i as int).map_values(
                    |r: (Seq<char>, Option<Verdict>, Seq<char>)| kv_line("result"@, spec_encode(r.0, r.1, r.2)),
                ),
                out@ == crate::text::joined_lines(ls),
            decreases m.results@.len() - i,
        {
            let enc = m.results[i].encode();
            push_kv(&mut out, "result", enc.as_str());
            proof {
                let r = mm.results[i as int];
                let l = kv_line("result"@, spec_encode(r.0, r.1, r.2));
                crate::text::lemma_joined_push(ls, l);
                assert(mm.results.take(i + 1).map_values(
                    |r: (Seq<char>, Option<Verdict>, Seq<char>)| kv_line("result"@, spec_encode(r.0, r.1, r.2)),
                ) =~= mm.results.take(i as int).map_values(
                    |r: (Seq<char>, Option<Verdict>, Seq<char>)| kv_line("result"@, spec_encode(r.0, r.1, r.2)),
                ).push(l));
                ls = ls.push(l);
            }
            i = i + 1;
        }
        proof {
            assert(mm.results.take(i as int) =~= mm.results);
        }
        let ghost head = ls;
        let mut i: usize = 0;
        while i < m.excluded.len()
            invariant
                mm == m.model(),
                i <= m.excluded@.len(),
                ls == head + mm.excluded.take(i as int).map_values(|k: Seq<char>| kv_line("excluded"@, k)),
                out@ == crate::text::joined_lines(ls),
            decreases m.excluded@.len() - i,
        {
            push_kv(&mut out, "excluded", m.excluded[i].as_str());
            proof {
                let l = kv_line("excluded"@, mm.excluded[i as int]);
                crate::text::lemma_joined_push(ls, l);
                assert(mm.excluded.take(i + 1).map_values(|k: Seq<char>| kv_line("excluded"@, k))
                    =~= mm.excluded.take(i as int).map_values(|k: Seq<char>| kv_line("excluded"@, k)).push(l));
                ls = ls.push(l);
            }
            i = i + 1;
        }
        proof {
            assert(mm.excluded.take(i as int) =~= mm.excluded);
        }
        push_line(&mut out, "# edge is 1 for press, 0 for release, and empty for motion rows");
        proof {
            crate::text::lemma_joined_push(ls, edge_note());
            ls = ls.push(edge_note());
        }
        push_line(&mut out, "t_ns,level,dx,dy,wheel,hwheel,button,edge");
        proof {
            crate::text::lemma_joined_push(ls, header_line());
            ls = ls.push(header_line());
            assert(ls =~= meta_lines(mm));
        }
        let ghost head = ls;
        let mut i: usize = 0;
        while i < self.events.len()
            invariant
                i <= self.events@.len(),
                ls == head + self.events@.take(i as int).map_values(|e: Event| row_text(e)),
                out@ == crate::text::joined_lines(ls),
            decreases self.events@.len() - i,
        {
            let ghost before = out@;
            push_row(&mut out, &self.events[i]);
            out.push('\n');
            proof {
                let l = row_text(self.events@[i as int]);
                crate::text::lemma_joined_push(ls, l);
                assert(self.events@.take(i + 1).map_values(|e: Event| row_text(e))
                    =~= self.events@.take(i as int).map_values(|e: Event| row_text(e)).push(l));
                ls = ls.push(l);
            }
            i = i + 1;
        }
        proof {
            assert(self.events@.take(i as int) =~= self.events@);
            assert(ls =~= log_lines(mm, self.events@));
        }
        string_of(out.as_slice())
    }
}

#[verifier::ext_equal]
/// Where a reader stands after some lines: what it has read, how many event
/// rows it skipped, whether it has passed the header, and whether it is still
/// waiting for the first line.
pub struct ReadModel {
    pub meta: MetaModel,
    pub events: Seq<Event>,
    pub skipped: nat,
    pub saw_header: bool,
    pub first: bool,
}

/// Why a file was refused.
pub enum ReadError {
    /// The first line does not identify a session log.
    NotALog,
    /// The first line that is neither a comment nor empty is not the header.
    ColumnLayout(Seq<char>),
    /// The file ends before any header.
    NoEventRows,
}

pub open spec fn initial_read() -> ReadModel {
    ReadModel { meta: empty_meta(), events: Seq::empty(), skipped: 0, saw_header: false, first: true }
}

/// First index at or after `i` where `: ` begins, or the length when it
/// does not occur.
pub open spec fn find_sep(s: Seq<char>, i: int) -> int
    decreases s.len() - i,
{
    if i < 0 || i + 1 >= s.len() {
        s.len() as int
    } else if s[i] == ':' && s[i + 1] == ' ' {
        i
    } else {
        find_sep(s, i + 1)
    }
}

/// The metadata after a `# key: value` line. Keys this build does not know
/// change nothing, and a result line it cannot decode is left out.
pub open spec fn apply_meta(m: MetaModel, k: Seq<char>, v: Seq<char>) -> MetaModel {
    if k == "device"@ {
        MetaModel { device_name: v, ..m }
    } else if k == "device_ids"@ {
        MetaModel { device_ids: v, ..m }
    } else if k == "transport"@ {
        MetaModel { transport: v, ..m }
    } else if k == "os"@ {
        MetaModel { os: v, ..m }
    } else if k == "arch"@ {
        MetaModel { arch: v, ..m }
    } else if k == "cpu"@ {
        MetaModel { cpu: v, ..m }
    } else if k == "clock"@ {
        MetaModel { clock: v, ..m }
    } else if k == "claimed_hz"@ {
        MetaModel { claimed_hz: v, ..m }
    } else if k == "claimed_cpi"@ {
        MetaModel { claimed_cpi: v, ..m }
    } else if k == "clock_resolution_ns"@ {
        MetaModel { clock_resolution_ns: v, ..m }
    } else if k == "clock_cost_ns"@ {
        MetaModel { clock_cost_ns: v, ..m }
    } else if k == "duration_s"@ {
        MetaModel { duration_s: v, ..m }
    } else if k == "warning"@ {
        MetaModel { warnings: m.warnings.push(v), ..m }
    } else if k == "excluded"@ {
        MetaModel { excluded: m.excluded.push(v), ..m }
    } else if k == "result"@ {
        match spec_decode(v) {
            Some(r) => MetaModel { results: m.results.push(r), ..m },
            None => m,
        }
    } else {
        m
    }
}

/// One line read: the first line must identify the file; a `# key: value`
/// comment sets metadata; other comments and empty lines are passed over;
/// the first remaining line must be the header; every later line is an event
/// row, and a row that does not parse is counted rather than failing the load.
pub open spec fn read_step(st: ReadModel, line: Seq<char>) -> Result<ReadModel, ReadError> {
    if st.first {
        if crate::text::starts_with(line, magic_prefix()) {
            Ok(ReadModel { first: false, ..st })
        } else {
            Err(ReadError::NotALog)
        }
    } else if crate::text::starts_with(line, "# "@) {
        let rest = line.skip(2);
        let p = find_sep(rest, 0);
        if p >= rest.len() {
            Ok(st)
        } else {
            Ok(ReadModel { meta: apply_meta(st.meta, rest.take(p), rest.skip(p + 2)), ..st })
        }
    } else if line.len() == 0 || line[0] == '#' {
        Ok(st)
    } else if !st.saw_header {
        if line == header_line() {
            Ok(ReadModel { saw_header: true, ..st })
        } else {
            Err(ReadError::ColumnLayout(line))
        }
    } else {
        match spec_parse_row(line) {
            Some(e) => Ok(ReadModel { events: st.events.push(e), ..st }),
            None => Ok(ReadModel { skipped: st.skipped + 1, ..st }),
        }
    }
}

/// The lines read one after another from `st`, stopping at the first refusal.
pub open spec fn read_from(st: ReadModel, lines: Seq<Seq<char>>) -> Result<ReadModel, ReadError>
    decreases lines.len(),
{
    if lines.len() == 0 {
        Ok(st)
    } else {
        match read_from(st, lines.drop_last()) {
            Ok(s) => read_step(s, lines.last()),
            Err(e) => Err(e),
        }
    }
}

/// What reading `text` as a log gives: the metadata, the events and the
/// number of rows skipped, or why the file was refused.
pub open spec fn spec_from_csv(text: Seq<char>) -> Result<(MetaModel, Seq<Event>, nat), ReadError> {
    match read_from(initial_read(), crate::text::text_lines(text)) {
        Err(e) => Err(e),
        Ok(st) => if st.saw_header {
            Ok((st.meta, st.events, st.skipped))
        } else {
            Err(ReadError::NoEventRows)
        },
    }
}

/// How `str`'s `Debug` formatting writes `s`: quoted, with special characters
/// escaped.
pub uninterp spec fn debug_quote(s: Seq<char>) -> Seq<char>;

/// `format!("{:?}", s)` on a string slice: the text in double quotes with
/// quotes, backslashes and control characters escaped. What exactly the
/// escaping produces is not stated here, only that the result is a function of
/// the text.
#[verifier::external_body]
fn debug_quoted(s: &str) -> (r: String)
    ensures
        r@ == debug_quote(s@),
{
    format!("{:?}", s)
}

/// The message a refusal is reported with.
pub open spec fn error_message(e: ReadError) -> Seq<char> {
    match e {
        ReadError::NotALog => "not a mouse-testing session log: the first line does not identify one"@,
        ReadError::ColumnLayout(line) => "unexpected column layout: found "@ + debug_quote(line)
            + ", expected "@ + debug_quote(header_line()),
        ReadError::NoEventRows => "the file has no event rows"@,
    }
}

enum Refusal {
    NotALog,
    ColumnLayout(Vec<char>),
    NoEventRows,
}

impl Refusal {
    spec fn model(&self) -> ReadError {
        match self {
            Refusal::NotALog => ReadError::NotALog,
            Refusal::ColumnLayout(l) => ReadError::ColumnLayout(l@),
            Refusal::NoEventRows => ReadError::NoEventRows,
        }
    }

    fn message(&self) -> (s: String)
        ensures
            s@ == error_message(self.model()),
    {
        match self {
            Refusal::NotALog => {
                String::from_str("not a mouse-testing session log: the first line does not identify one")
            },
            Refusal::ColumnLayout(l) => {
                let mut out: Vec<char> = Vec::new();
                push_str_chars(&mut out, "unexpected column layout: found ");
                let line = string_of(l.as_slice());
                let q = debug_quoted(line.as_str());
                push_str_chars(&mut out, q.as_str());
                push_str_chars(&mut out, ", expected ");
                let h = debug_quoted("t_ns,level,dx,dy,wheel,hwheel,button,edge");
                push_str_chars(&mut out, h.as_str());
                string_of(out.as_slice())
            },
            Refusal::NoEventRows => String::from_str("the file has no event rows"),
        }
    }
}

/// `cs` spells the word `w`.
fn is_key(cs: &[char], w: &str) -> (r: bool)
    ensures
        r == (cs@ == w@),
{
    let wc = chars_of(w);
    chars_eq(cs, wc.as_slice())
}

fn find_sep_at(cs: &[char], from: usize) -> (r: usize)
    requires
        from <= cs@.len(),
    ensures
        r as int == find_sep(cs@, from as int),
        r <= cs@.len(),
        r < cs@.len() ==> r + 1 < cs@.len(),
{
    let mut i = from;
    while i < cs.len() && i + 1 < cs.len()
        invariant
            from <= i <= cs@.len(),
            find_sep(cs@, i as int) == find_sep(cs@, from as int),
        decreases cs@.len() - i,
    {
        if cs[i] == ':' && cs[i + 1] == ' ' {
            return i;
        }
        i = i + 1;
    }
    cs.len()
}

fn apply_meta_line(m: &mut Meta, k: &[char], v: &[char])
    ensures
        final(m).model() == apply_meta(old(m).model(), k@, v@),
{
    let ghost before = m.model();
    if is_key(k, "device") {
        m.device_name = string_of(v);
    } else if is_key(k, "device_ids") {
        m.device_ids = string_of(v);
    } else if is_key(k, "transport") {
        m.transport = string_of(v);
    } else if is_key(k, "os") {
        m.os = string_of(v);
    } else if is_key(k, "arch") {
        m.arch = string_of(v);
    } else if is_key(k, "cpu") {
        m.cpu = string_of(v);
    } else if is_key(k, "clock") {
        m.clock = string_of(v);
    } else if is_key(k, "claimed_hz") {
        m.claimed_hz = string_of(v);
    } else if is_key(k, "claimed_cpi") {
        m.claimed_cpi = string_of(v);
    } else if is_key(k, "clock_resolution_ns") {
        m.clock_resolution_ns = string_of(v);
    } else if is_key(k, "clock_cost_ns") {
        m.clock_cost_ns = string_of(v);
    } else if is_key(k, "duration_s") {
        m.duration_s = string_of(v);
    } else if is_key(k, "warning") {
        let s = string_of(v);
        m.warnings.push(s);
        proof {
            assert(texts(m.warnings@) =~= before.warnings.push(v@));
        }
    } else if is_key(k, "excluded") {
        let s = string_of(v);
        m.excluded.push(s);
        proof {
            assert(texts(m.excluded@) =~= before.excluded.push(v@));
        }
    } else if is_key(k, "result") {
        let s = string_of(v);
        match Record::decode(s.as_str()) {
            Some(r) => {
                let ghost rm = record_model(r);
                m.results.push(r);
                proof {
                    assert(m.results@.map_values(|r: Record| record_model(r)) =~= before.results.push(rm));
                }
            },
            None => {},
        }
    }
    proof {
        assert(m.model() =~= apply_meta(before, k@, v@));
    }
}

/// The reading state of [`SessionLog::from_csv`].
struct Reader {
    log: SessionLog,
    skipped: usize,
    saw_header: bool,
    first: bool,
}

impl Reader {
    spec fn model(&self) -> ReadModel {
        ReadModel {
            meta: self.log.meta.model(),
            events: self.log.events@,
            skipped: self.skipped as nat,
            saw_header: self.saw_header,
            first: self.first,
        }
    }

    fn step(&mut self, line: &[char]) -> (r: Result<(), Refusal>)
        requires
            old(self).skipped < usize::MAX,
        ensures
            match read_step(old(self).model(), line@) {
                Ok(st) => r is Ok && final(self).model() == st,
                Err(e) => r matches Err(x) && x.model() == e,
            },
            final(self).skipped <= old(self).skipped + 1,
    {
        let ghost st = self.model();
        if self.first {
            let p = chars_of("# mouse-testing session log");
            if crate::text::chars_start_with(line, p.as_slice()) {
                self.first = false;
                return Ok(());
            }
            return Err(Refusal::NotALog);
        }
        if line.len() >= 2 && line[0] == '#' && line[1] == ' ' {
            proof {
                reveal_strlit("# ");
                assert(line@.take(2) =~= "# "@);
            }
            let rest = crate::text::copy_range(line, 2, line.len());
            proof {
                assert(rest@ =~= line@.skip(2));
            }
            let p = find_sep_at(rest.as_slice(), 0);
            if p >= rest.len() {
                return Ok(());
            }
            let k = crate::text::copy_range(rest.as_slice(), 0, p);
            let v = crate::text::copy_range(rest.as_slice(), p + 2, rest.len());
            proof {
                assert(k@ =~= rest@.take(p as int));
                assert(v@ =~= rest@.skip(p + 2));
            }
            apply_meta_line(&mut self.log.meta, k.as_slice(), v.as_slice());
            return Ok(());
        }
        proof {
            reveal_strlit("# ");
            if crate::text::starts_with(line@, "# "@) {
                assert(line@.take(2)[0] == '#' && line@.take(2)[1] == ' ');
            }
        }
        if line.len() == 0 || line[0] == '#' {
            return Ok(());
        }
        if !self.saw_header {
            let h = chars_of("t_ns,level,dx,dy,wheel,hwheel,button,edge");
            if chars_eq(line, h.as_slice()) {
                self.saw_header = true;
                return Ok(());
            }
            let copy = crate::text::copy_range(line, 0, line.len());
            proof {
                assert(copy@ =~= line@);
            }
            return Err(Refusal::ColumnLayout(copy));
        }
        match parse_row(line) {
            Some(e) => {
                self.log.events.push(e);
            },
            None => {
                self.skipped = self.skipped + 1;
            },
        }
        Ok(())
    }
}

/// Reading lines one at a time agrees with reading them all: after a refusal
/// nothing more is read, otherwise the next lines continue from where the
/// first ones left off.
pub proof fn lemma_read_concat(st: ReadModel, a: Seq<Seq<char>>, b: Seq<Seq<char>>)
    ensures
        read_from(st, a + b) == (match read_from(st, a) {
            Ok(s) => read_from(s, b),
            Err(e) => Err(e),
        }),
    decreases b.len(),
{
    if b.len() == 0 {
        assert(a + b =~= a);
    } else {
        lemma_read_concat(st, a, b.drop_last());
        assert((a + b).drop_last() =~= a + b.drop_last());
        assert((a + b).last() == b.last());
    }
}

impl SessionLog {
    /// Reads a log back. Rows that do not parse are skipped and counted
    /// rather than aborting the load, because a truncated export from a
    /// crashed run is still worth most of what it holds; the count comes back
    /// so the interface can say how much was dropped.
    pub fn from_csv(text: &str) -> (r: Result<(SessionLog, usize), String>)
        ensures
            match r {
                Ok((log, n)) => spec_from_csv(text@) == Ok::<_, ReadError>(
                    (log.meta.model(), log.events@, n as nat),
                ),
                Err(msg) => match spec_from_csv(text@) {
                    Err(e) => msg@ == error_message(e),
                    Ok(_) => false,
                },
            },
    {
        let cs = chars_of(text);
        let mut rd = Reader { log: SessionLog::default(), skipped: 0, saw_header: false, first: true };
        let mut pos: usize = 0;
        let ghost mut done: Seq<Seq<char>> = Seq::empty();
        proof {
            assert(cs@.skip(0) =~= cs@);
            assert(done + crate::text::raw_lines(cs@) =~= crate::text::raw_lines(cs@));
            assert(rd.model() =~= initial_read());
        }
        while pos < cs.len()
            invariant
                pos <= cs@.len(),
                cs@ == text@,
                crate::text::raw_lines(cs@) == done + crate::text::raw_lines(cs@.skip(pos as int)),
                read_from(initial_read(), done.map_values(|l: Seq<char>| crate::text::strip_cr(l)))
                    == Ok::<_, ReadError>(rd.model()),
                rd.skipped <= pos,
            decreases cs@.len() - pos,
        {
            let ghost rest = cs@.skip(pos as int);
            let e = crate::text::find_char(cs.as_slice(), '\n', pos);
            proof {
                crate::text::lemma_find_from_bounds(cs@, '\n', pos as int);
                if e < cs@.len() {
                    crate::text::lemma_find_from(rest, '\n', 0, e - pos);
                } else {
                    crate::text::lemma_find_from(rest, '\n', 0, rest.len() as int);
                }
            }
            let ghost raw = cs@.subrange(pos as int, e as int);
            let mut b = e;
            while b > pos && cs[b - 1] == '\r'
                invariant
                    pos <= b <= e <= cs@.len(),
                    raw == cs@.subrange(pos as int, e as int),
                    crate::text::trailing_cr(raw) == (e - b) + crate::text::trailing_cr(
                        cs@.subrange(pos as int, b as int),
                    ),
                decreases b - pos,
            {
                proof {
                    let s = cs@.subrange(pos as int, b as int);
                    assert(s.drop_last() =~= cs@.subrange(pos as int, b - 1));
                }
                b = b - 1;
            }
            let line = crate::text::copy_range(cs.as_slice(), pos, b);
            proof {
                assert(crate::text::trailing_cr(cs@.subrange(pos as int, b as int)) == 0);
                assert(crate::text::strip_cr(raw) =~= line@);
            }
            let ghost before = rd.model();
            let res = rd.step(line.as_slice());
            proof {
                let d2 = done.push(raw);
                let m2 = d2.map_values(|l: Seq<char>| crate::text::strip_cr(l));
                assert(m2.drop_last() =~= done.map_values(|l: Seq<char>| crate::text::strip_cr(l)));
                assert(m2.last() == line@);
                if e < cs@.len() {
                    assert(rest.take(e - pos) =~= raw);
                    assert(rest.skip(e - pos + 1) =~= cs@.skip(e + 1));
                    assert(crate::text::raw_lines(rest) == seq![raw] + crate::text::raw_lines(cs@.skip(e + 1)));
                    assert(d2 + crate::text::raw_lines(cs@.skip(e + 1)) =~= done + crate::text::raw_lines(rest));
                } else {
                    assert(rest =~= raw);
                    assert(crate::text::raw_lines(rest) == seq![raw]);
                    assert(cs@.skip(cs@.len() as int) =~= Seq::<char>::empty());
                    assert(d2 + crate::text::raw_lines(cs@.skip(cs@.len() as int)) =~= done + crate::text::raw_lines(rest));
                }
                done = d2;
            }
            match res {
                Err(x) => {
                    proof {
                        let all = crate::text::raw_lines(cs@).map_values(|l: Seq<char>| crate::text::strip_cr(l));
                        let m2 = done.map_values(|l: Seq<char>| crate::text::strip_cr(l));
                        let tail = (if e < cs@.len() { crate::text::raw_lines(cs@.skip(e + 1)) } else { crate::text::raw_lines(cs@.skip(cs@.len() as int)) }).map_values(|l: Seq<char>| crate::text::strip_cr(l));
                        assert(all =~= m2 + tail);
                        lemma_read_concat(initial_read(), m2, tail);
                    }
                    return Err(x.message());
                },
                Ok(()) => {},
            }
            pos = if e < cs.len() { e + 1 } else { cs.len() };
        }
        proof {
            assert(cs@.skip(pos as int) =~= Seq::<char>::empty());
            assert(crate::text::raw_lines(cs@) =~= done);
        }
        if !rd.saw_header {
            return Err(Refusal::NoEventRows.message());
        }
        Ok((rd.log, rd.skipped))
    }
}

/// A motion row captured at `level`.
pub open spec fn is_motion_at(e: Event, level: Level) -> bool {
    e.level == level && !e.is_button
}

/// The motion report an event row describes.
pub open spec fn motion_report(e: Event) -> Report {
    Report { t_ns: e.t_ns, dx: e.dx, dy: e.dy, wheel: e.wheel, hwheel: e.hwheel }
}

/// The interval report an event row describes.
pub open spec fn interval_report(e: Event) -> polling::Report {
    polling::Report { t_ns: e.t_ns, counts: motion_counts(e.dx, e.dy) }
}

/// The button edge an event row describes.
pub open spec fn button_event(e: Event) -> ButtonEvent {
    ButtonEvent { t_ns: e.t_ns, button: e.button, down: e.down }
}

/// The motion rows at `level`, in order.
pub open spec fn motion_rows(events: Seq<Event>, level: Level) -> Seq<Event>
    decreases events.len(),
{
    if events.len() == 0 {
        Seq::empty()
    } else {
        let r = motion_rows(events.drop_last(), level);
        if is_motion_at(events.last(), level) {
            r.push(events.last())
        } else {
            r
        }
    }
}

/// The button rows, in order.
pub open spec fn button_rows(events: Seq<Event>) -> Seq<Event>
    decreases events.len(),
{
    if events.len() == 0 {
        Seq::empty()
    } else {
        let r = button_rows(events.drop_last());
        if events.last().is_button {
            r.push(events.last())
        } else {
            r
        }
    }
}

impl SessionLog {
    /// One level's motion, for running the sensor detectors again over a
    /// loaded capture.
    pub fn motion(&self, level: Level) -> (r: Vec<Report>)
        ensures
            r@ == motion_rows(self.events@, level).map_values(|e: Event| motion_report(e)),
    {
        let mut out: Vec<Report> = Vec::new();
        let mut i: usize = 0;
        while i < self.events.len()
            invariant
                i <= self.events@.len(),
                out@ == motion_rows(self.events@.take(i as int), level).map_values(
                    |e: Event| motion_report(e),
                ),
            decreases self.events@.len() - i,
        {
            let e = self.events[i];
            proof {
                assert(self.events@.take(i + 1).drop_last() =~= self.events@.take(i as int));
            }
            if e.level == level && !e.is_button {
                out.push(Report { t_ns: e.t_ns, dx: e.dx, dy: e.dy, wheel: e.wheel, hwheel: e.hwheel });
                proof {
                    assert(motion_rows(self.events@.take(i + 1), level).map_values(
                        |e: Event| motion_report(e),
                    ) =~= motion_rows(self.events@.take(i as int), level).map_values(
                        |e: Event| motion_report(e),
                    ).push(motion_report(e)));
                }
            }
            i = i + 1;
        }
        proof {
            assert(self.events@.take(i as int) =~= self.events@);
        }
        out
    }

    /// One level's reports, for running the interval analysis again.
    pub fn reports(&self, level: Level) -> (r: Vec<polling::Report>)
        ensures
            r@ == motion_rows(self.events@, level).map_values(|e: Event| interval_report(e)),
    {
        let mut out: Vec<polling::Report> = Vec::new();
        let mut i: usize = 0;
        while i < self.events.len()
            invariant
                i <= self.events@.len(),
                out@ == motion_rows(self.events@.take(i as int), level).map_values(
                    |e: Event| interval_report(e),
                ),
            decreases self.events@.len() - i,
        {
            let e = self.events[i];
            proof {
                assert(self.events@.take(i + 1).drop_last() =~= self.events@.take(i as int));
            }
            if e.level == level && !e.is_button {
                let c = motion_counts_of(e.dx, e.dy);
                out.push(polling::Report { t_ns: e.t_ns, counts: c });
                proof {
                    assert(motion_rows(self.events@.take(i + 1), level).map_values(
                        |e: Event| interval_report(e),
                    ) =~= motion_rows(self.events@.take(i as int), level).map_values(
                        |e: Event| interval_report(e),
                    ).push(interval_report(e)));
                }
            }
            i = i + 1;
        }
        proof {
            assert(self.events@.take(i as int) =~= self.events@);
        }
        out
    }

    /// Every button edge, in order.
    pub fn buttons(&self) -> (r: Vec<ButtonEvent>)
        ensures
            r@ == button_rows(self.events@).map_values(|e: Event| button_event(e)),
    {
        let mut out: Vec<ButtonEvent> = Vec::new();
        let mut i: usize = 0;
        while i < self.events.len()
            invariant
                i <= self.events@.len(),
                out@ == button_rows(self.events@.take(i as int)).map_values(|e: Event| button_event(e)),
            decreases self.events@.len() - i,
        {
            let e = self.events[i];
            proof {
                assert(self.events@.take(i + 1).drop_last() =~= self.events@.take(i as int));
            }
            if e.is_button {
                out.push(ButtonEvent { t_ns: e.t_ns, button: e.button, down: e.down });
                proof {
                    assert(button_rows(self.events@.take(i + 1)).map_values(|e: Event| button_event(e))
                        =~= button_rows(self.events@.take(i as int)).map_values(
                        |e: Event| button_event(e),
                    ).push(button_event(e)));
                }
            }
            i = i + 1;
        }
        proof {
            assert(self.events@.take(i as int) =~= self.events@);
        }
        out
    }

    /// How many motion rows were captured at `level`.
    pub fn count(&self, level: Level) -> (n: usize)
        ensures
            n == motion_rows(self.events@, level).len(),
    {
        let mut n: usize = 0;
        let mut i: usize = 0;
        while i < self.events.len()
            invariant
                i <= self.events@.len(),
                n == motion_rows(self.events@.take(i as int), level).len(),
                n <= i,
            decreases self.events@.len() - i,
        {
            proof {
                assert(self.events@.take(i + 1).drop_last() =~= self.events@.take(i as int));
            }
            if self.events[i].level == level && !self.events[i].is_button {
                n = n + 1;
            }
            i = i + 1;
        }
        proof {
            assert(self.events@.take(i as int) =~= self.events@);
        }
        n
    }
}

/// A battery record that survives its result line unchanged.
pub open spec fn clean_record(r: (Seq<char>, Option<Verdict>, Seq<char>)) -> bool {
    r.0.len() > 0 && is_clean_field(r.0) && is_clean_field(r.2)
}

/// The metadata as it reads back: every text with its line breaks turned into
/// spaces, the records as they were.
pub open spec fn normalized(m: MetaModel) -> MetaModel {
    MetaModel {
        device_name: escape(m.device_name),
        device_ids: escape(m.device_ids),
        transport: escape(m.transport),
        os: escape(m.os),
        arch: escape(m.arch),
        cpu: escape(m.cpu),
        clock: escape(m.clock),
        clock_resolution_ns: escape(m.clock_resolution_ns),
        clock_cost_ns: escape(m.clock_cost_ns),
        claimed_hz: escape(m.claimed_hz),
        claimed_cpi: escape(m.claimed_cpi),
        warnings: m.warnings.map_values(|w: Seq<char>| escape(w)),
        duration_s: escape(m.duration_s),
        results: m.results,
        excluded: m.excluded.map_values(|k: Seq<char>| escape(k)),
    }
}

/// No line break of either kind.
pub open spec fn one_line(s: Seq<char>) -> bool {
    free_of(s, '\n') && free_of(s, '\r')
}

proof fn lemma_find_sep(s: Seq<char>, i: int, j: int)
    requires
        0 <= i <= j,
        j + 1 < s.len(),
        s[j] == ':' && s[j + 1] == ' ',
        forall|m: int| i <= m < j ==> s[m] != ':',
    ensures
        find_sep(s, i) == j,
    decreases j - i,
{
    if i < j {
        lemma_find_sep(s, i + 1, j);
    }
}

proof fn lemma_no_sep(s: Seq<char>, i: int)
    requires
        0 <= i,
        forall|m: int| i <= m < s.len() ==> s[m] != ':',
    ensures
        find_sep(s, i) == s.len(),
    decreases s.len() - i,
{
    if i + 1 < s.len() {
        lemma_no_sep(s, i + 1);
    }
}

proof fn lemma_fixed_lines()
    ensures
        one_line(magic_line()),
        one_line(edge_note()),
        one_line(header_line()),
        crate::text::starts_with(magic_line(), magic_prefix()),
        header_line().len() > 0 && header_line()[0] != '#',
        !crate::text::starts_with(header_line(), "# "@),
        crate::text::starts_with(edge_note(), "# "@),
        find_sep(edge_note().skip(2), 0) >= edge_note().skip(2).len(),
        free_of("# "@, '\n') && free_of("# "@, '\r') && free_of(": "@, '\n') && free_of(": "@, '\r'),
        "# "@ == seq!['#', ' '],
        ": "@ == seq![':', ' '],
{
    reveal_strlit("# mouse-testing session log v1");
    reveal_strlit("# mouse-testing session log");
    reveal_strlit("t_ns,level,dx,dy,wheel,hwheel,button,edge");
    reveal_strlit("# edge is 1 for press, 0 for release, and empty for motion rows");
    reveal_strlit("# ");
    reveal_strlit(": ");
    assert(magic_line().take(magic_prefix().len() as int) =~= magic_prefix());
    assert(edge_note().take(2) =~= "# "@);
    let r = edge_note().skip(2);
    assert forall|m: int| 0 <= m < r.len() implies r[m] != ':' by {
        assert(r[m] == edge_note()[m + 2]);
    }
    lemma_no_sep(r, 0);
    assert(header_line().take(2)[0] == 't');
}

/// The keys the metadata lines use.
proof fn lemma_keys()
    ensures
        forall|m: MetaModel, v: Seq<char>| #[trigger] apply_meta(m, "device"@, v) == (MetaModel { device_name: v, ..m }),
        forall|m: MetaModel, v: Seq<char>| #[trigger] apply_meta(m, "device_ids"@, v) == (MetaModel { device_ids: v, ..m }),
        forall|m: MetaModel, v: Seq<char>| #[trigger] apply_meta(m, "transport"@, v) == (MetaModel { transport: v, ..m }),
        forall|m: MetaModel, v: Seq<char>| #[trigger] apply_meta(m, "os"@, v) == (MetaModel { os: v, ..m }),
        forall|m: MetaModel, v: Seq<char>| #[trigger] apply_meta(m, "arch"@, v) == (MetaModel { arch: v, ..m }),
        forall|m: MetaModel, v: Seq<char>| #[trigger] apply_meta(m, "cpu"@, v) == (MetaModel { cpu: v, ..m }),
        forall|m: MetaModel, v: Seq<char>| #[trigger] apply_meta(m, "clock"@, v) == (MetaModel { clock: v, ..m }),
        forall|m: MetaModel, v: Seq<char>| #[trigger] apply_meta(m, "claimed_hz"@, v) == (MetaModel { claimed_hz: v, ..m }),
        forall|m: MetaModel, v: Seq<char>| #[trigger] apply_meta(m, "claimed_cpi"@, v) == (MetaModel { claimed_cpi: v, ..m }),
        forall|m: MetaModel, v: Seq<char>| #[trigger] apply_meta(m, "clock_resolution_ns"@, v) == (MetaModel { clock_resolution_ns: v, ..m }),
        forall|m: MetaModel, v: Seq<char>| #[trigger] apply_meta(m, "clock_cost_ns"@, v) == (MetaModel { clock_cost_ns: v, ..m }),
        forall|m: MetaModel, v: Seq<char>| #[trigger] apply_meta(m, "duration_s"@, v) == (MetaModel { duration_s: v, ..m }),
        forall|m: MetaModel, v: Seq<char>| #[trigger] apply_meta(m, "warning"@, v) == (MetaModel { warnings: m.warnings.push(v), ..m }),
        forall|m: MetaModel, v: Seq<char>| #[trigger] apply_meta(m, "excluded"@, v) == (MetaModel { excluded: m.excluded.push(v), ..m }),
        forall|m: MetaModel, v: Seq<char>| #[trigger] apply_meta(m, "result"@, v) == (match spec_decode(v) {
            Some(r) => MetaModel { results: m.results.push(r), ..m },
            None => m,
        }),
        forall|k: Seq<char>| #![trigger key_ok(k)] key_ok(k) ==> free_of(k, ':') && one_line(k),
{
    reveal_strlit("device");
    reveal_strlit("device_ids");
    reveal_strlit("transport");
    reveal_strlit("os");
    reveal_strlit("arch");
    reveal_strlit("cpu");
    reveal_strlit("clock");
    reveal_strlit("claimed_hz");
    reveal_strlit("claimed_cpi");
    reveal_strlit("clock_resolution_ns");
    reveal_strlit("clock_cost_ns");
    reveal_strlit("duration_s");
    reveal_strlit("warning");
    reveal_strlit("excluded");
    reveal_strlit("result");
    assert("device_ids"@.len() != "device"@.len());
    assert("transport"@.len() != "device"@.len());
    assert("transport"@.len() != "device_ids"@.len());
    assert("os"@.len() != "device"@.len());
    assert("os"@.len() != "device_ids"@.len());
    assert("os"@.len() != "transport"@.len());
    assert("arch"@.len() != "device"@.len());
    assert("arch"@.len() != "device_ids"@.len());
    assert("arch"@.len() != "transport"@.len());
    assert("arch"@.len() != "os"@.len());
    assert("cpu"@.len() != "device"@.len());
    assert("cpu"@.len() != "device_ids"@.len());
    assert("cpu"@.len() != "transport"@.len());
    assert("cpu"@.len() != "os"@.len());
    assert("cpu"@.len() != "arch"@.len());
    assert("clock"@.len() != "device"@.len());
    assert("clock"@.len() != "device_ids"@.len());
    assert("clock"@.len() != "transport"@.len());
    assert("clock"@.len() != "os"@.len());
    assert("clock"@.len() != "arch"@.len());
    assert("clock"@.len() != "cpu"@.len());
    assert("claimed_hz"@.len() != "device"@.len());
    assert("claimed_hz"@[0] != "device_ids"@[0]);
    assert("claimed_hz"@.len() != "transport"@.len());
    assert("claimed_hz"@.len() != "os"@.len());
    assert("claimed_hz"@.len() != "arch"@.len());
    assert("claimed_hz"@.len() != "cpu"@.len());
    assert("claimed_hz"@.len() != "clock"@.len());
    assert("claimed_cpi"@.len() != "device"@.len());
    assert("claimed_cpi"@.len() != "device_ids"@.len());
    assert("claimed_cpi"@.len() != "transport"@.len());
    assert("claimed_cpi"@.len() != "os"@.len());
    assert("claimed_cpi"@.len() != "arch"@.len());
    assert("claimed_cpi"@.len() != "cpu"@.len());
    assert("claimed_cpi"@.len() != "clock"@.len());
    assert("claimed_cpi"@.len() != "claimed_hz"@.len());
    assert("clock_resolution_ns"@.len() != "device"@.len());
    assert("clock_resolution_ns"@.len() != "device_ids"@.len());
    assert("clock_resolution_ns"@.len() != "transport"@.len());
    assert("clock_resolution_ns"@.len() != "os"@.len());
    assert("clock_resolution_ns"@.len() != "arch"@.len());
    assert("clock_resolution_ns"@.len() != "cpu"@.len());
    assert("clock_resolution_ns"@.len() != "clock"@.len());
    assert("clock_resolution_ns"@.len() != "claimed_hz"@.len());
    assert("clock_resolution_ns"@.len() != "claimed_cpi"@.len());
    assert("clock_cost_ns"@.len() != "device"@.len());
    assert("clock_cost_ns"@.len() != "device_ids"@.len());
    assert("clock_cost_ns"@.len() != "transport"@.len());
    assert("clock_cost_ns"@.len() != "os"@.len());
    assert("clock_cost_ns"@.len() != "arch"@.len());
    assert("clock_cost_ns"@.len() != "cpu"@.len());
    assert("clock_cost_ns"@.len() != "clock"@.len());
    assert("clock_cost_ns"@.len() != "claimed_hz"@.len());
    assert("clock_cost_ns"@.len() != "claimed_cpi"@.len());
    assert("clock_cost_ns"@.len() != "clock_resolution_ns"@.len());
    assert("duration_s"@.len() != "device"@.len());
    assert("duration_s"@[1] != "device_ids"@[1]);
    assert("duration_s"@.len() != "transport"@.len());
    assert("duration_s"@.len() != "os"@.len());
    assert("duration_s"@.len() != "arch"@.len());
    assert("duration_s"@.len() != "cpu"@.len());
    assert("duration_s"@.len() != "clock"@.len());
    assert("duration_s"@[0] != "claimed_hz"@[0]);
    assert("duration_s"@.len() != "claimed_cpi"@.len());
    assert("duration_s"@.len() != "clock_resolution_ns"@.len());
    assert("duration_s"@.len() != "clock_cost_ns"@.len());
    assert("warning"@.len() != "device"@.len());
    assert("warning"@.len() != "device_ids"@.len());
    assert("warning"@.len() != "transport"@.len());
    assert("warning"@.len() != "os"@.len());
    assert("warning"@.len() != "arch"@.len());
    assert("warning"@.len() != "cpu"@.len());
    assert("warning"@.len() != "clock"@.len());
    assert("warning"@.len() != "claimed_hz"@.len());
    assert("warning"@.len() != "claimed_cpi"@.len());
    assert("warning"@.len() != "clock_resolution_ns"@.len());
    assert("warning"@.len() != "clock_cost_ns"@.len());
    assert("warning"@.len() != "duration_s"@.len());
    assert("excluded"@.len() != "device"@.len());
    assert("excluded"@.len() != "device_ids"@.len());
    assert("excluded"@.len() != "transport"@.len());
    assert("excluded"@.len() != "os"@.len());
    assert("excluded"@.len() != "arch"@.len());
    assert("excluded"@.len() != "cpu"@.len());
    assert("excluded"@.len() != "clock"@.len());
    assert("excluded"@.len() != "claimed_hz"@.len());
    assert("excluded"@.len() != "claimed_cpi"@.len());
    assert("excluded"@.len() != "clock_resolution_ns"@.len());
    assert("excluded"@.len() != "clock_cost_ns"@.len());
    assert("excluded"@.len() != "duration_s"@.len());
    assert("excluded"@.len() != "warning"@.len());
    assert("result"@[0] != "device"@[0]);
    assert("result"@.len() != "device_ids"@.len());
    assert("result"@.len() != "transport"@.len());
    assert("result"@.len() != "os"@.len());
    assert("result"@.len() != "arch"@.len());
    assert("result"@.len() != "cpu"@.len());
    assert("result"@.len() != "clock"@.len());
    assert("result"@.len() != "claimed_hz"@.len());
    assert("result"@.len() != "claimed_cpi"@.len());
    assert("result"@.len() != "clock_resolution_ns"@.len());
    assert("result"@.len() != "clock_cost_ns"@.len());
    assert("result"@.len() != "duration_s"@.len());
    assert("result"@.len() != "warning"@.len());
    assert("result"@.len() != "excluded"@.len());
}

/// The words that key metadata lines.
pub open spec fn key_ok(k: Seq<char>) -> bool {
    ||| k == "device"@
    ||| k == "device_ids"@
    ||| k == "transport"@
    ||| k == "os"@
    ||| k == "arch"@
    ||| k == "cpu"@
    ||| k == "clock"@
    ||| k == "claimed_hz"@
    ||| k == "claimed_cpi"@
    ||| k == "clock_resolution_ns"@
    ||| k == "clock_cost_ns"@
    ||| k == "duration_s"@
    ||| k == "warning"@
    ||| k == "excluded"@
    ||| k == "result"@
}

proof fn lemma_escape_one_line(s: Seq<char>)
    ensures
        one_line(escape(s)),
        one_line(s) ==> escape(s) == s,
{
    if one_line(s) {
        assert(escape(s) =~= s);
    }
}

proof fn lemma_kv_one_line(k: Seq<char>, v: Seq<char>)
    requires
        key_ok(k),
    ensures
        one_line(kv_line(k, v)),
{
    lemma_keys();
    lemma_fixed_lines();
    lemma_escape_one_line(v);
    let l = kv_line(k, v);
    let a = "# "@;
    let b = ": "@;
    let e = escape(v);
    assert(l == a + k + b + e);
    assert forall|i: int| 0 <= i < l.len() implies #[trigger] l[i] != '\n' && l[i] != '\r' by {
        if i < a.len() {
            assert(l[i] == a[i]);
        } else if i < a.len() + k.len() {
            assert(l[i] == k[i - a.len()]);
        } else if i < a.len() + k.len() + b.len() {
            assert(l[i] == b[i - a.len() - k.len()]);
        } else {
            assert(l[i] == e[i - a.len() - k.len() - b.len()]);
        }
    }
}

proof fn lemma_kv_read(st: ReadModel, k: Seq<char>, v: Seq<char>)
    requires
        !st.first,
        key_ok(k),
    ensures
        read_step(st, kv_line(k, v)) == Ok::<_, ReadError>(
            ReadModel { meta: apply_meta(st.meta, k, escape(v)), ..st },
        ),
{
    lemma_keys();
    lemma_fixed_lines();
    let l = kv_line(k, v);
    let e = escape(v);
    assert(l =~= seq!['#', ' '] + k + seq![':', ' '] + e);
    assert(l.take(2) =~= "# "@);
    let rest = l.skip(2);
    assert(rest =~= k + seq![':', ' '] + e);
    let p = k.len() as int;
    assert forall|m: int| 0 <= m < p implies rest[m] != ':' by {
        assert(rest[m] == k[m]);
    }
    lemma_find_sep(rest, 0, p);
    assert(rest.take(p) =~= k);
    assert(rest.skip(p + 2) =~= e);
}

proof fn lemma_join_free(fs: Seq<Seq<char>>, c: char, x: char)
    requires
        c != x,
        forall|k: int| 0 <= k < fs.len() ==> free_of(#[trigger] fs[k], x),
    ensures
        free_of(join_with(fs, c), x),
    decreases fs.len(),
{
    if fs.len() > 1 {
        let rest = fs.drop_first();
        assert forall|k: int| 0 <= k < rest.len() implies free_of(#[trigger] rest[k], x) by {
            assert(rest[k] == fs[k + 1]);
        }
        lemma_join_free(rest, c, x);
        let s = join_with(fs, c);
        let f0 = fs[0];
        assert(free_of(f0, x));
        let j = join_with(rest, c);
        assert(s == f0 + seq![c] + j);
        assert forall|i: int| 0 <= i < s.len() implies #[trigger] s[i] != x by {
            if i < f0.len() {
                assert(s[i] == f0[i]);
            } else if i > f0.len() {
                assert(s[i] == j[i - f0.len() - 1]);
            }
        }
    } else if fs.len() == 1 {
        assert(free_of(fs[0], x));
    }
}

proof fn lemma_row_line(e: Event)
    ensures
        one_line(row_text(e)),
        row_text(e).len() > 0,
        is_digit(row_text(e)[0]),
{
    let fs = row_fields(e);
    lemma_level_names();
    reveal_strlit("device");
    reveal_strlit("system");
    reveal_strlit("app");
    lemma_decimal_free(e.t_ns as nat, '\n');
    lemma_decimal_free(e.t_ns as nat, '\r');
    lemma_decimal_free(e.button as nat, '\n');
    lemma_decimal_free(e.button as nat, '\r');
    lemma_signed_free(e.dx as int, '\n');
    lemma_signed_free(e.dx as int, '\r');
    lemma_signed_free(e.dy as int, '\n');
    lemma_signed_free(e.dy as int, '\r');
    lemma_signed_free(e.wheel as int, '\n');
    lemma_signed_free(e.wheel as int, '\r');
    lemma_signed_free(e.hwheel as int, '\n');
    lemma_signed_free(e.hwheel as int, '\r');
    assert(free_of(level_name(e.level), '\n') && free_of(level_name(e.level), '\r'));
    assert(free_of(edge_text(e), '\n') && free_of(edge_text(e), '\r'));
    lemma_join_free(fs, ',', '\n');
    lemma_join_free(fs, ',', '\r');
    lemma_decimal_digits(e.t_ns as nat);
    let s = row_text(e);
    assert(s == fs[0] + seq![','] + join_with(fs.drop_first(), ','));
    assert(s[0] == fs[0][0]);
}

proof fn lemma_row_read(st: ReadModel, e: Event)
    requires
        !st.first,
        st.saw_header,
        is_canonical(e),
    ensures
        read_step(st, row_text(e)) == Ok::<_, ReadError>(ReadModel { events: st.events.push(e), ..st }),
{
    lemma_row_line(e);
    lemma_row_round_trip(e);
    lemma_fixed_lines();
    let s = row_text(e);
    if crate::text::starts_with(s, "# "@) {
        assert(s.take(2)[0] == '#');
    }
}

proof fn lemma_read_push(st: ReadModel, p: Seq<Seq<char>>, x: Seq<char>)
    ensures
        read_from(st, p.push(x)) == (match read_from(st, p) {
            Ok(s) => read_step(s, x),
            Err(e) => Err(e),
        }),
{
    assert(p.push(x).drop_last() =~= p);
}

proof fn lemma_read_warnings(st: ReadModel, ws: Seq<Seq<char>>)
    requires
        !st.first,
    ensures
        read_from(st, ws.map_values(|w: Seq<char>| kv_line("warning"@, w))) == Ok::<_, ReadError>(
            ReadModel {
                meta: MetaModel {
                    warnings: st.meta.warnings + ws.map_values(|w: Seq<char>| escape(w)),
                    ..st.meta
                },
                ..st
            },
        ),
    decreases ws.len(),
{
    lemma_keys();
    let ls = ws.map_values(|w: Seq<char>| kv_line("warning"@, w));
    if ws.len() == 0 {
        assert(ls.len() == 0);
        assert(st.meta.warnings + ws.map_values(|w: Seq<char>| escape(w)) =~= st.meta.warnings);
        assert(MetaModel { warnings: st.meta.warnings, ..st.meta } =~= st.meta);
    } else {
        let front = ws.drop_last();
        lemma_read_warnings(st, front);
        assert(ls =~= front.map_values(|w: Seq<char>| kv_line("warning"@, w)).push(
            kv_line("warning"@, ws.last()),
        ));
        lemma_read_push(st, front.map_values(|w: Seq<char>| kv_line("warning"@, w)), kv_line("warning"@, ws.last()));
        let s1 = ReadModel {
            meta: MetaModel {
                warnings: st.meta.warnings + front.map_values(|w: Seq<char>| escape(w)),
                ..st.meta
            },
            ..st
        };
        lemma_kv_read(s1, "warning"@, ws.last());
        assert((st.meta.warnings + front.map_values(|w: Seq<char>| escape(w))).push(escape(ws.last()))
            =~= st.meta.warnings + ws.map_values(|w: Seq<char>| escape(w)));
    }
}

proof fn lemma_read_excluded(st: ReadModel, ks: Seq<Seq<char>>)
    requires
        !st.first,
    ensures
        read_from(st, ks.map_values(|k: Seq<char>| kv_line("excluded"@, k))) == Ok::<_, ReadError>(
            ReadModel {
                meta: MetaModel {
                    excluded: st.meta.excluded + ks.map_values(|k: Seq<char>| escape(k)),
                    ..st.meta
                },
                ..st
            },
        ),
    decreases ks.len(),
{
    lemma_keys();
    let ls = ks.map_values(|k: Seq<char>| kv_line("excluded"@, k));
    if ks.len() == 0 {
        assert(ls.len() == 0);
        assert(st.meta.excluded + ks.map_values(|k: Seq<char>| escape(k)) =~= st.meta.excluded);
        assert(MetaModel { excluded: st.meta.excluded, ..st.meta } =~= st.meta);
    } else {
        let front = ks.drop_last();
        lemma_read_excluded(st, front);
        assert(ls =~= front.map_values(|k: Seq<char>| kv_line("excluded"@, k)).push(
            kv_line("excluded"@, ks.last()),
        ));
        lemma_read_push(st, front.map_values(|k: Seq<char>| kv_line("excluded"@, k)), kv_line("excluded"@, ks.last()));
        let s1 = ReadModel {
            meta: MetaModel {
                excluded: st.meta.excluded + front.map_values(|k: Seq<char>| escape(k)),
                ..st.meta
            },
            ..st
        };
        lemma_kv_read(s1, "excluded"@, ks.last());
        assert((st.meta.excluded + front.map_values(|k: Seq<char>| escape(k))).push(escape(ks.last()))
            =~= st.meta.excluded + ks.map_values(|k: Seq<char>| escape(k)));
    }
}

proof fn lemma_read_results(st: ReadModel, rs: Seq<(Seq<char>, Option<Verdict>, Seq<char>)>)
    requires
        !st.first,
        forall|i: int| 0 <= i < rs.len() ==> clean_record(#[trigger] rs[i]),
    ensures
        read_from(st, rs.map_values(
            |r: (Seq<char>, Option<Verdict>, Seq<char>)| kv_line("result"@, spec_encode(r.0, r.1, r.2)),
        )) == Ok::<_, ReadError>(
            ReadModel { meta: MetaModel { results: st.meta.results + rs, ..st.meta }, ..st },
        ),
    decreases rs.len(),
{
    lemma_keys();
    let ls = rs.map_values(
        |r: (Seq<char>, Option<Verdict>, Seq<char>)| kv_line("result"@, spec_encode(r.0, r.1, r.2)),
    );
    if rs.len() == 0 {
        assert(ls.len() == 0);
        assert(st.meta.results + rs =~= st.meta.results);
        assert(MetaModel { results: st.meta.results, ..st.meta } =~= st.meta);
    } else {
        let front = rs.drop_last();
        let r = rs.last();
        assert(clean_record(rs[rs.len() - 1]));
        assert forall|i: int| 0 <= i < front.len() implies clean_record(#[trigger] front[i]) by {
            assert(front[i] == rs[i]);
        }
        lemma_read_results(st, front);
        let enc = spec_encode(r.0, r.1, r.2);
        assert(ls =~= front.map_values(
            |r: (Seq<char>, Option<Verdict>, Seq<char>)| kv_line("result"@, spec_encode(r.0, r.1, r.2)),
        ).push(kv_line("result"@, enc)));
        lemma_read_push(st, front.map_values(
            |r: (Seq<char>, Option<Verdict>, Seq<char>)| kv_line("result"@, spec_encode(r.0, r.1, r.2)),
        ), kv_line("result"@, enc));
        let s1 = ReadModel {
            meta: MetaModel { results: st.meta.results + front, ..st.meta },
            ..st
        };
        lemma_kv_read(s1, "result"@, enc);
        lemma_encode_is_one_line(r.0, r.1, r.2);
        assert(one_line(enc));
        lemma_escape_one_line(enc);
        lemma_encode_decode_round_trip(r.0, r.1, r.2);
        assert(spec_decode(enc) == Some(r));
        assert((st.meta.results + front).push(r) =~= st.meta.results + rs);
    }
}

proof fn lemma_read_rows(st: ReadModel, es: Seq<Event>)
    requires
        !st.first,
        st.saw_header,
        forall|i: int| 0 <= i < es.len() ==> is_canonical(#[trigger] es[i]),
    ensures
        read_from(st, es.map_values(|e: Event| row_text(e))) == Ok::<_, ReadError>(
            ReadModel { events: st.events + es, ..st },
        ),
    decreases es.len(),
{
    let ls = es.map_values(|e: Event| row_text(e));
    if es.len() == 0 {
        assert(ls.len() == 0);
        assert(st.events + es =~= st.events);
    } else {
        let front = es.drop_last();
        assert(is_canonical(es[es.len() - 1]));
        assert forall|i: int| 0 <= i < front.len() implies is_canonical(#[trigger] front[i]) by {
            assert(front[i] == es[i]);
        }
        lemma_read_rows(st, front);
        assert(ls =~= front.map_values(|e: Event| row_text(e)).push(row_text(es.last())));
        lemma_read_push(st, front.map_values(|e: Event| row_text(e)), row_text(es.last()));
        lemma_row_read(ReadModel { events: st.events + front, ..st }, es.last());
        assert((st.events + front).push(es.last()) =~= st.events + es);
    }
}

proof fn lemma_lines_one_line(m: MetaModel, events: Seq<Event>)
    ensures
        forall|k: int| 0 <= k < log_lines(m, events).len() ==> one_line(#[trigger] log_lines(m, events)[k]),
{
    let l = log_lines(m, events);
    lemma_fixed_lines();
    lemma_keys();
    let w = m.warnings.map_values(|w: Seq<char>| kv_line("warning"@, w));
    let r = m.results.map_values(
        |r: (Seq<char>, Option<Verdict>, Seq<char>)| kv_line("result"@, spec_encode(r.0, r.1, r.2)),
    );
    let x = m.excluded.map_values(|k: Seq<char>| kv_line("excluded"@, k));
    let rows = events.map_values(|e: Event| row_text(e));
    let a = fixed_lines(m);
    let b = seq![edge_note(), header_line()];
    assert(l == a + w + r + x + b + rows);
    assert forall|k: int| 0 <= k < l.len() implies one_line(#[trigger] l[k]) by {
        if k < a.len() {
            assert(l[k] == a[k]);
            if k > 0 {
                lemma_kv_one_line("device"@, m.device_name);
                lemma_kv_one_line("device_ids"@, m.device_ids);
                lemma_kv_one_line("transport"@, m.transport);
                lemma_kv_one_line("os"@, m.os);
                lemma_kv_one_line("arch"@, m.arch);
                lemma_kv_one_line("cpu"@, m.cpu);
                lemma_kv_one_line("clock"@, m.clock);
                lemma_kv_one_line("claimed_hz"@, m.claimed_hz);
                lemma_kv_one_line("claimed_cpi"@, m.claimed_cpi);
                lemma_kv_one_line("clock_resolution_ns"@, m.clock_resolution_ns);
                lemma_kv_one_line("clock_cost_ns"@, m.clock_cost_ns);
                lemma_kv_one_line("duration_s"@, m.duration_s);
            }
        } else if k < a.len() + w.len() {
            let i = k - a.len();
            assert(l[k] == w[i]);
            lemma_kv_one_line("warning"@, m.warnings[i]);
        } else if k < a.len() + w.len() + r.len() {
            let i = k - a.len() - w.len();
            assert(l[k] == r[i]);
            let rr = m.results[i];
            lemma_kv_one_line("result"@, spec_encode(rr.0, rr.1, rr.2));
        } else if k < a.len() + w.len() + r.len() + x.len() {
            let i = k - a.len() - w.len() - r.len();
            assert(l[k] == x[i]);
            lemma_kv_one_line("excluded"@, m.excluded[i]);
        } else if k < a.len() + w.len() + r.len() + x.len() + b.len() {
            let i = k - a.len() - w.len() - r.len() - x.len();
            assert(l[k] == b[i]);
        } else {
            let i = k - a.len() - w.len() - r.len() - x.len() - b.len();
            assert(l[k] == rows[i]);
            lemma_row_line(events[i]);
        }
    }
}

/// Lines without line breaks, written out and read back as lines, are the
/// same lines.
pub proof fn lemma_text_lines_joined(ls: Seq<Seq<char>>)
    requires
        forall|k: int| 0 <= k < ls.len() ==> one_line(#[trigger] ls[k]),
    ensures
        crate::text::text_lines(crate::text::joined_lines(ls)) == ls,
{
    assert forall|k: int| 0 <= k < ls.len() implies free_of(#[trigger] ls[k], '\n') by {
        assert(one_line(ls[k]));
    }
    crate::text::lemma_raw_lines_joined(ls);
    assert forall|k: int| 0 <= k < ls.len() implies crate::text::strip_cr(#[trigger] ls[k]) == ls[k] by {
        assert(one_line(ls[k]));
        if ls[k].len() > 0 {
            assert(ls[k][ls[k].len() - 1] != '\r');
        }
        crate::text::lemma_strip_cr_unchanged(ls[k]);
    }
    assert(ls.map_values(|l: Seq<char>| crate::text::strip_cr(l)) =~= ls);
}

/// The state after the fixed block of metadata lines.
pub open spec fn after_fixed(m: MetaModel) -> ReadModel {
    ReadModel {
        meta: MetaModel {
            device_name: escape(m.device_name),
            device_ids: escape(m.device_ids),
            transport: escape(m.transport),
            os: escape(m.os),
            arch: escape(m.arch),
            cpu: escape(m.cpu),
            clock: escape(m.clock),
            clock_resolution_ns: escape(m.clock_resolution_ns),
            clock_cost_ns: escape(m.clock_cost_ns),
            claimed_hz: escape(m.claimed_hz),
            claimed_cpi: escape(m.claimed_cpi),
            duration_s: escape(m.duration_s),
            ..empty_meta()
        },
        first: false,
        ..initial_read()
    }
}

proof fn lemma_kv_push(s0: ReadModel, p: Seq<Seq<char>>, st: ReadModel, k: Seq<char>, v: Seq<char>)
    requires
        read_from(s0, p) == Ok::<_, ReadError>(st),
        !st.first,
        key_ok(k),
    ensures
        read_from(s0, p.push(kv_line(k, v))) == Ok::<_, ReadError>(
            ReadModel { meta: apply_meta(st.meta, k, escape(v)), ..st },
        ),
{
    lemma_read_push(s0, p, kv_line(k, v));
    lemma_kv_read(st, k, v);
}

proof fn lemma_read_fixed(m: MetaModel)
    ensures
        read_from(initial_read(), fixed_lines(m)) == Ok::<_, ReadError>(after_fixed(m)),
{
    lemma_fixed_lines();
    lemma_keys();
    let s0 = initial_read();
    let p0: Seq<Seq<char>> = Seq::empty();
    let p = p0.push(magic_line());
    lemma_read_push(s0, p0, magic_line());
    let mut st = ReadModel { first: false, ..s0 };
    assert(read_from(s0, p) == Ok::<_, ReadError>(st));
    lemma_kv_push(s0, p, st, "device"@, m.device_name);
    let p = p.push(kv_line("device"@, m.device_name));
    st = ReadModel { meta: apply_meta(st.meta, "device"@, escape(m.device_name)), ..st };
    lemma_kv_push(s0, p, st, "device_ids"@, m.device_ids);
    let p = p.push(kv_line("device_ids"@, m.device_ids));
    st = ReadModel { meta: apply_meta(st.meta, "device_ids"@, escape(m.device_ids)), ..st };
    lemma_kv_push(s0, p, st, "transport"@, m.transport);
    let p = p.push(kv_line("transport"@, m.transport));
    st = ReadModel { meta: apply_meta(st.meta, "transport"@, escape(m.transport)), ..st };
    lemma_kv_push(s0, p, st, "os"@, m.os);
    let p = p.push(kv_line("os"@, m.os));
    st = ReadModel { meta: apply_meta(st.meta, "os"@, escape(m.os)), ..st };
    lemma_kv_push(s0, p, st, "arch"@, m.arch);
    let p = p.push(kv_line("arch"@, m.arch));
    st = ReadModel { meta: apply_meta(st.meta, "arch"@, escape(m.arch)), ..st };
    lemma_kv_push(s0, p, st, "cpu"@, m.cpu);
    let p = p.push(kv_line("cpu"@, m.cpu));
    st = ReadModel { meta: apply_meta(st.meta, "cpu"@, escape(m.cpu)), ..st };
    lemma_kv_push(s0, p, st, "clock"@, m.clock);
    let p = p.push(kv_line("clock"@, m.clock));
    st = ReadModel { meta: apply_meta(st.meta, "clock"@, escape(m.clock)), ..st };
    lemma_kv_push(s0, p, st, "claimed_hz"@, m.claimed_hz);
    let p = p.push(kv_line("claimed_hz"@, m.claimed_hz));
    st = ReadModel { meta: apply_meta(st.meta, "claimed_hz"@, escape(m.claimed_hz)), ..st };
    lemma_kv_push(s0, p, st, "claimed_cpi"@, m.claimed_cpi);
    let p = p.push(kv_line("claimed_cpi"@, m.claimed_cpi));
    st = ReadModel { meta: apply_meta(st.meta, "claimed_cpi"@, escape(m.claimed_cpi)), ..st };
    lemma_kv_push(s0, p, st, "clock_resolution_ns"@, m.clock_resolution_ns);
    let p = p.push(kv_line("clock_resolution_ns"@, m.clock_resolution_ns));
    st = ReadModel {
        meta: apply_meta(st.meta, "clock_resolution_ns"@, escape(m.clock_resolution_ns)),
        ..st
    };
    lemma_kv_push(s0, p, st, "clock_cost_ns"@, m.clock_cost_ns);
    let p = p.push(kv_line("clock_cost_ns"@, m.clock_cost_ns));
    st = ReadModel { meta: apply_meta(st.meta, "clock_cost_ns"@, escape(m.clock_cost_ns)), ..st };
    lemma_kv_push(s0, p, st, "duration_s"@, m.duration_s);
    let p = p.push(kv_line("duration_s"@, m.duration_s));
    st = ReadModel { meta: apply_meta(st.meta, "duration_s"@, escape(m.duration_s)), ..st };
    assert(st.meta =~= after_fixed(m).meta);
    assert(st =~= after_fixed(m));
    assert(p =~= fixed_lines(m));
}

/// A log written out and read back gives back every event exactly, every
/// battery record exactly, and every metadata text with its line breaks
/// turned into spaces, with no row skipped. The records must be ones that
/// survive their own result line (a non-empty key, and no separator, line
/// break or edge white space in key or headline), and no motion row may
/// carry a `down` flag, which the edge column cannot express.
pub proof fn lemma_log_round_trip(m: MetaModel, events: Seq<Event>)
    requires
        forall|i: int| 0 <= i < m.results.len() ==> clean_record(#[trigger] m.results[i]),
        forall|i: int| 0 <= i < events.len() ==> is_canonical(#[trigger] events[i]),
    ensures
        spec_from_csv(crate::text::joined_lines(log_lines(m, events))) == Ok::<_, ReadError>(
            (normalized(m), events, 0nat),
        ),
{
    let l = log_lines(m, events);
    lemma_lines_one_line(m, events);
    lemma_text_lines_joined(l);
    lemma_read_log_lines(m, events);
}

/// The state a reader is in after the lines of a log.
pub open spec fn read_log_state(m: MetaModel, events: Seq<Event>) -> ReadModel {
    ReadModel { meta: normalized(m), events, skipped: 0, saw_header: true, first: false }
}

proof fn lemma_read_log_lines(m: MetaModel, events: Seq<Event>)
    requires
        forall|i: int| 0 <= i < m.results.len() ==> clean_record(#[trigger] m.results[i]),
        forall|i: int| 0 <= i < events.len() ==> is_canonical(#[trigger] events[i]),
    ensures
        read_from(initial_read(), log_lines(m, events)) == Ok::<_, ReadError>(read_log_state(m, events)),
{
    let l = log_lines(m, events);
    lemma_fixed_lines();
    let w = m.warnings.map_values(|w: Seq<char>| kv_line("warning"@, w));
    let r = m.results.map_values(
        |r: (Seq<char>, Option<Verdict>, Seq<char>)| kv_line("result"@, spec_encode(r.0, r.1, r.2)),
    );
    let x = m.excluded.map_values(|k: Seq<char>| kv_line("excluded"@, k));
    let rows = events.map_values(|e: Event| row_text(e));
    let a = fixed_lines(m);
    let b = seq![edge_note(), header_line()];
    assert(l == a + w + r + x + b + rows);
    let s0 = initial_read();
    lemma_read_fixed(m);
    let sa = after_fixed(m);
    lemma_read_concat(s0, a, w);
    lemma_read_warnings(sa, m.warnings);
    let sw = ReadModel {
        meta: MetaModel { warnings: sa.meta.warnings + m.warnings.map_values(|w: Seq<char>| escape(w)), ..sa.meta },
        ..sa
    };
    lemma_read_concat(s0, a + w, r);
    lemma_read_results(sw, m.results);
    let sr = ReadModel { meta: MetaModel { results: sw.meta.results + m.results, ..sw.meta }, ..sw };
    lemma_read_concat(s0, a + w + r, x);
    lemma_read_excluded(sr, m.excluded);
    let sx = ReadModel {
        meta: MetaModel { excluded: sr.meta.excluded + m.excluded.map_values(|k: Seq<char>| escape(k)), ..sr.meta },
        ..sr
    };
    // the note above the header changes nothing, the header opens the rows
    lemma_read_concat(s0, a + w + r + x, b);
    assert(b == seq![edge_note()].push(header_line()));
    lemma_read_push(sx, seq![edge_note()], header_line());
    lemma_read_push(sx, Seq::empty(), edge_note());
    assert(Seq::<Seq<char>>::empty().push(edge_note()) =~= seq![edge_note()]);
    assert(read_step(sx, edge_note()) == Ok::<_, ReadError>(sx));
    let sb = ReadModel { saw_header: true, ..sx };
    assert(read_step(sx, header_line()) == Ok::<_, ReadError>(sb));
    lemma_read_concat(s0, a + w + r + x + b, rows);
    lemma_read_rows(sb, events);
    let sf = ReadModel { events: sb.events + events, ..sb };
    assert(sb.events + events =~= events);
    assert(sf.meta =~= normalized(m));
    assert(sf == read_log_state(m, events));
}

/// A line the reader cannot take as an event row: not empty, not a comment,
/// one line, and not a row that parses.
pub open spec fn bad_row(line: Seq<char>) -> bool {
    &&& line.len() > 0
    &&& line[0] != '#'
    &&& one_line(line)
    &&& spec_parse_row(line) is None
}

proof fn lemma_read_bad_rows(st: ReadModel, bad: Seq<Seq<char>>)
    requires
        !st.first,
        st.saw_header,
        forall|k: int| 0 <= k < bad.len() ==> bad_row(#[trigger] bad[k]),
    ensures
        read_from(st, bad) == Ok::<_, ReadError>(ReadModel { skipped: st.skipped + bad.len(), ..st }),
    decreases bad.len(),
{
    if bad.len() > 0 {
        let front = bad.drop_last();
        assert forall|k: int| 0 <= k < front.len() implies bad_row(#[trigger] front[k]) by {
            assert(front[k] == bad[k]);
        }
        lemma_read_bad_rows(st, front);
        let line = bad.last();
        assert(bad_row(bad[bad.len() - 1]));
        assert(!crate::text::starts_with(line, "# "@)) by {
            if crate::text::starts_with(line, "# "@) {
                reveal_strlit("# ");
                assert(line.take(2)[0] == line[0]);
            }
        }
    }
}

/// A log followed by rows that cannot be read still loads: the log's events
/// all come back, and each bad row is skipped and counted, neither failing
/// the load nor vanishing without a trace.
pub proof fn lemma_bad_rows_are_counted(m: MetaModel, events: Seq<Event>, bad: Seq<Seq<char>>)
    requires
        forall|i: int| 0 <= i < m.results.len() ==> clean_record(#[trigger] m.results[i]),
        forall|i: int| 0 <= i < events.len() ==> is_canonical(#[trigger] events[i]),
        forall|k: int| 0 <= k < bad.len() ==> bad_row(#[trigger] bad[k]),
    ensures
        spec_from_csv(crate::text::joined_lines(log_lines(m, events) + bad)) == Ok::<_, ReadError>(
            (normalized(m), events, bad.len()),
        ),
{
    let l = log_lines(m, events);
    lemma_lines_one_line(m, events);
    assert forall|k: int| 0 <= k < (l + bad).len() implies one_line(#[trigger] (l + bad)[k]) by {
        if k < l.len() {
            assert((l + bad)[k] == l[k]);
        } else {
            assert((l + bad)[k] == bad[k - l.len()]);
        }
    }
    lemma_text_lines_joined(l + bad);
    lemma_read_log_lines(m, events);
    lemma_read_concat(initial_read(), l, bad);
    lemma_read_bad_rows(read_log_state(m, events), bad);
}

/// Whether the reader takes `line` as a row: not empty and not a comment.
pub open spec fn is_row_line(line: Seq<char>) -> bool {
    line.len() > 0 && line[0] != '#'
}

/// The first line from `i` on that the reader takes as a row, or the number
/// of lines.
pub open spec fn first_row_at(ls: Seq<Seq<char>>, i: int) -> int
    decreases ls.len() - i,
{
    if i < 0 || i >= ls.len() {
        ls.len() as int
    } else if is_row_line(ls[i]) {
        i
    } else {
        first_row_at(ls, i + 1)
    }
}

proof fn lemma_first_row_at(ls: Seq<Seq<char>>, i: int)
    requires
        0 <= i <= ls.len(),
    ensures
        i <= first_row_at(ls, i) <= ls.len(),
        forall|k: int| i <= k < first_row_at(ls, i) ==> !is_row_line(#[trigger] ls[k]),
        first_row_at(ls, i) < ls.len() ==> is_row_line(ls[first_row_at(ls, i)]),
    decreases ls.len() - i,
{
    if i < ls.len() && !is_row_line(ls[i]) {
        lemma_first_row_at(ls, i + 1);
    }
}

/// Why a file with these lines is refused, or none when it loads: a first
/// line that does not name the format; then the first line that is neither
/// empty nor a comment, which must be the header; no such line at all.
pub open spec fn refusal_of(ls: Seq<Seq<char>>) -> Option<ReadError> {
    if ls.len() == 0 {
        Some(ReadError::NoEventRows)
    } else if !crate::text::starts_with(ls[0], magic_prefix()) {
        Some(ReadError::NotALog)
    } else {
        let j = first_row_at(ls, 1);
        if j >= ls.len() {
            Some(ReadError::NoEventRows)
        } else if ls[j] != header_line() {
            Some(ReadError::ColumnLayout(ls[j]))
        } else {
            None
        }
    }
}

proof fn lemma_not_a_comment(line: Seq<char>)
    requires
        line.len() > 0,
        line[0] != '#',
    ensures
        !crate::text::starts_with(line, "# "@),
{
    if crate::text::starts_with(line, "# "@) {
        reveal_strlit("# ");
        assert(line.take(2)[0] == line[0]);
    }
}

proof fn lemma_read_prefix_open(ls: Seq<Seq<char>>, k: int)
    requires
        1 <= k <= ls.len(),
        crate::text::starts_with(ls[0], magic_prefix()),
        forall|i: int| 1 <= i < k ==> !is_row_line(#[trigger] ls[i]),
    ensures
        read_from(initial_read(), ls.take(k)) is Ok,
        !read_from(initial_read(), ls.take(k))->Ok_0.first,
        !read_from(initial_read(), ls.take(k))->Ok_0.saw_header,
    decreases k,
{
    if k == 1 {
        assert(ls.take(1) =~= Seq::<Seq<char>>::empty().push(ls[0]));
        lemma_read_push(initial_read(), Seq::empty(), ls[0]);
    } else {
        lemma_read_prefix_open(ls, k - 1);
        assert(ls.take(k) =~= ls.take(k - 1).push(ls[k - 1]));
        lemma_read_push(initial_read(), ls.take(k - 1), ls[k - 1]);
        assert(!is_row_line(ls[k - 1]));
    }
}

proof fn lemma_read_after_header(st: ReadModel, xs: Seq<Seq<char>>)
    requires
        !st.first,
        st.saw_header,
    ensures
        read_from(st, xs) is Ok,
        read_from(st, xs)->Ok_0.saw_header,
        !read_from(st, xs)->Ok_0.first,
    decreases xs.len(),
{
    if xs.len() > 0 {
        lemma_read_after_header(st, xs.drop_last());
    }
}

/// How a file is refused: the first line must name the format; after it,
/// the first line that is neither empty nor a comment must be the header
/// exactly, or the refusal names that line; a file with no such line has
/// no event rows. Any file that passes these loads.
pub proof fn lemma_refusals_are_classified(text: Seq<char>)
    ensures
        match refusal_of(crate::text::text_lines(text)) {
            Some(e) => spec_from_csv(text) == Err::<(MetaModel, Seq<Event>, nat), ReadError>(e),
            None => spec_from_csv(text) is Ok,
        },
{
    let ls = crate::text::text_lines(text);
    let s0 = initial_read();
    if ls.len() == 0 {
        assert(read_from(s0, ls) == Ok::<_, ReadError>(s0));
    } else {
        assert(ls =~= ls.take(1) + ls.skip(1));
        lemma_read_concat(s0, ls.take(1), ls.skip(1));
        assert(ls.take(1) =~= Seq::<Seq<char>>::empty().push(ls[0]));
        lemma_read_push(s0, Seq::empty(), ls[0]);
        if crate::text::starts_with(ls[0], magic_prefix()) {
            lemma_first_row_at(ls, 1);
            let j = first_row_at(ls, 1);
            lemma_read_prefix_open(ls, j);
            let sj = read_from(s0, ls.take(j))->Ok_0;
            if j >= ls.len() {
                assert(ls.take(j) =~= ls);
            } else {
                assert(ls =~= ls.take(j + 1) + ls.skip(j + 1));
                lemma_read_concat(s0, ls.take(j + 1), ls.skip(j + 1));
                assert(ls.take(j + 1) =~= ls.take(j).push(ls[j]));
                lemma_read_push(s0, ls.take(j), ls[j]);
                lemma_not_a_comment(ls[j]);
                if ls[j] == header_line() {
                    lemma_read_after_header(ReadModel { saw_header: true, ..sj }, ls.skip(j + 1));
                }
            }
        }
    }
}

/// What a refusal says: a file that does not identify itself is refused as
/// "not a mouse-testing session log", and a wrong header as an "unexpected
/// column layout" naming the line found.
pub proof fn lemma_refusal_messages(line: Seq<char>)
    ensures
        crate::text::starts_with(error_message(ReadError::NotALog), "not a mouse-testing session log"@),
        crate::text::starts_with(
            error_message(ReadError::ColumnLayout(line)),
            "unexpected column layout: found "@ + debug_quote(line),
        ),
{
    reveal_strlit("not a mouse-testing session log: the first line does not identify one");
    reveal_strlit("not a mouse-testing session log");
    let p = "not a mouse-testing session log"@;
    assert(error_message(ReadError::NotALog).take(p.len() as int) =~= p);
    let q = "unexpected column layout: found "@ + debug_quote(line);
    let m = error_message(ReadError::ColumnLayout(line));
    assert(m =~= q + (", expected "@ + debug_quote(header_line())));
    assert(m.take(q.len() as int) =~= q);
}

} // verus!
