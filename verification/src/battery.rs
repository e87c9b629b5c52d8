//! The battery: which measurements count as part of one configuration, and
//! what each of them concluded.
//!
//! The question people arrive with is bigger than any one measurement: *I
//! changed a setting on the mouse, what did that do?* Answering it needs the
//! whole set of results from before the change beside the whole set from
//! after. So each result survives being written down as one line, and a test
//! deliberately left out is recorded as a decision, because "left out" and "not
//! measured" mean opposite things when two runs are put side by side.
use vstd::prelude::*;
use crate::polling::{worst_of, Verdict};
use crate::text::{
    chars_of, chars_eq, string_of, trim_range, trimmed, is_space, lemma_trimmed_unchanged, find_from,
    find_char, lemma_find_from, str_eq, push_decimal, push_str_chars, decimal,
};

verus! {

broadcast use vstd::string::group_string_axioms;

/// One measurement that can be part of a battery.
pub struct Item {
    pub key: &'static str,
    pub label: &'static str,
}

/// The keys of the battery's measurements, in the order they appear in the
/// sidebar, so the list reads like the app.
pub open spec fn item_keys() -> Seq<Seq<char>> {
    seq![
        "polling"@,
        "clicks"@,
        "cps"@,
        "ab"@,
        "sensor.cpi"@,
        "sensor.drift"@,
        "sensor.snap"@,
        "sensor.smooth"@,
        "sensor.tracking"@,
        "sensor.lod"@,
        "scroll.wheel"@,
        "scroll.tilt"@,
    ]
}

/// The label shown for each key of `item_keys`.
pub open spec fn item_labels() -> Seq<Seq<char>> {
    seq![
        "polling rate"@,
        "click and debounce"@,
        "clicks per second"@,
        "A/B comparison"@,
        "counts per inch"@,
        "drift and jitter"@,
        "angle snapping"@,
        "motion smoothing"@,
        "maximum tracking speed"@,
        "lift-off distance"@,
        "scroll wheel"@,
        "tilt wheel"@,
    ]
}

/// Every measurement a battery can hold, in sidebar order.
pub fn items() -> (r: Vec<Item>)
    ensures
        r@.len() == item_keys().len(),
        forall|i: int| 0 <= i < r@.len() ==> #[trigger] r@[i].key@ == item_keys()[i],
        forall|i: int| 0 <= i < r@.len() ==> #[trigger] r@[i].label@ == item_labels()[i],
{
    let mut v: Vec<Item> = Vec::new();
    v.push(Item { key: "polling", label: "polling rate" });
    v.push(Item { key: "clicks", label: "click and debounce" });
    v.push(Item { key: "cps", label: "clicks per second" });
    v.push(Item { key: "ab", label: "A/B comparison" });
    v.push(Item { key: "sensor.cpi", label: "counts per inch" });
    v.push(Item { key: "sensor.drift", label: "drift and jitter" });
    v.push(Item { key: "sensor.snap", label: "angle snapping" });
    v.push(Item { key: "sensor.smooth", label: "motion smoothing" });
    v.push(Item { key: "sensor.tracking", label: "maximum tracking speed" });
    v.push(Item { key: "sensor.lod", label: "lift-off distance" });
    v.push(Item { key: "scroll.wheel", label: "scroll wheel" });
    v.push(Item { key: "scroll.tilt", label: "tilt wheel" });
    v
}

/// Index of the first item whose key is `key`, from `i` on; the number of
/// items when there is none.
pub open spec fn item_index(key: Seq<char>, i: int) -> int
    decreases item_keys().len() - i,
{
    if i < 0 || i >= item_keys().len() {
        item_keys().len() as int
    } else if item_keys()[i] == key {
        i
    } else {
        item_index(key, i + 1)
    }
}

/// `key` names a measurement this build knows.
pub open spec fn is_known_key(key: Seq<char>) -> bool {
    item_index(key, 0) < item_keys().len()
}

/// The label of a known key, or the key itself for one this build does not
/// know.
pub open spec fn spec_label_for(key: Seq<char>) -> Seq<char> {
    let i = item_index(key, 0);
    if i < item_keys().len() {
        item_labels()[i]
    } else {
        key
    }
}

/// Finds the item for `key`, if this build knows it.
fn find_item(items: &Vec<Item>, key: &[char]) -> (r: usize)
    requires
        items@.len() == item_keys().len(),
        forall|i: int| 0 <= i < items@.len() ==> #[trigger] items@[i].key@ == item_keys()[i],
    ensures
        r as int == item_index(key@, 0),
{
    let mut i: usize = 0;
    while i < items.len()
        invariant
            items@.len() == item_keys().len(),
            forall|i: int| 0 <= i < items@.len() ==> #[trigger] items@[i].key@ == item_keys()[i],
            i <= items@.len(),
            item_index(key@, i as int) == item_index(key@, 0),
        decreases items@.len() - i,
    {
        let k = chars_of(items[i].key);
        if chars_eq(k.as_slice(), key) {
            return i;
        }
        i = i + 1;
    }
    i
}

/// The display label for a measurement key.
pub fn label_for(key: &str) -> (r: &str)
    ensures
        r@ == spec_label_for(key@),
{
    let all = items();
    let k = chars_of(key);
    let i = find_item(&all, k.as_slice());
    if i < all.len() {
        all[i].label
    } else {
        key
    }
}

/// The keys of `keys` that `off` holds, in the order of `keys`.
pub open spec fn keys_in(keys: Seq<Seq<char>>, off: Seq<Seq<char>>) -> Seq<Seq<char>>
    decreases keys.len(),
{
    if keys.len() == 0 {
        Seq::empty()
    } else {
        let rest = keys_in(keys.drop_last(), off);
        if off.contains(keys.last()) {
            rest.push(keys.last())
        } else {
            rest
        }
    }
}

/// Whether `key` is one of `off`.
fn holds_key(off: &[String], key: &str) -> (r: bool)
    ensures
        r == off@.map_values(|s: String| s@).contains(key@),
{
    let ghost views = off@.map_values(|s: String| s@);
    let mut j: usize = 0;
    while j < off.len()
        invariant
            j <= off@.len(),
            views == off@.map_values(|s: String| s@),
            forall|i: int| 0 <= i < j ==> views[i] != key@,
        decreases off@.len() - j,
    {
        if str_eq(off[j].as_str(), key) {
            assert(views[j as int] == key@);
            return true;
        }
        j = j + 1;
    }
    false
}

/// The measurements deliberately left out, in sidebar order: the battery's
/// keys that `off`, the keys switched off, holds.
///
/// Recorded alongside the results because otherwise a test the user chose to
/// skip is byte-for-byte identical in the file to one they never reached, and
/// those mean opposite things when two runs are compared.
pub fn excluded(off: &[String]) -> (r: Vec<String>)
    ensures
        r@.map_values(|s: String| s@) == keys_in(item_keys(), off@.map_values(|s: String| s@)),
{
    let all = items();
    let ghost offv = off@.map_values(|s: String| s@);
    let mut out: Vec<String> = Vec::new();
    let mut i: usize = 0;
    while i < all.len()
        invariant
            i <= all@.len(),
            all@.len() == item_keys().len(),
            forall|k: int| 0 <= k < all@.len() ==> #[trigger] all@[k].key@ == item_keys()[k],
            offv == off@.map_values(|s: String| s@),
            out@.map_values(|s: String| s@) == keys_in(item_keys().take(i as int), offv),
        decreases all@.len() - i,
    {
        let key = all[i].key;
        proof {
            assert(item_keys().take(i + 1).drop_last() =~= item_keys().take(i as int));
            assert(item_keys().take(i + 1).last() == key@);
        }
        if holds_key(off, key) {
            let ghost before = out@;
            out.push(String::from_str(key));
            proof {
                assert(out@.map_values(|s: String| s@) =~= before.map_values(|s: String| s@).push(key@));
            }
        }
        i = i + 1;
    }
    proof {
        assert(item_keys().take(i as int) =~= item_keys());
    }
    out
}

/// One measurement's result, as recorded and as compared.
///
/// `verdict` is optional because not every measurement produces one: CPS and
/// A/B report numbers rather than judgements.
#[derive(Clone, Debug, PartialEq)]
pub struct Record {
    pub key: String,
    pub verdict: Option<Verdict>,
    pub headline: String,
}

impl Record {
    /// A copy with the same key, verdict and headline.
    pub fn duplicate(&self) -> (r: Record)
        ensures
            r == *self,
    {
        Record { key: self.key.clone(), verdict: self.verdict, headline: self.headline.clone() }
    }
}

/// The word a verdict is written as; `-` for a measurement that gives none.
pub open spec fn verdict_word(v: Option<Verdict>) -> Seq<char> {
    match v {
        None => "-"@,
        Some(Verdict::Pass) => "pass"@,
        Some(Verdict::Warn) => "warn"@,
        Some(Verdict::Fail) => "fail"@,
        Some(Verdict::Inconclusive) => "inconclusive"@,
    }
}

/// The verdict a word stands for: `Some(None)` for `-`, `None` for a word
/// this build does not know.
pub open spec fn word_verdict(w: Seq<char>) -> Option<Option<Verdict>> {
    if w == "-"@ {
        Some(None)
    } else if w == "pass"@ {
        Some(Some(Verdict::Pass))
    } else if w == "warn"@ {
        Some(Some(Verdict::Warn))
    } else if w == "fail"@ {
        Some(Some(Verdict::Fail))
    } else if w == "inconclusive"@ {
        Some(Some(Verdict::Inconclusive))
    } else {
        None
    }
}

fn verdict_name(v: Option<Verdict>) -> (s: &'static str)
    ensures
        s@ == verdict_word(v),
{
    match v {
        None => "-",
        Some(Verdict::Pass) => "pass",
        Some(Verdict::Warn) => "warn",
        Some(Verdict::Fail) => "fail",
        Some(Verdict::Inconclusive) => "inconclusive",
    }
}

fn verdict_from(w: &[char]) -> (r: Option<Option<Verdict>>)
    ensures
        r == word_verdict(w@),
{
    if chars_eq(w, chars_of("-").as_slice()) {
        Some(None)
    } else if chars_eq(w, chars_of("pass").as_slice()) {
        Some(Some(Verdict::Pass))
    } else if chars_eq(w, chars_of("warn").as_slice()) {
        Some(Some(Verdict::Warn))
    } else if chars_eq(w, chars_of("fail").as_slice()) {
        Some(Some(Verdict::Fail))
    } else if chars_eq(w, chars_of("inconclusive").as_slice()) {
        Some(Some(Verdict::Inconclusive))
    } else {
        None
    }
}

/// A field as written into a result line: the separator and line breaks
/// become spaces, so no text can add a field or a line.
pub open spec fn sanitize(s: Seq<char>) -> Seq<char> {
    s.map_values(|c: char| if c == '|' || c == '\n' || c == '\r' { ' ' } else { c })
}

/// `key|verdict|headline`, one line.
pub open spec fn spec_encode(key: Seq<char>, v: Option<Verdict>, headline: Seq<char>) -> Seq<char> {
    sanitize(key) + seq!['|'] + verdict_word(v) + seq!['|'] + sanitize(headline)
}


/// What a result line reads back as: key, verdict and headline, or nothing
/// when the line has no separator, no key, or a verdict word this build does
/// not know.
pub open spec fn spec_decode(line: Seq<char>) -> Option<(Seq<char>, Option<Verdict>, Seq<char>)> {
    let p1 = find_from(line, '|', 0);
    if p1 >= line.len() {
        None
    } else {
        let p2 = find_from(line, '|', p1 + 1);
        let key = trimmed(line.subrange(0, p1));
        let word = trimmed(line.subrange(p1 + 1, p2));
        let headline = if p2 >= line.len() {
            Seq::empty()
        } else {
            trimmed(line.subrange(p2 + 1, line.len() as int))
        };
        if key.len() == 0 {
            None
        } else {
            match word_verdict(word) {
                Some(v) => Some((key, v, headline)),
                None => None,
            }
        }
    }
}

fn push_sanitized(out: &mut Vec<char>, s: &[char])
    ensures
        final(out)@ == old(out)@ + sanitize(s@),
{
    let ghost base = old(out)@;
    let mut i: usize = 0;
    while i < s.len()
        invariant
            i <= s@.len(),
            out@ == base + sanitize(s@.take(i as int)),
        decreases s@.len() - i,
    {
        let c = s[i];
        let d = if c == '|' || c == '\n' || c == '\r' {
            ' '
        } else {
            c
        };
        out.push(d);
        proof {
            assert(sanitize(s@.take(i + 1)) =~= sanitize(s@.take(i as int)).push(d));
        }
        i = i + 1;
    }
    proof {
        assert(s@.take(i as int) =~= s@);
    }
}


impl Record {
    /// `key|verdict|headline`, one line, for the export's comment block. The
    /// key is sanitised too: a key with a separator in it would decode into a
    /// different record.
    pub fn encode(&self) -> (s: String)
        ensures
            s@ == spec_encode(self.key@, self.verdict, self.headline@),
    {
        let mut out: Vec<char> = Vec::new();
        let key = chars_of(self.key.as_str());
        push_sanitized(&mut out, key.as_slice());
        out.push('|');
        let word = chars_of(verdict_name(self.verdict));
        let mut i: usize = 0;
        let ghost base = out@;
        while i < word.len()
            invariant
                i <= word@.len(),
                out@ == base + word@.take(i as int),
            decreases word@.len() - i,
        {
            out.push(word[i]);
            proof {
                assert(word@.take(i + 1) =~= word@.take(i as int).push(word@[i as int]));
            }
            i = i + 1;
        }
        proof {
            assert(word@.take(i as int) =~= word@);
        }
        out.push('|');
        let head = chars_of(self.headline.as_str());
        push_sanitized(&mut out, head.as_slice());
        proof {
            assert(out@ =~= spec_encode(self.key@, self.verdict, self.headline@));
        }
        string_of(out.as_slice())
    }

    /// Reads a line written by `encode`. A line without a separator or a
    /// key, or with a verdict word from a later build, is skipped rather than
    /// shown as something it is not.
    pub fn decode(line: &str) -> (r: Option<Record>)
        ensures
            match r {
                None => spec_decode(line@) is None,
                Some(rec) => spec_decode(line@) == Some((rec.key@, rec.verdict, rec.headline@)),
            },
    {
        let cs = chars_of(line);
        let n = cs.len();
        let p1 = find_char(cs.as_slice(), '|', 0);
        if p1 >= n {
            return None;
        }
        let p2 = find_char(cs.as_slice(), '|', p1 + 1);
        let key = trim_range(cs.as_slice(), 0, p1);
        let word = trim_range(cs.as_slice(), p1 + 1, p2);
        let headline: Vec<char> = if p2 >= n {
            Vec::new()
        } else {
            trim_range(cs.as_slice(), p2 + 1, n)
        };
        if key.len() == 0 {
            return None;
        }
        match verdict_from(word.as_slice()) {
            Some(v) => {
                let rec = Record {
                    key: string_of(key.as_slice()),
                    verdict: v,
                    headline: string_of(headline.as_slice()),
                };
                proof {
                    if p2 >= n {
                        assert(headline@ =~= Seq::<char>::empty());
                    }
                }
                Some(rec)
            },
            None => None,
        }
    }
}

/// What one side of a comparison has to say about one measurement.
///
/// Three states, not two: "left out" and "not measured" both leave the column
/// blank, but one side chose not to run the test and the other never got to
/// it. Only the second is a hole in the evidence.
#[derive(Clone, Debug, PartialEq)]
pub enum Side {
    Recorded(Record),
    LeftOut,
    NotMeasured,
}

impl Side {
    pub fn record(&self) -> (r: Option<&Record>)
        ensures
            match r {
                Some(rec) => *self == Side::Recorded(*rec),
                None => !(self is Recorded),
            },
    {
        match self {
            Side::Recorded(r) => Some(r),
            _ => None,
        }
    }
}

/// One row of the comparison.
pub struct Row {
    pub key: String,
    pub before: Side,
    pub after: Side,
}

/// The verdict moved between two sides that both recorded the measurement.
pub open spec fn verdict_moved(before: Side, after: Side) -> bool {
    match (before, after) {
        (Side::Recorded(a), Side::Recorded(b)) => a.verdict != b.verdict,
        _ => false,
    }
}

/// Only a moved verdict is a change: two recorded sides differ exactly when
/// their verdicts do, whatever their keys and headlines say, and a side that
/// was left out or not measured never makes a change.
pub proof fn lemma_only_verdicts_change(a: Record, b: Record, before: Side, after: Side)
    ensures
        verdict_moved(Side::Recorded(a), Side::Recorded(b)) <==> a.verdict != b.verdict,
        a.verdict == b.verdict ==> !verdict_moved(Side::Recorded(a), Side::Recorded(b)),
        !(before is Recorded && after is Recorded) ==> !verdict_moved(before, after),
{
}

impl Row {
    /// Whether the verdict moved, which is the only thing worth colouring.
    pub fn changed(&self) -> (r: bool)
        ensures
            r == verdict_moved(self.before, self.after),
    {
        match (&self.before, &self.after) {
            (Side::Recorded(a), Side::Recorded(b)) => !same_verdict(a.verdict, b.verdict),
            _ => false,
        }
    }
}

fn same_verdict(a: Option<Verdict>, b: Option<Verdict>) -> (r: bool)
    ensures
        r == (a == b),
{
    match (a, b) {
        (None, None) => true,
        (Some(x), Some(y)) => x == y,
        _ => false,
    }
}

/// Index of the first record for `key` from `i` on, or the number of records.
pub open spec fn record_index(rs: Seq<Record>, key: Seq<char>, i: int) -> int
    decreases rs.len() - i,
{
    if i < 0 || i >= rs.len() {
        rs.len() as int
    } else if rs[i].key@ == key {
        i
    } else {
        record_index(rs, key, i + 1)
    }
}

/// What one snapshot says about `key`. A recorded result outranks an
/// exclusion: a result that was really taken is the stronger evidence.
pub open spec fn spec_side(key: Seq<char>, rs: Seq<Record>, excluded: Seq<String>) -> Side {
    let i = record_index(rs, key, 0);
    if i < rs.len() {
        Side::Recorded(rs[i])
    } else if exists|j: int| 0 <= j < excluded.len() && #[trigger] excluded[j]@ == key {
        Side::LeftOut
    } else {
        Side::NotMeasured
    }
}

/// Whether either side has anything at all to say about `key`.
pub open spec fn worth_showing(
    key: Seq<char>,
    before: Seq<Record>,
    bx: Seq<String>,
    after: Seq<Record>,
    ax: Seq<String>,
) -> bool {
    !(spec_side(key, before, bx) is NotMeasured && spec_side(key, after, ax) is NotMeasured)
}

/// The sequence with every element after its first occurrence removed.
pub open spec fn first_occurrences(s: Seq<Seq<char>>) -> Seq<Seq<char>>
    decreases s.len(),
{
    if s.len() == 0 {
        s
    } else {
        let d = first_occurrences(s.drop_last());
        if d.contains(s.last()) {
            d
        } else {
            d.push(s.last())
        }
    }
}

/// Every key either snapshot mentions, in the order: before's results,
/// after's results, before's exclusions, after's exclusions.
pub open spec fn mentioned_keys(
    before: Seq<Record>,
    bx: Seq<String>,
    after: Seq<Record>,
    ax: Seq<String>,
) -> Seq<Seq<char>> {
    before.map_values(|r: Record| r.key@) + after.map_values(|r: Record| r.key@) + bx.map_values(
        |k: String| k@,
    ) + ax.map_values(|k: String| k@)
}

/// The keys of the comparison's rows: the known measurements either side has
/// something on, in sidebar order; then every key this build does not know,
/// once, in order of first mention.
pub open spec fn compared_keys(
    before: Seq<Record>,
    bx: Seq<String>,
    after: Seq<Record>,
    ax: Seq<String>,
) -> Seq<Seq<char>> {
    item_keys().filter(|k: Seq<char>| worth_showing(k, before, bx, after, ax)) + first_occurrences(
        mentioned_keys(before, bx, after, ax).filter(
            |k: Seq<char>| !is_known_key(k) && worth_showing(k, before, bx, after, ax),
        ),
    )
}

fn side_for(key: &[char], records: &[Record], excluded: &[String]) -> (s: Side)
    ensures
        s == spec_side(key@, records@, excluded@),
{
    let mut i: usize = 0;
    while i < records.len()
        invariant
            i <= records@.len(),
            record_index(records@, key@, i as int) == record_index(records@, key@, 0),
        decreases records@.len() - i,
    {
        let k = chars_of(records[i].key.as_str());
        if chars_eq(k.as_slice(), key) {
            return Side::Recorded(records[i].duplicate());
        }
        i = i + 1;
    }
    let mut j: usize = 0;
    while j < excluded.len()
        invariant
            j <= excluded@.len(),
            record_index(records@, key@, 0) == records@.len(),
            forall|m: int| 0 <= m < j ==> #[trigger] excluded@[m]@ != key@,
        decreases excluded@.len() - j,
    {
        let k = chars_of(excluded[j].as_str());
        if chars_eq(k.as_slice(), key) {
            assert(excluded@[j as int]@ == key@);
            return Side::LeftOut;
        }
        j = j + 1;
    }
    Side::NotMeasured
}

/// The keys of a list of rows.
pub open spec fn row_keys(rows: Seq<Row>) -> Seq<Seq<char>> {
    rows.map_values(|r: Row| r.key@)
}

proof fn lemma_item_index_bound(key: Seq<char>, i: int, j: int)
    requires
        0 <= j <= i < item_keys().len(),
        item_keys()[i] == key,
    ensures
        item_index(key, j) <= i,
    decreases i - j,
{
    if j < i && item_keys()[j] != key {
        lemma_item_index_bound(key, i, j + 1);
    }
}

proof fn lemma_known_part_is_known(s: Seq<Seq<char>>, k: Seq<char>)
    requires
        forall|m: int| 0 <= m < s.len() ==> item_keys().contains(#[trigger] s[m]),
        !is_known_key(k),
    ensures
        !s.contains(k),
{
    if s.contains(k) {
        let m = choose|m: int| 0 <= m < s.len() && s[m] == k;
        assert(item_keys().contains(s[m]));
        let i = choose|i: int| 0 <= i < item_keys().len() && item_keys()[i] == k;
        lemma_item_index_bound(k, i, 0);
    }
}

fn contains_key(rows: &Vec<Row>, key: &[char]) -> (r: bool)
    ensures
        r == row_keys(rows@).contains(key@),
{
    let mut i: usize = 0;
    while i < rows.len()
        invariant
            i <= rows@.len(),
            forall|m: int| 0 <= m < i ==> #[trigger] rows@[m].key@ != key@,
        decreases rows@.len() - i,
    {
        let k = chars_of(rows[i].key.as_str());
        if chars_eq(k.as_slice(), key) {
            assert(row_keys(rows@)[i as int] == key@);
            return true;
        }
        i = i + 1;
    }
    proof {
        if row_keys(rows@).contains(key@) {
            let m = choose|m: int| 0 <= m < row_keys(rows@).len() && row_keys(rows@)[m] == key@;
            assert(rows@[m].key@ == key@);
        }
    }
    false
}

fn push_chars_of_records(out: &mut Vec<Vec<char>>, rs: &[Record])
    ensures
        final(out)@.map_values(|v: Vec<char>| v@) == old(out)@.map_values(|v: Vec<char>| v@)
            + rs@.map_values(|r: Record| r.key@),
{
    let ghost base = old(out)@.map_values(|v: Vec<char>| v@);
    let mut i: usize = 0;
    while i < rs.len()
        invariant
            i <= rs@.len(),
            out@.map_values(|v: Vec<char>| v@) == base + rs@.take(i as int).map_values(
                |r: Record| r.key@,
            ),
        decreases rs@.len() - i,
    {
        let k = chars_of(rs[i].key.as_str());
        let ghost before_push = out@;
        out.push(k);
        proof {
            assert(k@ == rs@[i as int].key@);
            assert(out@ == before_push.push(k));
            assert(out@.map_values(|v: Vec<char>| v@) =~= before_push.map_values(
                |v: Vec<char>| v@,
            ).push(k@));
            assert(rs@.take(i + 1).map_values(|r: Record| r.key@) =~= rs@.take(i as int).map_values(
                |r: Record| r.key@,
            ).push(rs@[i as int].key@));
            assert(out@.map_values(|v: Vec<char>| v@) =~= base + rs@.take(i + 1).map_values(
                |r: Record| r.key@,
            ));
        }
        i = i + 1;
    }
    proof {
        assert(rs@.take(i as int) =~= rs@);
    }
}

fn push_chars_of_strings(out: &mut Vec<Vec<char>>, ks: &[String])
    ensures
        final(out)@.map_values(|v: Vec<char>| v@) == old(out)@.map_values(|v: Vec<char>| v@)
            + ks@.map_values(|k: String| k@),
{
    let ghost base = old(out)@.map_values(|v: Vec<char>| v@);
    let mut i: usize = 0;
    while i < ks.len()
        invariant
            i <= ks@.len(),
            out@.map_values(|v: Vec<char>| v@) == base + ks@.take(i as int).map_values(
                |k: String| k@,
            ),
        decreases ks@.len() - i,
    {
        let k = chars_of(ks[i].as_str());
        let ghost before_push = out@;
        out.push(k);
        proof {
            assert(k@ == ks@[i as int]@);
            assert(out@ == before_push.push(k));
            assert(out@.map_values(|v: Vec<char>| v@) =~= before_push.map_values(
                |v: Vec<char>| v@,
            ).push(k@));
            assert(ks@.take(i + 1).map_values(|k: String| k@) =~= ks@.take(i as int).map_values(
                |k: String| k@,
            ).push(ks@[i as int]@));
            assert(out@.map_values(|v: Vec<char>| v@) =~= base + ks@.take(i + 1).map_values(
                |k: String| k@,
            ));
        }
        i = i + 1;
    }
    proof {
        assert(ks@.take(i as int) =~= ks@);
    }
}

/// Pairs two snapshots up by key, keeping anything either of them has.
///
/// A measurement one side lacks is kept and marked, never dropped: dropping it
/// would turn "we did not measure this after the change" into silence, and
/// silence reads as agreement. Keys from another version of the app are still
/// shown rather than quietly disappearing.
pub fn compare(
    before: &[Record],
    before_excluded: &[String],
    after: &[Record],
    after_excluded: &[String],
) -> (rows: Vec<Row>)
    ensures
        row_keys(rows@) == compared_keys(before@, before_excluded@, after@, after_excluded@),
        forall|i: int|
            0 <= i < rows@.len() ==> #[trigger] rows@[i].before == spec_side(
                rows@[i].key@,
                before@,
                before_excluded@,
            ) && rows@[i].after == spec_side(rows@[i].key@, after@, after_excluded@),
{
    let ghost worth = |k: Seq<char>|
        worth_showing(k, before@, before_excluded@, after@, after_excluded@);
    let all = items();
    let mut rows: Vec<Row> = Vec::new();
    let mut i: usize = 0;
    while i < all.len()
        invariant
            all@.len() == item_keys().len(),
            forall|m: int| 0 <= m < all@.len() ==> #[trigger] all@[m].key@ == item_keys()[m],
            i <= all@.len(),
            worth == (|k: Seq<char>|
                worth_showing(k, before@, before_excluded@, after@, after_excluded@)),
            row_keys(rows@) == item_keys().take(i as int).filter(worth),
            forall|m: int|
                0 <= m < rows@.len() ==> #[trigger] rows@[m].before == spec_side(
                    rows@[m].key@,
                    before@,
                    before_excluded@,
                ) && rows@[m].after == spec_side(rows@[m].key@, after@, after_excluded@),
        decreases all@.len() - i,
    {
        let key = chars_of(all[i].key);
        let b = side_for(key.as_slice(), before, before_excluded);
        let a = side_for(key.as_slice(), after, after_excluded);
        proof {
            assert(item_keys().take(i + 1) =~= item_keys().take(i as int).push(key@));
            item_keys().take(i as int).lemma_filter_push(key@, worth);
        }
        let show = !(matches!(b, Side::NotMeasured) && matches!(a, Side::NotMeasured));
        if show {
            let ghost old_rows = rows@;
            rows.push(Row { key: string_of(key.as_slice()), before: b, after: a });
            proof {
                assert(row_keys(rows@) =~= row_keys(old_rows).push(key@));
            }
        }
        i = i + 1;
    }
    proof {
        assert(item_keys().take(i as int) =~= item_keys());
    }
    let ghost known_part = row_keys(rows@);
    proof {
        assert forall|m: int| 0 <= m < known_part.len() implies item_keys().contains(
            #[trigger] known_part[m],
        ) by {
            assert(known_part.contains(known_part[m]));
            item_keys().lemma_filter_contains_rev(worth, known_part[m]);
        }
    }
    let mut mentioned: Vec<Vec<char>> = Vec::new();
    push_chars_of_records(&mut mentioned, before);
    push_chars_of_records(&mut mentioned, after);
    push_chars_of_strings(&mut mentioned, before_excluded);
    push_chars_of_strings(&mut mentioned, after_excluded);
    let ghost ms = mentioned@.map_values(|v: Vec<char>| v@);
    proof {
        assert(ms =~= mentioned_keys(before@, before_excluded@, after@, after_excluded@));
    }
    let ghost extra = |k: Seq<char>| !is_known_key(k) && worth(k);
    let mut j: usize = 0;
    while j < mentioned.len()
        invariant
            all@.len() == item_keys().len(),
            forall|m: int| 0 <= m < all@.len() ==> #[trigger] all@[m].key@ == item_keys()[m],
            j <= mentioned@.len(),
            ms == mentioned@.map_values(|v: Vec<char>| v@),
            worth == (|k: Seq<char>|
                worth_showing(k, before@, before_excluded@, after@, after_excluded@)),
            extra == (|k: Seq<char>| !is_known_key(k) && worth(k)),
            forall|m: int| 0 <= m < known_part.len() ==> item_keys().contains(
                #[trigger] known_part[m],
            ),
            row_keys(rows@) == known_part + first_occurrences(ms.take(j as int).filter(extra)),
            forall|m: int|
                0 <= m < rows@.len() ==> #[trigger] rows@[m].before == spec_side(
                    rows@[m].key@,
                    before@,
                    before_excluded@,
                ) && rows@[m].after == spec_side(rows@[m].key@, after@, after_excluded@),
        decreases mentioned@.len() - j,
    {
        let key = mentioned[j].clone();
        proof {
            assert(key@ == ms[j as int]);
            assert(ms.take(j + 1) =~= ms.take(j as int).push(key@));
            ms.take(j as int).lemma_filter_push(key@, extra);
        }
        let ghost prev = first_occurrences(ms.take(j as int).filter(extra));
        let known = find_item(&all, key.as_slice()) < all.len();
        if !known {
            let present = contains_key(&rows, key.as_slice());
            proof {
                lemma_known_part_is_known(known_part, key@);
                if prev.contains(key@) {
                    let m = choose|m: int| 0 <= m < prev.len() && prev[m] == key@;
                    assert((known_part + prev)[known_part.len() + m] == key@);
                }
                if (known_part + prev).contains(key@) {
                    let m = choose|m: int|
                        0 <= m < (known_part + prev).len() && (known_part + prev)[m] == key@;
                    if m < known_part.len() {
                        assert(known_part.contains(key@));
                    } else {
                        assert(prev[m - known_part.len()] == key@);
                    }
                }
                assert(present == prev.contains(key@));
            }
            if !present {
                let b = side_for(key.as_slice(), before, before_excluded);
                let a = side_for(key.as_slice(), after, after_excluded);
                let show = !(matches!(b, Side::NotMeasured) && matches!(a, Side::NotMeasured));
                if show {
                    let ghost old_rows = rows@;
                    rows.push(Row { key: string_of(key.as_slice()), before: b, after: a });
                    proof {
                        assert(row_keys(rows@) =~= row_keys(old_rows).push(key@));
                        let s = ms.take(j + 1).filter(extra);
                        assert(s.drop_last() =~= ms.take(j as int).filter(extra));
                        assert(known_part + prev.push(key@) =~= (known_part + prev).push(key@));
                    }
                } else {
                    proof {
                        assert(!worth(key@));
                    }
                }
            } else {
                proof {
                    if extra(key@) {
                        let s = ms.take(j + 1).filter(extra);
                        assert(s.drop_last() =~= ms.take(j as int).filter(extra));
                    }
                }
            }
        } else {
            proof {
                assert(!extra(key@));
            }
        }
        j = j + 1;
    }
    proof {
        assert(ms.take(j as int) =~= ms);
        let w2 = |k: Seq<char>|
            worth_showing(k, before@, before_excluded@, after@, after_excluded@);
        let e2 = |k: Seq<char>|
            !is_known_key(k) && worth_showing(k, before@, before_excluded@, after@, after_excluded@);
        assert(worth =~= w2);
        assert(extra =~= e2);
    }
    rows
}

/// A field that survives a result line unchanged: no separator, no line
/// break, and no white space at either end.
pub open spec fn is_clean_field(s: Seq<char>) -> bool {
    &&& forall|i: int| 0 <= i < s.len() ==> #[trigger] s[i] != '|' && s[i] != '\n' && s[i] != '\r'
    &&& (s.len() == 0 || (!is_space(s[0]) && !is_space(s.last())))
}


proof fn lemma_sanitize_clean(s: Seq<char>)
    requires
        is_clean_field(s),
    ensures
        sanitize(s) == s,
{
    assert(sanitize(s) =~= s);
}

proof fn lemma_words()
    ensures
        forall|v: Option<Verdict>| #[trigger] word_verdict(verdict_word(v)) == Some(v),
        forall|v: Option<Verdict>|
            verdict_word(v).len() > 0 && is_clean_field(#[trigger] verdict_word(v)),
{
    reveal_strlit("-");
    reveal_strlit("pass");
    reveal_strlit("warn");
    reveal_strlit("fail");
    reveal_strlit("inconclusive");
    assert forall|v: Option<Verdict>| #[trigger] word_verdict(verdict_word(v)) == Some(v) by {
        assert("pass"@.len() != "-"@.len());
        assert("warn"@.len() != "-"@.len() && "warn"@[0] != "pass"@[0]);
        assert("fail"@.len() != "-"@.len() && "fail"@[0] != "pass"@[0] && "fail"@[0]
            != "warn"@[0]);
        assert("inconclusive"@.len() != "-"@.len() && "inconclusive"@.len() != "pass"@.len());
        assert("inconclusive"@.len() != "warn"@.len() && "inconclusive"@.len() != "fail"@.len());
    }
}

/// A record whose key and headline are clean reads back from its own line
/// exactly: same key, same verdict (or none), same headline.
pub proof fn lemma_encode_decode_round_trip(key: Seq<char>, v: Option<Verdict>, headline: Seq<char>)
    requires
        key.len() > 0,
        is_clean_field(key),
        is_clean_field(headline),
    ensures
        spec_decode(spec_encode(key, v, headline)) == Some((key, v, headline)),
{
    lemma_words();
    let w = verdict_word(v);
    lemma_sanitize_clean(key);
    lemma_sanitize_clean(headline);
    let line = spec_encode(key, v, headline);
    assert(line =~= key + seq!['|'] + w + seq!['|'] + headline);
    let p1 = key.len() as int;
    let p2 = p1 + 1 + w.len();
    assert forall|m: int| 0 <= m < p1 implies line[m] != '|' by {
        assert(line[m] == key[m]);
    }
    lemma_find_from(line, '|', 0, p1);
    assert forall|m: int| p1 + 1 <= m < p2 implies line[m] != '|' by {
        assert(line[m] == w[m - p1 - 1]);
    }
    lemma_find_from(line, '|', p1 + 1, p2);
    assert(line.subrange(0, p1) =~= key);
    assert(line.subrange(p1 + 1, p2) =~= w);
    assert(line.subrange(p2 + 1, line.len() as int) =~= headline);
    lemma_trimmed_unchanged(key);
    lemma_trimmed_unchanged(w);
    lemma_trimmed_unchanged(headline);
    if p2 >= line.len() {
        assert(false);
    }
}

/// A result line is always exactly one line of exactly three fields: it holds
/// the separator at its two field boundaries and nowhere else, and no line
/// break at all, whatever the key and headline hold.
pub proof fn lemma_encode_is_one_line(key: Seq<char>, v: Option<Verdict>, headline: Seq<char>)
    ensures
        ({
            let line = spec_encode(key, v, headline);
            let p1 = key.len() as int;
            let p2 = p1 + 1 + verdict_word(v).len();
            &&& line[p1] == '|'
            &&& line[p2] == '|'
            &&& forall|i: int|
                0 <= i < line.len() && i != p1 && i != p2 ==> #[trigger] line[i] != '|'
            &&& forall|i: int| 0 <= i < line.len() ==> #[trigger] line[i] != '\n' && line[i]
                != '\r'
        }),
{
    lemma_words();
    let w = verdict_word(v);
    let line = spec_encode(key, v, headline);
    let sk = sanitize(key);
    let sh = sanitize(headline);
    assert(line =~= sk + seq!['|'] + w + seq!['|'] + sh);
    let p1 = key.len() as int;
    let p2 = p1 + 1 + w.len();
    assert forall|i: int| 0 <= i < line.len() && i != p1 && i != p2 implies #[trigger] line[i]
        != '|' by {
        if i < p1 {
            assert(line[i] == sk[i]);
        } else if i < p2 {
            assert(line[i] == w[i - p1 - 1]);
        } else {
            assert(line[i] == sh[i - p2 - 1]);
        }
    }
    assert forall|i: int| 0 <= i < line.len() implies #[trigger] line[i] != '\n' && line[i]
        != '\r' by {
        if i < p1 {
            assert(line[i] == sk[i]);
        } else if i == p1 || i == p2 {
        } else if i < p2 {
            assert(line[i] == w[i - p1 - 1]);
        } else {
            assert(line[i] == sh[i - p2 - 1]);
        }
    }
}

proof fn lemma_record_index_found(rs: Seq<Record>, key: Seq<char>, i: int, j: int)
    requires
        0 <= i <= j < rs.len(),
        rs[j].key@ == key,
    ensures
        record_index(rs, key, i) <= j,
    decreases j - i,
{
    if i < j && rs[i].key@ != key {
        lemma_record_index_found(rs, key, i + 1, j);
    }
}

proof fn lemma_first_occurrences_contains(s: Seq<Seq<char>>, x: Seq<char>)
    ensures
        first_occurrences(s).contains(x) <==> s.contains(x),
    decreases s.len(),
{
    if s.len() > 0 {
        let init = s.drop_last();
        lemma_first_occurrences_contains(init, x);
        if s.contains(x) && x != s.last() {
            let m = choose|m: int| 0 <= m < s.len() && s[m] == x;
            assert(init[m] == x);
        }
        if init.contains(x) {
            let m = choose|m: int| 0 <= m < init.len() && init[m] == x;
            assert(s[m] == x);
        }
        let d = first_occurrences(init);
        if !d.contains(s.last()) {
            assert(d.push(s.last())[d.len() as int] == s.last());
            if d.contains(x) {
                let m = choose|m: int| 0 <= m < d.len() && d[m] == x;
                assert(d.push(s.last())[m] == x);
            }
            if d.push(s.last()).contains(x) && x != s.last() {
                let m = choose|m: int| 0 <= m < d.len() + 1 && d.push(s.last())[m] == x;
                assert(d[m] == x);
            }
        }
        assert(s[s.len() - 1] == s.last());
    }
}

/// A snapshot that mentions a key, by a result or by an exclusion, always has
/// something to show for it.
proof fn lemma_mentioned_is_worth_showing(
    before: Seq<Record>,
    bx: Seq<String>,
    after: Seq<Record>,
    ax: Seq<String>,
    k: Seq<char>,
)
    requires
        mentioned_keys(before, bx, after, ax).contains(k),
    ensures
        worth_showing(k, before, bx, after, ax),
{
    let ms = mentioned_keys(before, bx, after, ax);
    let m = choose|m: int| 0 <= m < ms.len() && ms[m] == k;
    let nb = before.len() as int;
    let na = after.len() as int;
    let nbx = bx.len() as int;
    if m < nb {
        assert(before[m].key@ == k);
        lemma_record_index_found(before, k, 0, m);
    } else if m < nb + na {
        assert(after[m - nb].key@ == k);
        lemma_record_index_found(after, k, 0, m - nb);
    } else if m < nb + na + nbx {
        assert(bx[m - nb - na]@ == k);
    } else {
        assert(ax[m - nb - na - nbx]@ == k);
    }
}

/// Nothing either snapshot mentions goes missing from the comparison: every
/// key with a result or an exclusion on either side gets a row.
pub proof fn lemma_compare_keeps_every_mentioned_key(
    before: Seq<Record>,
    bx: Seq<String>,
    after: Seq<Record>,
    ax: Seq<String>,
    k: Seq<char>,
)
    requires
        mentioned_keys(before, bx, after, ax).contains(k),
    ensures
        compared_keys(before, bx, after, ax).contains(k),
{
    let worth = |x: Seq<char>| worth_showing(x, before, bx, after, ax);
    let extra = |x: Seq<char>| !is_known_key(x) && worth_showing(x, before, bx, after, ax);
    lemma_mentioned_is_worth_showing(before, bx, after, ax, k);
    let known = item_keys().filter(worth);
    let ms = mentioned_keys(before, bx, after, ax);
    let rest = first_occurrences(ms.filter(extra));
    assert(compared_keys(before, bx, after, ax) == known + rest);
    if is_known_key(k) {
        let i = item_index(k, 0);
        lemma_item_index_is_match(k, 0);
        assert(worth(item_keys()[i]));
        item_keys().lemma_filter_contains(worth, i);
        let m = choose|m: int| 0 <= m < known.len() && known[m] == k;
        assert((known + rest)[m] == k);
    } else {
        let m = choose|m: int| 0 <= m < ms.len() && ms[m] == k;
        ms.lemma_filter_contains(extra, m);
        lemma_first_occurrences_contains(ms.filter(extra), k);
        let r = choose|r: int| 0 <= r < rest.len() && rest[r] == k;
        assert((known + rest)[known.len() + r] == k);
    }
}

proof fn lemma_item_index_is_match(key: Seq<char>, i: int)
    requires
        0 <= i,
        item_index(key, i) < item_keys().len(),
    ensures
        i <= item_index(key, i),
        item_keys()[item_index(key, i)] == key,
    decreases item_keys().len() - i,
{
    if i < item_keys().len() && item_keys()[i] != key {
        lemma_item_index_is_match(key, i + 1);
    }
}

proof fn lemma_record_index_is_match(rs: Seq<Record>, key: Seq<char>, i: int)
    requires
        0 <= i,
        record_index(rs, key, i) < rs.len(),
    ensures
        i <= record_index(rs, key, i),
        rs[record_index(rs, key, i)].key@ == key,
    decreases rs.len() - i,
{
    if i < rs.len() && rs[i].key@ != key {
        lemma_record_index_is_match(rs, key, i + 1);
    }
}

/// A key either side has something on is one the snapshots mention.
proof fn lemma_worth_showing_is_mentioned(
    before: Seq<Record>,
    bx: Seq<String>,
    after: Seq<Record>,
    ax: Seq<String>,
    k: Seq<char>,
)
    requires
        worth_showing(k, before, bx, after, ax),
    ensures
        mentioned_keys(before, bx, after, ax).contains(k),
{
    let ms = mentioned_keys(before, bx, after, ax);
    let nb = before.len() as int;
    let na = after.len() as int;
    let nbx = bx.len() as int;
    let ib = record_index(before, k, 0);
    let ia = record_index(after, k, 0);
    let bm = before.map_values(|r: Record| r.key@);
    let am = after.map_values(|r: Record| r.key@);
    let bxm = bx.map_values(|x: String| x@);
    let axm = ax.map_values(|x: String| x@);
    assert(ms == bm + am + bxm + axm);
    if ib < nb {
        lemma_record_index_is_match(before, k, 0);
        assert(bm[ib] == before[ib].key@);
        assert(ms[ib] == bm[ib]);
    } else if ia < na {
        lemma_record_index_is_match(after, k, 0);
        assert(am[ia] == after[ia].key@);
        assert(ms[nb + ia] == am[ia]);
    } else if exists|j: int| 0 <= j < bx.len() && #[trigger] bx[j]@ == k {
        let j = choose|j: int| 0 <= j < bx.len() && #[trigger] bx[j]@ == k;
        assert(bxm[j] == bx[j]@);
        assert(ms[nb + na + j] == bxm[j]);
    } else {
        assert(spec_side(k, after, ax) !is NotMeasured);
        let j = choose|j: int| 0 <= j < ax.len() && #[trigger] ax[j]@ == k;
        assert(axm[j] == ax[j]@);
        assert(ms[nb + na + nbx + j] == axm[j]);
    }
}

proof fn lemma_filter_no_duplicates(s: Seq<Seq<char>>, p: spec_fn(Seq<char>) -> bool)
    requires
        s.no_duplicates(),
    ensures
        s.filter(p).no_duplicates(),
    decreases s.len(),
{
    reveal(Seq::filter);
    if s.len() > 0 {
        let init = s.drop_last();
        assert(init.no_duplicates());
        lemma_filter_no_duplicates(init, p);
        let f = init.filter(p);
        if p(s.last()) {
            if f.contains(s.last()) {
                init.lemma_filter_contains_rev(p, s.last());
                let m = choose|m: int| 0 <= m < init.len() && init[m] == s.last();
                assert(s[m] == s[s.len() - 1]);
            }
            assert(s.filter(p) == f.push(s.last()));
            assert forall|a: int, b: int| 0 <= a < b < f.len() + 1 implies f.push(s.last())[a] != f.push(s.last())[b] by {
                if b == f.len() {
                    assert(f.contains(f[a]));
                }
            }
        } else {
            assert(s.filter(p) == f);
        }
    }
}

proof fn lemma_first_occurrences_no_duplicates(s: Seq<Seq<char>>)
    ensures
        first_occurrences(s).no_duplicates(),
    decreases s.len(),
{
    if s.len() > 0 {
        lemma_first_occurrences_no_duplicates(s.drop_last());
        let d = first_occurrences(s.drop_last());
        if !d.contains(s.last()) {
            assert forall|a: int, b: int| 0 <= a < b < d.len() + 1 implies d.push(s.last())[a] != d.push(s.last())[b] by {
                if b == d.len() {
                    assert(d.contains(d[a]));
                }
            }
        }
    }
}

proof fn lemma_item_keys_distinct()
    ensures
        item_keys().no_duplicates(),
{
    reveal_strlit("polling");
    reveal_strlit("clicks");
    reveal_strlit("cps");
    reveal_strlit("ab");
    reveal_strlit("sensor.cpi");
    reveal_strlit("sensor.drift");
    reveal_strlit("sensor.snap");
    reveal_strlit("sensor.smooth");
    reveal_strlit("sensor.tracking");
    reveal_strlit("sensor.lod");
    reveal_strlit("scroll.wheel");
    reveal_strlit("scroll.tilt");
    let ks = item_keys();
    assert forall|a: int, b: int| 0 <= a < b < ks.len() implies ks[a] != ks[b] by {
        if ks[a] == ks[b] {
            assert(ks[a].len() == ks[b].len());
            assert(ks[a][0] == ks[b][0]);
            assert(ks[a][ks[a].len() - 1] == ks[b][ks[b].len() - 1]);
            if ks[a].len() > 7 {
                assert(ks[a][7] == ks[b][7]);
            }
        }
    }
}

/// The comparison has one row per key and a row exactly for the keys either
/// side has something on: a result or an exclusion on at least one side.
/// (Which rows come first, and in what order, is the row order
/// `compared_keys` spells out.)
pub proof fn lemma_compare_rows_are_exactly_the_evidence(
    before: Seq<Record>,
    bx: Seq<String>,
    after: Seq<Record>,
    ax: Seq<String>,
)
    ensures
        compared_keys(before, bx, after, ax).no_duplicates(),
        forall|k: Seq<char>| #[trigger] compared_keys(before, bx, after, ax).contains(k) <==> worth_showing(
            k,
            before,
            bx,
            after,
            ax,
        ),
{
    let worth = |x: Seq<char>| worth_showing(x, before, bx, after, ax);
    let extra = |x: Seq<char>| !is_known_key(x) && worth_showing(x, before, bx, after, ax);
    let known = item_keys().filter(worth);
    let ms = mentioned_keys(before, bx, after, ax);
    let rest = first_occurrences(ms.filter(extra));
    let all = compared_keys(before, bx, after, ax);
    assert(all == known + rest);
    lemma_item_keys_distinct();
    lemma_filter_no_duplicates(item_keys(), worth);
    lemma_first_occurrences_no_duplicates(ms.filter(extra));
    assert forall|m: int| 0 <= m < known.len() implies item_keys().contains(#[trigger] known[m]) by {
        item_keys().lemma_filter_contains_rev(worth, known[m]);
    }
    assert forall|a: int, b: int| 0 <= a < b < all.len() implies all[a] != all[b] by {
        if b >= known.len() && a < known.len() {
            let k = rest[b - known.len()];
            assert(rest.contains(k));
            lemma_first_occurrences_contains(ms.filter(extra), k);
            ms.lemma_filter_contains_rev(extra, k);
            lemma_known_part_is_known(known, k);
            assert(known[a] == all[a]);
        } else if a >= known.len() {
            assert(rest[a - known.len()] != rest[b - known.len()]);
        }
    }
    assert forall|k: Seq<char>| #[trigger] all.contains(k) <==> worth_showing(k, before, bx, after, ax) by {
        if all.contains(k) {
            let m = choose|m: int| 0 <= m < all.len() && all[m] == k;
            if m < known.len() {
                item_keys().lemma_filter_pred(worth, m);
            } else {
                assert(rest.contains(k));
                lemma_first_occurrences_contains(ms.filter(extra), k);
                ms.lemma_filter_contains_rev(extra, k);
            }
        }
        if worth_showing(k, before, bx, after, ax) {
            lemma_worth_showing_is_mentioned(before, bx, after, ax, k);
            lemma_compare_keeps_every_mentioned_key(before, bx, after, ax, k);
        }
    }
}

/// The worst of the verdicts, starting from a pass.
pub open spec fn worst_all(vs: Seq<Verdict>) -> Verdict
    decreases vs.len(),
{
    if vs.len() == 0 {
        Verdict::Pass
    } else {
        worst_of(worst_all(vs.drop_last()), vs.last())
    }
}

/// The sum of the counts.
pub open spec fn count_sum(ds: Seq<usize>) -> int
    decreases ds.len(),
{
    if ds.len() == 0 {
        0
    } else {
        count_sum(ds.drop_last()) + ds.last()
    }
}

proof fn lemma_count_sum_prefix(ds: Seq<usize>, i: int)
    requires
        0 <= i <= ds.len(),
    ensures
        count_sum(ds.take(i)) <= count_sum(ds),
    decreases ds.len() - i,
{
    if i < ds.len() {
        lemma_count_sum_prefix(ds, i + 1);
        assert(ds.take(i + 1).drop_last() =~= ds.take(i));
    } else {
        assert(ds.take(i) =~= ds);
    }
}

/// The line the clicks measurement shows in a battery.
pub open spec fn clicks_headline(buttons: nat, doublets: nat, transitions: nat) -> Seq<char> {
    decimal(buttons) + " button(s), "@ + decimal(doublets) + " doublet(s), "@ + decimal(transitions)
        + " transitions"@
}

/// The clicks measurement's battery record, from each button's verdict and
/// doublet count and the number of edges recorded: the worst button decides,
/// because one bad switch is the finding whatever the others did.
pub fn clicks_record(verdicts: &[Verdict], doublets: &[usize], transitions: usize) -> (r: Record)
    requires
        verdicts@.len() == doublets@.len(),
        count_sum(doublets@) <= usize::MAX,
    ensures
        r.key@ == "clicks"@,
        r.verdict == Some(worst_all(verdicts@)),
        r.headline@ == clicks_headline(verdicts@.len(), count_sum(doublets@) as nat, transitions as nat),
{
    let mut worst = Verdict::Pass;
    let mut total: usize = 0;
    let mut i: usize = 0;
    while i < verdicts.len()
        invariant
            i <= verdicts@.len(),
            verdicts@.len() == doublets@.len(),
            count_sum(doublets@) <= usize::MAX,
            worst == worst_all(verdicts@.take(i as int)),
            total == count_sum(doublets@.take(i as int)),
        decreases verdicts@.len() - i,
    {
        proof {
            assert(verdicts@.take(i + 1).drop_last() =~= verdicts@.take(i as int));
            assert(doublets@.take(i + 1).drop_last() =~= doublets@.take(i as int));
            lemma_count_sum_prefix(doublets@, i + 1);
        }
        worst = worst.worst(verdicts[i]);
        total = total + doublets[i];
        i = i + 1;
    }
    proof {
        assert(verdicts@.take(i as int) =~= verdicts@);
        assert(doublets@.take(i as int) =~= doublets@);
    }
    let mut line: Vec<char> = Vec::new();
    push_decimal(&mut line, verdicts.len() as u64);
    push_str_chars(&mut line, " button(s), ");
    push_decimal(&mut line, total as u64);
    push_str_chars(&mut line, " doublet(s), ");
    push_decimal(&mut line, transitions as u64);
    push_str_chars(&mut line, " transitions");
    proof {
        assert(line@ =~= clicks_headline(verdicts@.len(), count_sum(doublets@) as nat, transitions as nat));
    }
    Record { key: String::from_str("clicks"), verdict: Some(worst), headline: string_of(line.as_slice()) }
}

} // verus!
