//! Blinded, interleaved A/B comparison of two mouse settings.
//!
//! The difference between two firmware settings is usually much smaller than
//! the variation in how well you happen to click on a given attempt. Doing all
//! the A trials and then all the B trials lets fatigue and warm-up land on one
//! condition. So trials alternate, and the order within each pair is
//! counterbalanced: pair one runs A then B, pair two runs B then A, and so on.
use vstd::prelude::*;
use crate::text::{chars_of, chars_eq, trim_range, trimmed};

verus! {

broadcast use vstd::string::group_string_axioms;

#[derive(Clone, Copy, PartialEq, Eq, Debug, Structural)]
pub enum Variant {
    /// Clicks per second: which setting lets you click faster.
    Rate,
    /// Registered actuations under deliberately weak input: which setting
    /// registers presses the other misses entirely.
    WeakInput,
}

impl Variant {
    pub fn label(self) -> (s: &'static str)
        ensures
            s@ == (match self {
                Variant::Rate => "click rate"@,
                Variant::WeakInput => "actuations under weak input"@,
            }),
    {
        match self {
            Variant::Rate => "click rate",
            Variant::WeakInput => "actuations under weak input",
        }
    }

    pub fn unit(self) -> (s: &'static str)
        ensures
            s@ == (match self {
                Variant::Rate => "CPS"@,
                Variant::WeakInput => "clicks"@,
            }),
    {
        match self {
            Variant::Rate => "CPS",
            Variant::WeakInput => "clicks",
        }
    }

    pub fn instruction(self) -> (s: &'static str)
        ensures
            s@ == (match self {
                Variant::Rate => "Click as fast as you can hold for the whole trial. Consistency matters more than a burst at the start."@,
                Variant::WeakInput => "Press as lightly as you can while still trying to actuate, at a steady rhythm of about two per second. The question is how many of your attempts the mouse registers at all, so do not press harder to score better."@,
            }),
    {
        match self {
            Variant::Rate => {
                "Click as fast as you can hold for the whole trial. Consistency matters more than a burst at the start."
            },
            Variant::WeakInput => {
                "Press as lightly as you can while still trying to actuate, at a steady rhythm of about two per second. The question is how many of your attempts the mouse registers at all, so do not press harder to score better."
            },
        }
    }
}

#[derive(Clone, Copy, PartialEq, Eq, Debug, Structural)]
pub enum Condition {
    A,
    B,
}

/// The condition of trial `index`: pair `p` runs A then B when `p` is even,
/// and B then A when it is odd.
pub open spec fn spec_condition_at(index: int) -> Condition {
    if (index / 2) % 2 == index % 2 {
        Condition::A
    } else {
        Condition::B
    }
}

/// The plan of an A/B run. The trial length is kept in milliseconds.
#[derive(Clone, Debug)]
pub struct Plan {
    pub label_a: String,
    pub label_b: String,
    pub variant: Variant,
    pub trial_ms: u64,
    pub pairs: usize,
    pub button: Option<u8>,
}

impl Default for Plan {
    fn default() -> (p: Self)
        ensures
            p.label_a@.len() == 0,
            p.label_b@.len() == 0,
            p.variant == Variant::Rate,
            p.trial_ms == 10_000,
            p.pairs == 8,
            p.button is None,
    {
        Plan {
            label_a: String::new(),
            label_b: String::new(),
            variant: Variant::Rate,
            trial_ms: 10_000,
            pairs: 8,
            button: None,
        }
    }
}

/// Two labels that name the run's settings: both say something, and they do
/// not say the same thing.
pub open spec fn labels_ready(a: Seq<char>, b: Seq<char>) -> bool {
    trimmed(a).len() > 0 && trimmed(b).len() > 0 && trimmed(a) != trimmed(b)
}

impl Plan {
    pub fn total_trials(&self) -> (n: usize)
        requires
            self.pairs <= usize::MAX / 2,
        ensures
            n == self.pairs * 2,
    {
        self.pairs * 2
    }

    /// Condition for trial `index`, counterbalanced across pairs, so that
    /// going second within a pair is not always the same setting.
    pub fn condition_at(&self, index: usize) -> (c: Condition)
        ensures
            c == spec_condition_at(index as int),
    {
        let pair = index / 2;
        let first_is_a = pair % 2 == 0;
        let second = index % 2 == 1;
        if first_is_a != second {
            Condition::A
        } else {
            Condition::B
        }
    }

    pub fn label(&self, c: Condition) -> (s: &str)
        ensures
            s@ == (match c {
                Condition::A => self.label_a@,
                Condition::B => self.label_b@,
            }),
    {
        match c {
            Condition::A => self.label_a.as_str(),
            Condition::B => self.label_b.as_str(),
        }
    }

    /// Runnable: two distinct non-blank labels and at least three pairs,
    /// because two pairs cannot support a conclusion.
    pub fn ready(&self) -> (r: bool)
        ensures
            r == (labels_ready(self.label_a@, self.label_b@) && self.pairs >= 3),
    {
        let a = chars_of(self.label_a.as_str());
        let b = chars_of(self.label_b.as_str());
        let ta = trim_range(a.as_slice(), 0, a.len());
        let tb = trim_range(b.as_slice(), 0, b.len());
        proof {
            assert(a@.subrange(0, a@.len() as int) =~= a@);
            assert(b@.subrange(0, b@.len() as int) =~= b@);
        }
        ta.len() > 0 && tb.len() > 0 && !chars_eq(ta.as_slice(), tb.as_slice()) && self.pairs >= 3
    }
}

/// How many of the first `n` trials run condition A.
pub open spec fn count_a(n: nat) -> nat
    decreases n,
{
    if n == 0 {
        0
    } else {
        count_a((n - 1) as nat) + if spec_condition_at(n - 1) == Condition::A {
            1nat
        } else {
            0nat
        }
    }
}

/// How many of the first `p` pairs run A first.
pub open spec fn count_a_first(p: nat) -> nat
    decreases p,
{
    if p == 0 {
        0
    } else {
        count_a_first((p - 1) as nat) + if spec_condition_at(2 * (p - 1)) == Condition::A {
            1nat
        } else {
            0nat
        }
    }
}

/// Every pair holds one trial of each setting, so the two settings get equal
/// trials over any whole number of pairs.
pub proof fn lemma_pairs_hold_both_conditions(p: nat)
    ensures
        spec_condition_at(2 * p as int) != spec_condition_at(2 * p as int + 1),
        count_a(2 * p) == p,
    decreases p,
{
    assert((2 * p) / 2 == p);
    assert((2 * p + 1) / 2 == p);
    if p > 0 {
        lemma_pairs_hold_both_conditions((p - 1) as nat);
        assert((2 * (p - 1)) / 2 == p - 1);
        assert((2 * (p - 1) + 1) / 2 == p - 1);
        assert(count_a(2 * p) == count_a((2 * p - 1) as nat) + if spec_condition_at(2 * p - 1)
            == Condition::A {
            1nat
        } else {
            0nat
        });
    }
}

/// Within-pair order is counterbalanced: A goes first in half the pairs,
/// rounding up, so going second is not always the same setting.
pub proof fn lemma_order_is_counterbalanced(p: nat)
    ensures
        count_a_first(p) == (p + 1) / 2,
    decreases p,
{
    if p > 0 {
        lemma_order_is_counterbalanced((p - 1) as nat);
        assert((2 * (p - 1)) / 2 == p - 1);
    }
}

/// The run never becomes a block of one setting: no three trials in a row
/// share a condition.
pub proof fn lemma_no_three_in_a_row(i: nat)
    ensures
        !(spec_condition_at(i as int) == spec_condition_at(i as int + 1) && spec_condition_at(
            i as int + 1,
        ) == spec_condition_at(i as int + 2)),
{
    let q = i / 2;
    if i % 2 == 0 {
        assert((i + 1) / 2 == q);
        assert((i + 1) % 2 == 1);
    } else {
        assert((i + 1) / 2 == q + 1);
        assert((i + 2) / 2 == q + 1);
        assert((i + 1) % 2 == 0);
        assert((i + 2) % 2 == 1);
    }
}

/// Where one trial of a run stands: which pair, under which condition.
#[derive(Clone, Copy, PartialEq, Eq, Debug, Structural)]
pub struct Slot {
    pub pair: usize,
    pub condition: Condition,
}

/// Index of the first trial from `i` on in pair `p` under `c`, or the number
/// of trials when there is none.
pub open spec fn first_slot(s: Seq<Slot>, p: int, c: Condition, i: int) -> int
    decreases s.len() - i,
{
    if i < 0 || i >= s.len() {
        s.len() as int
    } else if s[i].pair == p && s[i].condition == c {
        i
    } else {
        first_slot(s, p, c, i + 1)
    }
}

/// For each pair from 0 to `p - 1` that has both an A and a B trial, the
/// indices of its first A trial and its first B trial.
pub open spec fn spec_pairing(s: Seq<Slot>, p: nat) -> Seq<(int, int)>
    decreases p,
{
    if p == 0 {
        Seq::empty()
    } else {
        let rest = spec_pairing(s, (p - 1) as nat);
        let a = first_slot(s, p - 1, Condition::A, 0);
        let b = first_slot(s, p - 1, Condition::B, 0);
        if a < s.len() && b < s.len() {
            rest.push((a, b))
        } else {
            rest
        }
    }
}

/// One more than the largest pair index, or zero for no trials.
pub open spec fn pair_count(s: Seq<Slot>) -> nat
    decreases s.len(),
{
    if s.len() == 0 {
        0
    } else {
        let rest = pair_count(s.drop_last());
        if s.last().pair + 1 > rest {
            (s.last().pair + 1) as nat
        } else {
            rest
        }
    }
}

fn find_slot(s: &[Slot], p: usize, c: Condition) -> (r: usize)
    ensures
        r as int == first_slot(s@, p as int, c, 0),
        r <= s@.len(),
{
    let mut i: usize = 0;
    while i < s.len()
        invariant
            i <= s@.len(),
            first_slot(s@, p as int, c, i as int) == first_slot(s@, p as int, c, 0),
        decreases s@.len() - i,
    {
        if s[i].pair == p && s[i].condition == c {
            return i;
        }
        i = i + 1;
    }
    i
}

/// Pairs trials by pair index, so the paired test compares like with like:
/// for every pair with both settings, in pair order, the index of its A trial
/// and of its B trial. A pair missing either is left out.
pub fn paired_indices(s: &[Slot]) -> (r: Vec<(usize, usize)>)
    requires
        s@.len() < usize::MAX,
        forall|i: int| 0 <= i < s@.len() ==> #[trigger] s@[i].pair < usize::MAX,
    ensures
        r@.len() == spec_pairing(s@, pair_count(s@)).len(),
        forall|k: int|
            0 <= k < r@.len() ==> (#[trigger] r@[k]).0 as int == spec_pairing(
                s@,
                pair_count(s@),
            )[k].0 && r@[k].1 as int == spec_pairing(s@, pair_count(s@))[k].1,
{
    let mut pairs: usize = 0;
    let mut i: usize = 0;
    while i < s.len()
        invariant
            i <= s@.len(),
            forall|i: int| 0 <= i < s@.len() ==> #[trigger] s@[i].pair < usize::MAX,
            pairs == pair_count(s@.take(i as int)),
        decreases s@.len() - i,
    {
        proof {
            assert(s@.take(i + 1).drop_last() =~= s@.take(i as int));
        }
        if s[i].pair + 1 > pairs {
            pairs = s[i].pair + 1;
        }
        i = i + 1;
    }
    proof {
        assert(s@.take(i as int) =~= s@);
    }
    let mut out: Vec<(usize, usize)> = Vec::new();
    let mut p: usize = 0;
    while p < pairs
        invariant
            p <= pairs == pair_count(s@),
            out@.len() == spec_pairing(s@, p as nat).len(),
            forall|k: int|
                0 <= k < out@.len() ==> (#[trigger] out@[k]).0 as int == spec_pairing(
                    s@,
                    p as nat,
                )[k].0 && out@[k].1 as int == spec_pairing(s@, p as nat)[k].1,
        decreases pairs - p,
    {
        let a = find_slot(s, p, Condition::A);
        let b = find_slot(s, p, Condition::B);
        if a < s.len() && b < s.len() {
            out.push((a, b));
        }
        p = p + 1;
    }
    out
}

/// `s` with every double quote doubled.
pub open spec fn doubled_quotes(s: Seq<char>) -> Seq<char>
    decreases s.len(),
{
    if s.len() == 0 {
        Seq::empty()
    } else {
        doubled_quotes(s.drop_last()) + if s.last() == '"' {
            seq!['"', '"']
        } else {
            seq![s.last()]
        }
    }
}

/// A CSV field for `s`: quoted, with its quotes doubled, when it holds a
/// comma, a quote or a line feed; as it is otherwise.
pub open spec fn csv_field(s: Seq<char>) -> Seq<char> {
    if s.contains(',') || s.contains('"') || s.contains('\n') {
        seq!['"'] + doubled_quotes(s) + seq!['"']
    } else {
        s
    }
}

/// `s` as one CSV field.
pub fn csv_escape(s: &str) -> (r: String)
    ensures
        r@ == csv_field(s@),
{
    let cs = crate::text::chars_of(s);
    let mut special = false;
    let mut i: usize = 0;
    while i < cs.len()
        invariant
            i <= cs@.len(),
            cs@ == s@,
            special == exists|j: int| 0 <= j < i && (cs@[j] == ',' || cs@[j] == '"' || cs@[j] == '\n'),
        decreases cs@.len() - i,
    {
        let c = cs[i];
        if c == ',' || c == '"' || c == '\n' {
            special = true;
        }
        i = i + 1;
    }
    proof {
        if special {
            let j = choose|j: int| 0 <= j < i && (cs@[j] == ',' || cs@[j] == '"' || cs@[j] == '\n');
            assert(s@[j] == cs@[j]);
        } else {
            assert(!s@.contains(',')) by {
                if s@.contains(',') {
                    let k = choose|k: int| 0 <= k < s@.len() && s@[k] == ',';
                    assert(cs@[k] == ',');
                }
            }
            assert(!s@.contains('"')) by {
                if s@.contains('"') {
                    let k = choose|k: int| 0 <= k < s@.len() && s@[k] == '"';
                    assert(cs@[k] == '"');
                }
            }
            assert(!s@.contains('\n')) by {
                if s@.contains('\n') {
                    let k = choose|k: int| 0 <= k < s@.len() && s@[k] == '\n';
                    assert(cs@[k] == '\n');
                }
            }
        }
    }
    if !special {
        return crate::text::string_of(cs.as_slice());
    }
    let mut out: Vec<char> = Vec::new();
    out.push('"');
    let mut k: usize = 0;
    while k < cs.len()
        invariant
            k <= cs@.len(),
            out@ == seq!['"'] + doubled_quotes(cs@.take(k as int)),
        decreases cs@.len() - k,
    {
        let c = cs[k];
        proof {
            assert(cs@.take(k + 1).drop_last() =~= cs@.take(k as int));
        }
        if c == '"' {
            out.push('"');
            out.push('"');
        } else {
            out.push(c);
        }
        proof {
            assert(out@ =~= seq!['"'] + doubled_quotes(cs@.take(k + 1)));
        }
        k = k + 1;
    }
    out.push('"');
    proof {
        assert(cs@.take(k as int) =~= cs@);
    }
    crate::text::string_of(out.as_slice())
}

} // verus!
