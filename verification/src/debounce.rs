//! Button behaviour: press and release accounting.
//!
//! Contact bounce is one physical press registering as several clicks. Before
//! any timing can be judged, the edges of one button have to be paired into
//! presses, and edges that do not pair up have to be counted rather than
//! silently dropped.
use vstd::prelude::*;

verus! {

#[derive(Clone, Copy, Debug, PartialEq, Eq, Structural)]
pub struct ButtonEvent {
    pub t_ns: u64,
    /// Raw identifier from the device, not a mapped name, so an unexpected
    /// button is visible rather than silently dropped.
    pub button: u8,
    pub down: bool,
}

/// One press of a button, in nanoseconds.
#[derive(Clone, Copy, Debug, PartialEq, Eq, Structural)]
pub struct Press {
    pub down_ns: u64,
    /// None when the button was still held as the run ended.
    pub up_ns: Option<u64>,
    /// How long the button was held.
    pub dwell_ns: Option<u64>,
    /// Time from the previous release to this press, when there was one
    /// before it.
    pub gap_ns: Option<u64>,
}

/// The edges of button `b`, in their original order.
pub open spec fn of_button(evs: Seq<ButtonEvent>, b: u8) -> Seq<ButtonEvent>
    decreases evs.len(),
{
    if evs.len() == 0 {
        Seq::empty()
    } else {
        let r = of_button(evs.drop_last(), b);
        if evs.last().button == b {
            r.push(evs.last())
        } else {
            r
        }
    }
}

/// Index of the first edge in `s` later than `t`, or the length.
pub open spec fn first_later(s: Seq<ButtonEvent>, t: u64) -> int
    decreases s.len(),
{
    if s.len() == 0 {
        0
    } else if s[0].t_ns > t {
        0
    } else {
        1 + first_later(s.drop_first(), t)
    }
}

/// `e` placed into time-ordered `s` after every edge at or before its time.
pub open spec fn insert_by_time(s: Seq<ButtonEvent>, e: ButtonEvent) -> Seq<ButtonEvent> {
    let p = first_later(s, e.t_ns);
    s.take(p) + seq![e] + s.skip(p)
}

/// The edges ordered by time, edges at the same time keeping their order:
/// each edge in turn goes after every edge placed before it that is not
/// later than it.
pub open spec fn sorted_by_time(s: Seq<ButtonEvent>) -> Seq<ButtonEvent>
    decreases s.len(),
{
    if s.len() == 0 {
        Seq::empty()
    } else {
        insert_by_time(sorted_by_time(s.drop_last()), s.last())
    }
}

/// Edge times never go backwards.
pub open spec fn time_ordered(s: Seq<ButtonEvent>) -> bool {
    forall|i: int, j: int| 0 <= i <= j < s.len() ==> s[i].t_ns <= s[j].t_ns
}

/// Where pairing stands after some edges.
pub struct Pairing {
    pub presses: Seq<Press>,
    pub unmatched_down: nat,
    pub unmatched_up: nat,
    /// Time of the press not yet released.
    pub open: Option<u64>,
    pub last_up: Option<u64>,
}

/// Time since the last release, when this press came after it.
pub open spec fn gap_before(last_up: Option<u64>, down: u64) -> Option<u64> {
    match last_up {
        Some(u) => if down > u {
            Some((down - u) as u64)
        } else {
            None
        },
        None => None,
    }
}

/// One edge paired: a press while one is open is a lost release and is
/// counted; a release closes the open press or, with none open, is counted.
pub open spec fn pair_step(st: Pairing, e: ButtonEvent) -> Pairing {
    if e.down {
        if st.open is Some {
            Pairing { unmatched_down: st.unmatched_down + 1, ..st }
        } else {
            Pairing { open: Some(e.t_ns), ..st }
        }
    } else {
        match st.open {
            Some(down) => Pairing {
                presses: st.presses.push(
                    Press {
                        down_ns: down,
                        up_ns: Some(e.t_ns),
                        dwell_ns: Some(if e.t_ns >= down { (e.t_ns - down) as u64 } else { 0 }),
                        gap_ns: gap_before(st.last_up, down),
                    },
                ),
                open: None,
                last_up: Some(e.t_ns),
                ..st
            },
            None => Pairing { unmatched_up: st.unmatched_up + 1, ..st },
        }
    }
}

pub open spec fn pair_all(evs: Seq<ButtonEvent>) -> Pairing
    decreases evs.len(),
{
    if evs.len() == 0 {
        Pairing { presses: Seq::empty(), unmatched_down: 0, unmatched_up: 0, open: None, last_up: None }
    } else {
        pair_step(pair_all(evs.drop_last()), evs.last())
    }
}

/// The presses of button `b` in time order, with the presses that were never
/// released and the releases that had no press. A press still held at the
/// end is kept, without a release.
pub open spec fn spec_presses(events: Seq<ButtonEvent>, b: u8) -> (Seq<Press>, nat, nat) {
    let st = pair_all(sorted_by_time(of_button(events, b)));
    let presses = match st.open {
        Some(down) => st.presses.push(
            Press { down_ns: down, up_ns: None, dwell_ns: None, gap_ns: gap_before(st.last_up, down) },
        ),
        None => st.presses,
    };
    (presses, st.unmatched_down, st.unmatched_up)
}

fn first_later_at(s: &Vec<ButtonEvent>, t: u64) -> (p: usize)
    ensures
        p as int == first_later(s@, t),
        p <= s@.len(),
{
    let mut i: usize = 0;
    proof {
        assert(s@.skip(0) =~= s@);
    }
    while i < s.len() && s[i].t_ns <= t
        invariant
            i <= s@.len(),
            first_later(s@, t) == i + first_later(s@.skip(i as int), t),
        decreases s@.len() - i,
    {
        proof {
            assert(s@.skip(i as int).drop_first() =~= s@.skip(i + 1));
        }
        i = i + 1;
    }
    proof {
        if i < s@.len() {
            assert(s@.skip(i as int)[0] == s@[i as int]);
        }
    }
    i
}

/// The edges of `button`, ordered by time, equal times keeping their order.
fn sorted_edges(events: &[ButtonEvent], button: u8) -> (r: Vec<ButtonEvent>)
    ensures
        r@ == sorted_by_time(of_button(events@, button)),
{
    let mut out: Vec<ButtonEvent> = Vec::new();
    let ghost mut kept: Seq<ButtonEvent> = Seq::empty();
    let mut i: usize = 0;
    while i < events.len()
        invariant
            i <= events@.len(),
            kept == of_button(events@.take(i as int), button),
            out@ == sorted_by_time(kept),
        decreases events@.len() - i,
    {
        let e = events[i];
        proof {
            assert(events@.take(i + 1).drop_last() =~= events@.take(i as int));
        }
        if e.button == button {
            let p = first_later_at(&out, e.t_ns);
            out.insert(p, e);
            proof {
                let k2 = kept.push(e);
                assert(k2.drop_last() =~= kept);
                assert(out@ =~= insert_by_time(sorted_by_time(kept), e));
                kept = k2;
            }
        }
        i = i + 1;
    }
    proof {
        assert(events@.take(i as int) =~= events@);
    }
    out
}

/// Presses for one button, in time order, with the presses never released
/// and the releases never pressed.
///
/// Repeated edges in the same direction are not new presses: two downs with
/// no release between them is a lost release, which is counted, not a second
/// press.
pub fn presses_for(events: &[ButtonEvent], button: u8) -> (r: (Vec<Press>, usize, usize))
    ensures
        (r.0@, r.1 as nat, r.2 as nat) == spec_presses(events@, button),
{
    let evs = sorted_edges(events, button);
    let mut presses: Vec<Press> = Vec::new();
    let mut unmatched_down: usize = 0;
    let mut unmatched_up: usize = 0;
    let mut open: Option<u64> = None;
    let mut last_up: Option<u64> = None;
    let mut i: usize = 0;
    while i < evs.len()
        invariant
            i <= evs@.len(),
            ({
                let st = pair_all(evs@.take(i as int));
                &&& st.presses == presses@
                &&& st.unmatched_down == unmatched_down
                &&& st.unmatched_up == unmatched_up
                &&& st.open == open
                &&& st.last_up == last_up
            }),
            unmatched_down + unmatched_up + presses@.len() <= i,
        decreases evs@.len() - i,
    {
        let e = evs[i];
        proof {
            assert(evs@.take(i + 1).drop_last() =~= evs@.take(i as int));
        }
        if e.down {
            if open.is_some() {
                unmatched_down = unmatched_down + 1;
            } else {
                open = Some(e.t_ns);
            }
        } else {
            match open {
                Some(down) => {
                    let dwell = if e.t_ns >= down { e.t_ns - down } else { 0 };
                    let gap = match last_up {
                        Some(u) => if down > u { Some(down - u) } else { None },
                        None => None,
                    };
                    presses.push(Press { down_ns: down, up_ns: Some(e.t_ns), dwell_ns: Some(dwell), gap_ns: gap });
                    open = None;
                    last_up = Some(e.t_ns);
                },
                None => {
                    unmatched_up = unmatched_up + 1;
                },
            }
        }
        i = i + 1;
    }
    proof {
        assert(evs@.take(i as int) =~= evs@);
    }
    match open {
        Some(down) => {
            let gap = match last_up {
                Some(u) => if down > u { Some(down - u) } else { None },
                None => None,
            };
            presses.push(Press { down_ns: down, up_ns: None, dwell_ns: None, gap_ns: gap });
        },
        None => {},
    }
    (presses, unmatched_down, unmatched_up)
}

proof fn lemma_first_later(s: Seq<ButtonEvent>, t: u64)
    ensures
        0 <= first_later(s, t) <= s.len(),
        forall|i: int| 0 <= i < first_later(s, t) ==> s[i].t_ns <= t,
        first_later(s, t) < s.len() ==> s[first_later(s, t)].t_ns > t,
    decreases s.len(),
{
    if s.len() > 0 && s[0].t_ns <= t {
        let r = s.drop_first();
        lemma_first_later(r, t);
        assert forall|i: int| 0 <= i < first_later(s, t) implies s[i].t_ns <= t by {
            if i > 0 {
                assert(s[i] == r[i - 1]);
            }
        }
        if first_later(s, t) < s.len() {
            assert(s[first_later(s, t)] == r[first_later(r, t)]);
        }
    }
}

proof fn lemma_insert_keeps_order(s: Seq<ButtonEvent>, e: ButtonEvent)
    requires
        time_ordered(s),
    ensures
        time_ordered(insert_by_time(s, e)),
        insert_by_time(s, e) == s.insert(first_later(s, e.t_ns), e),
{
    lemma_first_later(s, e.t_ns);
    let p = first_later(s, e.t_ns);
    let r = insert_by_time(s, e);
    assert(r =~= s.insert(p, e));
    assert forall|i: int, j: int| 0 <= i <= j < r.len() implies r[i].t_ns <= r[j].t_ns by {
        if j < p {
            assert(r[i] == s[i] && r[j] == s[j]);
        } else if j == p {
            if i < p {
                assert(r[i] == s[i]);
            }
        } else {
            assert(r[j] == s[j - 1]);
            if i < p {
                assert(r[i] == s[i]);
            } else if i == p {
                assert(s[p].t_ns > e.t_ns);
                assert(s[p].t_ns <= s[j - 1].t_ns);
            } else {
                assert(r[i] == s[i - 1]);
            }
        }
    }
}

/// Sorting by time gives edges in time order, and exactly the edges it was
/// given: nothing lost, nothing added.
pub proof fn lemma_sorted_by_time(s: Seq<ButtonEvent>)
    ensures
        time_ordered(sorted_by_time(s)),
        sorted_by_time(s).to_multiset() == s.to_multiset(),
    decreases s.len(),
{
    broadcast use vstd::seq_lib::group_to_multiset_ensures;

    if s.len() > 0 {
        lemma_sorted_by_time(s.drop_last());
        let t = sorted_by_time(s.drop_last());
        lemma_insert_keeps_order(t, s.last());
        lemma_first_later(t, s.last().t_ns);
        assert(s.drop_last().push(s.last()) =~= s);
    } else {
        assert(s.to_multiset() =~= Seq::<ButtonEvent>::empty().to_multiset());
    }
}

/// Number of presses among the edges.
pub open spec fn downs(s: Seq<ButtonEvent>) -> nat
    decreases s.len(),
{
    if s.len() == 0 {
        0
    } else {
        downs(s.drop_last()) + if s.last().down {
            1nat
        } else {
            0nat
        }
    }
}

/// Number of releases among the edges.
pub open spec fn ups(s: Seq<ButtonEvent>) -> nat
    decreases s.len(),
{
    if s.len() == 0 {
        0
    } else {
        ups(s.drop_last()) + if s.last().down {
            0nat
        } else {
            1nat
        }
    }
}

/// Number of presses that were released.
pub open spec fn released(ps: Seq<Press>) -> nat
    decreases ps.len(),
{
    if ps.len() == 0 {
        0
    } else {
        released(ps.drop_last()) + if ps.last().up_ns is Some {
            1nat
        } else {
            0nat
        }
    }
}

proof fn lemma_counts_concat(a: Seq<ButtonEvent>, b: Seq<ButtonEvent>)
    ensures
        downs(a + b) == downs(a) + downs(b),
        ups(a + b) == ups(a) + ups(b),
    decreases b.len(),
{
    if b.len() == 0 {
        assert(a + b =~= a);
    } else {
        lemma_counts_concat(a, b.drop_last());
        assert((a + b).drop_last() =~= a + b.drop_last());
    }
}

proof fn lemma_sorted_counts(s: Seq<ButtonEvent>)
    ensures
        downs(sorted_by_time(s)) == downs(s),
        ups(sorted_by_time(s)) == ups(s),
    decreases s.len(),
{
    if s.len() > 0 {
        lemma_sorted_counts(s.drop_last());
        let t = sorted_by_time(s.drop_last());
        let e = s.last();
        lemma_first_later(t, e.t_ns);
        let p = first_later(t, e.t_ns);
        lemma_counts_concat(t.take(p), seq![e]);
        lemma_counts_concat(t.take(p) + seq![e], t.skip(p));
        lemma_counts_concat(t.take(p), t.skip(p));
        assert(t.take(p) + t.skip(p) =~= t);
        assert(seq![e].drop_last() =~= Seq::<ButtonEvent>::empty());
        assert(downs(seq![e]) == downs(Seq::<ButtonEvent>::empty()) + if e.down { 1nat } else { 0nat });
        assert(ups(seq![e]) == ups(Seq::<ButtonEvent>::empty()) + if e.down { 0nat } else { 1nat });
        assert(sorted_by_time(s) == t.take(p) + seq![e] + t.skip(p));
        assert(s.drop_last().push(e) =~= s);
        lemma_counts_concat(s.drop_last(), seq![e]);
        assert(s.drop_last() + seq![e] =~= s);
    }
}

proof fn lemma_pair_counts(evs: Seq<ButtonEvent>)
    ensures
        ({
            let st = pair_all(evs);
            &&& downs(evs) == st.presses.len() + st.unmatched_down + if st.open is Some {
                1nat
            } else {
                0nat
            }
            &&& ups(evs) == st.presses.len() + st.unmatched_up
            &&& released(st.presses) == st.presses.len()
        }),
    decreases evs.len(),
{
    if evs.len() > 0 {
        lemma_pair_counts(evs.drop_last());
        let st = pair_all(evs.drop_last());
        let e = evs.last();
        if !e.down && st.open is Some {
            let ps = pair_all(evs).presses;
            assert(ps.drop_last() =~= st.presses);
        }
    }
}

/// Every press edge of a button starts a press or is counted as a press
/// that was never released, and every release ends a press or is counted as
/// a release with no press: no edge is silently dropped.
pub proof fn lemma_every_edge_is_accounted(events: Seq<ButtonEvent>, b: u8)
    ensures
        ({
            let (ps, ud, uu) = spec_presses(events, b);
            &&& downs(of_button(events, b)) == ps.len() + ud
            &&& ups(of_button(events, b)) == released(ps) + uu
        }),
{
    let s = sorted_by_time(of_button(events, b));
    lemma_sorted_counts(of_button(events, b));
    lemma_pair_counts(s);
    let st = pair_all(s);
    if let Some(down) = st.open {
        let p = Press { down_ns: down, up_ns: None, dwell_ns: None, gap_ns: gap_before(st.last_up, down) };
        assert(st.presses.push(p).drop_last() =~= st.presses);
    }
}

/// A released press was released no earlier than it was pressed.
pub open spec fn in_order(p: Press) -> bool {
    match p.up_ns {
        Some(u) => p.down_ns <= u,
        None => true,
    }
}

/// Every released press was released no earlier than it was pressed, so
/// its hold time is the real difference and never a clamped one.
pub proof fn lemma_presses_in_order(events: Seq<ButtonEvent>, b: u8)
    ensures
        ({
            let ps = spec_presses(events, b).0;
            forall|i: int| 0 <= i < ps.len() ==> in_order(#[trigger] ps[i])
        }),
{
    let s = sorted_by_time(of_button(events, b));
    lemma_sorted_by_time(of_button(events, b));
    lemma_pair_order(s);
    let st = pair_all(s);
    let ps = spec_presses(events, b).0;
    assert forall|i: int| 0 <= i < ps.len() implies in_order(#[trigger] ps[i]) by {
        if i < st.presses.len() {
            assert(ps[i] == st.presses[i]);
        }
    }
}

proof fn lemma_pair_order(evs: Seq<ButtonEvent>)
    requires
        time_ordered(evs),
    ensures
        ({
            let st = pair_all(evs);
            &&& forall|i: int| 0 <= i < st.presses.len() ==> in_order(#[trigger] st.presses[i])
            &&& (st.open matches Some(d) ==> evs.len() > 0 && d <= evs.last().t_ns)
        }),
    decreases evs.len(),
{
    if evs.len() > 0 {
        let front = evs.drop_last();
        assert(time_ordered(front));
        lemma_pair_order(front);
        let st = pair_all(front);
        if let Some(d) = st.open {
            assert(d <= front.last().t_ns);
            assert(front.last().t_ns <= evs.last().t_ns);
        }
        let st2 = pair_all(evs);
        assert forall|i: int| 0 <= i < st2.presses.len() implies in_order(#[trigger] st2.presses[i]) by {
            if i < st.presses.len() {
                assert(st2.presses[i] == st.presses[i]);
            }
        }
    }
}

/// The presses and releases of button `b` among the edges: every edge of
/// that button is one or the other.
pub fn edge_counts(events: &[ButtonEvent], b: u8) -> (r: (usize, usize))
    ensures
        r.0 == downs(of_button(events@, b)),
        r.1 == ups(of_button(events@, b)),
{
    let mut d: usize = 0;
    let mut u: usize = 0;
    let mut i: usize = 0;
    while i < events.len()
        invariant
            i <= events@.len(),
            d == downs(of_button(events@.take(i as int), b)),
            u == ups(of_button(events@.take(i as int), b)),
            d + u <= i,
        decreases events@.len() - i,
    {
        let e = events[i];
        proof {
            let t = events@.take(i + 1);
            assert(t.drop_last() =~= events@.take(i as int));
            assert(t.last() == e);
            if e.button == b {
                let o = of_button(t, b);
                assert(o == of_button(events@.take(i as int), b).push(e));
                assert(o.drop_last() =~= of_button(events@.take(i as int), b));
            }
        }
        if e.button == b {
            if e.down {
                d = d + 1;
            } else {
                u = u + 1;
            }
        }
        i = i + 1;
    }
    proof {
        assert(events@.take(i as int) =~= events@);
    }
    (d, u)
}

/// The ids of the buttons among the edges, each once, smallest first.
pub fn button_ids(events: &[ButtonEvent]) -> (ids: Vec<u8>)
    ensures
        forall|i: int, j: int| 0 <= i < j < ids@.len() ==> ids@[i] < ids@[j],
        forall|x: u8| #[trigger] ids@.contains(x) <==> exists|k: int| 0 <= k < events@.len() && events@[k].button == x,
{
    let mut seen: Vec<bool> = Vec::new();
    let mut c: usize = 0;
    while c < 256
        invariant
            c <= 256,
            seen@.len() == c,
            forall|x: int| 0 <= x < c ==> !seen@[x],
        decreases 256 - c,
    {
        seen.push(false);
        c = c + 1;
    }
    let mut i: usize = 0;
    while i < events.len()
        invariant
            i <= events@.len(),
            seen@.len() == 256,
            forall|x: int| 0 <= x < 256 ==> (seen@[x] <==> exists|k: int| 0 <= k < i && events@[k].button == x),
        decreases events@.len() - i,
    {
        let b = events[i].button;
        seen.set(b as usize, true);
        proof {
            assert forall|x: int| 0 <= x < 256 implies (seen@[x] <==> exists|k: int| 0 <= k < i + 1 && events@[k].button == x) by {
                if x == b as int {
                    assert(events@[i as int].button == x);
                } else if seen@[x] {
                    let k = choose|k: int| 0 <= k < i && events@[k].button == x;
                    assert(0 <= k < i + 1 && events@[k].button == x);
                } else if exists|k: int| 0 <= k < i + 1 && events@[k].button == x {
                    let k = choose|k: int| 0 <= k < i + 1 && events@[k].button == x;
                    assert(k < i);
                }
            }
        }
        i = i + 1;
    }
    let mut ids: Vec<u8> = Vec::new();
    let mut x: usize = 0;
    while x < 256
        invariant
            x <= 256,
            seen@.len() == 256,
            forall|y: int| 0 <= y < 256 ==> (seen@[y] <==> exists|k: int| 0 <= k < events@.len() && events@[k].button == y),
            forall|p: int, q: int| 0 <= p < q < ids@.len() ==> ids@[p] < ids@[q],
            forall|p: int| 0 <= p < ids@.len() ==> ids@[p] < x,
            forall|y: u8| (y as int) < x ==> (#[trigger] ids@.contains(y) <==> seen@[y as int]),
        decreases 256 - x,
    {
        if seen[x] {
            let ghost before = ids@;
            ids.push(x as u8);
            proof {
                assert forall|y: u8| (y as int) < x + 1 implies (#[trigger] ids@.contains(y) <==> seen@[y as int]) by {
                    if y as int == x {
                        assert(ids@[before.len() as int] == y);
                    } else if ids@.contains(y) {
                        let p = choose|p: int| 0 <= p < ids@.len() && ids@[p] == y;
                        assert(p < before.len());
                        assert(before.contains(y));
                    } else if before.contains(y) {
                        let p = choose|p: int| 0 <= p < before.len() && before[p] == y;
                        assert(ids@[p] == y);
                    }
                }
            }
        } else {
            proof {
                assert forall|y: u8| (y as int) < x + 1 implies (#[trigger] ids@.contains(y) <==> seen@[y as int]) by {
                    if y as int == x && ids@.contains(y) {
                        let p = choose|p: int| 0 <= p < ids@.len() && ids@[p] == y;
                    }
                }
            }
        }
        x = x + 1;
    }
    proof {
        assert forall|y: u8| #[trigger] ids@.contains(y) <==> exists|k: int| 0 <= k < events@.len() && events@[k].button == y by {
            assert((y as int) < 256);
            assert(ids@.contains(y) <==> seen@[y as int]);
        }
    }
    ids
}

/// Every press but the last was released, and each press's gap is measured
/// from the release of the press just before it: the time between them when
/// the press came after that release, none otherwise; the first press has
/// no gap.
pub open spec fn gaps_follow_releases(ps: Seq<Press>) -> bool {
    &&& ps.len() > 0 ==> ps[0].gap_ns is None
    &&& forall|i: int|
        #![trigger ps[i]]
        1 <= i < ps.len() ==> {
            &&& ps[i - 1].up_ns is Some
            &&& ps[i].down_ns > ps[i - 1].up_ns->0 ==> ps[i].gap_ns == Some(
                (ps[i].down_ns - ps[i - 1].up_ns->0) as u64,
            )
            &&& ps[i].down_ns <= ps[i - 1].up_ns->0 ==> ps[i].gap_ns is None
        }
}

proof fn lemma_pairing_gaps(evs: Seq<ButtonEvent>)
    ensures
        ({
            let st = pair_all(evs);
            &&& forall|i: int| 0 <= i < st.presses.len() ==> (#[trigger] st.presses[i]).up_ns is Some
            &&& st.last_up == (if st.presses.len() == 0 {
                None
            } else {
                st.presses.last().up_ns
            })
            &&& gaps_follow_releases(st.presses)
        }),
    decreases evs.len(),
{
    if evs.len() > 0 {
        lemma_pairing_gaps(evs.drop_last());
        let st0 = pair_all(evs.drop_last());
        let st = pair_all(evs);
        if st.presses.len() > st0.presses.len() {
            assert(st.presses =~= st0.presses.push(st.presses.last()));
            assert forall|i: int| #![trigger st.presses[i]] 1 <= i < st.presses.len() implies {
                &&& st.presses[i - 1].up_ns is Some
                &&& st.presses[i].down_ns > st.presses[i - 1].up_ns->0 ==> st.presses[i].gap_ns == Some(
                    (st.presses[i].down_ns - st.presses[i - 1].up_ns->0) as u64,
                )
                &&& st.presses[i].down_ns <= st.presses[i - 1].up_ns->0 ==> st.presses[i].gap_ns is None
            } by {
                if i < st0.presses.len() {
                    assert(st.presses[i] == st0.presses[i]);
                    assert(st.presses[i - 1] == st0.presses[i - 1]);
                } else {
                    assert(st.presses[i - 1] == st0.presses.last());
                }
            }
        } else {
            assert(st.presses =~= st0.presses);
        }
    }
}

/// Each released press is held from its press to its release (none when
/// the release came first in time), and only the last press may still be
/// held, with no hold time.
pub open spec fn holds_match_releases(ps: Seq<Press>) -> bool {
    forall|i: int|
        #![trigger ps[i]]
        0 <= i < ps.len() ==> match ps[i].up_ns {
            Some(u) => ps[i].dwell_ns == Some(if u >= ps[i].down_ns { (u - ps[i].down_ns) as u64 } else { 0 }),
            None => ps[i].dwell_ns is None && i == ps.len() - 1,
        }
}

proof fn lemma_pairing_holds(evs: Seq<ButtonEvent>)
    ensures
        ({
            let st = pair_all(evs);
            &&& forall|i: int| 0 <= i < st.presses.len() ==> (#[trigger] st.presses[i]).up_ns is Some
            &&& holds_match_releases(st.presses)
        }),
    decreases evs.len(),
{
    if evs.len() > 0 {
        lemma_pairing_holds(evs.drop_last());
        let st0 = pair_all(evs.drop_last());
        let st = pair_all(evs);
        if st.presses.len() > st0.presses.len() {
            assert(st.presses =~= st0.presses.push(st.presses.last()));
            assert forall|i: int| 0 <= i < st.presses.len() implies (#[trigger] st.presses[i]).up_ns is Some by {
                if i < st0.presses.len() {
                    assert(st.presses[i] == st0.presses[i]);
                }
            }
            assert forall|i: int| #![trigger st.presses[i]] 0 <= i < st.presses.len() implies match st.presses[i].up_ns {
                Some(u) => st.presses[i].dwell_ns == Some(
                    if u >= st.presses[i].down_ns { (u - st.presses[i].down_ns) as u64 } else { 0 },
                ),
                None => st.presses[i].dwell_ns is None && i == st.presses.len() - 1,
            } by {
                if i < st0.presses.len() {
                    assert(st.presses[i] == st0.presses[i]);
                }
            }
        } else {
            assert(st.presses =~= st0.presses);
        }
    }
}

/// Hold times run from each press to its own release, and a press still held
/// at the end has none and comes last.
pub proof fn lemma_hold_runs_from_press_to_release(events: Seq<ButtonEvent>, b: u8)
    ensures
        holds_match_releases(spec_presses(events, b).0),
{
    let st = pair_all(sorted_by_time(of_button(events, b)));
    lemma_pairing_holds(sorted_by_time(of_button(events, b)));
    let ps = spec_presses(events, b).0;
    if st.open is Some {
        assert(ps =~= st.presses.push(ps.last()));
        assert forall|i: int| #![trigger ps[i]] 0 <= i < ps.len() implies match ps[i].up_ns {
            Some(u) => ps[i].dwell_ns == Some(if u >= ps[i].down_ns { (u - ps[i].down_ns) as u64 } else { 0 }),
            None => ps[i].dwell_ns is None && i == ps.len() - 1,
        } by {
            if i < st.presses.len() {
                assert(ps[i] == st.presses[i]);
            }
        }
    }
}

/// The gap of each press runs from the release just before it: for every
/// press after the first, the one before it was released, and the gap is
/// the time from that release to this press (none when the press did not
/// come after it). The first press has no gap.
pub proof fn lemma_gap_runs_from_previous_release(events: Seq<ButtonEvent>, b: u8)
    ensures
        gaps_follow_releases(spec_presses(events, b).0),
{
    let st = pair_all(sorted_by_time(of_button(events, b)));
    lemma_pairing_gaps(sorted_by_time(of_button(events, b)));
    let ps = spec_presses(events, b).0;
    if st.open is Some {
        assert(ps =~= st.presses.push(ps.last()));
        assert forall|i: int| #![trigger ps[i]] 1 <= i < ps.len() implies {
            &&& ps[i - 1].up_ns is Some
            &&& ps[i].down_ns > ps[i - 1].up_ns->0 ==> ps[i].gap_ns == Some(
                (ps[i].down_ns - ps[i - 1].up_ns->0) as u64,
            )
            &&& ps[i].down_ns <= ps[i - 1].up_ns->0 ==> ps[i].gap_ns is None
        } by {
            if i < st.presses.len() {
                assert(ps[i] == st.presses[i]);
                assert(ps[i - 1] == st.presses[i - 1]);
            } else {
                assert(ps[i - 1] == st.presses.last());
            }
        }
    }
}

} // verus!
