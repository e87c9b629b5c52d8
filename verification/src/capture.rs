//! Capture bookkeeping: the per-level series the analysers consume, the state
//! each level is in, and how button edges are derived from what a source
//! reports.
//!
//! All timing comes from the samples themselves, so a slow frame delays when a
//! number is displayed but cannot change what was measured.
use vstd::prelude::*;
use crate::debounce::ButtonEvent;
use crate::polling;
use crate::sensor::types::Report;
use crate::clock::{TickScale, lemma_converts_below};
use crate::sample::{Sample, Kind};
use std::collections::BTreeMap;

verus! {

/// The level a series was captured at.
#[derive(Clone, Copy, PartialEq, Eq, Debug, Structural)]
pub enum Tier {
    /// Reports as the OS receives them from the device.
    Device,
    /// After the OS turns reports into input events.
    System,
    /// What an ordinary program receives.
    App,
}

/// Per-level accumulated series. The vectors are parallel: entry `i` of each
/// describes the `i`th report.
pub struct Series {
    /// Report timestamps in nanoseconds.
    pub times_ns: Vec<u64>,
    /// Motion magnitude in device counts, parallel to `times_ns`; -1 where the
    /// report's motion could not be decoded.
    pub counts: Vec<i32>,
    /// Signed per-axis motion, parallel to `times_ns`.
    pub dx: Vec<i32>,
    pub dy: Vec<i32>,
    /// Raw wheel counts, parallel to `times_ns`. Raw, not detents: what one
    /// detent is worth is inferred by the scroll analysis.
    pub wheel: Vec<i32>,
    pub hwheel: Vec<i32>,
    pub total: u64,
    /// Samples the ring had to discard because the consumer fell behind.
    pub ring_drops: u64,
    /// True when the level supplies per-event timestamps at all.
    pub has_timestamps: bool,
    /// True when motion counts are real device counts rather than a proxy.
    pub has_counts: bool,
}

pub open spec fn min(a: int, b: int) -> int {
    if a <= b {
        a
    } else {
        b
    }
}

impl Series {
    /// An empty series for a level with the given capabilities.
    pub fn new(has_timestamps: bool, has_counts: bool) -> (s: Self)
        ensures
            s.times_ns@.len() == 0 && s.counts@.len() == 0 && s.dx@.len() == 0,
            s.dy@.len() == 0 && s.wheel@.len() == 0 && s.hwheel@.len() == 0,
            s.total == 0 && s.ring_drops == 0,
            s.has_timestamps == has_timestamps && s.has_counts == has_counts,
    {
        Series {
            times_ns: Vec::new(),
            counts: Vec::new(),
            dx: Vec::new(),
            dy: Vec::new(),
            wheel: Vec::new(),
            hwheel: Vec::new(),
            total: 0,
            ring_drops: 0,
            has_timestamps,
            has_counts,
        }
    }

    pub fn clear(&mut self)
        ensures
            final(self).times_ns@.len() == 0 && final(self).counts@.len() == 0,
            final(self).dx@.len() == 0 && final(self).dy@.len() == 0,
            final(self).wheel@.len() == 0 && final(self).hwheel@.len() == 0,
            final(self).total == 0 && final(self).ring_drops == 0,
            final(self).has_timestamps == old(self).has_timestamps,
            final(self).has_counts == old(self).has_counts,
    {
        self.times_ns.clear();
        self.counts.clear();
        self.dx.clear();
        self.dy.clear();
        self.wheel.clear();
        self.hwheel.clear();
        self.total = 0;
        self.ring_drops = 0;
    }

    /// The series as interval-analysis reports, pairing each timestamp with
    /// its count.
    pub fn reports(&self) -> (r: Vec<polling::Report>)
        ensures
            r@.len() == min(self.times_ns@.len() as int, self.counts@.len() as int),
            forall|i: int|
                0 <= i < r@.len() ==> #[trigger] r@[i] == (polling::Report {
                    t_ns: self.times_ns@[i],
                    counts: self.counts@[i],
                }),
    {
        let n = if self.times_ns.len() <= self.counts.len() {
            self.times_ns.len()
        } else {
            self.counts.len()
        };
        let mut out: Vec<polling::Report> = Vec::new();
        let mut i: usize = 0;
        while i < n
            invariant
                n == min(self.times_ns@.len() as int, self.counts@.len() as int),
                i <= n,
                out@.len() == i,
                forall|j: int|
                    0 <= j < i ==> #[trigger] out@[j] == (polling::Report {
                        t_ns: self.times_ns@[j],
                        counts: self.counts@[j],
                    }),
            decreases n - i,
        {
            out.push(polling::Report { t_ns: self.times_ns[i], counts: self.counts[i] });
            i = i + 1;
        }
        out
    }

    /// Scroll reports from `from` onward, so one run analyses only its own
    /// wheel activity rather than everything since the capture started.
    pub fn scroll_from(&self, from: usize) -> (r: Vec<Report>)
        requires
            min(from as int, self.times_ns@.len() as int) <= self.wheel@.len(),
            min(from as int, self.times_ns@.len() as int) <= self.hwheel@.len(),
        ensures
            ({
                let f = min(from as int, self.times_ns@.len() as int);
                &&& r@.len() == min(
                    min(self.times_ns@.len() - f, self.wheel@.len() - f),
                    self.hwheel@.len() - f,
                )
                &&& forall|i: int|
                    0 <= i < r@.len() ==> #[trigger] r@[i] == (Report {
                        t_ns: self.times_ns@[f + i],
                        dx: 0,
                        dy: 0,
                        wheel: self.wheel@[f + i],
                        hwheel: self.hwheel@[f + i],
                    })
            }),
    {
        let f = if from <= self.times_ns.len() {
            from
        } else {
            self.times_ns.len()
        };
        let mut n = self.times_ns.len() - f;
        if self.wheel.len() - f < n {
            n = self.wheel.len() - f;
        }
        if self.hwheel.len() - f < n {
            n = self.hwheel.len() - f;
        }
        let mut out: Vec<Report> = Vec::new();
        let mut i: usize = 0;
        while i < n
            invariant
                f == min(from as int, self.times_ns@.len() as int),
                n == min(
                    min(self.times_ns@.len() - f, self.wheel@.len() - f),
                    self.hwheel@.len() - f,
                ),
                i <= n,
                f + n <= self.times_ns@.len() <= usize::MAX,
                f + n <= self.wheel@.len(),
                f + n <= self.hwheel@.len(),
                out@.len() == i,
                forall|j: int|
                    0 <= j < i ==> #[trigger] out@[j] == (Report {
                        t_ns: self.times_ns@[f + j],
                        dx: 0,
                        dy: 0,
                        wheel: self.wheel@[f + j],
                        hwheel: self.hwheel@[f + j],
                    }),
            decreases n - i,
        {
            out.push(
                Report {
                    t_ns: self.times_ns[f + i],
                    dx: 0,
                    dy: 0,
                    wheel: self.wheel[f + i],
                    hwheel: self.hwheel[f + i],
                },
            );
            i = i + 1;
        }
        out
    }

    /// Motion reports from `from` onward, for the sensor detectors.
    pub fn motion_from(&self, from: usize) -> (r: Vec<Report>)
        requires
            min(from as int, self.times_ns@.len() as int) <= self.dx@.len(),
            min(from as int, self.times_ns@.len() as int) <= self.dy@.len(),
        ensures
            ({
                let f = min(from as int, self.times_ns@.len() as int);
                &&& r@.len() == min(
                    min(self.times_ns@.len() - f, self.dx@.len() - f),
                    self.dy@.len() - f,
                )
                &&& forall|i: int|
                    0 <= i < r@.len() ==> #[trigger] r@[i] == (Report {
                        t_ns: self.times_ns@[f + i],
                        dx: self.dx@[f + i],
                        dy: self.dy@[f + i],
                        wheel: 0,
                        hwheel: 0,
                    })
            }),
    {
        let f = if from <= self.times_ns.len() {
            from
        } else {
            self.times_ns.len()
        };
        let mut n = self.times_ns.len() - f;
        if self.dx.len() - f < n {
            n = self.dx.len() - f;
        }
        if self.dy.len() - f < n {
            n = self.dy.len() - f;
        }
        let mut out: Vec<Report> = Vec::new();
        let mut i: usize = 0;
        while i < n
            invariant
                f == min(from as int, self.times_ns@.len() as int),
                n == min(min(self.times_ns@.len() - f, self.dx@.len() - f), self.dy@.len() - f),
                i <= n,
                f + n <= self.times_ns@.len() <= usize::MAX,
                f + n <= self.dx@.len(),
                f + n <= self.dy@.len(),
                out@.len() == i,
                forall|j: int|
                    0 <= j < i ==> #[trigger] out@[j] == (Report {
                        t_ns: self.times_ns@[f + j],
                        dx: self.dx@[f + j],
                        dy: self.dy@[f + j],
                        wheel: 0,
                        hwheel: 0,
                    }),
            decreases n - i,
        {
            out.push(Report::motion(self.times_ns[f + i], self.dx[f + i], self.dy[f + i]));
            i = i + 1;
        }
        out
    }
}

#[derive(Clone, Copy, PartialEq, Eq, Debug, Structural)]
pub enum LevelState {
    /// Not started.
    Idle,
    /// Running and receiving.
    Live,
    /// Running but nothing has arrived yet.
    Waiting,
    /// Cannot run, with a reason.
    Blocked,
}

/// The device level's state after a pump, as a rule.
///
/// A device the system took away outranks everything: the capture's
/// connection is dead and no report will ever arrive on it again. Otherwise a
/// report is proof the device is open, whatever the status said earlier.
/// Otherwise "nothing opened" means blocked, but only once the capture thread
/// has published the result of opening; before that, nothing changes.
pub open spec fn next_device_state(
    prev: LevelState,
    status_running: bool,
    status_opened: usize,
    total_reports: u64,
    removed: u64,
) -> LevelState {
    if removed > 0 {
        LevelState::Blocked
    } else if total_reports > 0 {
        LevelState::Live
    } else if status_running && status_opened == 0 {
        LevelState::Blocked
    } else {
        prev
    }
}

/// What the device level's state should be after a pump.
///
/// `status_running` is whether the backend has published the result of
/// opening devices; `status_opened` is how many it opened. `opened == 0`
/// means "nothing could be opened" only once the status is published: for the
/// whole window before that, `opened` is 0 while nothing is wrong.
pub fn device_state_after_pump(
    prev: LevelState,
    status_running: bool,
    status_opened: usize,
    total_reports: u64,
    removed: u64,
) -> (s: LevelState)
    ensures
        s == next_device_state(prev, status_running, status_opened, total_reports, removed),
{
    if removed > 0 {
        return LevelState::Blocked;
    }
    if total_reports > 0 {
        return LevelState::Live;
    }
    if status_running && status_opened == 0 {
        return LevelState::Blocked;
    }
    prev
}

/// Once a device has been taken away, no later pump brings the level back,
/// however many reports it had delivered before.
pub proof fn lemma_removal_is_permanent(
    prev: LevelState,
    status_running: bool,
    status_opened: usize,
    total_reports: u64,
    removed: u64,
)
    requires
        removed > 0,
    ensures
        next_device_state(prev, status_running, status_opened, total_reports, removed)
            == LevelState::Blocked,
{
}

/// While the capture thread is still opening devices and nothing has arrived
/// or gone away, the level keeps whatever state it had: an unpublished status
/// is never taken as a failure to open.
pub proof fn lemma_unpublished_status_changes_nothing(
    prev: LevelState,
    status_opened: usize,
)
    ensures
        next_device_state(prev, false, status_opened, 0, 0) == prev,
{
}

/// Any report clears a block that did not come from a removal: a working
/// device is never left reading "blocked" underneath its own reports.
pub proof fn lemma_a_report_proves_the_device_open(
    prev: LevelState,
    status_running: bool,
    status_opened: usize,
    total_reports: u64,
)
    requires
        total_reports > 0,
    ensures
        next_device_state(prev, status_running, status_opened, total_reports, 0)
            == LevelState::Live,
{
}

/// The presses and releases in `changed`, lowest button first, all at `t_ns`;
/// a set bit of `state` means that button is now down.
pub open spec fn edges_from(changed: u32, state: u32, t_ns: u64, bit: nat) -> Seq<ButtonEvent>
    decreases 32 - bit,
{
    if bit >= 32 {
        Seq::empty()
    } else {
        let rest = edges_from(changed, state, t_ns, bit + 1);
        if changed & (1u32 << bit as u32) != 0 {
            seq![
                ButtonEvent {
                    t_ns,
                    button: (bit + 1) as u8,
                    down: state & (1u32 << bit as u32) != 0,
                },
            ] + rest
        } else {
            rest
        }
    }
}

/// The edges a source reporting absolute button state implies: every button
/// whose bit differs between the previous state and this one, reported as the
/// raw one-based button number.
pub fn edges_between_states(prev: u32, state: u32, t_ns: u64) -> (r: Vec<ButtonEvent>)
    ensures
        r@ == edges_from(prev ^ state, state, t_ns, 0),
{
    let changed = prev ^ state;
    let mut out: Vec<ButtonEvent> = Vec::new();
    let mut bit: u32 = 32;
    // Built from the highest bit down, so each step prepends one button.
    let mut rev: Vec<ButtonEvent> = Vec::new();
    while bit > 0
        invariant
            bit <= 32,
            rev@.reverse() == edges_from(changed, state, t_ns, bit as nat),
        decreases bit,
    {
        bit = bit - 1;
        let mask = 1u32 << bit;
        if changed & mask != 0 {
            let e = ButtonEvent { t_ns, button: (bit + 1) as u8, down: state & mask != 0 };
            proof {
                assert(rev@.push(e).reverse() =~= seq![e] + rev@.reverse());
            }
            rev.push(e);
        }
    }
    let mut i = rev.len();
    while i > 0
        invariant
            i <= rev@.len(),
            out@ == rev@.subrange(i as int, rev@.len() as int).reverse(),
        decreases i,
    {
        i = i - 1;
        out.push(rev[i]);
        proof {
            assert(rev@.subrange(i as int, rev@.len() as int).reverse() =~= rev@.subrange(
                (i + 1) as int,
                rev@.len() as int,
            ).reverse().push(rev@[i as int]));
        }
    }
    proof {
        assert(rev@.subrange(0, rev@.len() as int) =~= rev@);
    }
    out
}

/// The presses in `down` then the releases in `up` of one button, for every
/// button from `bit` upward.
pub open spec fn transitions_from(down: u32, up: u32, t_ns: u64, bit: nat) -> Seq<ButtonEvent>
    decreases 32 - bit,
{
    if bit >= 32 {
        Seq::empty()
    } else {
        let b = (bit + 1) as u8;
        let press = if down & (1u32 << bit as u32) != 0 {
            seq![ButtonEvent { t_ns, button: b, down: true }]
        } else {
            Seq::empty()
        };
        let release = if up & (1u32 << bit as u32) != 0 {
            seq![ButtonEvent { t_ns, button: b, down: false }]
        } else {
            Seq::empty()
        };
        press + release + transitions_from(down, up, t_ns, bit + 1)
    }
}

/// The edges a source reporting transitions implies: for each button, lowest
/// first, its press and then its release.
pub fn edges_from_transitions(down: u32, up: u32, t_ns: u64) -> (r: Vec<ButtonEvent>)
    ensures
        r@ == transitions_from(down, up, t_ns, 0),
{
    let mut out: Vec<ButtonEvent> = Vec::new();
    let mut bit: u32 = 0;
    while bit < 32
        invariant
            bit <= 32,
            out@ + transitions_from(down, up, t_ns, bit as nat) == transitions_from(down, up, t_ns, 0),
        decreases 32 - bit,
    {
        let mask = 1u32 << bit;
        let ghost before = out@;
        if down & mask != 0 {
            out.push(ButtonEvent { t_ns, button: (bit + 1) as u8, down: true });
        }
        if up & mask != 0 {
            out.push(ButtonEvent { t_ns, button: (bit + 1) as u8, down: false });
        }
        proof {
            let b = (bit + 1) as u8;
            let press = if down & (1u32 << bit) != 0 {
                seq![ButtonEvent { t_ns, button: b, down: true }]
            } else {
                Seq::empty()
            };
            let release = if up & (1u32 << bit) != 0 {
                seq![ButtonEvent { t_ns, button: b, down: false }]
            } else {
                Seq::empty()
            };
            assert(out@ =~= before + press + release);
            assert(transitions_from(down, up, t_ns, bit as nat) == press + release
                + transitions_from(down, up, t_ns, (bit + 1) as nat));
            assert(before + (press + release + transitions_from(down, up, t_ns, (bit + 1) as nat))
                =~= out@ + transitions_from(down, up, t_ns, (bit + 1) as nat));
        }
        bit = bit + 1;
    }
    proof {
        assert(out@ + Seq::<ButtonEvent>::empty() =~= out@);
    }
    out
}

/// A series as plain sequences.
#[verifier::ext_equal]
pub struct SeriesModel {
    pub times: Seq<u64>,
    pub counts: Seq<i32>,
    pub dx: Seq<i32>,
    pub dy: Seq<i32>,
    pub wheel: Seq<i32>,
    pub hwheel: Seq<i32>,
    pub total: nat,
    pub ring_drops: nat,
    pub has_timestamps: bool,
    pub has_counts: bool,
}

impl Series {
    pub open spec fn model(&self) -> SeriesModel {
        SeriesModel {
            times: self.times_ns@,
            counts: self.counts@,
            dx: self.dx@,
            dy: self.dy@,
            wheel: self.wheel@,
            hwheel: self.hwheel@,
            total: self.total as nat,
            ring_drops: self.ring_drops as nat,
            has_timestamps: self.has_timestamps,
            has_counts: self.has_counts,
        }
    }

    /// Appends one report to every parallel vector and counts it.
    fn push_report(&mut self, t: u64, counts: i32, dx: i32, dy: i32, wheel: i32, hwheel: i32)
        requires
            old(self).total < u64::MAX,
        ensures
            final(self).model() == with_report(old(self).model(), t, counts, dx, dy, wheel, hwheel),
    {
        self.times_ns.push(t);
        self.counts.push(counts);
        self.dx.push(dx);
        self.dy.push(dy);
        self.wheel.push(wheel);
        self.hwheel.push(hwheel);
        self.total = self.total + 1;
    }
}

/// The series after one more report.
pub open spec fn with_report(
    m: SeriesModel,
    t: u64,
    counts: i32,
    dx: i32,
    dy: i32,
    wheel: i32,
    hwheel: i32,
) -> SeriesModel {
    SeriesModel {
        times: m.times.push(t),
        counts: m.counts.push(counts),
        dx: m.dx.push(dx),
        dy: m.dy.push(dy),
        wheel: m.wheel.push(wheel),
        hwheel: m.hwheel.push(hwheel),
        total: m.total + 1,
        ..m
    }
}

/// The size of a signed value.
pub open spec fn magnitude(v: i32) -> nat {
    if v < 0 {
        (-v) as nat
    } else {
        v as nat
    }
}

/// Motion magnitude in device counts: `|dx| + |dy|`, held at `u32::MAX`,
/// then stored as an `i32`.
pub open spec fn motion_counts(dx: i32, dy: i32) -> i32 {
    let s = magnitude(dx) + magnitude(dy);
    (if s > u32::MAX { u32::MAX as nat } else { s }) as u32 as i32
}

fn unsigned_abs(v: i32) -> (r: u32)
    ensures
        r == magnitude(v),
{
    if v < 0 {
        (0i64 - (v as i64)) as u32
    } else {
        v as u32
    }
}

pub fn motion_counts_of(dx: i32, dy: i32) -> (c: i32)
    ensures
        c == motion_counts(dx, dy),
{
    unsigned_abs(dx).saturating_add(unsigned_abs(dy)) as i32
}

/// `a - b`, or zero when `b` is larger.
pub open spec fn sat_sub(a: u64, b: u64) -> u64 {
    if a >= b {
        (a - b) as u64
    } else {
        0
    }
}

/// The tick all times are measured from: the one already fixed, or else the
/// first one seen.
pub open spec fn origin_for(origin: Option<u64>, ticks: u64) -> u64 {
    match origin {
        Some(o) => o,
        None => ticks,
    }
}

/// Nanoseconds since the origin, so displayed times start at zero.
pub open spec fn relative_ns(origin: Option<u64>, ticks: u64, scale: TickScale) -> u64 {
    scale.spec_to_ns(sat_sub(ticks, origin_for(origin, ticks)))
}

/// Button-edge bookkeeping: the edges so far, which level supplied them, and
/// the last absolute button state seen per device.
#[verifier::ext_equal]
pub struct Edges {
    pub buttons: Seq<ButtonEvent>,
    pub source: Option<Tier>,
    pub held: Map<u64, u32>,
}

/// After a report carrying `state` as device `device`'s absolute buttons:
/// every changed button becomes an edge, and the device level takes over as
/// the source once it produces anything.
pub open spec fn after_state(e: Edges, device: u64, state: u32, t: u64, tier: Tier) -> Edges {
    let prev = if e.held.contains_key(device) {
        e.held[device]
    } else {
        0u32
    };
    if prev == state {
        e
    } else {
        Edges {
            buttons: e.buttons + edges_from(prev ^ state, state, t, 0),
            source: if e.source != Some(Tier::Device) {
                Some(tier)
            } else {
                e.source
            },
            held: e.held.insert(device, state),
        }
    }
}

/// After a sample reporting presses in `down` and releases in `up`; the first
/// level to report anything becomes the source.
pub open spec fn after_transitions(e: Edges, down: u32, up: u32, t: u64, tier: Tier) -> Edges {
    if down == 0 && up == 0 {
        e
    } else {
        Edges {
            buttons: e.buttons + transitions_from(down, up, t, 0),
            source: if e.source is None {
                Some(tier)
            } else {
                e.source
            },
            held: e.held,
        }
    }
}

/// Which backend a batch of samples came from.
#[derive(Clone, Copy, PartialEq, Eq, Debug, Structural)]
pub enum Feed {
    /// macOS HID reports for the device level: absolute button state.
    Hid,
    /// The macOS global event monitor for the system level.
    MacSystem,
    /// Windows raw input for the device level: button transitions.
    Raw,
    /// The Windows low-level hook for the system level, which carries a
    /// cursor position rather than motion.
    Hook,
}

/// The feeds that fill the device level.
pub open spec fn feeds_device(f: Feed) -> bool {
    f == Feed::Hid || f == Feed::Raw
}

/// What one batch of samples touches.
#[verifier::ext_equal]
pub struct Ingest {
    pub series: SeriesModel,
    pub origin: Option<u64>,
    pub edges: Edges,
}

/// One sample taken in from `feed`.
pub open spec fn ingest_step(
    feed: Feed,
    m: Ingest,
    s: Sample,
    scale: TickScale,
    filter: Option<u64>,
) -> Ingest {
    let origin = Some(origin_for(m.origin, s.t));
    let t = relative_ns(m.origin, s.t, scale);
    match feed {
        Feed::Hid => if s.kind != Kind::Report {
            m
        } else {
            let decoded = s.flags & 32u32 != 0;
            let c = if decoded {
                motion_counts(s.dx, s.dy)
            } else {
                -1i32
            };
            Ingest {
                series: with_report(m.series, t, c, s.dx, s.dy, s.wheel, s.hwheel),
                origin,
                edges: if decoded {
                    after_state(m.edges, s.device, s.buttons_state, t, Tier::Device)
                } else {
                    m.edges
                },
            }
        },
        Feed::MacSystem => Ingest {
            series: with_report(m.series, t, motion_counts(s.dx, s.dy), s.dx, s.dy, s.wheel, s.hwheel),
            origin,
            edges: if m.edges.source != Some(Tier::Device) {
                after_transitions(m.edges, s.buttons_down, s.buttons_up, t, Tier::System)
            } else {
                m.edges
            },
        },
        Feed::Raw => if filter is Some && s.device != filter->0 {
            m
        } else {
            Ingest {
                series: with_report(m.series, t, motion_counts(s.dx, s.dy), s.dx, s.dy, s.wheel, s.hwheel),
                origin,
                edges: after_transitions(m.edges, s.buttons_down, s.buttons_up, t, Tier::Device),
            }
        },
        Feed::Hook => Ingest {
            series: with_report(m.series, t, 0, 0, 0, s.wheel, s.hwheel),
            origin,
            edges: if m.edges.source != Some(Tier::Device) {
                after_transitions(m.edges, s.buttons_down, s.buttons_up, t, Tier::System)
            } else {
                m.edges
            },
        },
    }
}

/// A batch of samples taken in, in order.
pub open spec fn ingest_all(
    feed: Feed,
    m: Ingest,
    ss: Seq<Sample>,
    scale: TickScale,
    filter: Option<u64>,
) -> Ingest
    decreases ss.len(),
{
    if ss.len() == 0 {
        m
    } else {
        ingest_step(feed, ingest_all(feed, m, ss.drop_last(), scale, filter), ss.last(), scale, filter)
    }
}

/// Taking in a sample adds at most one report.
proof fn lemma_ingest_total(feed: Feed, m: Ingest, ss: Seq<Sample>, scale: TickScale, filter: Option<u64>)
    ensures
        ingest_all(feed, m, ss, scale, filter).series.total <= m.series.total + ss.len(),
    decreases ss.len(),
{
    if ss.len() > 0 {
        lemma_ingest_total(feed, m, ss.drop_last(), scale, filter);
    }
}

/// Once the device level supplies the button edges, a system-level batch
/// (the macOS event monitor or the Windows hook) records none: the edges,
/// their source and the held states come out as they went in, so one
/// physical click is never counted twice.
pub proof fn lemma_system_edges_yield_to_device(
    feed: Feed,
    m: Ingest,
    ss: Seq<Sample>,
    scale: TickScale,
    filter: Option<u64>,
)
    requires
        !feeds_device(feed),
        m.edges.source == Some(Tier::Device),
    ensures
        ingest_all(feed, m, ss, scale, filter).edges == m.edges,
    decreases ss.len(),
{
    if ss.len() > 0 {
        lemma_system_edges_yield_to_device(feed, m, ss.drop_last(), scale, filter);
    }
}

/// The same at the session: with the device level as the button source, a
/// batch from a system-level feed leaves the recorded button edges as they
/// were.
pub proof fn lemma_session_system_edges_yield_to_device(
    v: SessionView,
    feed: Feed,
    ss: Seq<Sample>,
    drops: u64,
    scale: TickScale,
)
    requires
        !feeds_device(feed),
        v.edges.source == Some(Tier::Device),
    ensures
        view_ingest(v, feed, ss, drops, scale).edges == v.edges,
{
    let m = with_drops(Ingest { series: v.system, origin: v.origin, edges: v.edges }, drops);
    lemma_system_edges_yield_to_device(feed, m, ss, scale, v.filter);
}

/// Nanoseconds since the origin for `ticks`, fixing the origin at `ticks`
/// when none is set yet.
fn to_ns(origin: &mut Option<u64>, ticks: u64, scale: TickScale) -> (ns: u64)
    requires
        scale.converts(ticks),
    ensures
        ns == relative_ns(*old(origin), ticks, scale),
        *final(origin) == Some(origin_for(*old(origin), ticks)),
{
    let o = match *origin {
        Some(o) => o,
        None => ticks,
    };
    *origin = Some(o);
    let d = if ticks >= o { ticks - o } else { 0 };
    proof {
        lemma_converts_below(scale, d, ticks);
    }
    scale.ticks_to_ns(d)
}

fn append_edges(buttons: &mut Vec<ButtonEvent>, more: &Vec<ButtonEvent>)
    ensures
        final(buttons)@ == old(buttons)@ + more@,
{
    let ghost base = old(buttons)@;
    let mut i: usize = 0;
    while i < more.len()
        invariant
            i <= more@.len(),
            buttons@ == base + more@.take(i as int),
        decreases more@.len() - i,
    {
        buttons.push(more[i]);
        proof {
            assert(more@.take(i + 1) =~= more@.take(i as int).push(more@[i as int]));
        }
        i = i + 1;
    }
    proof {
        assert(more@.take(i as int) =~= more@);
    }
}

fn is_device_tier(t: Option<Tier>) -> (b: bool)
    ensures
        b == (t == Some(Tier::Device)),
{
    match t {
        Some(Tier::Device) => true,
        _ => false,
    }
}

/// Turns an absolute button state into press and release edges.
fn push_button_edges(
    buttons: &mut Vec<ButtonEvent>,
    source: &mut Option<Tier>,
    held: &mut BTreeMap<u64, u32>,
    device: u64,
    state: u32,
    t_ns: u64,
    tier: Tier,
)
    ensures
        (Edges { buttons: final(buttons)@, source: *final(source), held: final(held)@ }) == after_state(
            Edges { buttons: old(buttons)@, source: *old(source), held: old(held)@ },
            device,
            state,
            t_ns,
            tier,
        ),
{
    broadcast use vstd::std_specs::btree::group_btree_axioms, vstd::laws_cmp::group_laws_cmp;

    let prev: u32 = match held.get(&device) {
        Some(v) => *v,
        None => 0,
    };
    if prev == state {
        return;
    }
    let es = edges_between_states(prev, state, t_ns);
    append_edges(buttons, &es);
    held.insert(device, state);
    if !is_device_tier(*source) {
        *source = Some(tier);
    }
}

/// Records edges from a source that reports transitions rather than state.
fn push_button_transitions(
    buttons: &mut Vec<ButtonEvent>,
    source: &mut Option<Tier>,
    down: u32,
    up: u32,
    t_ns: u64,
    tier: Tier,
)
    ensures
        final(buttons)@ == after_transitions(
            Edges { buttons: old(buttons)@, source: *old(source), held: Map::empty() },
            down,
            up,
            t_ns,
            tier,
        ).buttons,
        *final(source) == after_transitions(
            Edges { buttons: old(buttons)@, source: *old(source), held: Map::empty() },
            down,
            up,
            t_ns,
            tier,
        ).source,
{
    if down == 0 && up == 0 {
        return;
    }
    let es = edges_from_transitions(down, up, t_ns);
    append_edges(buttons, &es);
    if source.is_none() {
        *source = Some(tier);
    }
}

/// The batch's target after the ring reported `drops` lost samples.
pub open spec fn with_drops(m: Ingest, drops: u64) -> Ingest {
    Ingest { series: SeriesModel { ring_drops: (m.series.ring_drops + drops) as nat, ..m.series }, ..m }
}

fn ingest_into(
    series: &mut Series,
    origin: &mut Option<u64>,
    buttons: &mut Vec<ButtonEvent>,
    source: &mut Option<Tier>,
    held: &mut BTreeMap<u64, u32>,
    feed: Feed,
    samples: &[Sample],
    scale: TickScale,
    filter: Option<u64>,
)
    requires
        old(series).total + samples@.len() <= u64::MAX,
        forall|i: int| 0 <= i < samples@.len() ==> scale.converts(#[trigger] samples@[i].t),
    ensures
        (Ingest {
            series: final(series).model(),
            origin: *final(origin),
            edges: Edges { buttons: final(buttons)@, source: *final(source), held: final(held)@ },
        }) == ingest_all(
            feed,
            Ingest {
                series: old(series).model(),
                origin: *old(origin),
                edges: Edges { buttons: old(buttons)@, source: *old(source), held: old(held)@ },
            },
            samples@,
            scale,
            filter,
        ),
{
    let ghost start = Ingest {
        series: series.model(),
        origin: *origin,
        edges: Edges { buttons: buttons@, source: *source, held: held@ },
    };
    let mut i: usize = 0;
    proof {
        assert(samples@.take(0) =~= Seq::<Sample>::empty());
    }
    while i < samples.len()
        invariant
            i <= samples@.len(),
            start.series.total + samples@.len() <= u64::MAX,
            forall|j: int| 0 <= j < samples@.len() ==> scale.converts(#[trigger] samples@[j].t),
            (Ingest {
                series: series.model(),
                origin: *origin,
                edges: Edges { buttons: buttons@, source: *source, held: held@ },
            }) == ingest_all(feed, start, samples@.take(i as int), scale, filter),
        decreases samples@.len() - i,
    {
        let s = samples[i];
        proof {
            lemma_ingest_total(feed, start, samples@.take(i as int), scale, filter);
            assert(samples@.take(i + 1).drop_last() =~= samples@.take(i as int));
            assert(samples@.take(i + 1).last() == s);
            assert(scale.converts(samples@[i as int].t));
        }
        match feed {
            Feed::Hid => {
                if s.kind == Kind::Report {
                    let t = to_ns(origin, s.t, scale);
                    let decoded = s.flags & 32u32 != 0;
                    let c = if decoded {
                        motion_counts_of(s.dx, s.dy)
                    } else {
                        -1i32
                    };
                    series.push_report(t, c, s.dx, s.dy, s.wheel, s.hwheel);
                    if decoded {
                        push_button_edges(buttons, source, held, s.device, s.buttons_state, t, Tier::Device);
                    }
                }
            },
            Feed::MacSystem => {
                let t = to_ns(origin, s.t, scale);
                series.push_report(t, motion_counts_of(s.dx, s.dy), s.dx, s.dy, s.wheel, s.hwheel);
                if !is_device_tier(*source) {
                    push_button_transitions(buttons, source, s.buttons_down, s.buttons_up, t, Tier::System);
                }
            },
            Feed::Raw => {
                let keep = match filter {
                    Some(want) => s.device == want,
                    None => true,
                };
                if keep {
                    let t = to_ns(origin, s.t, scale);
                    series.push_report(t, motion_counts_of(s.dx, s.dy), s.dx, s.dy, s.wheel, s.hwheel);
                    push_button_transitions(buttons, source, s.buttons_down, s.buttons_up, t, Tier::Device);
                }
            },
            Feed::Hook => {
                let t = to_ns(origin, s.t, scale);
                series.push_report(t, 0, 0, 0, s.wheel, s.hwheel);
                if !is_device_tier(*source) {
                    push_button_transitions(buttons, source, s.buttons_down, s.buttons_up, t, Tier::System);
                }
            },
        }
        i = i + 1;
    }
    proof {
        assert(samples@.take(i as int) =~= samples@);
    }
}

/// The whole capture: the three levels' series, the state of each level, and
/// the bookkeeping the analyses read. Opening and reading the platform's
/// capture backends is the caller's business; what they deliver is handed in.
pub struct Session {
    pub device: Series,
    pub system: Series,
    pub app: Series,
    /// Clock tick at which the running capture started; none when stopped.
    pub started: Option<u64>,
    pub device_state: LevelState,
    pub system_state: LevelState,
    pub device_note: String,
    /// The device this capture is actually bound to. Selecting a different
    /// one changes only which device is meant; the capture keeps streaming
    /// whatever it opened.
    pub bound_key: Option<String>,
    /// The device was taken away mid-capture. Distinct from Blocked: a new
    /// capture finds the device again if it came back.
    pub device_removed: bool,
    pub system_note: String,
    /// Windows build number, which selects the low-level hook's timeout.
    pub os_build: u32,
    /// Reports whose fields the descriptor parser could decode.
    pub decoded: u64,
    pub undecoded: u64,
    /// Button edges, in time order, from whichever level is supplying them.
    pub buttons: Vec<ButtonEvent>,
    /// Which level the button edges came from.
    pub button_source: Option<Tier>,
    /// Last known absolute button state per device, for turning the state a
    /// HID report carries into edges.
    pub button_state: BTreeMap<u64, u32>,
    /// System-level events bound for another application.
    pub system_elsewhere: u64,
    /// Events seen while this application was not in the foreground.
    pub background_events: u64,
    /// Events the OS marked as synthesised by software.
    pub injected_events: u64,
    /// The OS's own count of system-wide motion events over this run.
    pub control_motion: u64,
    pub control_origin: Option<u64>,
    /// Origin so displayed times start at zero.
    pub origin_ticks: Option<u64>,
    /// Platform handle of the device under test, where a shared stream has
    /// to be filtered.
    pub filter_device: Option<u64>,
}

impl Session {
    pub open spec fn edges(&self) -> Edges {
        Edges { buttons: self.buttons@, source: self.button_source, held: self.button_state@ }
    }

    /// What a batch from `feed` reads and changes.
    pub open spec fn ingest_view(&self, feed: Feed) -> Ingest {
        Ingest {
            series: if feeds_device(feed) {
                self.device.model()
            } else {
                self.system.model()
            },
            origin: self.origin_ticks,
            edges: self.edges(),
        }
    }

    /// The fields a pump never touches: when the run started, the device it
    /// is bound to, the system level's note, the OS build, and the app
    /// level's series.
    pub open spec fn pump_keeps(&self, other: &Session) -> bool {
        &&& self.started == other.started
        &&& self.bound_key == other.bound_key
        &&& self.system_note@ == other.system_note@
        &&& self.os_build == other.os_build
        &&& self.app == other.app
    }

    /// The fields no batch of samples changes.
    pub open spec fn same_settings(&self, other: &Session) -> bool {
        &&& self.started == other.started
        &&& self.device_note@ == other.device_note@
        &&& self.bound_key == other.bound_key
        &&& self.device_removed == other.device_removed
        &&& self.system_note@ == other.system_note@
        &&& self.os_build == other.os_build
        &&& self.decoded == other.decoded
        &&& self.undecoded == other.undecoded
        &&& self.system_elsewhere == other.system_elsewhere
        &&& self.background_events == other.background_events
        &&& self.injected_events == other.injected_events
        &&& self.control_motion == other.control_motion
        &&& self.control_origin == other.control_origin
        &&& self.filter_device == other.filter_device
    }

    /// Takes in a batch of samples drained from `feed`'s ring, which lost
    /// `drops` samples on the way. A system level that was waiting goes live
    /// once it has anything.
    pub fn ingest(&mut self, feed: Feed, samples: &[Sample], drops: u64, scale: TickScale)
        requires
            old(self).ingest_view(feed).series.total + samples@.len() <= u64::MAX,
            old(self).ingest_view(feed).series.ring_drops + drops <= u64::MAX,
            forall|i: int| 0 <= i < samples@.len() ==> scale.converts(#[trigger] samples@[i].t),
        ensures
            final(self).pump_keeps(old(self)),
            final(self).ingest_view(feed) == ingest_all(
                feed,
                with_drops(old(self).ingest_view(feed), drops),
                samples@,
                scale,
                old(self).filter_device,
            ),
            feeds_device(feed) ==> final(self).system == old(self).system,
            !feeds_device(feed) ==> final(self).device == old(self).device,
            final(self).app == old(self).app,
            final(self).device_state == old(self).device_state,
            final(self).system_state == (if !feeds_device(feed) && final(self).system.total > 0
                && old(self).system_state == LevelState::Waiting {
                LevelState::Live
            } else {
                old(self).system_state
            }),
            final(self).same_settings(old(self)),
            final(self).view() == view_ingest(old(self).view(), feed, samples@, drops, scale),
    {
        let filter = self.filter_device;
        if feed == Feed::Hid || feed == Feed::Raw {
            self.device.ring_drops = self.device.ring_drops + drops;
            ingest_into(
                &mut self.device,
                &mut self.origin_ticks,
                &mut self.buttons,
                &mut self.button_source,
                &mut self.button_state,
                feed,
                samples,
                scale,
                filter,
            );
        } else {
            self.system.ring_drops = self.system.ring_drops + drops;
            ingest_into(
                &mut self.system,
                &mut self.origin_ticks,
                &mut self.buttons,
                &mut self.button_source,
                &mut self.button_state,
                feed,
                samples,
                scale,
                filter,
            );
            if self.system.total > 0 && self.system_state == LevelState::Waiting {
                self.system_state = LevelState::Live;
            }
        }
        proof {
            assert(self.ingest_view(feed) =~= ingest_all(
                feed,
                with_drops(old(self).ingest_view(feed), drops),
                samples@,
                scale,
                old(self).filter_device,
            ));
            assert(self.view() =~= view_ingest(old(self).view(), feed, samples@, drops, scale));
        }
    }
}

/// The note a device level gets when macOS took the device away mid-run.
pub open spec fn hid_removed_note() -> Seq<char> {
    "The device was taken away while this capture was running: unplugged, asleep, or re-enumerated by the system. This capture cannot recover, because the connection it holds is dead and a device that comes back is a new one. Starting a new capture will pick it up again if it has reconnected."@
}

/// The note a device level gets when Windows reports a device removed.
pub open spec fn raw_removed_note() -> Seq<char> {
    "A pointing device was unplugged or removed while this capture was running. Raw input cannot resume for it, and a device that comes back is a new one. Start a new run."@
}

/// The note for reports that arrived, none of them from the selected device.
pub open spec fn wrong_device_note(seen: u64) -> Seq<char> {
    crate::text::decimal(seen as nat)
        + " report(s) arrived, but none from the selected device. Another pointing device is reporting instead. Pick the right one in DEVICE, or move the mouse you mean to measure."@
}

/// How opening one level's backend went.
pub enum LevelOpen {
    /// Opened; the level's note is left as it was.
    Opened,
    /// Opened, with this note for the user (empty to clear it).
    OpenedWithNote(String),
    /// Refused, with the reason.
    Refused(String),
}

/// An empty series for a level with the given capabilities.
pub open spec fn empty_series(has_timestamps: bool, has_counts: bool) -> SeriesModel {
    SeriesModel {
        times: Seq::empty(),
        counts: Seq::empty(),
        dx: Seq::empty(),
        dy: Seq::empty(),
        wheel: Seq::empty(),
        hwheel: Seq::empty(),
        total: 0,
        ring_drops: 0,
        has_timestamps,
        has_counts,
    }
}

/// A level's state once its capture stops: a block stays, anything else
/// goes idle.
pub open spec fn stopped_state(s: LevelState) -> LevelState {
    if s == LevelState::Blocked {
        LevelState::Blocked
    } else {
        LevelState::Idle
    }
}

impl Default for Session {
    /// A stopped session with empty series. The device level carries real
    /// timestamps and counts; the system level timestamps only; the app level
    /// neither, because the interface sees one timestamp per frame.
    fn default() -> (s: Self)
        ensures
            s.device.model() == empty_series(true, true),
            s.system.model() == empty_series(true, false),
            s.app.model() == empty_series(false, false),
            s.started is None,
            s.device_state == LevelState::Idle,
            s.system_state == LevelState::Idle,
            s.device_note@.len() == 0,
            s.system_note@.len() == 0,
            s.bound_key is None,
            !s.device_removed,
            s.os_build == 0,
            s.decoded == 0 && s.undecoded == 0,
            s.buttons@.len() == 0,
            s.button_source is None,
            s.button_state@ == Map::<u64, u32>::empty(),
            s.system_elsewhere == 0 && s.background_events == 0 && s.injected_events == 0,
            s.control_motion == 0,
            s.control_origin is None && s.origin_ticks is None && s.filter_device is None,
    {
        let s = Session {
            device: Series::new(true, true),
            system: Series::new(true, false),
            app: Series::new(false, false),
            started: None,
            device_state: LevelState::Idle,
            system_state: LevelState::Idle,
            device_note: String::new(),
            bound_key: None,
            device_removed: false,
            system_note: String::new(),
            os_build: 0,
            decoded: 0,
            undecoded: 0,
            buttons: Vec::new(),
            button_source: None,
            button_state: BTreeMap::new(),
            system_elsewhere: 0,
            background_events: 0,
            injected_events: 0,
            control_motion: 0,
            control_origin: None,
            origin_ticks: None,
            filter_device: None,
        };
        proof {
            assert(s.device.model() =~= empty_series(true, true));
            assert(s.system.model() =~= empty_series(true, false));
            assert(s.app.model() =~= empty_series(false, false));
        }
        s
    }
}

impl Session {
    pub fn running(&self) -> (b: bool)
        ensures
            b == self.started is Some,
    {
        self.started.is_some()
    }

    /// Ends the run. Closing the backends is the caller's; here the run is
    /// marked stopped and each level goes idle unless it is blocked.
    pub fn stop(&mut self)
        ensures
            final(self).started is None,
            final(self).device_state == stopped_state(old(self).device_state),
            final(self).system_state == stopped_state(old(self).system_state),
            final(self).device == old(self).device,
            final(self).system == old(self).system,
            final(self).app == old(self).app,
            final(self).edges() == old(self).edges(),
            final(self).origin_ticks == old(self).origin_ticks,
            ({
                let o = *old(self);
                let f = *final(self);
                &&& f.device_note@ == o.device_note@
                &&& f.bound_key == o.bound_key
                &&& f.device_removed == o.device_removed
                &&& f.system_note@ == o.system_note@
                &&& f.os_build == o.os_build
                &&& f.decoded == o.decoded
                &&& f.undecoded == o.undecoded
                &&& f.system_elsewhere == o.system_elsewhere
                &&& f.background_events == o.background_events
                &&& f.injected_events == o.injected_events
                &&& f.control_motion == o.control_motion
                &&& f.control_origin == o.control_origin
                &&& f.filter_device == o.filter_device
            }),
    {
        self.started = None;
        if self.device_state != LevelState::Blocked {
            self.device_state = LevelState::Idle;
        }
        if self.system_state != LevelState::Blocked {
            self.system_state = LevelState::Idle;
        }
    }

    /// Starts a run bound to `device_key` at clock tick `now`: any running
    /// capture is stopped, the series are emptied and times restart from the
    /// next sample. The caller then opens each level's backend and reports
    /// how that went.
    pub fn start(&mut self, device_key: Option<&str>, now: u64)
        ensures
            final(self).started == Some(now),
            match device_key {
                Some(k) => final(self).bound_key matches Some(b) && b@ == k@,
                None => final(self).bound_key is None,
            },
            !final(self).device_removed,
            final(self).device.model() == empty_series(
                old(self).device.has_timestamps,
                old(self).device.has_counts,
            ),
            final(self).system.model() == empty_series(
                old(self).system.has_timestamps,
                old(self).system.has_counts,
            ),
            final(self).app.model() == empty_series(old(self).app.has_timestamps, old(self).app.has_counts),
            final(self).origin_ticks is None,
            final(self).device_state == stopped_state(old(self).device_state),
            final(self).system_state == stopped_state(old(self).system_state),
            final(self).edges() == old(self).edges(),
            final(self).device_note@ == old(self).device_note@,
            final(self).system_note@ == old(self).system_note@,
            final(self).decoded == old(self).decoded && final(self).undecoded == old(self).undecoded,
            final(self).control_motion == old(self).control_motion,
            final(self).control_origin == old(self).control_origin,
            final(self).filter_device == old(self).filter_device,
    {
        self.stop();
        self.bound_key = match device_key {
            Some(k) => Some(String::from_str(k)),
            None => None,
        };
        self.device_removed = false;
        self.device.clear();
        self.system.clear();
        self.app.clear();
        self.origin_ticks = None;
        self.started = Some(now);
        proof {
            assert(self.device.model() =~= empty_series(old(self).device.has_timestamps, old(self).device.has_counts));
            assert(self.system.model() =~= empty_series(old(self).system.has_timestamps, old(self).system.has_counts));
            assert(self.app.model() =~= empty_series(old(self).app.has_timestamps, old(self).app.has_counts));
        }
    }

    /// Starts a run and records how opening each level's backend went: the
    /// run is live, bound to `device_key`, with every series empty, and each
    /// level waiting for its first report or blocked with the reason.
    pub fn start_levels(&mut self, device_key: Option<&str>, now: u64, device: LevelOpen, system: LevelOpen)
        ensures
            final(self).started == Some(now),
            match device_key {
                Some(k) => final(self).bound_key matches Some(b) && b@ == k@,
                None => final(self).bound_key is None,
            },
            !final(self).device_removed,
            final(self).device.model() == empty_series(
                old(self).device.has_timestamps,
                old(self).device.has_counts,
            ),
            final(self).system.model() == empty_series(
                old(self).system.has_timestamps,
                old(self).system.has_counts,
            ),
            final(self).app.model() == empty_series(old(self).app.has_timestamps, old(self).app.has_counts),
            final(self).origin_ticks is None,
            match device {
                LevelOpen::Opened => final(self).device_state == LevelState::Waiting
                    && final(self).device_note@ == old(self).device_note@,
                LevelOpen::OpenedWithNote(n) => final(self).device_state == LevelState::Waiting
                    && final(self).device_note@ == n@,
                LevelOpen::Refused(n) => final(self).device_state == LevelState::Blocked
                    && final(self).device_note@ == n@,
            },
            match system {
                LevelOpen::Opened => final(self).system_state == LevelState::Waiting
                    && final(self).system_note@ == old(self).system_note@,
                LevelOpen::OpenedWithNote(n) => final(self).system_state == LevelState::Waiting
                    && final(self).system_note@ == n@,
                LevelOpen::Refused(n) => final(self).system_state == LevelState::Blocked
                    && final(self).system_note@ == n@,
            },
    {
        self.start(device_key, now);
        self.open_device_level(device);
        self.open_system_level(system);
    }

    /// Resets what macOS counts per run on top of [`Session::start`]: the
    /// decode counters, the motion control, and the button edges.
    pub fn clear_run_counters(&mut self)
        ensures
            final(self).decoded == 0 && final(self).undecoded == 0,
            final(self).control_motion == 0,
            final(self).control_origin is None,
            final(self).buttons@.len() == 0,
            final(self).button_source is None,
            final(self).button_state@ == Map::<u64, u32>::empty(),
            final(self).device == old(self).device,
            final(self).system == old(self).system,
            final(self).app == old(self).app,
            final(self).started == old(self).started,
            final(self).device_state == old(self).device_state,
            final(self).system_state == old(self).system_state,
            final(self).origin_ticks == old(self).origin_ticks,
    {
        self.decoded = 0;
        self.undecoded = 0;
        self.control_motion = 0;
        self.control_origin = None;
        self.buttons.clear();
        self.button_source = None;
        self.button_state.clear();
    }

    /// Records how opening the device level's backend went: waiting for its
    /// first report, or blocked with the reason.
    pub fn open_device_level(&mut self, outcome: LevelOpen)
        ensures
            final(self).origin_ticks == old(self).origin_ticks,
            final(self).bound_key == old(self).bound_key,
            final(self).device_removed == old(self).device_removed,
            final(self).app == old(self).app,
            match outcome {
                LevelOpen::Opened => final(self).device_state == LevelState::Waiting
                    && final(self).device_note@ == old(self).device_note@,
                LevelOpen::OpenedWithNote(n) => final(self).device_state == LevelState::Waiting
                    && final(self).device_note@ == n@,
                LevelOpen::Refused(n) => final(self).device_state == LevelState::Blocked
                    && final(self).device_note@ == n@,
            },
            final(self).system_state == old(self).system_state,
            final(self).system_note@ == old(self).system_note@,
            final(self).device == old(self).device,
            final(self).system == old(self).system,
            final(self).started == old(self).started,
    {
        match outcome {
            LevelOpen::Opened => {
                self.device_state = LevelState::Waiting;
            },
            LevelOpen::OpenedWithNote(n) => {
                self.device_state = LevelState::Waiting;
                self.device_note = n;
            },
            LevelOpen::Refused(n) => {
                self.device_state = LevelState::Blocked;
                self.device_note = n;
            },
        }
    }

    /// Records how opening the system level's backend went.
    pub fn open_system_level(&mut self, outcome: LevelOpen)
        ensures
            final(self).origin_ticks == old(self).origin_ticks,
            final(self).bound_key == old(self).bound_key,
            final(self).device_removed == old(self).device_removed,
            final(self).app == old(self).app,
            match outcome {
                LevelOpen::Opened => final(self).system_state == LevelState::Waiting
                    && final(self).system_note@ == old(self).system_note@,
                LevelOpen::OpenedWithNote(n) => final(self).system_state == LevelState::Waiting
                    && final(self).system_note@ == n@,
                LevelOpen::Refused(n) => final(self).system_state == LevelState::Blocked
                    && final(self).system_note@ == n@,
            },
            final(self).device_state == old(self).device_state,
            final(self).device_note@ == old(self).device_note@,
            final(self).device == old(self).device,
            final(self).system == old(self).system,
            final(self).started == old(self).started,
    {
        match outcome {
            LevelOpen::Opened => {
                self.system_state = LevelState::Waiting;
            },
            LevelOpen::OpenedWithNote(n) => {
                self.system_state = LevelState::Waiting;
                self.system_note = n;
            },
            LevelOpen::Refused(n) => {
                self.system_state = LevelState::Blocked;
                self.system_note = n;
            },
        }
    }

    /// The device level after a macOS pump, given the HID backend's status:
    /// whether it has published the result of opening, how many devices it
    /// opened, how many were taken away, and its refusal text. A level that
    /// changes state gets the note that goes with the new state.
    pub fn hid_status(&mut self, running: bool, opened: usize, removed: u64, refusal: &str)
        ensures
            final(self).pump_keeps(old(self)),
            ({
                let next = next_device_state(
                    old(self).device_state,
                    running,
                    opened,
                    old(self).device.total,
                    removed,
                );
                &&& final(self).device_state == next
                &&& if next == old(self).device_state {
                    final(self).device_note@ == old(self).device_note@ && final(self).device_removed
                        == old(self).device_removed
                } else if next == LevelState::Blocked && removed > 0 {
                    final(self).device_note@ == hid_removed_note() && final(self).device_removed
                } else if next == LevelState::Blocked {
                    final(self).device_note@ == refusal@ && final(self).device_removed
                        == old(self).device_removed
                } else if next == LevelState::Live {
                    final(self).device_note@.len() == 0 && final(self).device_removed
                        == old(self).device_removed
                } else {
                    final(self).device_note@ == old(self).device_note@ && final(self).device_removed
                        == old(self).device_removed
                }
            }),
            final(self).device == old(self).device,
            final(self).system_state == old(self).system_state,
            final(self).view() == view_hid_status(old(self).view(), running, opened, removed, refusal@),
    {
        let next = device_state_after_pump(self.device_state, running, opened, self.device.total, removed);
        if next != self.device_state {
            self.device_state = next;
            match next {
                LevelState::Blocked => {
                    if removed > 0 {
                        self.device_removed = true;
                        self.device_note = String::from_str(
                            "The device was taken away while this capture was running: unplugged, asleep, or re-enumerated by the system. This capture cannot recover, because the connection it holds is dead and a device that comes back is a new one. Starting a new capture will pick it up again if it has reconnected.",
                        );
                    } else {
                        self.device_note = String::from_str(refusal);
                    }
                },
                LevelState::Live => {
                    self.device_note = String::new();
                },
                _ => {},
            }
        }
        proof {
            reveal_strlit("The device was taken away while this capture was running: unplugged, asleep, or re-enumerated by the system. This capture cannot recover, because the connection it holds is dead and a device that comes back is a new one. Starting a new capture will pick it up again if it has reconnected.");
            assert(self.view() =~= view_hid_status(old(self).view(), running, opened, removed, refusal@));
        }
    }

    /// Before a Windows device batch is taken in: `seen` reports arrived on
    /// the shared raw-input stream before filtering. When some arrived but
    /// none counted for the selected device, the note says so; once the
    /// device has reports, the note is cleared.
    pub fn raw_seen(&mut self, seen: u64)
        ensures
            final(self).pump_keeps(old(self)),
            final(self).device_note@ == (if seen > 0 && old(self).device.total == 0
                && old(self).filter_device is Some {
                wrong_device_note(seen)
            } else if old(self).device.total > 0 {
                Seq::empty()
            } else {
                old(self).device_note@
            }),
            final(self).device == old(self).device,
            final(self).device_state == old(self).device_state,
            final(self).view() == view_raw_seen(old(self).view(), seen),
    {
        if seen > 0 && self.device.total == 0 && self.filter_device.is_some() {
            let mut out: Vec<char> = Vec::new();
            crate::text::push_decimal(&mut out, seen);
            crate::text::push_str_chars(
                &mut out,
                " report(s) arrived, but none from the selected device. Another pointing device is reporting instead. Pick the right one in DEVICE, or move the mouse you mean to measure.",
            );
            self.device_note = crate::text::string_of(out.as_slice());
        } else if self.device.total > 0 {
            self.device_note = String::new();
        }
        proof {
            assert(self.view() =~= view_raw_seen(old(self).view(), seen));
        }
    }

    /// After a Windows device batch: a device Windows took away outranks the
    /// reports already counted, because none will follow them. A removal
    /// counts only once the level has received anything.
    pub fn raw_removed(&mut self, removed: u64)
        ensures
            final(self).pump_keeps(old(self)),
            ({
                let got: u64 = if old(self).device.total > 0 { 1 } else { 0 };
                let next = next_device_state(
                    old(self).device_state,
                    true,
                    1,
                    got,
                    if old(self).device.total > 0 { removed } else { 0 },
                );
                &&& final(self).device_state == next
                &&& if next != old(self).device_state && next == LevelState::Blocked {
                    final(self).device_removed && final(self).device_note@ == raw_removed_note()
                } else {
                    final(self).device_removed == old(self).device_removed
                        && final(self).device_note@ == old(self).device_note@
                }
            }),
            final(self).device == old(self).device,
            final(self).view() == view_raw_removed(old(self).view(), removed),
    {
        let got: u64 = if self.device.total > 0 { 1 } else { 0 };
        let r = if self.device.total > 0 { removed } else { 0 };
        let next = device_state_after_pump(self.device_state, true, 1, got, r);
        if next != self.device_state {
            self.device_state = next;
            if next == LevelState::Blocked {
                self.device_removed = true;
                self.device_note = String::from_str(
                    "A pointing device was unplugged or removed while this capture was running. Raw input cannot resume for it, and a device that comes back is a new one. Start a new run.",
                );
            }
        }
        proof {
            assert(self.view() =~= view_raw_removed(old(self).view(), removed));
        }
    }

    /// Samples the OS's own system-wide motion counter, which needs no
    /// permission: the first sample of a run fixes the origin, later ones
    /// give the motion since, modulo 2^64.
    pub fn control_sample(&mut self, now: u64)
        ensures
            final(self).pump_keeps(old(self)),
            old(self).started is None ==> final(self).control_origin == old(self).control_origin
                && final(self).control_motion == old(self).control_motion,
            old(self).started is Some ==> match old(self).control_origin {
                None => final(self).control_origin == Some(now) && final(self).control_motion
                    == old(self).control_motion,
                Some(o) => final(self).control_origin == Some(o) && final(self).control_motion
                    == vstd::wrapping::u64_specs::wrapping_sub(now, o),
            },
            final(self).device == old(self).device,
            final(self).system == old(self).system,
            final(self).view() == view_control(old(self).view(), now),
    {
        if !self.running() {
            return;
        }
        match self.control_origin {
            None => {
                self.control_origin = Some(now);
            },
            Some(o) => {
                self.control_motion = now.wrapping_sub(o);
            },
        }
        proof {
            assert(self.view() =~= view_control(old(self).view(), now));
        }
    }

    /// Counts events the application itself received this frame.
    pub fn pump_app(&mut self, moves: u64)
        requires
            old(self).app.total + moves <= u64::MAX,
        ensures
            final(self).app.total == (if old(self).started is Some {
                old(self).app.total + moves
            } else {
                old(self).app.total as int
            }),
            final(self).app.times_ns == old(self).app.times_ns,
            final(self).device == old(self).device,
            final(self).system == old(self).system,
    {
        if !self.running() {
            return;
        }
        self.app.total = self.app.total + moves;
    }

    pub fn tier_series(&self, tier: Tier) -> (s: &Series)
        ensures
            *s == match tier {
                Tier::Device => self.device,
                Tier::System => self.system,
                Tier::App => self.app,
            },
    {
        match tier {
            Tier::Device => &self.device,
            Tier::System => &self.system,
            Tier::App => &self.app,
        }
    }
}

/// What the capture bookkeeping amounts to, as plain values.
#[verifier::ext_equal]
pub struct SessionView {
    pub device: SeriesModel,
    pub system: SeriesModel,
    pub app_total: nat,
    pub running: bool,
    pub origin: Option<u64>,
    pub edges: Edges,
    pub device_state: LevelState,
    pub system_state: LevelState,
    pub device_note: Seq<char>,
    pub device_removed: bool,
    pub decoded: u64,
    pub undecoded: u64,
    pub system_elsewhere: u64,
    pub background_events: u64,
    pub injected_events: u64,
    pub control_motion: u64,
    pub control_origin: Option<u64>,
    pub filter: Option<u64>,
}

impl Session {
    pub open spec fn view(&self) -> SessionView {
        SessionView {
            device: self.device.model(),
            system: self.system.model(),
            app_total: self.app.total as nat,
            running: self.started is Some,
            origin: self.origin_ticks,
            edges: self.edges(),
            device_state: self.device_state,
            system_state: self.system_state,
            device_note: self.device_note@,
            device_removed: self.device_removed,
            decoded: self.decoded,
            undecoded: self.undecoded,
            system_elsewhere: self.system_elsewhere,
            background_events: self.background_events,
            injected_events: self.injected_events,
            control_motion: self.control_motion,
            control_origin: self.control_origin,
            filter: self.filter_device,
        }
    }
}

/// The view after a batch from `feed` is taken in.
pub open spec fn view_ingest(v: SessionView, feed: Feed, ss: Seq<Sample>, drops: u64, scale: TickScale) -> SessionView {
    let series = if feeds_device(feed) { v.device } else { v.system };
    let m = ingest_all(
        feed,
        with_drops(Ingest { series, origin: v.origin, edges: v.edges }, drops),
        ss,
        scale,
        v.filter,
    );
    if feeds_device(feed) {
        SessionView { device: m.series, origin: m.origin, edges: m.edges, ..v }
    } else {
        SessionView {
            system: m.series,
            origin: m.origin,
            edges: m.edges,
            system_state: if m.series.total > 0 && v.system_state == LevelState::Waiting {
                LevelState::Live
            } else {
                v.system_state
            },
            ..v
        }
    }
}

/// The view after the HID backend's status is applied.
pub open spec fn view_hid_status(
    v: SessionView,
    running: bool,
    opened: usize,
    removed: u64,
    refusal: Seq<char>,
) -> SessionView {
    let next = next_device_state(v.device_state, running, opened, v.device.total as u64, removed);
    if next == v.device_state {
        v
    } else if next == LevelState::Blocked && removed > 0 {
        SessionView { device_state: next, device_removed: true, device_note: hid_removed_note(), ..v }
    } else if next == LevelState::Blocked {
        SessionView { device_state: next, device_note: refusal, ..v }
    } else if next == LevelState::Live {
        SessionView { device_state: next, device_note: Seq::empty(), ..v }
    } else {
        SessionView { device_state: next, ..v }
    }
}

/// The view after the raw-input stream reported `seen` reports.
pub open spec fn view_raw_seen(v: SessionView, seen: u64) -> SessionView {
    SessionView {
        device_note: if seen > 0 && v.device.total == 0 && v.filter is Some {
            wrong_device_note(seen)
        } else if v.device.total > 0 {
            Seq::empty()
        } else {
            v.device_note
        },
        ..v
    }
}

/// The view after the raw-input backend reported `removed` devices gone.
pub open spec fn view_raw_removed(v: SessionView, removed: u64) -> SessionView {
    let got: u64 = if v.device.total > 0 { 1 } else { 0 };
    let next = next_device_state(v.device_state, true, 1, got, if v.device.total > 0 { removed } else { 0 });
    if next != v.device_state && next == LevelState::Blocked {
        SessionView { device_state: next, device_removed: true, device_note: raw_removed_note(), ..v }
    } else {
        SessionView { device_state: next, ..v }
    }
}

/// The view after one reading of the OS motion counter.
pub open spec fn view_control(v: SessionView, now: u64) -> SessionView {
    if !v.running {
        v
    } else {
        match v.control_origin {
            None => SessionView { control_origin: Some(now), ..v },
            Some(o) => SessionView {
                control_motion: vstd::wrapping::u64_specs::wrapping_sub(now, o),
                ..v
            },
        }
    }
}

/// One frame's drain of the macOS HID backend.
pub struct HidBatch {
    pub samples: Vec<Sample>,
    pub drops: u64,
    pub decoded: u64,
    pub undecoded: u64,
    /// The backend has published the result of opening devices.
    pub running: bool,
    pub opened: usize,
    pub removed: u64,
    /// What to tell the user if nothing could be opened.
    pub refusal: String,
}

/// One frame's drain of the macOS global event monitor.
pub struct MonitorBatch {
    pub samples: Vec<Sample>,
    pub drops: u64,
    pub elsewhere: u64,
}

/// One frame's drain of Windows raw input.
pub struct RawBatch {
    pub background: u64,
    /// Reports seen on the shared stream before filtering.
    pub seen: u64,
    pub samples: Vec<Sample>,
    pub drops: u64,
    pub removed: u64,
}

/// One frame's drain of the Windows low-level hook.
pub struct HookBatch {
    pub injected: u64,
    pub samples: Vec<Sample>,
    pub drops: u64,
}

/// What the platform's backends delivered since the last pump.
pub enum Delivery {
    /// macOS: the OS motion counter, the HID backend, the event monitor.
    MacOs { control: u64, hid: Option<HidBatch>, monitor: Option<MonitorBatch> },
    /// Windows: raw input and the low-level hook.
    Windows { raw: Option<RawBatch>, hook: Option<HookBatch> },
    /// A platform with no capture backend.
    Neither,
}

/// The view after a whole pump.
pub open spec fn view_pump(v: SessionView, d: Delivery, scale: TickScale) -> SessionView {
    match d {
        Delivery::MacOs { control, hid, monitor } => {
            let v1 = view_control(v, control);
            let v2 = match hid {
                Some(h) => {
                    let a = SessionView { decoded: h.decoded, undecoded: h.undecoded, ..v1 };
                    let b = view_ingest(a, Feed::Hid, h.samples@, h.drops, scale);
                    view_hid_status(b, h.running, h.opened, h.removed, h.refusal@)
                },
                None => v1,
            };
            match monitor {
                Some(m) => view_ingest(
                    SessionView { system_elsewhere: m.elsewhere, ..v2 },
                    Feed::MacSystem,
                    m.samples@,
                    m.drops,
                    scale,
                ),
                None => v2,
            }
        },
        Delivery::Windows { raw, hook } => {
            let v1 = match raw {
                Some(r) => view_raw_seen(SessionView { background_events: r.background, ..v }, r.seen),
                None => v,
            };
            let v2 = match hook {
                Some(h) => SessionView { injected_events: h.injected, ..v1 },
                None => v1,
            };
            let v3 = match raw {
                Some(r) => view_raw_removed(view_ingest(v2, Feed::Raw, r.samples@, r.drops, scale), r.removed),
                None => v2,
            };
            match hook {
                Some(h) => view_ingest(v3, Feed::Hook, h.samples@, h.drops, scale),
                None => v3,
            }
        },
        Delivery::Neither => v,
    }
}

/// A batch can be taken in without a count overflowing and every tick
/// converts on this clock.
pub open spec fn batch_fits(total: nat, drops_so_far: nat, ss: Seq<Sample>, drops: u64, scale: TickScale) -> bool {
    &&& total + ss.len() <= u64::MAX
    &&& drops_so_far + drops <= u64::MAX
    &&& forall|i: int| 0 <= i < ss.len() ==> scale.converts(#[trigger] ss[i].t)
}

/// Everything a pump delivers fits.
pub open spec fn delivery_fits(v: SessionView, d: Delivery, scale: TickScale) -> bool {
    match d {
        Delivery::MacOs { hid, monitor, .. } => {
            &&& (hid matches Some(h) ==> batch_fits(v.device.total, v.device.ring_drops, h.samples@, h.drops, scale))
            &&& (monitor matches Some(m) ==> batch_fits(v.system.total, v.system.ring_drops, m.samples@, m.drops, scale))
        },
        Delivery::Windows { raw, hook } => {
            &&& (raw matches Some(r) ==> batch_fits(v.device.total, v.device.ring_drops, r.samples@, r.drops, scale))
            &&& (hook matches Some(h) ==> batch_fits(v.system.total, v.system.ring_drops, h.samples@, h.drops, scale))
        },
        Delivery::Neither => true,
    }
}

impl Session {
    /// Takes in everything the platform's backends delivered since the last
    /// pump, in the order the platform needs: on macOS the motion control,
    /// then the HID reports and the device level's status (decided after the
    /// batch, so a report in this same batch counts as the proof it is),
    /// then the event monitor; on Windows the raw-input note and the hook's
    /// injection count, then the raw batch and the removal rule, then the
    /// hook's batch.
    pub fn pump(&mut self, d: Delivery, scale: TickScale)
        requires
            delivery_fits(old(self).view(), d, scale),
        ensures
            final(self).pump_keeps(old(self)),
            final(self).view() == view_pump(old(self).view(), d, scale),
    {
        match d {
            Delivery::MacOs { control, hid, monitor } => {
                self.control_sample(control);
                match hid {
                    Some(h) => {
                        self.decoded = h.decoded;
                        self.undecoded = h.undecoded;
                        proof {
                            assert(self.view() =~= (SessionView {
                                decoded: h.decoded,
                                undecoded: h.undecoded,
                                ..view_control(old(self).view(), control)
                            }));
                        }
                        self.ingest(Feed::Hid, h.samples.as_slice(), h.drops, scale);
                        self.hid_status(h.running, h.opened, h.removed, h.refusal.as_str());
                    },
                    None => {},
                }
                match monitor {
                    Some(m) => {
                        let ghost before = self.view();
                        self.system_elsewhere = m.elsewhere;
                        proof {
                            assert(self.view() =~= (SessionView { system_elsewhere: m.elsewhere, ..before }));
                        }
                        self.ingest(Feed::MacSystem, m.samples.as_slice(), m.drops, scale);
                    },
                    None => {},
                }
            },
            Delivery::Windows { raw, hook } => {
                match &raw {
                    Some(r) => {
                        self.background_events = r.background;
                        proof {
                            assert(self.view() =~= (SessionView {
                                background_events: r.background,
                                ..old(self).view()
                            }));
                        }
                        self.raw_seen(r.seen);
                    },
                    None => {},
                }
                match &hook {
                    Some(h) => {
                        let ghost before = self.view();
                        self.injected_events = h.injected;
                        proof {
                            assert(self.view() =~= (SessionView { injected_events: h.injected, ..before }));
                        }
                    },
                    None => {},
                }
                match raw {
                    Some(r) => {
                        self.ingest(Feed::Raw, r.samples.as_slice(), r.drops, scale);
                        self.raw_removed(r.removed);
                    },
                    None => {},
                }
                match hook {
                    Some(h) => {
                        self.ingest(Feed::Hook, h.samples.as_slice(), h.drops, scale);
                    },
                    None => {},
                }
            },
            Delivery::Neither => {},
        }
    }
}

/// `a` is the start of `b`.
pub open spec fn is_start<T>(a: Seq<T>, b: Seq<T>) -> bool {
    a.len() <= b.len() && b.take(a.len() as int) == a
}

/// Every parallel vector of a series holds exactly one entry per report, so
/// no timestamp is paired with another report's motion.
pub open spec fn series_ok(m: SeriesModel) -> bool {
    &&& m.times.len() == m.total
    &&& m.counts.len() == m.total
    &&& m.dx.len() == m.total
    &&& m.dy.len() == m.total
    &&& m.wheel.len() == m.total
    &&& m.hwheel.len() == m.total
}

/// `b` only adds to `a`: each vector of `a` is the start of `b`'s, and
/// neither the report count nor the drop count goes down.
pub open spec fn series_grows(a: SeriesModel, b: SeriesModel) -> bool {
    &&& is_start(a.times, b.times)
    &&& is_start(a.counts, b.counts)
    &&& is_start(a.dx, b.dx)
    &&& is_start(a.dy, b.dy)
    &&& is_start(a.wheel, b.wheel)
    &&& is_start(a.hwheel, b.hwheel)
    &&& a.total <= b.total
    &&& a.ring_drops <= b.ring_drops
}

proof fn lemma_start_trans<T>(a: Seq<T>, b: Seq<T>, c: Seq<T>)
    requires
        is_start(a, b),
        is_start(b, c),
    ensures
        is_start(a, c),
{
    assert(c.take(a.len() as int) =~= c.take(b.len() as int).take(a.len() as int));
}

proof fn lemma_start_push<T>(a: Seq<T>, x: T)
    ensures
        is_start(a, a.push(x)),
{
    assert(a.push(x).take(a.len() as int) =~= a);
}

proof fn lemma_start_concat<T>(a: Seq<T>, b: Seq<T>)
    ensures
        is_start(a, a + b),
{
    assert((a + b).take(a.len() as int) =~= a);
}

proof fn lemma_start_refl<T>(a: Seq<T>)
    ensures
        is_start(a, a),
{
    assert(a.take(a.len() as int) =~= a);
}

proof fn lemma_grows_refl(m: SeriesModel)
    ensures
        series_grows(m, m),
{
    lemma_start_refl(m.times);
    lemma_start_refl(m.counts);
    lemma_start_refl(m.dx);
    lemma_start_refl(m.dy);
    lemma_start_refl(m.wheel);
    lemma_start_refl(m.hwheel);
}

proof fn lemma_grows_trans(a: SeriesModel, b: SeriesModel, c: SeriesModel)
    requires
        series_grows(a, b),
        series_grows(b, c),
    ensures
        series_grows(a, c),
{
    lemma_start_trans(a.times, b.times, c.times);
    lemma_start_trans(a.counts, b.counts, c.counts);
    lemma_start_trans(a.dx, b.dx, c.dx);
    lemma_start_trans(a.dy, b.dy, c.dy);
    lemma_start_trans(a.wheel, b.wheel, c.wheel);
    lemma_start_trans(a.hwheel, b.hwheel, c.hwheel);
}

proof fn lemma_with_report_grows(m: SeriesModel, t: u64, c: i32, dx: i32, dy: i32, w: i32, h: i32)
    requires
        series_ok(m),
    ensures
        series_ok(with_report(m, t, c, dx, dy, w, h)),
        series_grows(m, with_report(m, t, c, dx, dy, w, h)),
{
    lemma_start_push(m.times, t);
    lemma_start_push(m.counts, c);
    lemma_start_push(m.dx, dx);
    lemma_start_push(m.dy, dy);
    lemma_start_push(m.wheel, w);
    lemma_start_push(m.hwheel, h);
}

proof fn lemma_edges_grow_state(e: Edges, device: u64, state: u32, t: u64, tier: Tier)
    ensures
        is_start(e.buttons, after_state(e, device, state, t, tier).buttons),
{
    let prev = if e.held.contains_key(device) { e.held[device] } else { 0u32 };
    if prev == state {
        lemma_start_refl(e.buttons);
    } else {
        lemma_start_concat(e.buttons, edges_from(prev ^ state, state, t, 0));
    }
}

proof fn lemma_edges_grow_transitions(e: Edges, down: u32, up: u32, t: u64, tier: Tier)
    ensures
        is_start(e.buttons, after_transitions(e, down, up, t, tier).buttons),
{
    if down == 0 && up == 0 {
        lemma_start_refl(e.buttons);
    } else {
        lemma_start_concat(e.buttons, transitions_from(down, up, t, 0));
    }
}

proof fn lemma_ingest_step_grows(feed: Feed, m: Ingest, smp: Sample, scale: TickScale, filter: Option<u64>)
    requires
        series_ok(m.series),
    ensures
        series_ok(ingest_step(feed, m, smp, scale, filter).series),
        series_grows(m.series, ingest_step(feed, m, smp, scale, filter).series),
        is_start(m.edges.buttons, ingest_step(feed, m, smp, scale, filter).edges.buttons),
{
    let t = relative_ns(m.origin, smp.t, scale);
    lemma_grows_refl(m.series);
    lemma_start_refl(m.edges.buttons);
    lemma_with_report_grows(m.series, t, motion_counts(smp.dx, smp.dy), smp.dx, smp.dy, smp.wheel, smp.hwheel);
    lemma_with_report_grows(m.series, t, -1i32, smp.dx, smp.dy, smp.wheel, smp.hwheel);
    lemma_with_report_grows(m.series, t, 0, 0, 0, smp.wheel, smp.hwheel);
    lemma_edges_grow_state(m.edges, smp.device, smp.buttons_state, t, Tier::Device);
    lemma_edges_grow_transitions(m.edges, smp.buttons_down, smp.buttons_up, t, Tier::System);
    lemma_edges_grow_transitions(m.edges, smp.buttons_down, smp.buttons_up, t, Tier::Device);
}

proof fn lemma_ingest_all_grows(feed: Feed, m: Ingest, ss: Seq<Sample>, scale: TickScale, filter: Option<u64>)
    requires
        series_ok(m.series),
    ensures
        series_ok(ingest_all(feed, m, ss, scale, filter).series),
        series_grows(m.series, ingest_all(feed, m, ss, scale, filter).series),
        is_start(m.edges.buttons, ingest_all(feed, m, ss, scale, filter).edges.buttons),
    decreases ss.len(),
{
    if ss.len() == 0 {
        lemma_grows_refl(m.series);
        lemma_start_refl(m.edges.buttons);
    } else {
        let mid = ingest_all(feed, m, ss.drop_last(), scale, filter);
        lemma_ingest_all_grows(feed, m, ss.drop_last(), scale, filter);
        lemma_ingest_step_grows(feed, mid, ss.last(), scale, filter);
        let end = ingest_step(feed, mid, ss.last(), scale, filter);
        lemma_grows_trans(m.series, mid.series, end.series);
        lemma_start_trans(m.edges.buttons, mid.edges.buttons, end.edges.buttons);
    }
}

/// What a pump must keep and may only add to.
pub open spec fn view_grows(v: SessionView, w: SessionView) -> bool {
    &&& series_ok(w.device)
    &&& series_ok(w.system)
    &&& series_grows(v.device, w.device)
    &&& series_grows(v.system, w.system)
    &&& is_start(v.edges.buttons, w.edges.buttons)
    &&& w.app_total == v.app_total
}

proof fn lemma_view_grows_trans(u: SessionView, v: SessionView, w: SessionView)
    requires
        view_grows(u, v),
        view_grows(v, w),
    ensures
        view_grows(u, w),
{
    lemma_grows_trans(u.device, v.device, w.device);
    lemma_grows_trans(u.system, v.system, w.system);
    lemma_start_trans(u.edges.buttons, v.edges.buttons, w.edges.buttons);
}

proof fn lemma_view_grows_same(v: SessionView, w: SessionView)
    requires
        series_ok(v.device),
        series_ok(v.system),
        w.device == v.device,
        w.system == v.system,
        w.edges == v.edges,
        w.app_total == v.app_total,
    ensures
        view_grows(v, w),
{
    lemma_grows_refl(v.device);
    lemma_grows_refl(v.system);
    lemma_start_refl(v.edges.buttons);
}

proof fn lemma_view_ingest_grows(v: SessionView, feed: Feed, ss: Seq<Sample>, drops: u64, scale: TickScale)
    requires
        series_ok(v.device),
        series_ok(v.system),
    ensures
        view_grows(v, view_ingest(v, feed, ss, drops, scale)),
{
    let series = if feeds_device(feed) { v.device } else { v.system };
    let m0 = with_drops(Ingest { series, origin: v.origin, edges: v.edges }, drops);
    lemma_ingest_all_grows(feed, m0, ss, scale, v.filter);
    lemma_grows_refl(v.device);
    lemma_grows_refl(v.system);
    lemma_start_refl(series.times);
    lemma_start_refl(series.counts);
    lemma_start_refl(series.dx);
    lemma_start_refl(series.dy);
    lemma_start_refl(series.wheel);
    lemma_start_refl(series.hwheel);
    assert(series_grows(series, m0.series));
    lemma_grows_trans(series, m0.series, ingest_all(feed, m0, ss, scale, v.filter).series);
}

/// A pump only ever adds: every parallel vector of the device and system
/// series keeps one entry per report, each old vector and the old button
/// edges are the start of the new ones, no count goes down, and the app
/// level is left as it was.
pub proof fn lemma_pump_only_appends(v: SessionView, d: Delivery, scale: TickScale)
    requires
        series_ok(v.device),
        series_ok(v.system),
    ensures
        view_grows(v, view_pump(v, d, scale)),
{
    match d {
        Delivery::MacOs { control, hid, monitor } => {
            let v1 = view_control(v, control);
            lemma_view_grows_same(v, v1);
            let v2 = match hid {
                Some(h) => {
                    let a = SessionView { decoded: h.decoded, undecoded: h.undecoded, ..v1 };
                    let b = view_ingest(a, Feed::Hid, h.samples@, h.drops, scale);
                    lemma_view_grows_same(v1, a);
                    lemma_view_ingest_grows(a, Feed::Hid, h.samples@, h.drops, scale);
                    let c = view_hid_status(b, h.running, h.opened, h.removed, h.refusal@);
                    lemma_view_grows_same(b, c);
                    lemma_view_grows_trans(v1, a, b);
                    lemma_view_grows_trans(v1, b, c);
                    c
                },
                None => {
                    lemma_view_grows_same(v1, v1);
                    v1
                },
            };
            lemma_view_grows_trans(v, v1, v2);
            match monitor {
                Some(m) => {
                    let a = SessionView { system_elsewhere: m.elsewhere, ..v2 };
                    lemma_view_grows_same(v2, a);
                    lemma_view_ingest_grows(a, Feed::MacSystem, m.samples@, m.drops, scale);
                    lemma_view_grows_trans(v2, a, view_ingest(a, Feed::MacSystem, m.samples@, m.drops, scale));
                    lemma_view_grows_trans(v, v2, view_ingest(a, Feed::MacSystem, m.samples@, m.drops, scale));
                },
                None => {},
            }
        },
        Delivery::Windows { raw, hook } => {
            let v1 = match raw {
                Some(r) => view_raw_seen(SessionView { background_events: r.background, ..v }, r.seen),
                None => v,
            };
            lemma_view_grows_same(v, v1);
            let v2 = match hook {
                Some(h) => SessionView { injected_events: h.injected, ..v1 },
                None => v1,
            };
            lemma_view_grows_same(v1, v2);
            lemma_view_grows_trans(v, v1, v2);
            let v3 = match raw {
                Some(r) => {
                    let a = view_ingest(v2, Feed::Raw, r.samples@, r.drops, scale);
                    lemma_view_ingest_grows(v2, Feed::Raw, r.samples@, r.drops, scale);
                    let b = view_raw_removed(a, r.removed);
                    lemma_view_grows_same(a, b);
                    lemma_view_grows_trans(v2, a, b);
                    b
                },
                None => {
                    lemma_view_grows_same(v2, v2);
                    v2
                },
            };
            lemma_view_grows_trans(v, v2, v3);
            match hook {
                Some(h) => {
                    lemma_view_ingest_grows(v3, Feed::Hook, h.samples@, h.drops, scale);
                    lemma_view_grows_trans(v, v3, view_ingest(v3, Feed::Hook, h.samples@, h.drops, scale));
                },
                None => {},
            }
        },
        Delivery::Neither => {
            lemma_view_grows_same(v, v);
        },
    }
}

} // verus!
