//! Scroll detents: grouping wheel reports into the clusters one detent click
//! produces.
//!
//! "Counts per detent" is device- and OS-dependent, and a device can split one
//! detent across several reports, so detents are read from time-clustered
//! sums rather than from individual reports. A wheel report joins the cluster
//! of the one before it when it turns the same way and arrives within the
//! cluster gap; otherwise it starts a new cluster.
use vstd::prelude::*;
use crate::sensor::types::Report;

verus! {

broadcast use vstd::string::group_string_axioms;

/// Which wheel to analyse. A tilt wheel is a second encoder with its own
/// detents and its own faults, so it gets the same analysis rather than being
/// folded into the vertical figures.
#[derive(Copy, Clone, PartialEq, Eq, Debug, Structural)]
pub enum Axis {
    Vertical,
    Horizontal,
}

/// The wheel counts a report carries on `axis`.
pub open spec fn axis_value(axis: Axis, r: Report) -> i32 {
    match axis {
        Axis::Vertical => r.wheel,
        Axis::Horizontal => r.hwheel,
    }
}

impl Axis {
    pub fn of(self, r: &Report) -> (v: i32)
        ensures
            v == axis_value(self, *r),
    {
        match self {
            Axis::Vertical => r.wheel,
            Axis::Horizontal => r.hwheel,
        }
    }

    pub fn title(self) -> (t: &'static str)
        ensures
            t@ == (match self {
                Axis::Vertical => "wheel"@,
                Axis::Horizontal => "tilt / horizontal wheel"@,
            }),
    {
        match self {
            Axis::Vertical => "wheel",
            Axis::Horizontal => "tilt / horizontal wheel",
        }
    }
}

#[derive(Clone, Debug)]
pub struct Cluster {
    pub t_ns: u64,
    pub sum: i64,
    pub n_reports: usize,
    pub duration_ns: u64,
    pub steps: i64,
}

/// `a - b`, or zero when `b` is later.
pub open spec fn sat_sub(a: u64, b: u64) -> u64 {
    if a >= b {
        (a - b) as u64
    } else {
        0
    }
}

pub open spec fn sign(v: int) -> int {
    if v > 0 {
        1
    } else if v < 0 {
        -1
    } else {
        0
    }
}

/// Report `b` continues the cluster that report `a`, just before it on the
/// same wheel, belongs to.
pub open spec fn joins(axis: Axis, gap_ns: u64, a: Report, b: Report) -> bool {
    sign(axis_value(axis, b) as int) == sign(axis_value(axis, a) as int) && sat_sub(b.t_ns, a.t_ns)
        <= gap_ns
}

/// One cluster as a mathematical value: when it started, its signed sum, how
/// many reports it has, and when its last report came.
pub struct ClusterModel {
    pub t_ns: u64,
    pub sum: int,
    pub n_reports: nat,
    pub last_t_ns: u64,
}

/// The clusters of a sequence of wheel reports, all nonzero on `axis`.
pub open spec fn cluster_models(ev: Seq<Report>, axis: Axis, gap_ns: u64) -> Seq<ClusterModel>
    decreases ev.len(),
{
    if ev.len() == 0 {
        Seq::empty()
    } else {
        let init = cluster_models(ev.drop_last(), axis, gap_ns);
        let r = ev.last();
        if ev.len() >= 2 && joins(axis, gap_ns, ev[ev.len() - 2], r) {
            let c = init.last();
            init.update(
                init.len() - 1,
                ClusterModel {
                    sum: c.sum + axis_value(axis, r),
                    n_reports: c.n_reports + 1,
                    last_t_ns: r.t_ns,
                    ..c
                },
            )
        } else {
            init.push(
                ClusterModel {
                    t_ns: r.t_ns,
                    sum: axis_value(axis, r) as int,
                    n_reports: 1,
                    last_t_ns: r.t_ns,
                },
            )
        }
    }
}

/// The reports that move `axis` at all.
pub open spec fn wheel_events(reports: Seq<Report>, axis: Axis) -> Seq<Report> {
    reports.filter(|r: Report| axis_value(axis, r) != 0)
}

/// `c` is the exec form of the model `m`.
pub open spec fn cluster_matches(c: Cluster, m: ClusterModel) -> bool {
    &&& c.t_ns == m.t_ns
    &&& c.sum == m.sum
    &&& c.n_reports == m.n_reports
    &&& c.duration_ns == sat_sub(m.last_t_ns, m.t_ns)
    &&& c.steps == 0
}

proof fn lemma_cluster_models_shape(ev: Seq<Report>, axis: Axis, gap_ns: u64)
    ensures
        cluster_models(ev, axis, gap_ns).len() <= ev.len(),
        ev.len() > 0 ==> cluster_models(ev, axis, gap_ns).len() > 0,
        ev.len() > 0 ==> cluster_models(ev, axis, gap_ns).last().last_t_ns == ev.last().t_ns,
        forall|k: int|
            0 <= k < cluster_models(ev, axis, gap_ns).len() ==> {
                let m = #[trigger] cluster_models(ev, axis, gap_ns)[k];
                &&& 1 <= m.n_reports <= ev.len()
                &&& -2147483648 * m.n_reports <= m.sum <= 2147483647 * m.n_reports
            },
    decreases ev.len(),
{
    if ev.len() > 0 {
        lemma_cluster_models_shape(ev.drop_last(), axis, gap_ns);
        let init = cluster_models(ev.drop_last(), axis, gap_ns);
        let all = cluster_models(ev, axis, gap_ns);
        assert forall|k: int| 0 <= k < all.len() implies {
            let m = #[trigger] all[k];
            &&& 1 <= m.n_reports <= ev.len()
            &&& -2147483648 * m.n_reports <= m.sum <= 2147483647 * m.n_reports
        } by {
            if k < init.len() {
                let m0 = init[k];
                assert(-2147483648 * m0.n_reports <= m0.sum <= 2147483647 * m0.n_reports);
            }
        }
    }
}

/// Groups the wheel reports on `axis` into detent clusters, in time order.
pub fn cluster_wheel(reports: &[Report], axis: Axis, gap_ns: u64) -> (out: Vec<Cluster>)
    requires
        reports@.len() < u32::MAX,
    ensures
        out@.len() == cluster_models(wheel_events(reports@, axis), axis, gap_ns).len(),
        forall|k: int|
            0 <= k < out@.len() ==> cluster_matches(
                #[trigger] out@[k],
                cluster_models(wheel_events(reports@, axis), axis, gap_ns)[k],
            ),
{
    let ghost nonzero = |r: Report| axis_value(axis, r) != 0;
    let mut out: Vec<Cluster> = Vec::new();
    let mut prev: Option<Report> = None;
    let mut i: usize = 0;
    while i < reports.len()
        invariant
            i <= reports@.len() < u32::MAX,
            nonzero == (|r: Report| axis_value(axis, r) != 0),
            ({
                let ev = reports@.take(i as int).filter(nonzero);
                let ms = cluster_models(ev, axis, gap_ns);
                &&& out@.len() == ms.len()
                &&& forall|k: int| 0 <= k < out@.len() ==> cluster_matches(#[trigger] out@[k], ms[k])
                &&& (prev is None <==> ev.len() == 0)
                &&& (prev is Some ==> prev->0 == ev.last())
                &&& ev.len() <= i
            }),
        decreases reports@.len() - i,
    {
        let r = reports[i];
        let v = axis.of(&r);
        let ghost ev0 = reports@.take(i as int).filter(nonzero);
        proof {
            assert(reports@.take(i + 1) =~= reports@.take(i as int).push(r));
            reports@.take(i as int).lemma_filter_push(r, nonzero);
            lemma_cluster_models_shape(ev0, axis, gap_ns);
        }
        if v != 0 {
            let ghost ev1 = ev0.push(r);
            proof {
                assert(ev1.drop_last() =~= ev0);
            }
            let extend = match prev {
                Some(p) => {
                    let pv = axis.of(&p);
                    let same_sign = (v > 0 && pv > 0) || (v < 0 && pv < 0);
                    let dt = if r.t_ns >= p.t_ns {
                        r.t_ns - p.t_ns
                    } else {
                        0
                    };
                    proof {
                        assert(ev1[ev1.len() - 2] == p);
                        assert(pv != 0) by {
                            reports@.take(i as int).lemma_filter_pred(nonzero, ev0.len() - 1);
                        }
                    }
                    same_sign && dt <= gap_ns
                },
                None => false,
            };
            if extend {
                let last = out.len() - 1;
                let ghost m = cluster_models(ev0, axis, gap_ns)[last as int];
                proof {
                    assert(-2147483648 * m.n_reports <= m.sum <= 2147483647 * m.n_reports);
                    assert(m.n_reports <= ev0.len());
                    assert(-9223372036854775808 < -2147483648 * m.n_reports - 2147483648)
                        by (nonlinear_arith)
                        requires
                            m.n_reports < 0xFFFF_FFFFint,
                    ;
                    assert(2147483647 * m.n_reports + 2147483647 < 9223372036854775807)
                        by (nonlinear_arith)
                        requires
                            m.n_reports < 0xFFFF_FFFFint,
                    ;
                }
                let first_t = out[last].t_ns;
                let sum = out[last].sum + v as i64;
                let n = out[last].n_reports + 1;
                let dur = if r.t_ns >= first_t {
                    r.t_ns - first_t
                } else {
                    0
                };
                out.set(last, Cluster { t_ns: first_t, sum, n_reports: n, duration_ns: dur, steps: 0 });
            } else {
                out.push(Cluster { t_ns: r.t_ns, sum: v as i64, n_reports: 1, duration_ns: 0, steps: 0 });
            }
            prev = Some(r);
        }
        i = i + 1;
    }
    proof {
        assert(reports@.take(i as int) =~= reports@);
    }
    out
}

/// Where cluster `k` starts among the wheel reports: the reports of the
/// clusters before it.
pub open spec fn cluster_start(cs: Seq<ClusterModel>, k: int) -> int
    decreases k,
{
    if k <= 0 || k > cs.len() {
        0
    } else {
        cluster_start(cs, k - 1) + cs[k - 1].n_reports
    }
}

/// The signed wheel counts of reports `a..b`.
pub open spec fn value_sum(ev: Seq<Report>, axis: Axis, a: int, b: int) -> int
    decreases b - a,
{
    if b <= a {
        0
    } else {
        value_sum(ev, axis, a, b - 1) + axis_value(axis, ev[b - 1])
    }
}

/// Cluster `k` holds the run of reports from `cluster_start(k)`: it starts
/// at its first report's time, ends at its last report's, sums its counts;
/// each report of the run joins the one before it, and the first report of
/// the next run does not.
pub open spec fn cluster_ok(ev: Seq<Report>, axis: Axis, gap_ns: u64, cs: Seq<ClusterModel>, k: int) -> bool {
    let a = cluster_start(cs, k);
    let n = cs[k].n_reports;
    &&& n >= 1
    &&& a + n <= ev.len()
    &&& cs[k].t_ns == ev[a].t_ns
    &&& cs[k].last_t_ns == ev[a + n - 1].t_ns
    &&& cs[k].sum == value_sum(ev, axis, a, a + n)
    &&& forall|j: int| a < j < a + n ==> joins(axis, gap_ns, ev[j - 1], #[trigger] ev[j])
    &&& (k + 1 < cs.len() ==> !joins(axis, gap_ns, ev[a + n - 1], ev[a + n]))
}

/// The clusters split the reports into consecutive runs, one run each, with
/// no report left over.
pub open spec fn partitions(ev: Seq<Report>, axis: Axis, gap_ns: u64, cs: Seq<ClusterModel>) -> bool {
    &&& cluster_start(cs, cs.len() as int) == ev.len()
    &&& forall|k: int| 0 <= k < cs.len() ==> #[trigger] cluster_ok(ev, axis, gap_ns, cs, k)
}

proof fn lemma_value_sum_prefix(ev: Seq<Report>, axis: Axis, a: int, b: int)
    requires
        0 <= a,
        b < ev.len(),
    ensures
        value_sum(ev.drop_last(), axis, a, b) == value_sum(ev, axis, a, b),
    decreases b - a,
{
    if b > a {
        lemma_value_sum_prefix(ev, axis, a, b - 1);
    }
}

proof fn lemma_start_prefix(cs: Seq<ClusterModel>, ds: Seq<ClusterModel>, k: int)
    requires
        0 <= k <= cs.len(),
        k <= ds.len(),
        forall|m: int| 0 <= m < k ==> #[trigger] cs[m].n_reports == ds[m].n_reports,
    ensures
        cluster_start(cs, k) == cluster_start(ds, k),
    decreases k,
{
    if k > 0 {
        lemma_start_prefix(cs, ds, k - 1);
    }
}

/// An earlier cluster that is not touched keeps its run when one more
/// report is taken in.
proof fn lemma_cluster_carries(
    ev: Seq<Report>,
    axis: Axis,
    gap_ns: u64,
    init: Seq<ClusterModel>,
    cs: Seq<ClusterModel>,
    k: int,
)
    requires
        ev.len() >= 1,
        0 <= k < init.len(),
        k + 1 < cs.len(),
        init.len() <= cs.len(),
        forall|m: int| 0 <= m <= k ==> #[trigger] cs[m] == init[m],
        cluster_ok(ev.drop_last(), axis, gap_ns, init, k),
        k + 1 < init.len() ==> cluster_ok(ev.drop_last(), axis, gap_ns, init, k + 1),
        k + 1 == init.len() ==> cluster_start(init, k + 1) == ev.len() - 1 && !joins(
            axis,
            gap_ns,
            ev[ev.len() - 2],
            ev[ev.len() - 1],
        ),
    ensures
        cluster_ok(ev, axis, gap_ns, cs, k),
{
    let pre = ev.drop_last();
    assert forall|m: int| 0 <= m < k implies #[trigger] cs[m].n_reports == init[m].n_reports by {
        assert(cs[m] == init[m]);
    }
    lemma_start_prefix(cs, init, k);
    lemma_start_nonneg(init, k);
    let a = cluster_start(init, k);
    let n = init[k].n_reports;
    assert(cs[k] == init[k]);
    assert(cluster_start(init, k + 1) == a + n);
    if k + 1 < init.len() {
        assert(a + n < pre.len());
    }
    lemma_value_sum_prefix(ev, axis, a, a + n);
    assert forall|j: int| a < j < a + n implies joins(axis, gap_ns, ev[j - 1], #[trigger] ev[j]) by {
        assert(pre[j] == ev[j] && pre[j - 1] == ev[j - 1]);
        assert(joins(axis, gap_ns, pre[j - 1], pre[j]));
    }
    assert(pre[a] == ev[a] && pre[a + n - 1] == ev[a + n - 1]);
    if k + 1 < init.len() {
        assert(pre[a + n] == ev[a + n]);
    }
}

proof fn lemma_start_nonneg(cs: Seq<ClusterModel>, k: int)
    ensures
        cluster_start(cs, k) >= 0,
    decreases k,
{
    if 0 < k <= cs.len() {
        lemma_start_nonneg(cs, k - 1);
    }
}

proof fn lemma_start_monotone(cs: Seq<ClusterModel>, i: int, j: int)
    requires
        0 <= i <= j <= cs.len(),
    ensures
        cluster_start(cs, i) <= cluster_start(cs, j),
    decreases j - i,
{
    if i < j {
        lemma_start_monotone(cs, i, j - 1);
    }
}

proof fn lemma_partition_joined(ev: Seq<Report>, axis: Axis, gap_ns: u64)
    requires
        ev.len() >= 2,
        joins(axis, gap_ns, ev[ev.len() - 2], ev.last()),
        partitions(ev.drop_last(), axis, gap_ns, cluster_models(ev.drop_last(), axis, gap_ns)),
        cluster_models(ev.drop_last(), axis, gap_ns).len() > 0,
    ensures
        partitions(ev, axis, gap_ns, cluster_models(ev, axis, gap_ns)),
{
    let pre = ev.drop_last();
    let init = cluster_models(pre, axis, gap_ns);
    let cs = cluster_models(ev, axis, gap_ns);
    let r = ev.last();
    let li = init.len() - 1;
    let c = init[li];
    assert(cs == init.update(li, ClusterModel {
        sum: c.sum + axis_value(axis, r),
        n_reports: c.n_reports + 1,
        last_t_ns: r.t_ns,
        ..c
    }));
    assert forall|m: int| 0 <= m < li implies #[trigger] cs[m].n_reports == init[m].n_reports by {
        assert(cs[m] == init[m]);
    }
    lemma_start_prefix(cs, init, li);
    assert(cluster_start(cs, cs.len() as int) == cluster_start(cs, li) + cs[li].n_reports);
    assert(cluster_start(init, init.len() as int) == cluster_start(init, li) + init[li].n_reports);
    assert forall|k: int| 0 <= k < cs.len() implies #[trigger] cluster_ok(ev, axis, gap_ns, cs, k) by {
        if k < li {
            assert(cluster_ok(pre, axis, gap_ns, init, k));
            assert(cluster_ok(pre, axis, gap_ns, init, k + 1));
            assert forall|m: int| 0 <= m <= k implies #[trigger] cs[m] == init[m] by {}
            lemma_cluster_carries(ev, axis, gap_ns, init, cs, k);
        } else {
            assert(cluster_ok(pre, axis, gap_ns, init, li));
            lemma_start_nonneg(init, li);
            let a = cluster_start(init, li);
            let n0 = init[li].n_reports;
            assert(a + n0 == pre.len());
            lemma_value_sum_prefix(ev, axis, a, a + n0);
            let last = ev.len() - 1;
            assert forall|j: int| a < j < a + n0 + 1 implies joins(axis, gap_ns, ev[j - 1], #[trigger] ev[j]) by {
                if j < a + n0 {
                    assert(pre[j] == ev[j] && pre[j - 1] == ev[j - 1]);
                    assert(joins(axis, gap_ns, pre[j - 1], pre[j]));
                } else {
                    assert(j == last);
                }
            }
            assert(value_sum(ev, axis, a, a + n0 + 1) == value_sum(ev, axis, a, a + n0) + axis_value(axis, ev[last]));
            assert(pre[a] == ev[a]);
        }
    }
}

proof fn lemma_partition_new(ev: Seq<Report>, axis: Axis, gap_ns: u64)
    requires
        ev.len() >= 1,
        !(ev.len() >= 2 && joins(axis, gap_ns, ev[ev.len() - 2], ev.last())),
        partitions(ev.drop_last(), axis, gap_ns, cluster_models(ev.drop_last(), axis, gap_ns)),
    ensures
        partitions(ev, axis, gap_ns, cluster_models(ev, axis, gap_ns)),
{
    let pre = ev.drop_last();
    let init = cluster_models(pre, axis, gap_ns);
    let cs = cluster_models(ev, axis, gap_ns);
    let r = ev.last();
    let li = init.len() as int;
    let last = ev.len() - 1;
    assert(cs == init.push(ClusterModel {
        t_ns: r.t_ns,
        sum: axis_value(axis, r) as int,
        n_reports: 1,
        last_t_ns: r.t_ns,
    }));
    assert forall|m: int| 0 <= m < li implies #[trigger] cs[m].n_reports == init[m].n_reports by {
        assert(cs[m] == init[m]);
    }
    lemma_start_prefix(cs, init, li);
    assert(cluster_start(cs, li + 1) == cluster_start(cs, li) + 1);
    assert forall|k: int| 0 <= k < cs.len() implies #[trigger] cluster_ok(ev, axis, gap_ns, cs, k) by {
        if k < li {
            assert(cluster_ok(pre, axis, gap_ns, init, k));
            if k + 1 < li {
                assert(cluster_ok(pre, axis, gap_ns, init, k + 1));
            } else {
                assert(cluster_start(init, k + 1) == last);
                if ev.len() >= 2 {
                    assert(!joins(axis, gap_ns, ev[ev.len() - 2], ev[ev.len() - 1]));
                }
            }
            assert forall|m: int| 0 <= m <= k implies #[trigger] cs[m] == init[m] by {}
            lemma_cluster_carries(ev, axis, gap_ns, init, cs, k);
        } else {
            assert(cluster_start(cs, k) == last);
            assert(value_sum(ev, axis, last, last + 1) == value_sum(ev, axis, last, last) + axis_value(axis, ev[last]));
        }
    }
}

/// Clustering splits the wheel reports into consecutive runs, as
/// `partitions` states: every report in exactly one cluster, in order, each
/// cluster's time, duration and sum taken from its own run, runs joined
/// within and broken between.
pub proof fn lemma_clusters_partition(ev: Seq<Report>, axis: Axis, gap_ns: u64)
    ensures
        partitions(ev, axis, gap_ns, cluster_models(ev, axis, gap_ns)),
    decreases ev.len(),
{
    if ev.len() == 0 {
        assert(cluster_models(ev, axis, gap_ns).len() == 0);
    } else {
        lemma_clusters_partition(ev.drop_last(), axis, gap_ns);
        lemma_cluster_models_shape(ev.drop_last(), axis, gap_ns);
        if ev.len() >= 2 && joins(axis, gap_ns, ev[ev.len() - 2], ev.last()) {
            lemma_partition_joined(ev, axis, gap_ns);
        } else {
            lemma_partition_new(ev, axis, gap_ns);
        }
    }
}

/// The vertical wheel counts of all the reports, added up.
pub open spec fn wheel_total(rs: Seq<Report>) -> int
    decreases rs.len(),
{
    if rs.len() == 0 {
        0
    } else {
        wheel_total(rs.drop_last()) + rs.last().wheel
    }
}

/// The horizontal (tilt) wheel counts of all the reports, added up.
pub open spec fn hwheel_total(rs: Seq<Report>) -> int
    decreases rs.len(),
{
    if rs.len() == 0 {
        0
    } else {
        hwheel_total(rs.drop_last()) + rs.last().hwheel
    }
}

/// The sums of all the clusters, added up.
pub open spec fn clusters_total(cs: Seq<ClusterModel>) -> int
    decreases cs.len(),
{
    if cs.len() == 0 {
        0
    } else {
        clusters_total(cs.drop_last()) + cs.last().sum
    }
}

spec fn axis_total(rs: Seq<Report>, axis: Axis) -> int
    decreases rs.len(),
{
    if rs.len() == 0 {
        0
    } else {
        axis_total(rs.drop_last(), axis) + axis_value(axis, rs.last())
    }
}

proof fn lemma_clusters_total(ev: Seq<Report>, axis: Axis, gap_ns: u64)
    ensures
        clusters_total(cluster_models(ev, axis, gap_ns)) == axis_total(ev, axis),
    decreases ev.len(),
{
    if ev.len() > 0 {
        lemma_clusters_total(ev.drop_last(), axis, gap_ns);
        lemma_cluster_models_shape(ev.drop_last(), axis, gap_ns);
        let init = cluster_models(ev.drop_last(), axis, gap_ns);
        let all = cluster_models(ev, axis, gap_ns);
        if ev.len() >= 2 && joins(axis, gap_ns, ev[ev.len() - 2], ev.last()) {
            assert(all.drop_last() =~= init.drop_last());
        } else {
            assert(all.drop_last() =~= init);
        }
    }
}

proof fn lemma_axis_total_skips_zeros(rs: Seq<Report>, axis: Axis)
    ensures
        axis_total(rs.filter(|r: Report| axis_value(axis, r) != 0), axis) == axis_total(rs, axis),
    decreases rs.len(),
{
    let nz = |r: Report| axis_value(axis, r) != 0;
    if rs.len() > 0 {
        let init = rs.drop_last();
        lemma_axis_total_skips_zeros(init, axis);
        assert(rs =~= init.push(rs.last()));
        init.lemma_filter_push(rs.last(), nz);
        if nz(rs.last()) {
            assert(init.filter(nz).push(rs.last()).drop_last() =~= init.filter(nz));
        }
    }
}

proof fn lemma_axis_totals(rs: Seq<Report>)
    ensures
        axis_total(rs, Axis::Vertical) == wheel_total(rs),
        axis_total(rs, Axis::Horizontal) == hwheel_total(rs),
    decreases rs.len(),
{
    if rs.len() > 0 {
        lemma_axis_totals(rs.drop_last());
    }
}

/// Each axis reads its own wheel: the clusters on the vertical axis add up
/// to all the reports' vertical wheel counts, and those on the horizontal
/// axis to all their tilt-wheel counts; the reports clustered on each axis
/// are exactly those that move that wheel.
pub proof fn lemma_cluster_sums_read_their_own_wheel(reports: Seq<Report>, gap_ns: u64)
    ensures
        clusters_total(cluster_models(wheel_events(reports, Axis::Vertical), Axis::Vertical, gap_ns))
            == wheel_total(reports),
        clusters_total(cluster_models(wheel_events(reports, Axis::Horizontal), Axis::Horizontal, gap_ns))
            == hwheel_total(reports),
        wheel_events(reports, Axis::Vertical) == reports.filter(|r: Report| r.wheel != 0),
        wheel_events(reports, Axis::Horizontal) == reports.filter(|r: Report| r.hwheel != 0),
{
    lemma_clusters_total(wheel_events(reports, Axis::Vertical), Axis::Vertical, gap_ns);
    lemma_clusters_total(wheel_events(reports, Axis::Horizontal), Axis::Horizontal, gap_ns);
    lemma_axis_total_skips_zeros(reports, Axis::Vertical);
    lemma_axis_total_skips_zeros(reports, Axis::Horizontal);
    lemma_axis_totals(reports);
    assert((|r: Report| axis_value(Axis::Vertical, r) != 0) =~= (|r: Report| r.wheel != 0));
    assert((|r: Report| axis_value(Axis::Horizontal, r) != 0) =~= (|r: Report| r.hwheel != 0));
}

/// The greatest common divisor, by Euclid's recurrence.
pub open spec fn gcd_nat(a: nat, b: nat) -> nat
    decreases b,
{
    if b == 0 {
        a
    } else {
        gcd_nat(b, a % b)
    }
}

pub open spec fn abs_i64(v: i64) -> nat {
    if v < 0 {
        (-v) as nat
    } else {
        v as nat
    }
}

proof fn lemma_gcd_bound(a: nat, b: nat)
    ensures
        gcd_nat(a, b) <= if a > b { a } else { b },
    decreases b,
{
    if b > 0 {
        lemma_gcd_bound(b, a % b);
    }
}

fn magnitude(v: i64) -> (m: u64)
    ensures
        m == abs_i64(v),
{
    if v < 0 {
        ((-(v + 1)) as u64) + 1
    } else {
        v as u64
    }
}

/// The greatest common divisor of the magnitudes of `a` and `b`; zero when
/// both are zero. Leaves out the inputs whose remainder or magnitude does
/// not fit an `i64`: one of them `i64::MIN` with the other 0, -1 or
/// `i64::MIN`.
pub fn gcd(a: i64, b: i64) -> (g: i64)
    requires
        !(a == i64::MIN && (b == 0 || b == -1 || b == i64::MIN)),
        !(b == i64::MIN && (a == 0 || a == -1)),
    ensures
        g == gcd_nat(abs_i64(a), abs_i64(b)),
{
    let mut x = magnitude(a);
    let mut y = magnitude(b);
    proof {
        lemma_gcd_bound(x as nat, y as nat);
    }
    while y != 0
        invariant
            gcd_nat(x as nat, y as nat) == gcd_nat(abs_i64(a), abs_i64(b)),
        decreases y,
    {
        let r = x % y;
        x = y;
        y = r;
    }
    proof {
        let m = gcd_nat(abs_i64(a), abs_i64(b));
        if m > i64::MAX {
            assert(abs_i64(a) == 0x8000_0000_0000_0000 || abs_i64(b) == 0x8000_0000_0000_0000);
            if abs_i64(a) == 0x8000_0000_0000_0000 && abs_i64(b) < 0x8000_0000_0000_0000 {
                assert(b != 0);
                assert(m == gcd_nat(abs_i64(b), abs_i64(a) % abs_i64(b)));
                lemma_gcd_bound(abs_i64(b), abs_i64(a) % abs_i64(b));
            } else if abs_i64(b) == 0x8000_0000_0000_0000 && abs_i64(a) < 0x8000_0000_0000_0000 {
                assert(m == gcd_nat(abs_i64(b), abs_i64(a) % abs_i64(b)));
                assert(abs_i64(a) % abs_i64(b) == abs_i64(a));
                lemma_gcd_bound(abs_i64(b), abs_i64(a));
                if abs_i64(a) > 0 {
                    assert(m == gcd_nat(abs_i64(a), abs_i64(b) % abs_i64(a)));
                    lemma_gcd_bound(abs_i64(a), abs_i64(b) % abs_i64(a));
                }
            }
            assert(false);
        }
        assert(gcd_nat(x as nat, 0) == x);
    }
    x as i64
}

} // verus!
