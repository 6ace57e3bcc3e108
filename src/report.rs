//! Gathering the detectors' findings into one report with a running total.
use vstd::prelude::*;
use crate::card::Card;
use crate::catalog::{catalog, lemma_catalog_sound};
use crate::detect::{
    detect_fifteens, detect_pairs, detect_thirty_ones, fifteen_findings, full_hand_test,
    lemma_filter_map_len, lemma_select_shape, pair_findings, pair_test, sum_test,
    thirty_one_findings,
};
use crate::finding::{Finding, FindingView, Scoring, finding_bounded, points_of, views};
use crate::hand::Hand;
use crate::runs::{all_positions, detect_runs, keep_in_window, run_findings, run_windows, sorted_keys};

verus! {

/// The findings in the report's order and, for each, the total of points
/// up to and including it.
#[derive(Debug)]
pub struct Report {
    pub findings: Vec<Finding>,
    pub totals: Vec<u64>,
}

pub open spec fn of_kind(k: Scoring) -> spec_fn(FindingView) -> bool {
    |v: FindingView| v.0 == k
}

/// Findings grouped by kind, in the order pairs, runs, fifteens,
/// thirty-ones, each group keeping the order in which its findings came.
#[verifier::opaque]
pub open spec fn grouped(vs: Seq<FindingView>) -> Seq<FindingView> {
    vs.filter(of_kind(Scoring::Pair)) + vs.filter(of_kind(Scoring::Run)) + vs.filter(
        of_kind(Scoring::Fifteen),
    ) + vs.filter(of_kind(Scoring::ThirtyOne))
}

/// The sum of the points of the findings.
pub open spec fn total_points(vs: Seq<FindingView>) -> nat
    decreases vs.len(),
{
    if vs.len() == 0 {
        0
    } else {
        total_points(vs.drop_last()) + points_of(vs.last())
    }
}

impl Report {
    /// Each total is the sum of the points of the findings up to it.
    pub open spec fn wf(&self) -> bool {
        &&& self.totals@.len() == self.findings@.len()
        &&& forall|i: int|
            0 <= i < self.totals@.len() ==> #[trigger] self.totals@[i] == total_points(
                views(self.findings@).take(i + 1),
            )
    }

    /// The total of the whole report.
    pub fn total(&self) -> (r: u64)
        requires
            self.wf(),
        ensures
            r == total_points(views(self.findings@)),
    {
        if self.totals.len() == 0 {
            assert(views(self.findings@) =~= Seq::empty());
            0
        } else {
            let n = self.totals.len();
            assert(views(self.findings@).take(n as int) =~= views(self.findings@));
            self.totals[n - 1]
        }
    }
}

/// Gathers findings that came in any order into a report: grouped by kind
/// in the fixed order pairs, runs, fifteens, thirty-ones, each group in the
/// order its findings came, with the running total after each.
pub fn aggregate(findings: Vec<Finding>) -> (r: Report)
    requires
        forall|i: int| 0 <= i < findings@.len() ==> finding_bounded(#[trigger] findings@[i]@),
        5 * findings@.len() <= u64::MAX,
    ensures
        views(r.findings@) == grouped(views(findings@)),
        r.wf(),
{
    let ghost vs = views(findings@);
    let mut rest = findings;
    let mut pairs: Vec<Finding> = Vec::new();
    let mut runs: Vec<Finding> = Vec::new();
    let mut fifteens: Vec<Finding> = Vec::new();
    let mut thirty_ones: Vec<Finding> = Vec::new();
    let count = rest.len();
    let ghost n = count as nat;
    let mut i: usize = 0;
    while rest.len() > 0
        invariant
            i + rest@.len() == n,
            n <= usize::MAX,
            n == vs.len(),
            views(rest@) =~= vs.skip(i as int),
            forall|j: int| 0 <= j < rest@.len() ==> finding_bounded(#[trigger] rest@[j]@),
            views(pairs@) =~= vs.take(i as int).filter(of_kind(Scoring::Pair)),
            views(runs@) =~= vs.take(i as int).filter(of_kind(Scoring::Run)),
            views(fifteens@) =~= vs.take(i as int).filter(of_kind(Scoring::Fifteen)),
            views(thirty_ones@) =~= vs.take(i as int).filter(of_kind(Scoring::ThirtyOne)),
            forall|j: int| 0 <= j < pairs@.len() ==> finding_bounded(#[trigger] pairs@[j]@),
            forall|j: int| 0 <= j < runs@.len() ==> finding_bounded(#[trigger] runs@[j]@),
            forall|j: int| 0 <= j < fifteens@.len() ==> finding_bounded(#[trigger] fifteens@[j]@),
            forall|j: int| 0 <= j < thirty_ones@.len() ==> finding_bounded(
                #[trigger] thirty_ones@[j]@,
            ),
        decreases rest@.len(),
    {
        let ghost before = rest@;
        let f = rest.remove(0);
        assert(vs[i as int] == f@) by {
            assert(views(before)[0] == before[0]@);
        }
        assert(vs.take(i + 1).drop_last() =~= vs.take(i as int));
        reveal(Seq::filter);
        assert(rest@ =~= before.skip(1));
        assert(views(rest@) =~= views(before).skip(1));
        assert(views(rest@) =~= vs.skip(i + 1));
        let ghost fv = f@;
        match f.kind {
            Scoring::Pair => {
                let ghost pre = pairs@;
                pairs.push(f);
                assert(views(pairs@) =~= views(pre).push(fv));
            },
            Scoring::Run => {
                let ghost pre = runs@;
                runs.push(f);
                assert(views(runs@) =~= views(pre).push(fv));
            },
            Scoring::Fifteen => {
                let ghost pre = fifteens@;
                fifteens.push(f);
                assert(views(fifteens@) =~= views(pre).push(fv));
            },
            Scoring::ThirtyOne => {
                let ghost pre = thirty_ones@;
                thirty_ones.push(f);
                assert(views(thirty_ones@) =~= views(pre).push(fv));
            },
        }
        i = i + 1;
    }
    assert(vs.take(n as int) =~= vs);
    let ghost (a, b, c, d) = (pairs@, runs@, fifteens@, thirty_ones@);
    pairs.append(&mut runs);
    pairs.append(&mut fifteens);
    pairs.append(&mut thirty_ones);
    let ordered = pairs;
    assert(views(ordered@) =~= views(a) + views(b) + views(c) + views(d));
    assert(views(ordered@) =~= grouped(vs)) by {
        reveal(grouped);
    }
    assert(ordered@.len() == n) by {
        assert(ordered@.len() == views(ordered@).len());
        lemma_grouped_len(vs);
    }
    let mut totals: Vec<u64> = Vec::new();
    let mut running: u64 = 0;
    let mut j: usize = 0;
    while j < ordered.len()
        invariant
            j <= ordered@.len() == n,
            5 * n <= u64::MAX,
            totals@.len() == j,
            running == total_points(views(ordered@).take(j as int)),
            running <= 5 * j,
            forall|k: int| 0 <= k < ordered@.len() ==> finding_bounded(#[trigger] ordered@[k]@),
            forall|k: int|
                0 <= k < j ==> #[trigger] totals@[k] == total_points(
                    views(ordered@).take(k + 1),
                ),
        decreases ordered@.len() - j,
    {
        assert(views(ordered@).take(j + 1).drop_last() =~= views(ordered@).take(j as int));
        let p = ordered[j].points();
        running = running + p as u64;
        totals.push(running);
        j = j + 1;
    }
    Report { findings: ordered, totals }
}

/// All that a hand scores: its pairs, runs, fifteens and thirty-ones, in
/// that order.
pub open spec fn hand_findings(h: Seq<Card>) -> Seq<FindingView> {
    pair_findings(h) + run_findings(h) + fifteen_findings(h) + thirty_one_findings(h)
}

/// A list whose findings are all of kind `k`.
pub open spec fn all_of_kind(vs: Seq<FindingView>, k: Scoring) -> bool {
    forall|i: int| 0 <= i < vs.len() ==> (#[trigger] vs[i]).0 == k
}

/// Keeping the findings of one kind from a list of one kind.
pub proof fn lemma_filter_one_kind(vs: Seq<FindingView>, k: Scoring, q: Scoring)
    requires
        all_of_kind(vs, k),
    ensures
        vs.filter(of_kind(q)) == if k == q {
            vs
        } else {
            Seq::empty()
        },
    decreases vs.len(),
{
    reveal(Seq::filter);
    if vs.len() > 0 {
        lemma_filter_one_kind(vs.drop_last(), k, q);
        assert(vs.drop_last().push(vs.last()) =~= vs);
    } else {
        assert(vs =~= Seq::empty());
    }
}

/// Grouping leaves a list alone that is already grouped.
pub proof fn lemma_grouped_in_order(
    p: Seq<FindingView>,
    r: Seq<FindingView>,
    f: Seq<FindingView>,
    t: Seq<FindingView>,
)
    requires
        all_of_kind(p, Scoring::Pair),
        all_of_kind(r, Scoring::Run),
        all_of_kind(f, Scoring::Fifteen),
        all_of_kind(t, Scoring::ThirtyOne),
    ensures
        grouped(p + r + f + t) == p + r + f + t,
{
    broadcast use Seq::filter_distributes_over_add;

    reveal(grouped);
    let ks = seq![Scoring::Pair, Scoring::Run, Scoring::Fifteen, Scoring::ThirtyOne];
    assert forall|j: int| 0 <= j < 4 implies {
        &&& #[trigger] p.filter(of_kind(ks[j])) == if ks[j] == Scoring::Pair { p } else { Seq::empty() }
        &&& r.filter(of_kind(ks[j])) == if ks[j] == Scoring::Run { r } else { Seq::empty() }
        &&& f.filter(of_kind(ks[j])) == if ks[j] == Scoring::Fifteen { f } else { Seq::empty() }
        &&& t.filter(of_kind(ks[j])) == if ks[j] == Scoring::ThirtyOne { t } else { Seq::empty() }
    } by {
        lemma_filter_one_kind(p, Scoring::Pair, ks[j]);
        lemma_filter_one_kind(r, Scoring::Run, ks[j]);
        lemma_filter_one_kind(f, Scoring::Fifteen, ks[j]);
        lemma_filter_one_kind(t, Scoring::ThirtyOne, ks[j]);
    }
    assert(p.filter(of_kind(ks[0])) == p);
    assert(p.filter(of_kind(ks[1])) == Seq::<FindingView>::empty());
    assert(p.filter(of_kind(ks[2])) == Seq::<FindingView>::empty());
    assert(p.filter(of_kind(ks[3])) == Seq::<FindingView>::empty());
    assert(grouped(p + r + f + t) =~= p + r + f + t);
}

/// The findings of each detector: how many at most, their kind, and at
/// most five positions each.
proof fn lemma_detector_shapes(h: Seq<Card>)
    ensures
        pair_findings(h).len() <= 10,
        run_findings(h).len() <= 3,
        fifteen_findings(h).len() <= 26,
        thirty_one_findings(h).len() <= 6,
        all_of_kind(pair_findings(h), Scoring::Pair),
        all_of_kind(run_findings(h), Scoring::Run),
        all_of_kind(fifteen_findings(h), Scoring::Fifteen),
        all_of_kind(thirty_one_findings(h), Scoring::ThirtyOne),
        all_bounded(pair_findings(h)),
        all_bounded(run_findings(h)),
        all_bounded(fifteen_findings(h)),
        all_bounded(thirty_one_findings(h)),
{
    assert forall|k: nat, i: int| 2 <= k <= 5 && 0 <= i < catalog(k).len() implies (
    #[trigger] catalog(k)[i]).len() <= 5 by {
        lemma_catalog_sound(k, i);
    }
    lemma_select_shape(catalog(2), Scoring::Pair, pair_test(h));
    lemma_select_shape(catalog(2), Scoring::Fifteen, sum_test(h, 15));
    lemma_select_shape(catalog(3), Scoring::Fifteen, sum_test(h, 15));
    lemma_select_shape(catalog(4), Scoring::Fifteen, sum_test(h, 15));
    lemma_select_shape(catalog(5), Scoring::Fifteen, sum_test(h, 15));
    lemma_select_shape(catalog(4), Scoring::ThirtyOne, sum_test(h, 31));
    lemma_select_shape(catalog(5), Scoring::ThirtyOne, full_hand_test(h));
    let s = sorted_keys(h);
    assert forall|i: int| 0 <= i < run_windows(s).len() implies #[trigger] all_positions().filter_map(
        keep_in_window(s, run_windows(s)[i].0, run_windows(s)[i].1),
    ).len() <= 5 by {
        lemma_filter_map_len(all_positions(), keep_in_window(s, run_windows(s)[i].0, run_windows(s)[i].1));
    }
}

/// Every finding of the list names at most five positions.
pub open spec fn all_bounded(vs: Seq<FindingView>) -> bool {
    forall|i: int| 0 <= i < vs.len() ==> finding_bounded(#[trigger] vs[i])
}

proof fn lemma_bounded_concat(a: Seq<FindingView>, b: Seq<FindingView>)
    requires
        all_bounded(a),
        all_bounded(b),
    ensures
        all_bounded(a + b),
{
    assert forall|i: int| 0 <= i < (a + b).len() implies finding_bounded(#[trigger] (a + b)[i]) by {
        if i < a.len() {
            assert((a + b)[i] == a[i]);
        } else {
            assert((a + b)[i] == b[i - a.len()]);
        }
    }
}

/// A list of findings made of four lists, one per kind in the report's
/// order, is ready to aggregate, and aggregating leaves its order alone.
proof fn lemma_ready_to_aggregate(
    fs: Seq<Finding>,
    p: Seq<FindingView>,
    r: Seq<FindingView>,
    f: Seq<FindingView>,
    t: Seq<FindingView>,
)
    requires
        views(fs) == p + r + f + t,
        p.len() + r.len() + f.len() + t.len() <= 45,
        all_of_kind(p, Scoring::Pair),
        all_of_kind(r, Scoring::Run),
        all_of_kind(f, Scoring::Fifteen),
        all_of_kind(t, Scoring::ThirtyOne),
        all_bounded(p),
        all_bounded(r),
        all_bounded(f),
        all_bounded(t),
    ensures
        forall|i: int| 0 <= i < fs.len() ==> finding_bounded(#[trigger] fs[i]@),
        5 * fs.len() <= u64::MAX,
        grouped(views(fs)) == views(fs),
{
    lemma_grouped_in_order(p, r, f, t);
    lemma_bounded_concat(p, r);
    lemma_bounded_concat(p + r, f);
    lemma_bounded_concat(p + r + f, t);
    let v = views(fs);
    assert(v.len() == fs.len());
    assert forall|i: int| 0 <= i < fs.len() implies finding_bounded(#[trigger] fs[i]@) by {
        assert(v[i] == fs[i]@);
    }
}

/// Scores a hand: runs each detector, then gathers what they found into a
/// report with the running total after each finding.
pub fn score_hand(hand: &Hand) -> (r: Report)
    ensures
        views(r.findings@) == hand_findings(hand@),
        r.wf(),
{
    let mut all = detect_pairs(hand);
    let mut runs = detect_runs(hand);
    let mut fifteens = detect_fifteens(hand);
    let mut thirty_ones = detect_thirty_ones(hand);
    let ghost (a, b, c, d) = (all@, runs@, fifteens@, thirty_ones@);
    all.append(&mut runs);
    all.append(&mut fifteens);
    all.append(&mut thirty_ones);
    proof {
        assert(all@ == a + b + c + d);
        lemma_views_concat(a, b, c, d);
        let h = hand@;
        lemma_detector_shapes(h);
        lemma_ready_to_aggregate(
            all@,
            pair_findings(h),
            run_findings(h),
            fifteen_findings(h),
            thirty_one_findings(h),
        );
    }
    aggregate(all)
}

/// The views of a concatenation are the concatenated views.
proof fn lemma_views_concat(a: Seq<Finding>, b: Seq<Finding>, c: Seq<Finding>, d: Seq<Finding>)
    ensures
        views(a + b + c + d) == views(a) + views(b) + views(c) + views(d),
{
    assert(views(a + b + c + d) =~= views(a) + views(b) + views(c) + views(d));
}

/// Grouping keeps the number of findings.
pub proof fn lemma_grouped_len(vs: Seq<FindingView>)
    ensures
        grouped(vs).len() == vs.len(),
    decreases vs.len(),
{
    reveal(grouped);
    if vs.len() > 0 {
        let r = vs.drop_last();
        lemma_grouped_len(r);
        reveal(Seq::filter);
        assert(vs.filter(of_kind(Scoring::Pair)).len() == r.filter(of_kind(Scoring::Pair)).len()
            + if vs.last().0 == Scoring::Pair { 1int } else { 0 });
        assert(vs.filter(of_kind(Scoring::Run)).len() == r.filter(of_kind(Scoring::Run)).len()
            + if vs.last().0 == Scoring::Run { 1int } else { 0 });
        assert(vs.filter(of_kind(Scoring::Fifteen)).len() == r.filter(
            of_kind(Scoring::Fifteen),
        ).len() + if vs.last().0 == Scoring::Fifteen { 1int } else { 0 });
        assert(vs.filter(of_kind(Scoring::ThirtyOne)).len() == r.filter(
            of_kind(Scoring::ThirtyOne),
        ).len() + if vs.last().0 == Scoring::ThirtyOne { 1int } else { 0 });
    }
}

} // verus!
