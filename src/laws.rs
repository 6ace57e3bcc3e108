//! What holds of every hand: when each kind of finding appears, how runs
//! exclude each other, and that scoring does not depend on chance.
use vstd::prelude::*;
use vstd::relations::sorted_by;
use vstd::seq_lib::lemma_sorted_unique;
use crate::card::Card;
use crate::catalog::{catalog, is_subset_of_size, lemma_catalog_complete};
use crate::detect::{
    RECHECK_FULL_HAND_FIFTEEN, counting_sum, fifteen_findings, full_hand_test,
    is_pair, pair_findings, pair_test, pick, select, sum_test, thirty_one_findings,
};
use crate::finding::{FindingView, Scoring, views};
use crate::report::{Report, grouped, of_kind, total_points};
use crate::runs::{
    Key, all_positions, consecutive, keep_in_window, key_order, keyed, lemma_key_order_total,
    run_findings, run_windows, sorted_keys, window_positions,
};

verus! {

/// An entry that a table keeps stands in what `select` returns.
proof fn lemma_select_keeps(table: Seq<Seq<usize>>, kind: Scoring, keep: spec_fn(Seq<usize>) -> bool, s: Seq<usize>)
    requires
        table.contains(s),
        keep(s),
    ensures
        select(table, kind, keep).contains((kind, s)),
    decreases table.len(),
{
    reveal(select);
    let r = table.drop_last();
    assert(select(table, kind, keep) == select(r, kind, keep) + (if keep(table.last()) {
        seq![(kind, table.last())]
    } else {
        Seq::empty()
    }));
    if table.last() == s {
        assert(select(table, kind, keep).last() == (kind, s));
    } else {
        let i = choose|i: int| 0 <= i < table.len() && table[i] == s;
        assert(r[i] == s);
        lemma_select_keeps(r, kind, keep, s);
        let j = choose|j: int| 0 <= j < select(r, kind, keep).len() && select(r, kind, keep)[j] == (kind, s);
        assert(select(table, kind, keep)[j] == (kind, s));
    }
}

/// What `select` returns comes from the table and passes the test.
proof fn lemma_select_from(table: Seq<Seq<usize>>, kind: Scoring, keep: spec_fn(Seq<usize>) -> bool, v: FindingView)
    requires
        select(table, kind, keep).contains(v),
    ensures
        v.0 == kind,
        table.contains(v.1),
        keep(v.1),
{
    reveal(select);
    table.lemma_filter_map_contains(pick(kind, keep), v);
}

/// A pair is reported for two positions exactly when their cards have one
/// rank.
pub proof fn lemma_pair_iff(h: Seq<Card>, s: Seq<usize>)
    requires
        h.len() == 5,
        is_subset_of_size(s, 2),
    ensures
        pair_findings(h).contains((Scoring::Pair, s)) <==> is_pair(h, s),
{
    if pair_findings(h).contains((Scoring::Pair, s)) {
        lemma_select_from(catalog(2), Scoring::Pair, pair_test(h), (Scoring::Pair, s));
    }
    if is_pair(h, s) {
        lemma_catalog_complete(s, 2);
        lemma_select_keeps(catalog(2), Scoring::Pair, pair_test(h), s);
    }
}

/// A fifteen is reported for a subset of two to five positions exactly when
/// the counting values of its cards sum to 15.
pub proof fn lemma_fifteen_iff(h: Seq<Card>, s: Seq<usize>, k: nat)
    requires
        h.len() == 5,
        2 <= k <= 5,
        is_subset_of_size(s, k),
    ensures
        fifteen_findings(h).contains((Scoring::Fifteen, s)) <==> counting_sum(h, s) == 15,
{
    let v = (Scoring::Fifteen, s);
    let t = sum_test(h, 15);
    let parts = seq![
        select(catalog(2), Scoring::Fifteen, t),
        select(catalog(3), Scoring::Fifteen, t),
        select(catalog(4), Scoring::Fifteen, t),
        select(catalog(5), Scoring::Fifteen, t),
    ];
    let all = fifteen_findings(h);
    assert(all == parts[0] + parts[1] + parts[2] + parts[3]);
    if all.contains(v) {
        let i = choose|i: int| 0 <= i < all.len() && all[i] == v;
        let (a, b, c) = (parts[0].len(), parts[1].len(), parts[2].len());
        if i < a {
            assert(parts[0][i] == v);
            lemma_select_from(catalog(2), Scoring::Fifteen, t, v);
        } else if i < a + b {
            assert(parts[1][i - a] == v);
            lemma_select_from(catalog(3), Scoring::Fifteen, t, v);
        } else if i < a + b + c {
            assert(parts[2][i - a - b] == v);
            lemma_select_from(catalog(4), Scoring::Fifteen, t, v);
        } else {
            assert(parts[3][i - a - b - c] == v);
            lemma_select_from(catalog(5), Scoring::Fifteen, t, v);
        }
    }
    if counting_sum(h, s) == 15 {
        lemma_catalog_complete(s, k);
        lemma_select_keeps(catalog(k), Scoring::Fifteen, t, s);
        let p = parts[k - 2];
        let j = choose|j: int| 0 <= j < p.len() && p[j] == v;
        let (a, b, c) = (parts[0].len(), parts[1].len(), parts[2].len());
        if k == 2 {
            assert(all[j] == v);
        } else if k == 3 {
            assert(all[a + j] == v);
        } else if k == 4 {
            assert(all[a + b + j] == v);
        } else {
            assert(all[a + b + c + j] == v);
        }
    }
}

/// The cards at `k` positions of a well-formed hand count at most 10 each.
proof fn lemma_sum_bound(h: Seq<Card>, s: Seq<usize>)
    requires
        h.len() == 5,
        forall|i: int| 0 <= i < 5 ==> (#[trigger] h[i]).wf(),
        forall|i: int| 0 <= i < s.len() ==> #[trigger] s[i] < 5,
    ensures
        counting_sum(h, s) <= 10 * s.len(),
    decreases s.len(),
{
    if s.len() > 0 {
        lemma_sum_bound(h, s.drop_last());
        assert(h[s.last() as int].wf());
    }
}

/// A thirty-one is reported for a subset of two to five positions of a
/// well-formed hand exactly when the counting values of its cards sum to
/// 31. The full hand is left out when it sums to 15 and that sum is
/// rechecked: it is then reported as well.
pub proof fn lemma_thirty_one_iff(h: Seq<Card>, s: Seq<usize>, k: nat)
    requires
        h.len() == 5,
        forall|i: int| 0 <= i < 5 ==> (#[trigger] h[i]).wf(),
        2 <= k <= 5,
        is_subset_of_size(s, k),
        k < 5 || counting_sum(h, s) != 15 || !RECHECK_FULL_HAND_FIFTEEN,
    ensures
        thirty_one_findings(h).contains((Scoring::ThirtyOne, s)) <==> counting_sum(h, s) == 31,
{
    let v = (Scoring::ThirtyOne, s);
    let four = select(catalog(4), Scoring::ThirtyOne, sum_test(h, 31));
    let five = select(catalog(5), Scoring::ThirtyOne, full_hand_test(h));
    let all = thirty_one_findings(h);
    let whole = seq![0usize, 1, 2, 3, 4];
    assert(all == four + five);
    assert(catalog(5) =~= seq![whole]);
    if all.contains(v) {
        let i = choose|i: int| 0 <= i < all.len() && all[i] == v;
        if i < four.len() {
            assert(four[i] == v);
            lemma_select_from(catalog(4), Scoring::ThirtyOne, sum_test(h, 31), v);
        } else {
            assert(five[i - four.len()] == v);
            lemma_select_from(catalog(5), Scoring::ThirtyOne, full_hand_test(h), v);
            assert(s == whole);
        }
    }
    if counting_sum(h, s) == 31 {
        lemma_sum_bound(h, s);
        lemma_catalog_complete(s, k);
        if k == 4 {
            lemma_select_keeps(catalog(4), Scoring::ThirtyOne, sum_test(h, 31), s);
            let j = choose|j: int| 0 <= j < four.len() && four[j] == v;
            assert(all[j] == v);
        } else {
            assert(s == whole);
            lemma_select_keeps(catalog(5), Scoring::ThirtyOne, full_hand_test(h), s);
            let j = choose|j: int| 0 <= j < five.len() && five[j] == v;
            assert(all[four.len() + j] == v);
        }
    }
}

/// The sorted keys of a hand exist: they are ordered, hold the hand's keys,
/// and are five.
pub proof fn lemma_sorted_keys(h: Seq<Card>)
    ensures
        sorted_by(sorted_keys(h), key_order()),
        sorted_keys(h).to_multiset() == keyed(h).to_multiset(),
        sorted_keys(h).len() == 5,
{
    lemma_key_order_total();
    let w = keyed(h).sort_by(key_order());
    keyed(h).lemma_sort_by_ensures(key_order());
    assert(sorted_by(w, key_order()) && w.to_multiset() == keyed(h).to_multiset());
    let s = sorted_keys(h);
    broadcast use vstd::seq_lib::group_to_multiset_ensures;
    assert(s.len() == s.to_multiset().len());
}

/// However the keys of a hand were sorted, the result is the same: the run
/// detector reports the same runs on every call.
pub proof fn lemma_sort_is_determined(h: Seq<Card>, s: Seq<Key>)
    requires
        sorted_by(s, key_order()),
        s.to_multiset() == keyed(h).to_multiset(),
    ensures
        s == sorted_keys(h),
{
    lemma_sorted_keys(h);
    lemma_key_order_total();
    lemma_sorted_unique(s, sorted_keys(h), key_order());
}

/// Every position of the hand holds one of the sorted keys.
proof fn lemma_every_position_sorted(h: Seq<Card>, p: usize)
    requires
        p < 5,
    ensures
        exists|t: int| 0 <= t < 5 && #[trigger] sorted_keys(h)[t].1 == p,
{
    lemma_sorted_keys(h);
    broadcast use vstd::seq_lib::group_to_multiset_ensures;
    let k = keyed(h);
    assert(k[p as int].1 == p);
    assert(k.contains(k[p as int]));
    assert(k.to_multiset().count(k[p as int]) > 0);
    assert(sorted_keys(h).to_multiset().count(k[p as int]) > 0);
    assert(sorted_keys(h).contains(k[p as int]));
}

/// When the whole sorted hand is consecutive, the only run reported is the
/// whole hand, over all five positions, worth five points.
pub proof fn lemma_full_run(h: Seq<Card>)
    requires
        consecutive(sorted_keys(h), 0, 5),
    ensures
        run_findings(h) == seq![(Scoring::Run, seq![0usize, 1, 2, 3, 4])],
{
    let s = sorted_keys(h);
    let f = keep_in_window(s, 0, 5);
    let a = all_positions();
    assert forall|q: int| 0 <= q < 5 implies #[trigger] f(a[q]) == Some(q as usize) by {
        lemma_every_position_sorted(h, q as usize);
    }
    assert(a.take(0).filter_map(f) =~= Seq::<usize>::empty());
    a.lemma_filter_map_take_succ(f, 0);
    a.lemma_filter_map_take_succ(f, 1);
    a.lemma_filter_map_take_succ(f, 2);
    a.lemma_filter_map_take_succ(f, 3);
    a.lemma_filter_map_take_succ(f, 4);
    assert(f(a[0]) == Some(0usize));
    assert(f(a[1]) == Some(1usize));
    assert(f(a[2]) == Some(2usize));
    assert(f(a[3]) == Some(3usize));
    assert(f(a[4]) == Some(4usize));
    assert(a.take(5) =~= a);
    assert(window_positions(s, 0, 5) =~= seq![0usize, 1, 2, 3, 4]);
    assert(run_findings(h) =~= seq![(Scoring::Run, seq![0usize, 1, 2, 3, 4])]);
}

/// When a window of four sorted cards is consecutive but the whole hand is
/// not, runs of four are reported and no run of three.
pub proof fn lemma_four_run_excludes_three(h: Seq<Card>)
    requires
        !consecutive(sorted_keys(h), 0, 5),
        consecutive(sorted_keys(h), 0, 4) || consecutive(sorted_keys(h), 1, 4),
    ensures
        run_findings(h).len() >= 1,
        forall|i: int| 0 <= i < run_windows(sorted_keys(h)).len() ==> (#[trigger] run_windows(sorted_keys(h))[i]).1 == 4,
{
}

/// The running total never falls.
proof fn lemma_total_prefix_rises(vs: Seq<FindingView>, i: int, j: int)
    requires
        0 <= i <= j <= vs.len(),
    ensures
        total_points(vs.take(i)) <= total_points(vs.take(j)),
    decreases j - i,
{
    if i < j {
        lemma_total_prefix_rises(vs, i, j - 1);
        assert(vs.take(j).drop_last() =~= vs.take(j - 1));
    }
}

/// Along a report the running totals never fall, and the last one is the
/// sum of the points of all its findings.
pub proof fn lemma_running_total_rises(r: Report, i: int, j: int)
    requires
        r.wf(),
        0 <= i <= j < r.totals@.len(),
    ensures
        r.totals@[i] <= r.totals@[j],
        r.totals@[r.totals@.len() - 1] == total_points(views(r.findings@)),
{
    let vs = views(r.findings@);
    lemma_total_prefix_rises(vs, i + 1, j + 1);
    let n = r.totals@.len() as int;
    assert(r.totals@[n - 1] == total_points(vs.take(n)));
    assert(vs.take(n) =~= vs);
}

/// Keeping the findings of a kind that none of the list has leaves nothing.
proof fn lemma_filter_absent(vs: Seq<FindingView>, k: Scoring)
    requires
        forall|i: int| 0 <= i < vs.len() ==> (#[trigger] vs[i]).0 != k,
    ensures
        vs.filter(of_kind(k)) == Seq::<FindingView>::empty(),
    decreases vs.len(),
{
    reveal(Seq::filter);
    if vs.len() > 0 {
        lemma_filter_absent(vs.drop_last(), k);
    } else {
        assert(vs.filter(of_kind(k)) =~= Seq::<FindingView>::empty());
    }
}

/// Findings from sources that share no kind give the same report in
/// whichever order they arrive.
pub proof fn lemma_arrival_order(a: Seq<FindingView>, b: Seq<FindingView>)
    requires
        forall|i: int, j: int| 0 <= i < a.len() && 0 <= j < b.len() ==> (#[trigger] a[i]).0 != (
        #[trigger] b[j]).0,
    ensures
        grouped(a + b) == grouped(b + a),
{
    broadcast use Seq::filter_distributes_over_add;

    reveal(grouped);
    assert forall|k: Scoring| #[trigger] a.filter(of_kind(k)) + b.filter(of_kind(k)) == b.filter(
        of_kind(k),
    ) + a.filter(of_kind(k)) by {
        if exists|i: int| 0 <= i < a.len() && a[i].0 == k {
            let i = choose|i: int| 0 <= i < a.len() && a[i].0 == k;
            assert forall|j: int| 0 <= j < b.len() implies (#[trigger] b[j]).0 != k by {
                assert(a[i].0 != b[j].0);
            }
            lemma_filter_absent(b, k);
            assert(a.filter(of_kind(k)) + Seq::<FindingView>::empty() =~= a.filter(of_kind(k)));
            assert(Seq::<FindingView>::empty() + a.filter(of_kind(k)) =~= a.filter(of_kind(k)));
        } else {
            lemma_filter_absent(a, k);
            assert(b.filter(of_kind(k)) + Seq::<FindingView>::empty() =~= b.filter(of_kind(k)));
            assert(Seq::<FindingView>::empty() + b.filter(of_kind(k)) =~= b.filter(of_kind(k)));
        }
    }
    let ks = seq![Scoring::Pair, Scoring::Run, Scoring::Fifteen, Scoring::ThirtyOne];
    assert(a.filter(of_kind(ks[0])) + b.filter(of_kind(ks[0])) == b.filter(of_kind(ks[0])) + a.filter(of_kind(ks[0])));
    assert(a.filter(of_kind(ks[1])) + b.filter(of_kind(ks[1])) == b.filter(of_kind(ks[1])) + a.filter(of_kind(ks[1])));
    assert(a.filter(of_kind(ks[2])) + b.filter(of_kind(ks[2])) == b.filter(of_kind(ks[2])) + a.filter(of_kind(ks[2])));
    assert(a.filter(of_kind(ks[3])) + b.filter(of_kind(ks[3])) == b.filter(of_kind(ks[3])) + a.filter(of_kind(ks[3])));
}

} // verus!
