//! The run detector. It looks at the hand in rank order, keeping the
//! position of each card so that a run names the cards where they stand.
use vstd::prelude::*;
use vstd::relations::{sorted_by, total_ordering};
use vstd::seq_lib::lemma_sorted_unique;
use rayon::slice::ParallelSliceMut;
use crate::card::{Card, ordering_value};
use crate::finding::{Finding, FindingView, Scoring, views};
use crate::hand::Hand;

verus! {

/// A card as a sort key: its ordering value, then its position.
pub type Key = (u8, usize);

/// The order std gives such pairs: by the first field, then the second.
pub open spec fn key_leq(a: Key, b: Key) -> bool {
    a.0 < b.0 || (a.0 == b.0 && a.1 <= b.1)
}

pub open spec fn key_order() -> spec_fn(Key, Key) -> bool {
    |a: Key, b: Key| key_leq(a, b)
}

/// The keys of a hand, by position.
pub open spec fn keyed(h: Seq<Card>) -> Seq<Key> {
    Seq::new(5, |i: int| (ordering_value(h[i]) as u8, i as usize))
}

/// The keys of a hand in ascending order.
pub open spec fn sorted_keys(h: Seq<Card>) -> Seq<Key> {
    choose|s: Seq<Key>| sorted_by(s, key_order()) && s.to_multiset() == keyed(h).to_multiset()
}

/// The `len` sorted cards from index `a` rise by one from each to the next.
pub open spec fn consecutive(s: Seq<Key>, a: int, len: int) -> bool {
    forall|t: int| a <= t < a + len - 1 ==> #[trigger] s[t].0 + 1 == s[t + 1].0
}

/// The window of `len` sorted cards from index `a`, if it is a run.
pub open spec fn window_if_run(s: Seq<Key>, a: int, len: int) -> Seq<(int, int)> {
    if consecutive(s, a, len) {
        seq![(a, len)]
    } else {
        Seq::empty()
    }
}

/// The windows of the sorted hand that score as runs: the whole hand if it
/// is one; else the runs of four; else the runs of three.
pub open spec fn run_windows(s: Seq<Key>) -> Seq<(int, int)> {
    if consecutive(s, 0, 5) {
        seq![(0, 5)]
    } else if consecutive(s, 0, 4) || consecutive(s, 1, 4) {
        window_if_run(s, 0, 4) + window_if_run(s, 1, 4)
    } else {
        window_if_run(s, 0, 3) + window_if_run(s, 1, 3) + window_if_run(s, 2, 3)
    }
}

/// Position `p` is held by one of the sorted cards of the window.
pub open spec fn in_window(s: Seq<Key>, a: int, len: int, p: usize) -> bool {
    exists|t: int| a <= t < a + len && #[trigger] s[t].1 == p
}

pub open spec fn keep_in_window(s: Seq<Key>, a: int, len: int) -> spec_fn(usize) -> Option<usize> {
    |p: usize|
        if in_window(s, a, len, p) {
            Some(p)
        } else {
            None
        }
}

/// The positions 0 to 4.
pub open spec fn all_positions() -> Seq<usize> {
    Seq::new(5, |p: int| p as usize)
}

/// The positions of the cards of a window, in ascending order.
pub open spec fn window_positions(s: Seq<Key>, a: int, len: int) -> Seq<usize> {
    all_positions().filter_map(keep_in_window(s, a, len))
}

/// The run findings of a sorted hand.
pub open spec fn runs_of_sorted(s: Seq<Key>) -> Seq<FindingView> {
    run_windows(s).map_values(|w: (int, int)| (Scoring::Run, window_positions(s, w.0, w.1)))
}

/// What the run detector reports.
pub open spec fn run_findings(h: Seq<Card>) -> Seq<FindingView> {
    runs_of_sorted(sorted_keys(h))
}

/// The order of the keys is total.
pub proof fn lemma_key_order_total()
    ensures
        total_ordering(key_order()),
{
}

/// Relies on rayon's `ParallelSliceMut::par_sort`: the slice ends in
/// ascending order under `Ord`, holding the elements it held.
#[verifier::external_body]
fn par_sort_keys(v: &mut Vec<Key>)
    ensures
        final(v)@.to_multiset() == old(v)@.to_multiset(),
        sorted_by(final(v)@, key_order()),
{
    v.par_sort();
}

/// The keys of a hand in ascending order.
pub fn sort_keys(hand: &Hand) -> (r: Vec<Key>)
    ensures
        r@ == sorted_keys(hand@),
        r@.len() == 5,
{
    let mut keys: Vec<Key> = Vec::new();
    let mut i: usize = 0;
    while i < 5
        invariant
            i <= 5,
            keys@ =~= keyed(hand@).take(i as int),
        decreases 5 - i,
    {
        keys.push((hand.cards[i].into_u8_normal(), i));
        i = i + 1;
    }
    assert(keys@ =~= keyed(hand@));
    par_sort_keys(&mut keys);
    proof {
        lemma_key_order_total();
        let s = sorted_keys(hand@);
        assert(sorted_by(s, key_order()) && s.to_multiset() == keyed(hand@).to_multiset());
        lemma_sorted_unique(keys@, s, key_order());
        broadcast use vstd::seq_lib::group_to_multiset_ensures;
        assert(keys@.len() == keys@.to_multiset().len());
    }
    keys
}

/// Whether the `len` sorted keys from index `a` rise by one each step.
fn is_consecutive(s: &Vec<Key>, a: usize, len: usize) -> (r: bool)
    requires
        1 <= len,
        s@.len() == 5,
        a + len <= 5,
    ensures
        r == consecutive(s@, a as int, len as int),
{
    let mut t: usize = a;
    while t + 1 < a + len
        invariant
            a <= t,
            t + 1 <= a + len,
            s@.len() == 5,
            a + len <= 5,
            forall|u: int| a <= u < t ==> #[trigger] s@[u].0 + 1 == s@[u + 1].0,
        decreases a + len - t,
    {
        if s[t].0 as u16 + 1 != s[t + 1].0 as u16 {
            return false;
        }
        t = t + 1;
    }
    true
}

/// The positions of the cards of a window of sorted keys, ascending.
fn positions_of_window(s: &Vec<Key>, a: usize, len: usize) -> (r: Vec<usize>)
    requires
        s@.len() == 5,
        a + len <= 5,
    ensures
        r@ == window_positions(s@, a as int, len as int),
{
    let mut out: Vec<usize> = Vec::new();
    let mut p: usize = 0;
    while p < 5
        invariant
            p <= 5,
            s@.len() == 5,
            a + len <= 5,
            out@ =~= all_positions().take(p as int).filter_map(keep_in_window(s@, a as int, len as int)),
        decreases 5 - p,
    {
        let ghost f = keep_in_window(s@, a as int, len as int);
        proof {
            all_positions().lemma_filter_map_take_succ(f, p as int);
        }
        let mut found = false;
        let mut t: usize = a;
        while t < a + len
            invariant
                a <= t <= a + len,
                s@.len() == 5,
                a + len <= 5,
                found == exists|u: int| a <= u < t && #[trigger] s@[u].1 == p,
            decreases a + len - t,
        {
            if s[t].1 == p {
                found = true;
            }
            t = t + 1;
        }
        assert(found == in_window(s@, a as int, len as int, p));
        assert(all_positions()[p as int] == p);
        if found {
            out.push(p);
        }
        p = p + 1;
    }
    assert(all_positions().take(5) =~= all_positions());
    out
}

/// Appends a run finding for the window to `out`.
fn push_window(s: &Vec<Key>, a: usize, len: usize, out: &mut Vec<Finding>)
    requires
        s@.len() == 5,
        a + len <= 5,
    ensures
        views(final(out)@) == views(old(out)@).push(
            (Scoring::Run, window_positions(s@, a as int, len as int)),
        ),
{
    let p = positions_of_window(s, a, len);
    let ghost pv = p@;
    let ghost pre = out@;
    out.push(Finding { kind: Scoring::Run, positions: p });
    assert(out@ =~= pre.push(out@.last()));
    assert(views(out@) =~= views(pre).push((Scoring::Run, pv)));
}

/// Runs: the whole hand when its ranks are consecutive, worth 5; otherwise
/// each consecutive window of four sorted cards, worth 4; otherwise, only
/// when no such window exists, each consecutive window of three, worth 3.
pub fn detect_runs(hand: &Hand) -> (r: Vec<Finding>)
    ensures
        views(r@) == run_findings(hand@),
{
    let s = sort_keys(hand);
    let mut out: Vec<Finding> = Vec::new();
    assert(views(out@) =~= Seq::empty());
    if is_consecutive(&s, 0, 5) {
        push_window(&s, 0, 5, &mut out);
    } else {
        let c0 = is_consecutive(&s, 0, 4);
        let c1 = is_consecutive(&s, 1, 4);
        if c0 || c1 {
            if c0 {
                push_window(&s, 0, 4, &mut out);
            }
            if c1 {
                push_window(&s, 1, 4, &mut out);
            }
        } else {
            if is_consecutive(&s, 0, 3) {
                push_window(&s, 0, 3, &mut out);
            }
            if is_consecutive(&s, 1, 3) {
                push_window(&s, 1, 3, &mut out);
            }
            if is_consecutive(&s, 2, 3) {
                push_window(&s, 2, 3, &mut out);
            }
        }
    }
    assert(views(out@) =~= runs_of_sorted(s@));
    out
}

} // verus!
