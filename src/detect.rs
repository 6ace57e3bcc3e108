//! The four detectors. Each is a pure function of the hand, and none reads
//! what another found, so they may run in any order or at once.
use vstd::prelude::*;
use crate::card::{Card, counting_value, ordering_value};
use crate::catalog::{catalog, subsets_of_size, lemma_catalog_sound};
use crate::finding::{Finding, FindingView, Scoring, views};
use crate::hand::Hand;

verus! {

/// Whether the thirty-one detector also reports a full hand that sums to
/// fifteen. Set to keep the behaviour the game has always had; clear it to
/// leave that check to the fifteen detector alone.
pub const RECHECK_FULL_HAND_FIFTEEN: bool = true;

/// The sum of the counting values of the cards at the given positions.
pub open spec fn counting_sum(h: Seq<Card>, s: Seq<usize>) -> nat
    decreases s.len(),
{
    if s.len() == 0 {
        0
    } else {
        counting_sum(h, s.drop_last()) + counting_value(h[s.last() as int])
    }
}

/// The two cards at the positions of `s` have one rank.
pub open spec fn is_pair(h: Seq<Card>, s: Seq<usize>) -> bool {
    ordering_value(h[s[0] as int]) == ordering_value(h[s[1] as int])
}

/// A subset as a finding of `kind` when it passes the test.
pub open spec fn pick(kind: Scoring, keep: spec_fn(Seq<usize>) -> bool) -> spec_fn(
    Seq<usize>,
) -> Option<FindingView> {
    |s: Seq<usize>|
        if keep(s) {
            Some((kind, s))
        } else {
            None
        }
}

/// The entries of a table that pass a test, each as a finding of `kind`,
/// in the table's order.
#[verifier::opaque]
pub open spec fn select(
    table: Seq<Seq<usize>>,
    kind: Scoring,
    keep: spec_fn(Seq<usize>) -> bool,
) -> Seq<FindingView> {
    table.filter_map(pick(kind, keep))
}

pub open spec fn pair_test(h: Seq<Card>) -> spec_fn(Seq<usize>) -> bool {
    |s: Seq<usize>| is_pair(h, s)
}

pub open spec fn sum_test(h: Seq<Card>, target: nat) -> spec_fn(Seq<usize>) -> bool {
    |s: Seq<usize>| counting_sum(h, s) == target
}

/// What the pair detector reports.
pub open spec fn pair_findings(h: Seq<Card>) -> Seq<FindingView> {
    select(catalog(2), Scoring::Pair, pair_test(h))
}

/// The subsets of size `k` that sum to `target`, as findings of `kind`.
pub open spec fn sum_findings(h: Seq<Card>, k: nat, kind: Scoring, target: nat) -> Seq<
    FindingView,
> {
    select(catalog(k), kind, sum_test(h, target))
}

/// What the fifteen detector reports: subsets of size 2, then 3, 4 and 5.
pub open spec fn fifteen_findings(h: Seq<Card>) -> Seq<FindingView> {
    sum_findings(h, 2, Scoring::Fifteen, 15) + sum_findings(h, 3, Scoring::Fifteen, 15)
        + sum_findings(h, 4, Scoring::Fifteen, 15) + sum_findings(h, 5, Scoring::Fifteen, 15)
}

/// The full hand counts for the thirty-one detector: it sums to 31, or to
/// 15 while the full-hand fifteen is rechecked.
pub open spec fn full_hand_thirty_one(h: Seq<Card>) -> bool {
    let t = counting_sum(h, seq![0usize, 1, 2, 3, 4]);
    t == 31 || (RECHECK_FULL_HAND_FIFTEEN && t == 15)
}

pub open spec fn full_hand_test(h: Seq<Card>) -> spec_fn(Seq<usize>) -> bool {
    |s: Seq<usize>| full_hand_thirty_one(h)
}

/// What the thirty-one detector reports: subsets of four, then the full hand.
pub open spec fn thirty_one_findings(h: Seq<Card>) -> Seq<FindingView> {
    sum_findings(h, 4, Scoring::ThirtyOne, 31) + select(
        catalog(5),
        Scoring::ThirtyOne,
        full_hand_test(h),
    )
}

/// Keeping some entries of a list makes it no longer.
pub proof fn lemma_filter_map_len<A, B>(s: Seq<A>, f: spec_fn(A) -> Option<B>)
    ensures
        s.filter_map(f).len() <= s.len(),
    decreases s.len(),
{
    if s.len() > 0 {
        lemma_filter_map_len(s.drop_last(), f);
    }
}

/// What `select` returns from a table of at most five positions per entry:
/// no more entries than the table, each of the given kind and naming at
/// most five positions.
pub proof fn lemma_select_shape(
    table: Seq<Seq<usize>>,
    kind: Scoring,
    keep: spec_fn(Seq<usize>) -> bool,
)
    requires
        forall|i: int| 0 <= i < table.len() ==> (#[trigger] table[i]).len() <= 5,
    ensures
        select(table, kind, keep).len() <= table.len(),
        forall|i: int|
            0 <= i < select(table, kind, keep).len() ==> (#[trigger] select(table, kind, keep)[i]).0
                == kind && select(table, kind, keep)[i].1.len() <= 5,
    decreases table.len(),
{
    reveal(select);
    if table.len() > 0 {
        let r = table.drop_last();
        lemma_select_shape(r, kind, keep);
        assert(select(table, kind, keep) == select(r, kind, keep) + (if keep(table.last()) {
            seq![(kind, table.last())]
        } else {
            Seq::empty()
        }));
    }
}

/// A copy of a list of positions.
fn copy_positions(v: &Vec<usize>) -> (r: Vec<usize>)
    ensures
        r@ == v@,
{
    let mut r: Vec<usize> = Vec::new();
    let mut i: usize = 0;
    while i < v.len()
        invariant
            i <= v@.len(),
            r@ =~= v@.take(i as int),
        decreases v@.len() - i,
    {
        r.push(v[i]);
        i = i + 1;
    }
    assert(v@.take(v@.len() as int) =~= v@);
    r
}

/// The sum of the counting values of the cards at the positions of `s`.
fn sum_of(hand: &Hand, s: &Vec<usize>) -> (r: u32)
    requires
        s@.len() <= 5,
        forall|i: int| 0 <= i < s@.len() ==> #[trigger] s@[i] < 5,
    ensures
        r == counting_sum(hand@, s@),
{
    let mut total: u32 = 0;
    let mut i: usize = 0;
    while i < s.len()
        invariant
            i <= s@.len() <= 5,
            forall|j: int| 0 <= j < s@.len() ==> #[trigger] s@[j] < 5,
            total == counting_sum(hand@, s@.take(i as int)),
            total <= 255 * i,
        decreases s@.len() - i,
    {
        assert(s@.take(i + 1).drop_last() =~= s@.take(i as int));
        let v = hand.cards[s[i]].into_u8_cribbage();
        total = total + v as u32;
        i = i + 1;
    }
    assert(s@.take(s@.len() as int) =~= s@);
    total
}

/// Appends to `out` a finding of `kind` for each subset of size `k` whose
/// counting values sum to `target`.
fn push_sums(hand: &Hand, k: usize, kind: Scoring, target: u32, out: &mut Vec<Finding>)
    requires
        2 <= k <= 5,
    ensures
        views(final(out)@) == views(old(out)@) + sum_findings(hand@, k as nat, kind, target as nat),
{
    proof {
        reveal(select);
    }
    let table = subsets_of_size(k);
    let mut i: usize = 0;
    while i < table.len()
        invariant
            i <= table@.len(),
            2 <= k <= 5,
            table.deep_view() == catalog(k as nat),
            views(out@) =~= views(old(out)@) + table.deep_view().take(i as int).filter_map(
                pick(kind, sum_test(hand@, target as nat)),
            ),
        decreases table@.len() - i,
    {
        let ghost f = pick(kind, sum_test(hand@, target as nat));
        proof {
            table.deep_view().lemma_filter_map_take_succ(f, i as int);
            lemma_catalog_sound(k as nat, i as int);
        }
        assert(table[i as int]@ == table.deep_view()[i as int]);
        let t = sum_of(hand, &table[i]);
        let ghost prev = table.deep_view().take(i as int).filter_map(f);
        if t == target {
            let p = copy_positions(&table[i]);
            assert(f(table.deep_view()[i as int]) == Some((kind, p@)));
            let ghost pre = out@;
            let ghost pv = p@;
            out.push(Finding { kind, positions: p });
            assert(out@ =~= pre.push(out@.last()));
            assert(out@.last()@ == (kind, pv));
            assert(views(out@) =~= views(pre).push((kind, pv)));
            assert(views(out@) =~= views(old(out)@) + (prev + seq![(kind, pv)]));
        } else {
            assert(f(table.deep_view()[i as int]).is_none());
            assert(views(out@) =~= views(old(out)@) + (prev + Seq::empty()));
        }
        i = i + 1;
    }
    assert(table.deep_view().take(table@.len() as int) =~= table.deep_view());
}

/// Pairs: each two positions whose cards have one rank, worth 2 points.
pub fn detect_pairs(hand: &Hand) -> (r: Vec<Finding>)
    ensures
        views(r@) == pair_findings(hand@),
{
    proof {
        reveal(select);
    }
    let table = subsets_of_size(2);
    let mut out: Vec<Finding> = Vec::new();
    let mut i: usize = 0;
    while i < table.len()
        invariant
            i <= table@.len(),
            table.deep_view() == catalog(2),
            views(out@) =~= table.deep_view().take(i as int).filter_map(
                pick(Scoring::Pair, pair_test(hand@)),
            ),
        decreases table@.len() - i,
    {
        let ghost f = pick(Scoring::Pair, pair_test(hand@));
        proof {
            table.deep_view().lemma_filter_map_take_succ(f, i as int);
            lemma_catalog_sound(2, i as int);
        }
        let s = &table[i];
        assert(s@ == table.deep_view()[i as int]);
        if hand.cards[s[0]].into_u8_normal() == hand.cards[s[1]].into_u8_normal() {
            let p = copy_positions(s);
            assert(f(table.deep_view()[i as int]) == Some((Scoring::Pair, p@)));
            out.push(Finding { kind: Scoring::Pair, positions: p });
        } else {
            assert(f(table.deep_view()[i as int]).is_none());
        }
        i = i + 1;
    }
    assert(table.deep_view().take(table@.len() as int) =~= table.deep_view());
    out
}

/// Fifteens: each subset of two to five cards whose counting values sum to
/// 15, worth 2 points.
pub fn detect_fifteens(hand: &Hand) -> (r: Vec<Finding>)
    ensures
        views(r@) == fifteen_findings(hand@),
{
    let mut out: Vec<Finding> = Vec::new();
    push_sums(hand, 2, Scoring::Fifteen, 15, &mut out);
    push_sums(hand, 3, Scoring::Fifteen, 15, &mut out);
    push_sums(hand, 4, Scoring::Fifteen, 15, &mut out);
    push_sums(hand, 5, Scoring::Fifteen, 15, &mut out);
    assert(views(Seq::<Finding>::empty()) =~= Seq::empty());
    assert(views(out@) =~= fifteen_findings(hand@));
    out
}

/// Thirty-ones: each four cards whose counting values sum to 31, then the
/// full hand when it sums to 31 (or to 15, see `RECHECK_FULL_HAND_FIFTEEN`),
/// worth 2 points.
pub fn detect_thirty_ones(hand: &Hand) -> (r: Vec<Finding>)
    ensures
        views(r@) == thirty_one_findings(hand@),
{
    let mut out: Vec<Finding> = Vec::new();
    push_sums(hand, 4, Scoring::ThirtyOne, 31, &mut out);
    let all = vec![0usize, 1, 2, 3, 4];
    let t = sum_of(hand, &all);
    let ghost before = views(out@);
    let ghost f = pick(Scoring::ThirtyOne, full_hand_test(hand@));
    proof {
        reveal(select);
        Seq::lemma_filter_map_singleton(seq![0usize, 1, 2, 3, 4], f);
        assert(catalog(5) =~= seq![seq![0usize, 1, 2, 3, 4]]);
    }
    assert(all@ =~= seq![0usize, 1, 2, 3, 4]);
    if t == 31 || (RECHECK_FULL_HAND_FIFTEEN && t == 15) {
        out.push(Finding { kind: Scoring::ThirtyOne, positions: all });
        assert(views(out@) =~= before + seq![(Scoring::ThirtyOne, seq![0usize, 1, 2, 3, 4])]);
    } else {
        assert(views(out@) =~= before + Seq::empty());
    }
    assert(views(Seq::<Finding>::empty()) =~= Seq::empty());
    assert(views(out@) =~= thirty_one_findings(hand@));
    out
}

} // verus!
