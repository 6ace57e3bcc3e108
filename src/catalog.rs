//! The fixed table of card positions that scoring looks at: every ascending
//! choice of 2, 3, 4 or 5 positions out of the five, in lexicographic order.
use vstd::prelude::*;

verus! {

/// An ascending choice of `k` distinct positions of a five-card hand.
pub open spec fn is_subset_of_size(s: Seq<usize>, k: nat) -> bool {
    &&& s.len() == k
    &&& forall|i: int| 0 <= i < s.len() ==> #[trigger] s[i] < 5
    &&& forall|i: int, j: int| 0 <= i < j < s.len() ==> s[i] < s[j]
}

/// The subsets of size `k`, in lexicographic order.
pub open spec fn catalog(k: nat) -> Seq<Seq<usize>> {
    if k == 2 {
        seq![
            seq![0usize, 1], seq![0usize, 2], seq![0usize, 3], seq![0usize, 4], seq![1usize, 2],
            seq![1usize, 3], seq![1usize, 4], seq![2usize, 3], seq![2usize, 4], seq![3usize, 4],
        ]
    } else if k == 3 {
        seq![
            seq![0usize, 1, 2], seq![0usize, 1, 3], seq![0usize, 1, 4], seq![0usize, 2, 3],
            seq![0usize, 2, 4], seq![0usize, 3, 4], seq![1usize, 2, 3], seq![1usize, 2, 4],
            seq![1usize, 3, 4], seq![2usize, 3, 4],
        ]
    } else if k == 4 {
        seq![
            seq![0usize, 1, 2, 3], seq![0usize, 1, 2, 4], seq![0usize, 1, 3, 4],
            seq![0usize, 2, 3, 4], seq![1usize, 2, 3, 4],
        ]
    } else if k == 5 {
        seq![seq![0usize, 1, 2, 3, 4]]
    } else {
        Seq::empty()
    }
}

/// Every entry of the table is an ascending subset of the stated size.
pub proof fn lemma_catalog_sound(k: nat, i: int)
    requires
        2 <= k <= 5,
        0 <= i < catalog(k).len(),
    ensures
        is_subset_of_size(catalog(k)[i], k),
{
}

/// Every ascending subset of size 2 to 5 stands in the table.
pub proof fn lemma_catalog_complete(s: Seq<usize>, k: nat)
    requires
        2 <= k <= 5,
        is_subset_of_size(s, k),
    ensures
        catalog(k).contains(s),
{
    let c = catalog(k);
    if k == 2 {
        assert(s =~= seq![s[0], s[1]]);
        let i: int = if s[0] == 0 {
            s[1] - 1
        } else if s[0] == 1 {
            s[1] + 2
        } else if s[0] == 2 {
            s[1] + 4
        } else {
            9
        };
        assert(c[i] =~= s);
    } else if k == 3 {
        assert(s =~= seq![s[0], s[1], s[2]]);
        let i: int = if s[0] == 0 {
            if s[1] == 1 {
                s[2] - 2
            } else if s[1] == 2 {
                s[2] as int
            } else {
                5
            }
        } else if s[0] == 1 {
            if s[1] == 2 {
                s[2] + 3
            } else {
                8
            }
        } else {
            9
        };
        assert(c[i] =~= s);
    } else if k == 4 {
        assert(s =~= seq![s[0], s[1], s[2], s[3]]);
        let i: int = if s[0] == 1 {
            4
        } else if s[1] == 2 {
            3
        } else if s[2] == 3 {
            2
        } else {
            s[3] - 3
        };
        assert(c[i] =~= s);
    } else {
        assert(s =~= seq![s[0], s[1], s[2], s[3], s[4]]);
        assert(c[0] =~= s);
    }
}

/// The table of subsets of size `k`.
pub fn subsets_of_size(k: usize) -> (r: Vec<Vec<usize>>)
    requires
        2 <= k <= 5,
    ensures
        r.deep_view() == catalog(k as nat),
{
    let r = if k == 2 {
        vec![
            vec![0, 1], vec![0, 2], vec![0, 3], vec![0, 4], vec![1, 2],
            vec![1, 3], vec![1, 4], vec![2, 3], vec![2, 4], vec![3, 4],
        ]
    } else if k == 3 {
        vec![
            vec![0, 1, 2], vec![0, 1, 3], vec![0, 1, 4], vec![0, 2, 3],
            vec![0, 2, 4], vec![0, 3, 4], vec![1, 2, 3], vec![1, 2, 4],
            vec![1, 3, 4], vec![2, 3, 4],
        ]
    } else if k == 4 {
        vec![vec![0, 1, 2, 3], vec![0, 1, 2, 4], vec![0, 1, 3, 4], vec![0, 2, 3, 4], vec![1, 2, 3, 4]]
    } else {
        vec![vec![0, 1, 2, 3, 4]]
    };
    assert(r.deep_view() =~~= catalog(k as nat));
    r
}

} // verus!
