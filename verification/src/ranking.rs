//! Newest-first ordering of keyed entries.
//!
//! An entry is a stamp and the position the item held in its source list.
//! Entries are ordered by stamp, largest first; entries with the same stamp
//! keep the order of their positions, so the ordering is a stable sort of the
//! source list by descending stamp.
use vstd::prelude::*;
use vstd::relations::*;
use vstd::multiset::Multiset;
use vstd::seq_lib::*;

verus! {

/// `a` may stand before `b`: a larger stamp, or the same stamp and an earlier position.
pub open spec fn stands_before(a: (i64, usize), b: (i64, usize)) -> bool {
    a.0 > b.0 || (a.0 == b.0 && a.1 <= b.1)
}

/// The newest-first order as a relation, in the form `Seq::sort_by` takes.
pub open spec fn newest_first() -> spec_fn((i64, usize), (i64, usize)) -> bool {
    |a: (i64, usize), b: (i64, usize)| stands_before(a, b)
}

/// The entries in newest-first order.
pub open spec fn ranked(entries: Seq<(i64, usize)>) -> Seq<(i64, usize)> {
    entries.sort_by(newest_first())
}

/// The newest-first order is a total order on entries.
pub proof fn lemma_newest_first_total()
    ensures
        total_ordering(newest_first()),
{
    let leq = newest_first();
    assert(reflexive(leq));
    assert(antisymmetric(leq)) by {
        assert forall|x: (i64, usize), y: (i64, usize)| #[trigger] leq(x, y) && #[trigger] leq(y, x)
            implies x == y by {
            assert(x.0 == y.0 && x.1 == y.1);
        }
    }
    assert(transitive(leq));
    assert(strongly_connected(leq));
}

/// Ranking keeps the entries (as a multiset) and puts them in newest-first order.
pub proof fn lemma_ranked_is_sorted_permutation(entries: Seq<(i64, usize)>)
    ensures
        ranked(entries).to_multiset() == entries.to_multiset(),
        sorted_by(ranked(entries), newest_first()),
        ranked(entries).len() == entries.len(),
{
    lemma_newest_first_total();
    entries.lemma_sort_by_ensures(newest_first());
    broadcast use group_to_multiset_ensures;

    assert(ranked(entries).len() == ranked(entries).to_multiset().len());
}

/// Ranking puts larger stamps first and is stable: of two entries with the
/// same stamp, the one with the earlier position comes first.
pub proof fn lemma_ranked_is_stable(entries: Seq<(i64, usize)>)
    requires
        entries.no_duplicates(),
    ensures
        forall|i: int, j: int|
            0 <= i < j < ranked(entries).len() ==> (#[trigger] ranked(entries)[i]).0 >= (
            #[trigger] ranked(entries)[j]).0,
        forall|i: int, j: int|
            0 <= i < j < ranked(entries).len() && (#[trigger] ranked(entries)[i]).0 == (
            #[trigger] ranked(entries)[j]).0 ==> ranked(entries)[i].1 < ranked(entries)[j].1,
{
    let out = ranked(entries);
    lemma_ranked_is_sorted_permutation(entries);
    entries.lemma_multiset_has_no_duplicates();
    out.lemma_multiset_has_no_duplicates_conv();
    assert forall|i: int, j: int| 0 <= i < j < out.len() implies (#[trigger] out[i]).0 >= (
    #[trigger] out[j]).0 && (out[i].0 == out[j].0 ==> out[i].1 < out[j].1) by {
        assert(newest_first()(out[i], out[j]));
        assert(out[i] != out[j]);
    }
}

/// Inserting an element anywhere adds it once to the multiset.
proof fn lemma_insert_multiset<A>(s: Seq<A>, p: int, x: A)
    requires
        0 <= p <= s.len(),
    ensures
        s.insert(p, x).to_multiset() == s.to_multiset().insert(x),
{
    broadcast use vstd::multiset::group_multiset_axioms;

    let front = s.subrange(0, p);
    let back = s.subrange(p, s.len() as int);
    assert(s =~= front + back);
    assert(s.insert(p, x) =~= (front + seq![x]) + back);
    lemma_multiset_commutative(front + seq![x], back);
    lemma_multiset_commutative(front, seq![x]);
    lemma_multiset_commutative(front, back);
    assert(seq![x].to_multiset() =~= Multiset::empty().insert(x)) by {
        broadcast use group_to_multiset_ensures;

        assert(seq![x] =~= Seq::<A>::empty().push(x));
    }
    assert(s.insert(p, x).to_multiset() =~= s.to_multiset().insert(x));
}

/// Orders the entries newest first; ties keep the order of their positions.
pub fn rank_newest_first(entries: &Vec<(i64, usize)>) -> (r: Vec<(i64, usize)>)
    ensures
        r@ == ranked(entries@),
{
    let ghost leq = newest_first();
    proof {
        lemma_newest_first_total();
    }
    let mut out: Vec<(i64, usize)> = Vec::new();
    let mut i: usize = 0;
    proof {
        broadcast use group_to_multiset_ensures;

        assert(entries@.take(0) =~= Seq::<(i64, usize)>::empty());
    }
    while i < entries.len()
        invariant
            i <= entries.len(),
            leq == newest_first(),
            total_ordering(leq),
            sorted_by(out@, leq),
            out@.to_multiset() == entries@.take(i as int).to_multiset(),
        decreases entries.len() - i,
    {
        let x = entries[i];
        let mut p: usize = 0;
        while p < out.len() && (out[p].0 > x.0 || (out[p].0 == x.0 && out[p].1 <= x.1))
            invariant
                p <= out.len(),
                leq == newest_first(),
                forall|k: int| 0 <= k < p ==> leq(#[trigger] out@[k], x),
            decreases out.len() - p,
        {
            p = p + 1;
        }
        proof {
            if p < out.len() {
                assert(leq(x, out@[p as int]));
                assert forall|k: int| p <= k < out@.len() implies leq(x, #[trigger] out@[k]) by {
                    if k > p {
                        assert(leq(out@[p as int], out@[k]));
                    }
                }
            }
            lemma_insert_multiset(out@, p as int, x);
            assert(entries@.take(i + 1) =~= entries@.take(i as int).push(x));
            broadcast use group_to_multiset_ensures;

        }
        let ghost before = out@;
        out.insert(p, x);
        proof {
            assert forall|a: int, b: int| 0 <= a < b < out@.len() implies #[trigger] leq(
                out@[a],
                out@[b],
            ) by {
                if b < p {
                    assert(out@[a] == before[a] && out@[b] == before[b]);
                } else if a > p {
                    assert(out@[a] == before[a - 1] && out@[b] == before[b - 1]);
                } else if a == p {
                    assert(out@[b] == before[b - 1]);
                } else if b == p {
                    assert(out@[a] == before[a]);
                } else {
                    assert(out@[a] == before[a] && out@[b] == before[b - 1]);
                    assert(leq(before[a], x));
                    assert(leq(x, before[b - 1]));
                }
            }
        }
        i = i + 1;
    }
    proof {
        assert(entries@.take(entries@.len() as int) =~= entries@);
        lemma_ranked_is_sorted_permutation(entries@);
        lemma_sorted_unique(out@, ranked(entries@), leq);
    }
    out
}

} // verus!
