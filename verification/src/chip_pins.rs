//! Pins that belong to one chat-list chip.
//!
//! `All` keeps the WhatsApp pin in `chats.pinned`, so the phone and the other
//! linked devices stay in step. Every other chip keeps its own order in the
//! archive's `chip_pins` table, so pinning a chat in Favorites leaves `All`
//! alone. Nothing in this table reaches WhatsApp.
use vstd::prelude::*;
use crate::ranking::{lemma_ranked_is_sorted_permutation, rank_newest_first, ranked};

verus! {

/// The table that keeps each chip's own pin order.
pub const SCHEMA: &'static str = "
CREATE TABLE IF NOT EXISTS chip_pins (
    chip TEXT NOT NULL,
    chat TEXT NOT NULL,
    pinned_at INTEGER NOT NULL,
    PRIMARY KEY (chip, chat)
);
";

/// One row of the table: the chip, the chat, and when it was pinned.
pub type ChipPin = (String, String, i64);

/// Each row keyed by its pin stamp, with its position.
pub open spec fn pin_keys(rows: Seq<ChipPin>) -> Seq<(i64, usize)> {
    Seq::new(rows.len(), |i: int| (rows[i].2, i as usize))
}

/// The rows, newest pin first; rows pinned at the same moment keep their order.
pub open spec fn newest_pins_first(rows: Seq<ChipPin>) -> Seq<ChipPin> {
    ranked(pin_keys(rows)).map_values(|e: (i64, usize)| rows[e.1 as int])
}

/// Every pin of every chip that keeps its own order, newest first.
pub fn chip_pins(rows: Vec<ChipPin>) -> (r: Vec<ChipPin>)
    ensures
        r@ == newest_pins_first(rows@),
{
    let mut keys: Vec<(i64, usize)> = Vec::new();
    let mut i: usize = 0;
    while i < rows.len()
        invariant
            i <= rows@.len(),
            keys@ == pin_keys(rows@).take(i as int),
        decreases rows@.len() - i,
    {
        keys.push((rows[i].2, i));
        assert(keys@ =~= pin_keys(rows@).take(i + 1));
        i = i + 1;
    }
    assert(keys@ =~= pin_keys(rows@));
    let order = rank_newest_first(&keys);
    proof {
        lemma_ranked_is_sorted_permutation(pin_keys(rows@));
        assert forall|k: int| 0 <= k < order@.len() implies (#[trigger] order@[k]).1 < rows@.len() by {
            broadcast use vstd::seq_lib::group_to_multiset_ensures;

            let x = order@[k];
            assert(order@.contains(x));
            assert(order@.to_multiset().count(x) > 0);
            assert(pin_keys(rows@).contains(x));
        }
    }
    let mut out: Vec<ChipPin> = Vec::new();
    let mut k: usize = 0;
    while k < order.len()
        invariant
            k <= order@.len(),
            order@ == ranked(pin_keys(rows@)),
            forall|j: int| 0 <= j < order@.len() ==> (#[trigger] order@[j]).1 < rows@.len(),
            out@ == newest_pins_first(rows@).take(k as int),
        decreases order@.len() - k,
    {
        let row = &rows[order[k].1];
        let copy: ChipPin = (row.0.clone(), row.1.clone(), row.2);
        out.push(copy);
        assert(out@ =~= newest_pins_first(rows@).take(k + 1));
        k = k + 1;
    }
    assert(out@ =~= newest_pins_first(rows@));
    out
}

/// Mapping two sequences with the same elements gives sequences with the same elements.
proof fn lemma_map_keeps_permutation<A, B>(a: Seq<A>, b: Seq<A>, f: spec_fn(A) -> B)
    requires
        a.to_multiset() == b.to_multiset(),
    ensures
        a.map_values(f).to_multiset() == b.map_values(f).to_multiset(),
    decreases a.len(),
{
    broadcast use vstd::seq_lib::group_to_multiset_ensures;
    broadcast use vstd::multiset::group_multiset_axioms;

    if a.len() == 0 {
        assert(b.len() == b.to_multiset().len());
        assert(a.map_values(f) =~= b.map_values(f));
    } else {
        let x = a.last();
        assert(a.to_multiset().count(x) > 0) by {
            assert(a.contains(a[a.len() - 1]));
        }
        assert(b.contains(x));
        let j = choose|j: int| 0 <= j < b.len() && b[j] == x;
        assert(a.remove(a.len() - 1) =~= a.drop_last());
        assert(a.drop_last().to_multiset() =~= a.to_multiset().remove(x));
        assert(b.remove(j).to_multiset() =~= b.to_multiset().remove(x));
        lemma_map_keeps_permutation(a.drop_last(), b.remove(j), f);
        let fa = a.map_values(f);
        let fb = b.map_values(f);
        assert(fa.remove(fa.len() - 1) =~= a.drop_last().map_values(f));
        assert(fb.remove(j) =~= b.remove(j).map_values(f));
        assert(fa.remove(fa.len() - 1).to_multiset() =~= fa.to_multiset().remove(f(x)));
        assert(fb.remove(j).to_multiset() =~= fb.to_multiset().remove(f(x)));
        assert(fa.contains(fa[fa.len() - 1]));
        assert(fb.contains(fb[j]));
        assert(fa.to_multiset() =~= fa.to_multiset().remove(f(x)).insert(f(x)));
        assert(fb.to_multiset() =~= fb.to_multiset().remove(f(x)).insert(f(x)));
    }
}

/// The pins come out newest first, and they are the pins that went in, each as often.
pub proof fn lemma_chip_pins_newest_first(rows: Seq<ChipPin>)
    requires
        rows.len() <= usize::MAX,
    ensures
        newest_pins_first(rows).len() == rows.len(),
        forall|i: int, j: int|
            0 <= i < j < rows.len() ==> (#[trigger] newest_pins_first(rows)[i]).2
                >= (#[trigger] newest_pins_first(rows)[j]).2,
        forall|row: ChipPin| newest_pins_first(rows).contains(row) <==> rows.contains(row),
        newest_pins_first(rows).to_multiset() == rows.to_multiset(),
{
    broadcast use vstd::seq_lib::group_to_multiset_ensures;

    let keys = pin_keys(rows);
    let order = ranked(keys);
    let out = newest_pins_first(rows);
    lemma_ranked_is_sorted_permutation(keys);
    assert forall|k: int| 0 <= k < order.len() implies (#[trigger] order[k]).1 < rows.len()
        && order[k].0 == rows[order[k].1 as int].2 by {
        let x = order[k];
        assert(order.contains(x));
        assert(order.to_multiset().count(x) > 0);
        assert(keys.contains(x));
    }
    assert forall|i: int, j: int| 0 <= i < j < rows.len() implies (#[trigger] out[i]).2
        >= (#[trigger] out[j]).2 by {
        assert(crate::ranking::newest_first()(order[i], order[j]));
    }
    let pick = |e: (i64, usize)| rows[e.1 as int];
    lemma_map_keeps_permutation(order, keys, pick);
    assert(keys.map_values(pick) =~= rows);
    assert forall|row: ChipPin| out.contains(row) <==> rows.contains(row) by {
        if out.contains(row) {
            let k = choose|k: int| 0 <= k < out.len() && out[k] == row;
            assert(rows[order[k].1 as int] == row);
        }
        if rows.contains(row) {
            let i = choose|i: int| 0 <= i < rows.len() && rows[i] == row;
            assert(keys[i] == (rows[i].2, i as usize));
            assert(keys.contains(keys[i]));
            assert(keys.to_multiset().count(keys[i]) > 0);
            assert(order.contains(keys[i]));
            let k = choose|k: int| 0 <= k < order.len() && order[k] == keys[i];
            assert(out[k] == row);
        }
    }
}

} // verus!
