//! Ranking: a stable sort of the result set by section count, descending,
//! so the most complete schedules come first and ties keep discovery order.
use vstd::prelude::*;
use vstd::seq_lib::group_seq_properties;

use crate::generate::Combination;
use crate::section::SectionView;

verus! {

/// Non-increasing section count along the sequence.
pub open spec fn ranked(rs: Seq<Seq<SectionView>>) -> bool {
    forall|k: int, l: int| 0 <= k < l < rs.len() ==> (#[trigger] rs[k]).len() >= (#[trigger] rs[l]).len()
}

/// Inserts `x` into a ranked sequence: right after the last entry with at
/// least as many sections, so equal counts keep their relative order.
pub open spec fn insert_ranked(rs: Seq<Seq<SectionView>>, x: Seq<SectionView>) -> Seq<
    Seq<SectionView>,
>
    decreases rs.len(),
{
    if rs.len() == 0 {
        seq![x]
    } else if rs.last().len() >= x.len() {
        rs.push(x)
    } else {
        insert_ranked(rs.drop_last(), x).push(rs.last())
    }
}

/// Stable insertion sort by section count, descending: entries are inserted
/// left to right, each behind every earlier entry of equal or larger count.
pub open spec fn rank_spec(rs: Seq<Seq<SectionView>>) -> Seq<Seq<SectionView>>
    decreases rs.len(),
{
    if rs.len() == 0 {
        Seq::empty()
    } else {
        insert_ranked(rank_spec(rs.drop_last()), rs.last())
    }
}

/// Inserting into a ranked sequence at the position the exec search finds:
/// everything from `p` on is strictly smaller than `x`, everything before `p`
/// at least as large, so the insertion lands exactly at `p`.
proof fn lemma_insert_ranked_at(rs: Seq<Seq<SectionView>>, x: Seq<SectionView>, p: int)
    requires
        0 <= p <= rs.len(),
        forall|m: int| p <= m < rs.len() ==> (#[trigger] rs[m]).len() < x.len(),
        p > 0 ==> rs[p - 1].len() >= x.len(),
    ensures
        insert_ranked(rs, x) =~= rs.take(p) + seq![x] + rs.skip(p),
    decreases rs.len(),
{
    if rs.len() == 0 {
    } else if rs.last().len() >= x.len() {
        assert(p == rs.len());
        assert(rs.take(p) =~= rs);
        assert(rs.skip(p) =~= Seq::<Seq<SectionView>>::empty());
    } else {
        assert(p < rs.len());
        lemma_insert_ranked_at(rs.drop_last(), x, p);
        assert(rs.drop_last().take(p) =~= rs.take(p));
        assert(rs.drop_last().skip(p).push(rs.last()) =~= rs.skip(p));
    }
}

/// Inserting preserves the multiset of combinations.
proof fn lemma_insert_ranked_multiset(rs: Seq<Seq<SectionView>>, x: Seq<SectionView>)
    ensures
        insert_ranked(rs, x).to_multiset() =~= rs.to_multiset().insert(x),
    decreases rs.len(),
{
    broadcast use group_seq_properties;

    if rs.len() == 0 {
        assert(seq![x] =~= Seq::<Seq<SectionView>>::empty().push(x));
        Seq::<Seq<SectionView>>::empty().to_multiset_ensures();
    } else if rs.last().len() >= x.len() {
        rs.to_multiset_ensures();
    } else {
        lemma_insert_ranked_multiset(rs.drop_last(), x);
        insert_ranked(rs.drop_last(), x).to_multiset_ensures();
        rs.drop_last().to_multiset_ensures();
        assert(rs.drop_last().push(rs.last()) =~= rs);
    }
}

/// Inserting preserves rankedness.
proof fn lemma_insert_ranked_ranked(rs: Seq<Seq<SectionView>>, x: Seq<SectionView>)
    requires
        ranked(rs),
    ensures
        ranked(insert_ranked(rs, x)),
    decreases rs.len(),
{
    if rs.len() == 0 {
    } else if rs.last().len() >= x.len() {
    } else {
        lemma_insert_ranked_ranked(rs.drop_last(), x);
        let inner = insert_ranked(rs.drop_last(), x);
        assert forall|k: int, l: int|
            0 <= k < l < inner.push(rs.last()).len() implies (#[trigger] inner.push(
            rs.last(),
        )[k]).len() >= (#[trigger] inner.push(rs.last())[l]).len() by {
            if l < inner.len() {
                assert(inner[k].len() >= inner[l].len());
            } else {
                lemma_insert_ranked_member(rs.drop_last(), x, k);
                if inner[k] == x {
                } else {
                    let m = choose|m: int|
                        0 <= m < rs.drop_last().len() && rs.drop_last()[m] == inner[k];
                    assert(rs[m] == inner[k]);
                    assert(rs[m].len() >= rs.last().len());
                }
            }
        }
    }
}

/// Every entry of an insertion result is the inserted value or an original
/// entry; used to bound entries against the element pushed behind them.
proof fn lemma_insert_ranked_member(rs: Seq<Seq<SectionView>>, x: Seq<SectionView>, k: int)
    requires
        0 <= k < insert_ranked(rs, x).len(),
    ensures
        insert_ranked(rs, x)[k] == x || rs.contains(insert_ranked(rs, x)[k]),
    decreases rs.len(),
{
    if rs.len() == 0 {
    } else if rs.last().len() >= x.len() {
        if k < rs.len() {
            assert(rs.contains(rs[k]));
        }
    } else {
        let inner = insert_ranked(rs.drop_last(), x);
        if k < inner.len() {
            lemma_insert_ranked_member(rs.drop_last(), x, k);
            if rs.drop_last().contains(inner[k]) {
                let m = choose|m: int| 0 <= m < rs.drop_last().len() && rs.drop_last()[m] == inner[k];
                assert(rs[m] == inner[k]);
            }
        } else {
            assert(rs.contains(rs.last()));
        }
    }
}

/// Sorts the combinations by section count, descending, with a stable
/// insertion sort: ties keep their discovery order, nothing is added or
/// dropped.
pub fn rank(combos: Vec<Combination>) -> (out: Vec<Combination>)
    ensures
        out.deep_view() == rank_spec(combos.deep_view()),
        ranked(out.deep_view()),
        out.deep_view().to_multiset() == combos.deep_view().to_multiset(),
{
    let ghost csv = combos.deep_view();
    let mut out: Vec<Combination> = Vec::new();
    let mut i: usize = 0;
    while i < combos.len()
        invariant
            0 <= i <= combos.len(),
            csv == combos.deep_view(),
            out.deep_view() == rank_spec(csv.take(i as int)),
            ranked(out.deep_view()),
        decreases combos.len() - i,
    {
        let ghost outv = out.deep_view();
        let c = combos[i].clone();
        let ghost cv = c@;
        let clen = c.sections.len();
        proof {
            assert(cv == csv[i as int]);
            assert(csv.take(i as int + 1).drop_last() =~~= csv.take(i as int));
            assert(csv.take(i as int + 1).last() == csv[i as int]);
        }
        // find the insertion point: skip backwards over strictly smaller entries
        let mut p: usize = out.len();
        while p > 0 && out[p - 1].sections.len() < clen
            invariant
                0 <= p <= out.len(),
                outv == out.deep_view(),
                clen == cv.len(),
                forall|m: int| p <= m < outv.len() ==> (#[trigger] outv[m]).len() < cv.len(),
            decreases p,
        {
            p -= 1;
        }
        out.insert(p, c);
        proof {
            lemma_insert_ranked_at(outv, cv, p as int);
            lemma_insert_ranked_ranked(outv, cv);
            assert(out.deep_view() =~~= outv.take(p as int) + seq![cv] + outv.skip(p as int));
            assert(out.deep_view() =~~= insert_ranked(outv, cv));
            assert(out.deep_view() =~~= rank_spec(csv.take(i as int + 1)));
        }
        i += 1;
    }
    proof {
        assert(csv.take(combos.len() as int) =~~= csv);
        lemma_rank_spec_multiset(csv);
    }
    out
}

/// The ranking is a permutation: it neither adds nor drops combinations.
pub proof fn lemma_rank_spec_multiset(rs: Seq<Seq<SectionView>>)
    ensures
        rank_spec(rs).to_multiset() =~= rs.to_multiset(),
    decreases rs.len(),
{
    broadcast use group_seq_properties;

    if rs.len() > 0 {
        lemma_rank_spec_multiset(rs.drop_last());
        lemma_insert_ranked_multiset(rank_spec(rs.drop_last()), rs.last());
        rs.drop_last().to_multiset_ensures();
        assert(rs.drop_last().push(rs.last()) =~= rs);
    }
}

} // verus!
