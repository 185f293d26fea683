//! Combination engine for a weekly course scheduler.
//!
//! A course section carries a name, an identifying code, an instructor and
//! weekly time slots. The engine groups sections by course name, detects time
//! conflicts, exhaustively enumerates every combination holding at most one
//! section per course with no two sections overlapping, and ranks the results
//! by section count, descending. Parsing the input description, command-line
//! handling and calendar export are collaborators outside this crate: the
//! engine takes plain section values and returns plain combination values,
//! with no side effects.
//!
//! The engine walks groups by position, never by key lookup, so the
//! unknown-group-key internal error of a keyed design cannot arise here: the
//! pipeline is total.
use vstd::prelude::*;

pub mod generate;
pub mod grouping;
pub mod rank;
pub mod section;

use crate::generate::{
    Combination, combo_sound, generate, generate_spec, lemma_generate_sound,
};
use crate::grouping::{group_by_name, group_seq};
use crate::rank::{rank, rank_spec, ranked};
use crate::section::Section;

verus! {

/// The whole engine in one call: group the sections by course name,
/// enumerate every valid combination the root sweep reaches, and rank the
/// results by section count, descending.
///
/// The result is a function of the input sections alone — the exact first
/// clause pins the full output sequence, so repeated runs on identical input
/// return identical results. Every combination returned is sound (pairwise
/// non-overlapping, at most one section per course name), the empty
/// combination is always among the results, and the section counts are
/// non-increasing along the sequence.
pub fn build_schedules(sections: &Vec<Section>) -> (out: Vec<Combination>)
    ensures
        out.deep_view() == rank_spec(generate_spec(group_seq(sections.deep_view()))),
        forall|r: int| 0 <= r < out.deep_view().len() ==> combo_sound(#[trigger] out.deep_view()[r]),
        exists|r: int| 0 <= r < out.deep_view().len() && (#[trigger] out.deep_view()[r]).len() == 0,
        ranked(out.deep_view()),
{
    let ghost ssv = sections.deep_view();
    let groups = group_by_name(sections);
    let combos = generate(&groups);
    let ghost csv = combos.deep_view();
    let out = rank(combos);
    proof {
        let osv = out.deep_view();
        lemma_generate_sound(group_seq(ssv));
        csv.to_multiset_ensures();
        osv.to_multiset_ensures();
        assert forall|r: int| 0 <= r < osv.len() implies combo_sound(#[trigger] osv[r]) by {
            assert(osv.contains(osv[r]));
            assert(csv.to_multiset().count(osv[r]) > 0);
            assert(csv.contains(osv[r]));
            let m = choose|m: int| 0 <= m < csv.len() && csv[m] == osv[r];
            assert(combo_sound(csv[m]));
        }
        assert(csv.contains(csv[0]));
        assert(osv.to_multiset().count(csv[0]) > 0);
        assert(osv.contains(csv[0]));
        let e = choose|e: int| 0 <= e < osv.len() && osv[e] == csv[0];
        assert(0 <= e < osv.len() && osv[e].len() == 0);
    }
    out
}

} // verus!
