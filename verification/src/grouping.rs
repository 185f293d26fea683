//! Partitioning a flat list of sections into groups keyed by course name.
//!
//! A group collects every section sharing one course name; a valid schedule
//! picks at most one section from each group. Groups appear in order of the
//! first appearance of their name, and each group lists its sections in input
//! order.
use vstd::prelude::*;

use crate::section::{Section, SectionView};

verus! {

/// All sections sharing one course name, in input order.
pub struct Group {
    pub name: String,
    pub sections: Vec<Section>,
}

/// The mathematical model of a `Group`.
#[verifier::ext_equal]
pub ghost struct GroupView {
    pub name: Seq<char>,
    pub sections: Seq<SectionView>,
}

impl View for Group {
    type V = GroupView;

    open spec fn view(&self) -> GroupView {
        GroupView { name: self.name@, sections: self.sections.deep_view() }
    }
}

impl DeepView for Group {
    type V = GroupView;

    open spec fn deep_view(&self) -> GroupView {
        self.view()
    }
}

/// A well-formed group list: names are pairwise distinct, no group is empty,
/// and every section carries exactly its group's name.
pub open spec fn groups_wf(gs: Seq<GroupView>) -> bool {
    &&& forall|i: int, j: int| 0 <= i < j < gs.len() ==> #[trigger] gs[i].name != #[trigger] gs[j].name
    &&& forall|i: int| 0 <= i < gs.len() ==> #[trigger] gs[i].sections.len() > 0
    &&& forall|i: int, k: int|
        0 <= i < gs.len() && 0 <= k < gs[i].sections.len() ==> (#[trigger] gs[i].sections[k]).name
            == gs[i].name
}

/// Adds one section to a group list: appended to the first group carrying its
/// name, or opening a new group at the end if no group carries it.
pub open spec fn add_to_groups(gs: Seq<GroupView>, s: SectionView) -> Seq<GroupView>
    decreases gs.len(),
{
    if gs.len() == 0 {
        seq![GroupView { name: s.name, sections: seq![s] }]
    } else if gs[0].name == s.name {
        seq![GroupView { name: gs[0].name, sections: gs[0].sections.push(s) }] + gs.skip(1)
    } else {
        seq![gs[0]] + add_to_groups(gs.skip(1), s)
    }
}

/// The grouping of a section list: sections are added left to right, so group
/// order is first-appearance order of the course names.
pub open spec fn group_seq(ss: Seq<SectionView>) -> Seq<GroupView>
    decreases ss.len(),
{
    if ss.len() == 0 {
        Seq::empty()
    } else {
        add_to_groups(group_seq(ss.drop_last()), ss.last())
    }
}

/// When some group already carries the section's name, `add_to_groups` is an
/// update of the first such group.
proof fn lemma_add_to_groups_found(gs: Seq<GroupView>, s: SectionView, j: int)
    requires
        0 <= j < gs.len(),
        gs[j].name == s.name,
        forall|jj: int| 0 <= jj < j ==> #[trigger] gs[jj].name != s.name,
    ensures
        add_to_groups(gs, s) =~= gs.update(
            j,
            GroupView { name: gs[j].name, sections: gs[j].sections.push(s) },
        ),
    decreases gs.len(),
{
    if j == 0 {
        assert(add_to_groups(gs, s) =~= seq![
            GroupView { name: gs[0].name, sections: gs[0].sections.push(s) },
        ] + gs.skip(1));
    } else {
        assert(gs[0].name != s.name);
        lemma_add_to_groups_found(gs.skip(1), s, j - 1);
    }
}

/// When no group carries the section's name, `add_to_groups` opens a new
/// group at the end.
proof fn lemma_add_to_groups_not_found(gs: Seq<GroupView>, s: SectionView)
    requires
        forall|jj: int| 0 <= jj < gs.len() ==> #[trigger] gs[jj].name != s.name,
    ensures
        add_to_groups(gs, s) =~= gs.push(GroupView { name: s.name, sections: seq![s] }),
    decreases gs.len(),
{
    if gs.len() > 0 {
        lemma_add_to_groups_not_found(gs.skip(1), s);
    }
}

/// Partitions `sections` into groups keyed by course name: one group per
/// distinct name, in first-appearance order, each keeping its sections'
/// relative input order. An empty input yields an empty group list.
pub fn group_by_name(sections: &Vec<Section>) -> (gs: Vec<Group>)
    ensures
        gs.deep_view() == group_seq(sections.deep_view()),
        groups_wf(gs.deep_view()),
{
    let mut gs: Vec<Group> = Vec::new();
    let ghost ssv = sections.deep_view();
    let mut i: usize = 0;
    while i < sections.len()
        invariant
            0 <= i <= sections.len(),
            ssv == sections.deep_view(),
            gs.deep_view() == group_seq(ssv.take(i as int)),
            groups_wf(gs.deep_view()),
        decreases sections.len() - i,
    {
        let ghost gsv0 = gs.deep_view();
        let sec = &sections[i];
        proof {
            assert(ssv.take(i as int + 1).drop_last() =~= ssv.take(i as int));
            assert(ssv.take(i as int + 1).last() == sec@);
        }
        // scan for a group already carrying this name
        let mut j: usize = 0;
        let mut found: bool = false;
        loop
            invariant_except_break
                0 <= j <= gs.len(),
                gs.deep_view() == gsv0,
                !found,
                forall|jj: int| 0 <= jj < j ==> #[trigger] gsv0[jj].name != sec@.name,
            ensures
                gs.deep_view() == gsv0,
                found ==> j < gs.len() && gsv0[j as int].name == sec@.name && (forall|jj: int|
                    0 <= jj < j ==> #[trigger] gsv0[jj].name != sec@.name),
                !found ==> forall|jj: int|
                    0 <= jj < gsv0.len() ==> #[trigger] gsv0[jj].name != sec@.name,
            decreases gs.len() - j,
        {
            if j >= gs.len() {
                break ;
            }
            if gs[j].name == sec.name {
                found = true;
                break ;
            }
            j += 1;
        }
        if found {
            let mut g = gs.remove(j);
            g.sections.push(sec.clone());
            gs.insert(j, g);
            proof {
                lemma_add_to_groups_found(gsv0, sec@, j as int);
                assert(gs.deep_view() =~~= gsv0.update(
                    j as int,
                    GroupView {
                        name: gsv0[j as int].name,
                        sections: gsv0[j as int].sections.push(sec@),
                    },
                ));
            }
        } else {
            let mut members: Vec<Section> = Vec::new();
            members.push(sec.clone());
            let g = Group { name: sec.name.clone(), sections: members };
            proof {
                assert(g@.sections =~= seq![sec@]);
            }
            gs.push(g);
            proof {
                lemma_add_to_groups_not_found(gsv0, sec@);
                assert(gs.deep_view() =~~= gsv0.push(
                    GroupView { name: sec@.name, sections: seq![sec@] },
                ));
            }
        }
        i += 1;
    }
    proof {
        assert(ssv.take(sections.len() as int) =~= ssv);
    }
    gs
}

} // verus!
