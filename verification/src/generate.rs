//! Exhaustive enumeration of valid section combinations.
//!
//! A combination selects at most one section per group, pairwise
//! non-overlapping. The search fixes the group order once (first-appearance
//! order) and sweeps it from every root index: for each root, a frontier of
//! partial combinations grows group by group. A frontier combination gains
//! every compatible section of the current group as a separate branch; one
//! that no section of the group can extend survives unchanged into the next
//! group. Every extension is recorded the moment it is built, and the empty
//! combination is recorded once per root, so the result also contains every
//! partial schedule, not only the maximal ones. Duplicates arising from
//! different roots are kept as they are produced; no deduplication is
//! applied.
use vstd::prelude::*;

use crate::grouping::{Group, GroupView, groups_wf};
use crate::section::{Section, SectionView, sec_overlap, overlaps};

verus! {

/// A valid weekly schedule: the selected sections, in selection order.
pub struct Combination {
    pub sections: Vec<Section>,
}

impl View for Combination {
    type V = Seq<SectionView>;

    open spec fn view(&self) -> Seq<SectionView> {
        self.sections.deep_view()
    }
}

impl DeepView for Combination {
    type V = Seq<SectionView>;

    open spec fn deep_view(&self) -> Seq<SectionView> {
        self.view()
    }
}

impl Clone for Combination {
    fn clone(&self) -> (r: Self)
        ensures
            r@ == self@,
    {
        let r = Combination { sections: self.sections.clone() };
        proof {
            assert(r@ =~~= self@);
        }
        r
    }
}

/// A candidate section conflicts with a combination iff it overlaps at least
/// one section already selected.
pub open spec fn combo_overlap(c: Seq<SectionView>, s: SectionView) -> bool {
    exists|k: int| 0 <= k < c.len() && sec_overlap(#[trigger] c[k], s)
}

/// A sound combination: pairwise non-overlapping, and no two members share a
/// course name (hence no two come from the same group).
pub open spec fn combo_sound(c: Seq<SectionView>) -> bool {
    forall|k: int, l: int|
        #![trigger c[k], c[l]]
        0 <= k < l < c.len() ==> !sec_overlap(c[k], c[l]) && c[k].name != c[l].name
}

/// Decides whether `s` overlaps any section already present in `c`.
pub fn combination_overlaps(c: &Combination, s: &Section) -> (r: bool)
    ensures
        r == combo_overlap(c@, s@),
{
    let mut k: usize = 0;
    while k < c.sections.len()
        invariant
            0 <= k <= c.sections.len(),
            forall|kk: int| 0 <= kk < k ==> !sec_overlap(#[trigger] c@[kk], s@),
        decreases c.sections.len() - k,
    {
        if overlaps(&c.sections[k], s) {
            assert(sec_overlap(c@[k as int], s@));
            return true;
        }
        k += 1;
    }
    false
}

/// Every extension of `c` by one compatible section of the group slice `g`,
/// in the group's order.
pub open spec fn extensions(c: Seq<SectionView>, g: Seq<SectionView>) -> Seq<Seq<SectionView>>
    decreases g.len(),
{
    if g.len() == 0 {
        Seq::empty()
    } else {
        extensions(c, g.drop_last()) + (if combo_overlap(c, g.last()) {
            Seq::<Seq<SectionView>>::empty()
        } else {
            seq![c.push(g.last())]
        })
    }
}

/// All extensions gained by the whole frontier at one group: these are the
/// combinations newly recorded at this step.
pub open spec fn step_extended(fr: Seq<Seq<SectionView>>, g: Seq<SectionView>) -> Seq<
    Seq<SectionView>,
>
    decreases fr.len(),
{
    if fr.len() == 0 {
        Seq::empty()
    } else {
        step_extended(fr.drop_last(), g) + extensions(fr.last(), g)
    }
}

/// The frontier after one group: each combination is replaced by its
/// extensions, or survives unchanged if the group offered it none.
pub open spec fn step_frontier(fr: Seq<Seq<SectionView>>, g: Seq<SectionView>) -> Seq<
    Seq<SectionView>,
>
    decreases fr.len(),
{
    if fr.len() == 0 {
        Seq::empty()
    } else {
        step_frontier(fr.drop_last(), g) + (if extensions(fr.last(), g).len() == 0 {
            seq![fr.last()]
        } else {
            extensions(fr.last(), g)
        })
    }
}

/// Everything recorded while the frontier `fr` sweeps the groups from index
/// `j` to the end.
pub open spec fn run_groups(fr: Seq<Seq<SectionView>>, gs: Seq<GroupView>, j: int) -> Seq<
    Seq<SectionView>,
>
    decreases gs.len() - j,
{
    if 0 <= j < gs.len() {
        step_extended(fr, gs[j].sections) + run_groups(step_frontier(fr, gs[j].sections), gs, j + 1)
    } else {
        Seq::empty()
    }
}

/// One root's pass: the empty combination, then everything recorded while
/// sweeping the groups from the root onward.
pub open spec fn root_results(gs: Seq<GroupView>, i: int) -> Seq<Seq<SectionView>> {
    seq![Seq::<SectionView>::empty()] + run_groups(seq![Seq::<SectionView>::empty()], gs, i)
}

/// The passes of all roots from `i` on, concatenated in root order.
pub open spec fn all_roots(gs: Seq<GroupView>, i: int) -> Seq<Seq<SectionView>>
    decreases gs.len() - i,
{
    if 0 <= i < gs.len() {
        root_results(gs, i) + all_roots(gs, i + 1)
    } else {
        Seq::empty()
    }
}

/// The full result of the generator on a group list: with no groups, just the
/// empty combination; otherwise one pass per root, concatenated.
pub open spec fn generate_spec(gs: Seq<GroupView>) -> Seq<Seq<SectionView>> {
    if gs.len() == 0 {
        seq![Seq::<SectionView>::empty()]
    } else {
        all_roots(gs, 0)
    }
}

/// The section's course name is the name of some group with index in
/// `[lo, hi)`.
pub open spec fn name_in_range(s: SectionView, gs: Seq<GroupView>, lo: int, hi: int) -> bool {
    exists|m: int| lo <= m < hi && s.name == (#[trigger] gs[m]).name
}

/// Every member of the combination was drawn from a group with index in
/// `[lo, hi)`.
pub open spec fn combo_names_from(c: Seq<SectionView>, gs: Seq<GroupView>, lo: int, hi: int) -> bool {
    forall|k: int| 0 <= k < c.len() ==> name_in_range(#[trigger] c[k], gs, lo, hi)
}

proof fn lemma_extensions_sound(c: Seq<SectionView>, gs: Seq<GroupView>, j: int, g: Seq<SectionView>)
    requires
        groups_wf(gs),
        0 <= j < gs.len(),
        forall|x: int| 0 <= x < g.len() ==> (#[trigger] g[x]).name == gs[j].name,
        combo_sound(c),
        combo_names_from(c, gs, 0, j),
    ensures
        forall|r: int|
            0 <= r < extensions(c, g).len() ==> combo_sound(#[trigger] extensions(c, g)[r])
                && combo_names_from(extensions(c, g)[r], gs, 0, j + 1),
    decreases g.len(),
{
    if g.len() > 0 {
        lemma_extensions_sound(c, gs, j, g.drop_last());
        let s = g.last();
        let ex0 = extensions(c, g.drop_last());
        let tail: Seq<Seq<SectionView>> = if combo_overlap(c, s) {
            Seq::empty()
        } else {
            seq![c.push(s)]
        };
        assert(extensions(c, g) == ex0 + tail);
        if !combo_overlap(c, s) {
            let e = c.push(s);
            assert forall|k: int, l: int| 0 <= k < l < e.len() implies !sec_overlap(e[k], e[l])
                && e[k].name != e[l].name by {
                if l < c.len() {
                    assert(!sec_overlap(c[k], c[l]) && c[k].name != c[l].name);
                } else {
                    assert(e[l] == s);
                    assert(!sec_overlap(c[k], s));
                    assert(name_in_range(c[k], gs, 0, j));
                    let m = choose|m: int| 0 <= m < j && c[k].name == (#[trigger] gs[m]).name;
                    assert(gs[m].name != gs[j].name);
                }
            }
            assert(combo_sound(e));
            assert forall|k: int| 0 <= k < e.len() implies name_in_range(
                #[trigger] e[k],
                gs,
                0,
                j + 1,
            ) by {
                if k < c.len() {
                    assert(name_in_range(c[k], gs, 0, j));
                    let m = choose|m: int| 0 <= m < j && c[k].name == (#[trigger] gs[m]).name;
                    assert(0 <= m < j + 1 && e[k].name == gs[m].name);
                } else {
                    assert(e[k] == s);
                    assert(s.name == (gs[j]).name);
                }
            }
            assert(combo_names_from(e, gs, 0, j + 1));
        }
        assert forall|r: int| 0 <= r < extensions(c, g).len() implies combo_sound(
            #[trigger] extensions(c, g)[r],
        ) && combo_names_from(extensions(c, g)[r], gs, 0, j + 1) by {
            if r < ex0.len() {
                assert(extensions(c, g)[r] == ex0[r]);
            } else {
                assert(extensions(c, g)[r] == c.push(s));
            }
        }
    }
}

proof fn lemma_step_sound(fr: Seq<Seq<SectionView>>, gs: Seq<GroupView>, j: int)
    requires
        groups_wf(gs),
        0 <= j < gs.len(),
        forall|p: int|
            0 <= p < fr.len() ==> combo_sound(#[trigger] fr[p]) && combo_names_from(
                fr[p],
                gs,
                0,
                j,
            ),
    ensures
        forall|r: int|
            0 <= r < step_extended(fr, gs[j].sections).len() ==> combo_sound(
                #[trigger] step_extended(fr, gs[j].sections)[r],
            ) && combo_names_from(step_extended(fr, gs[j].sections)[r], gs, 0, j + 1),
        forall|r: int|
            0 <= r < step_frontier(fr, gs[j].sections).len() ==> combo_sound(
                #[trigger] step_frontier(fr, gs[j].sections)[r],
            ) && combo_names_from(step_frontier(fr, gs[j].sections)[r], gs, 0, j + 1),
    decreases fr.len(),
{
    let g = gs[j].sections;
    if fr.len() > 0 {
        lemma_step_sound(fr.drop_last(), gs, j);
        let c = fr.last();
        assert(combo_sound(c) && combo_names_from(c, gs, 0, j));
        lemma_extensions_sound(c, gs, j, g);
        assert forall|k: int| 0 <= k < c.len() implies name_in_range(
            #[trigger] c[k],
            gs,
            0,
            j + 1,
        ) by {
            let m = choose|m: int| 0 <= m < j && c[k].name == (#[trigger] gs[m]).name;
            assert(0 <= m < j + 1 && c[k].name == gs[m].name);
        }
        assert(combo_names_from(c, gs, 0, j + 1));
        let se = step_extended(fr, g);
        let se0 = step_extended(fr.drop_last(), g);
        let ex = extensions(c, g);
        assert(se == se0 + ex);
        assert forall|r: int| 0 <= r < se.len() implies combo_sound(#[trigger] se[r])
            && combo_names_from(se[r], gs, 0, j + 1) by {
            if r < se0.len() {
                assert(se[r] == se0[r]);
            } else {
                assert(se[r] == ex[r - se0.len()]);
            }
        }
        let sf = step_frontier(fr, g);
        let sf0 = step_frontier(fr.drop_last(), g);
        let tail: Seq<Seq<SectionView>> = if ex.len() == 0 {
            seq![c]
        } else {
            ex
        };
        assert(sf == sf0 + tail);
        assert forall|r: int| 0 <= r < sf.len() implies combo_sound(#[trigger] sf[r])
            && combo_names_from(sf[r], gs, 0, j + 1) by {
            if r < sf0.len() {
                assert(sf[r] == sf0[r]);
            } else if ex.len() == 0 {
                assert(sf[r] == c);
            } else {
                assert(sf[r] == ex[r - sf0.len()]);
            }
        }
    }
}

proof fn lemma_run_groups_sound(fr: Seq<Seq<SectionView>>, gs: Seq<GroupView>, j: int)
    requires
        groups_wf(gs),
        0 <= j <= gs.len(),
        forall|p: int|
            0 <= p < fr.len() ==> combo_sound(#[trigger] fr[p]) && combo_names_from(
                fr[p],
                gs,
                0,
                j,
            ),
    ensures
        forall|r: int|
            0 <= r < run_groups(fr, gs, j).len() ==> combo_sound(#[trigger] run_groups(fr, gs, j)[r]),
    decreases gs.len() - j,
{
    if j < gs.len() {
        lemma_step_sound(fr, gs, j);
        lemma_run_groups_sound(step_frontier(fr, gs[j].sections), gs, j + 1);
        let se = step_extended(fr, gs[j].sections);
        let rest = run_groups(step_frontier(fr, gs[j].sections), gs, j + 1);
        assert(run_groups(fr, gs, j) == se + rest);
        assert forall|r: int| 0 <= r < run_groups(fr, gs, j).len() implies combo_sound(
            #[trigger] run_groups(fr, gs, j)[r],
        ) by {
            if r < se.len() {
                assert(run_groups(fr, gs, j)[r] == se[r]);
            } else {
                assert(run_groups(fr, gs, j)[r] == rest[r - se.len()]);
            }
        }
    }
}

proof fn lemma_all_roots_sound(gs: Seq<GroupView>, i: int)
    requires
        groups_wf(gs),
    ensures
        forall|r: int|
            0 <= r < all_roots(gs, i).len() ==> combo_sound(#[trigger] all_roots(gs, i)[r]),
    decreases gs.len() - i,
{
    if 0 <= i < gs.len() {
        let fr0 = seq![Seq::<SectionView>::empty()];
        assert(combo_sound(fr0[0]) && combo_names_from(fr0[0], gs, 0, i));
        lemma_run_groups_sound(fr0, gs, i);
        lemma_all_roots_sound(gs, i + 1);
        let rr = root_results(gs, i);
        let rest = all_roots(gs, i + 1);
        let run = run_groups(fr0, gs, i);
        assert(rr == seq![Seq::<SectionView>::empty()] + run);
        assert(all_roots(gs, i) == rr + rest);
        assert forall|r: int| 0 <= r < all_roots(gs, i).len() implies combo_sound(
            #[trigger] all_roots(gs, i)[r],
        ) by {
            if r == 0 {
                assert(all_roots(gs, i)[0] == rr[0]);
                assert(rr[0] =~~= Seq::<SectionView>::empty());
            } else if r < rr.len() {
                assert(all_roots(gs, i)[r] == rr[r]);
                assert(rr[r] == run[r - 1]);
            } else {
                assert(all_roots(gs, i)[r] == rest[r - rr.len()]);
            }
        }
    }
}

/// Builds the combination that extends `c` with `s`.
fn extend_combination(c: &Combination, s: &Section) -> (r: Combination)
    ensures
        r@ == c@.push(s@),
{
    let mut v = c.sections.clone();
    v.push(s.clone());
    let r = Combination { sections: v };
    proof {
        assert(r@ =~~= c@.push(s@));
    }
    r
}

/// Enumerates every combination the root sweep reaches, in discovery order:
/// for each root index, the empty combination and then every extension
/// recorded while the frontier crosses the groups from the root to the end.
/// With no groups at all the result is just the empty combination.
pub fn generate(groups: &Vec<Group>) -> (out: Vec<Combination>)
    ensures
        out.deep_view() == generate_spec(groups.deep_view()),
        out.len() >= 1,
        out.deep_view()[0].len() == 0,
{
    let ghost gsv = groups.deep_view();
    let mut out: Vec<Combination> = Vec::new();
    if groups.len() == 0 {
        out.push(Combination { sections: Vec::new() });
        proof {
            assert(out.deep_view() =~~= generate_spec(gsv));
        }
        return out;
    }
    let n = groups.len();
    let mut i: usize = 0;
    while i < n
        invariant
            gsv == groups.deep_view(),
            n == groups.len(),
            n == gsv.len(),
            n >= 1,
            0 <= i <= n,
            out.deep_view() + all_roots(gsv, i as int) == all_roots(gsv, 0),
            i > 0 ==> out.len() >= 1 && out.deep_view()[0].len() == 0,
        decreases n - i,
    {
        let ghost out0 = out.deep_view();
        out.push(Combination { sections: Vec::new() });
        let mut frontier: Vec<Combination> = Vec::new();
        frontier.push(Combination { sections: Vec::new() });
        proof {
            assert(out.deep_view() =~~= out0 + seq![Seq::<SectionView>::empty()]);
            assert(frontier.deep_view() =~~= seq![Seq::<SectionView>::empty()]);
            assert(out.deep_view() + run_groups(frontier.deep_view(), gsv, i as int) =~~= out0
                + root_results(gsv, i as int));
        }
        let mut j: usize = i;
        while j < n
            invariant
                gsv == groups.deep_view(),
                n == groups.len(),
                n == gsv.len(),
                0 <= i <= j <= n,
                out.deep_view() + run_groups(frontier.deep_view(), gsv, j as int) == out0
                    + root_results(gsv, i as int),
                out.len() >= 1,
                out.deep_view()[0].len() == 0,
            decreases n - j,
        {
            let ghost frv = frontier.deep_view();
            let ghost outj = out.deep_view();
            let ghost g = gsv[j as int].sections;
            let mut next: Vec<Combination> = Vec::new();
            let mut ci: usize = 0;
            while ci < frontier.len()
                invariant
                    gsv == groups.deep_view(),
                    n == groups.len(),
                    n == gsv.len(),
                    0 <= i <= j < n,
                    0 <= ci <= frontier.len(),
                    frv == frontier.deep_view(),
                    g == gsv[j as int].sections,
                    out.deep_view() == outj + step_extended(frv.take(ci as int), g),
                    next.deep_view() == step_frontier(frv.take(ci as int), g),
                    out.len() >= 1,
                    out.deep_view()[0].len() == 0,
                decreases frontier.len() - ci,
            {
                let ghost outc = out.deep_view();
                let ghost nextc = next.deep_view();
                let ghost cv = frv[ci as int];
                let mut extended = false;
                let mut si: usize = 0;
                let gsec_len = groups[j].sections.len();
                proof {
                    assert(frv.take(ci as int + 1).drop_last() =~~= frv.take(ci as int));
                    assert(frv.take(ci as int + 1).last() == cv);
                    assert(g.take(0) =~~= Seq::<SectionView>::empty());
                    assert(extensions(cv, g.take(0)) =~~= Seq::<Seq<SectionView>>::empty());
                    assert(out.deep_view() =~~= outc + extensions(cv, g.take(0)));
                }
                while si < gsec_len
                    invariant
                        gsv == groups.deep_view(),
                        n == groups.len(),
                        n == gsv.len(),
                        0 <= i <= j < n,
                        0 <= ci < frontier.len(),
                        0 <= si <= gsec_len,
                        frv == frontier.deep_view(),
                        g == gsv[j as int].sections,
                        gsec_len == g.len(),
                        cv == frv[ci as int],
                        out.deep_view() == outc + extensions(cv, g.take(si as int)),
                        next.deep_view() == nextc + extensions(cv, g.take(si as int)),
                        extended == (extensions(cv, g.take(si as int)).len() > 0),
                        out.len() >= 1,
                        out.deep_view()[0].len() == 0,
                    decreases gsec_len - si,
                {
                    let c = &frontier[ci];
                    let s = &groups[j].sections[si];
                    proof {
                        assert(c@ == cv);
                        assert(s@ == g[si as int]);
                        assert(g.take(si as int + 1).drop_last() =~~= g.take(si as int));
                        assert(g.take(si as int + 1).last() == g[si as int]);
                        let ext_tail: Seq<Seq<SectionView>> = if combo_overlap(
                            cv,
                            g[si as int],
                        ) {
                            Seq::empty()
                        } else {
                            seq![cv.push(g[si as int])]
                        };
                        assert(extensions(cv, g.take(si as int + 1)) =~~= extensions(
                            cv,
                            g.take(si as int),
                        ) + ext_tail);
                    }
                    if !combination_overlaps(c, s) {
                        let c2 = extend_combination(c, s);
                        let c2b = c2.clone();
                        let ghost c2v = c2@;
                        let ghost out_pre = out.deep_view();
                        let ghost next_pre = next.deep_view();
                        out.push(c2);
                        next.push(c2b);
                        extended = true;
                        proof {
                            assert(c2v == cv.push(g[si as int]));
                            assert(out.deep_view() =~~= out_pre.push(c2v));
                            assert(next.deep_view() =~~= next_pre.push(c2v));
                            assert(extensions(cv, g.take(si as int + 1)) =~~= extensions(
                                cv,
                                g.take(si as int),
                            ).push(c2v));
                            assert(out.deep_view() =~~= outc + extensions(
                                cv,
                                g.take(si as int + 1),
                            ));
                            assert(next.deep_view() =~~= nextc + extensions(
                                cv,
                                g.take(si as int + 1),
                            ));
                        }
                    }
                    si += 1;
                }
                proof {
                    assert(g.take(gsec_len as int) =~~= g);
                }
                if !extended {
                    let c = &frontier[ci];
                    let cc = c.clone();
                    next.push(cc);
                    proof {
                        assert(next.deep_view() =~~= nextc + seq![cv]);
                    }
                }
                proof {
                    assert(step_extended(frv.take(ci as int + 1), g) =~~= step_extended(
                        frv.take(ci as int),
                        g,
                    ) + extensions(cv, g));
                    assert(out.deep_view() =~~= outj + step_extended(frv.take(ci as int + 1), g));
                    assert(step_frontier(frv.take(ci as int + 1), g) =~~= step_frontier(
                        frv.take(ci as int),
                        g,
                    ) + (if extensions(cv, g).len() == 0 {
                        seq![cv]
                    } else {
                        extensions(cv, g)
                    }));
                    assert(next.deep_view() =~~= step_frontier(frv.take(ci as int + 1), g));
                }
                ci += 1;
            }
            proof {
                assert(frv.take(frontier.len() as int) =~~= frv);
                assert(run_groups(frv, gsv, j as int) =~~= step_extended(frv, g) + run_groups(
                    step_frontier(frv, g),
                    gsv,
                    j as int + 1,
                ));
                assert(out.deep_view() + run_groups(next.deep_view(), gsv, j as int + 1) =~~= outj
                    + run_groups(frv, gsv, j as int));
                assert(out.deep_view() + run_groups(next.deep_view(), gsv, j as int + 1) =~~= out0
                    + root_results(gsv, i as int));
            }
            frontier = next;
            j += 1;
        }
        proof {
            assert(run_groups(frontier.deep_view(), gsv, n as int) =~~= Seq::<
                Seq<SectionView>,
            >::empty());
            assert(out.deep_view() =~~= out0 + root_results(gsv, i as int));
            assert(all_roots(gsv, i as int) =~~= root_results(gsv, i as int) + all_roots(
                gsv,
                i as int + 1,
            ));
            assert(out.deep_view() + all_roots(gsv, i as int + 1) =~~= all_roots(gsv, 0));
            assert(out.deep_view()[0] == root_results(gsv, 0)[0]);
            assert(out.deep_view()[0] =~~= Seq::<SectionView>::empty());
        }
        i += 1;
    }
    proof {
        assert(all_roots(gsv, n as int) =~~= Seq::<Seq<SectionView>>::empty());
        assert(out.deep_view() =~~= all_roots(gsv, 0));
    }
    out
}

/// Soundness of the generator: on a well-formed group list, every combination
/// it produces is pairwise non-overlapping and repeats no course name, so it
/// holds at most one section per group.
pub proof fn lemma_generate_sound(gs: Seq<GroupView>)
    requires
        groups_wf(gs),
    ensures
        forall|r: int|
            0 <= r < generate_spec(gs).len() ==> combo_sound(#[trigger] generate_spec(gs)[r]),
{
    if gs.len() == 0 {
        assert(combo_sound(generate_spec(gs)[0]));
    } else {
        lemma_all_roots_sound(gs, 0);
    }
}

} // verus!
