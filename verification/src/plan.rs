//! Read planning: composes the region classifier, the coverage resolver and
//! the group builder, and resolves each group's algorithm handle and core
//! index against the target. The closed-world invariant of the target
//! description makes the dispatch-time lookups provably infallible, so a
//! lookup failure is no reportable error here: it is verified away.

use vstd::prelude::*;
use vstd::pervasive::unreached;
use crate::error::FlashError;
use crate::group::{
    RegionGroup, RegionGroupShape, build_groups, groups_regions, key_is_used, key_of,
    regions_with_key,
};
use crate::region::{NvmRegion, NvmRegionShape, lemma_alias_exclusion, nvm_regions};
use crate::resolve::{
    ResolvedRegionShape, cover_index, first_failure, has_cover, lemma_first_cover_exists,
    resolution_of, resolvable, resolve_regions,
};
use crate::target::{Target, TargetShape, covers};

verus! {

/// The resolver's image of a target: each serviceable NVM region paired with
/// the names of the algorithm and core that serve it.
pub open spec fn resolutions(tv: TargetShape) -> Seq<ResolvedRegionShape> {
    tv.nvm_regions().map_values(
        |r: NvmRegionShape| resolution_of(tv.flash_algorithms, r),
    )
}

/// Whether every serviceable NVM region of the target has a covering
/// algorithm and a core allowed to access it: exactly then can a read be
/// planned.
pub open spec fn all_resolvable(tv: TargetShape) -> bool {
    forall|i: int|
        0 <= i < tv.nvm_regions().len() ==> resolvable(
            tv.flash_algorithms,
            #[trigger] tv.nvm_regions()[i],
        )
}

/// Mathematical image of a [`GroupPlan`].
pub struct GroupPlanShape {
    pub algo_index: usize,
    pub core_index: usize,
    pub group: RegionGroupShape,
}

/// One group of the grouping table together with the handles dispatch needs:
/// the index of its flash algorithm and the index of its access core within
/// the target description.
pub struct GroupPlan {
    pub algo_index: usize,
    pub core_index: usize,
    pub group: RegionGroup,
}

impl View for GroupPlan {
    type V = GroupPlanShape;

    open spec fn view(&self) -> GroupPlanShape {
        GroupPlanShape {
            algo_index: self.algo_index,
            core_index: self.core_index,
            group: self.group@,
        }
    }
}

impl DeepView for GroupPlan {
    type V = GroupPlanShape;

    open spec fn deep_view(&self) -> GroupPlanShape {
        self.view()
    }
}

/// The plan of one read call: one entry per (algorithm, core) group, each
/// processed by exactly one programming session.
pub struct ReadPlan {
    pub groups: Vec<GroupPlan>,
}

impl View for ReadPlan {
    type V = Seq<GroupPlanShape>;

    open spec fn view(&self) -> Seq<GroupPlanShape> {
        self.groups.deep_view()
    }
}

/// Whether a plan entry's handles are the ones its group's names denote: the
/// first algorithm of the target with the group's algorithm name, and the
/// first core with the group's core name.
pub open spec fn valid_binding(tv: TargetShape, p: GroupPlanShape) -> bool {
    &&& p.algo_index < tv.flash_algorithms.len()
    &&& tv.flash_algorithms[p.algo_index as int].name == p.group.algo_name
    &&& forall|k: int|
        0 <= k < p.algo_index ==> (#[trigger] tv.flash_algorithms[k]).name != p.group.algo_name
    &&& p.core_index < tv.cores.len()
    &&& tv.cores[p.core_index as int] == p.group.core_name
    &&& forall|k: int| 0 <= k < p.core_index ==> #[trigger] tv.cores[k] != p.group.core_name
}

/// Whether the algorithm a plan entry is bound to covers every region of the
/// entry's group, and none of those regions is an alias.
pub open spec fn group_covered(tv: TargetShape, p: GroupPlanShape) -> bool {
    forall|k: int|
        0 <= k < p.group.regions.len() ==> covers(
            tv.flash_algorithms[p.algo_index as int],
            #[trigger] p.group.regions[k],
        ) && !p.group.regions[k].is_alias
}

/// What a read plan guarantees about the target it was planned for: the
/// groups partition the resolved regions by (algorithm, core) key, and each
/// group is bound to handles that its names denote, whose algorithm covers
/// all of its regions.
pub open spec fn plan_matches_target(pv: Seq<GroupPlanShape>, tv: TargetShape) -> bool {
    &&& groups_regions(pv.map_values(|p: GroupPlanShape| p.group), resolutions(tv))
    &&& forall|g: int| 0 <= g < pv.len() ==> valid_binding(tv, #[trigger] pv[g])
    &&& forall|g: int| 0 <= g < pv.len() ==> group_covered(tv, #[trigger] pv[g])
}

/// Every element of a filtered sequence is an element of the sequence.
proof fn lemma_filter_sub<A>(s: Seq<A>, pred: spec_fn(A) -> bool, i: int)
    requires
        0 <= i < s.filter(pred).len(),
    ensures
        s.contains(s.filter(pred)[i]),
    decreases s.len(),
{
    reveal(Seq::filter);
    if s.len() > 0 {
        let rest = s.drop_last().filter(pred);
        if i < rest.len() {
            lemma_filter_sub(s.drop_last(), pred, i);
            let w = choose|w: int|
                0 <= w < s.drop_last().len() && s.drop_last()[w] == s.filter(pred)[i];
            assert(s[w] == s.filter(pred)[i]);
        } else {
            assert(s.filter(pred)[i] == s.last());
        }
    }
}

/// Clones a region list, keeping its contents.
fn clone_region_list(regions: &Vec<NvmRegion>) -> (r: Vec<NvmRegion>)
    ensures
        r.deep_view() == regions.deep_view(),
{
    let r = regions.clone();
    proof {
        assert forall|i: int| 0 <= i < regions@.len() implies r@[i]@ == regions@[i]@ by {
            assert(cloned(regions@[i], r@[i]));
        }
        assert(r.deep_view() =~= regions.deep_view());
    }
    r
}

/// The regions of one group are covered by the algorithm the group is bound
/// to, and none of them is an alias.
proof fn lemma_group_covered(tv: TargetShape, p: GroupPlanShape)
    requires
        tv.wf(),
        all_resolvable(tv),
        p.group.regions == regions_with_key(resolutions(tv), p.group.key()),
        valid_binding(tv, p),
    ensures
        group_covered(tv, p),
{
    let algos = tv.flash_algorithms;
    let regs = tv.nvm_regions();
    let rv = resolutions(tv);
    let pred = |x: ResolvedRegionShape| key_of(x) == p.group.key();
    let picked = rv.filter(pred);
    lemma_alias_exclusion(tv.memory_map);
    assert forall|k: int| 0 <= k < p.group.regions.len() implies covers(
        algos[p.algo_index as int],
        #[trigger] p.group.regions[k],
    ) && !p.group.regions[k].is_alias by {
        assert(p.group.regions[k] == picked[k].region);
        rv.lemma_filter_pred(pred, k);
        lemma_filter_sub(rv, pred, k);
        let i = choose|i: int| 0 <= i < rv.len() && rv[i] == picked[k];
        assert(rv[i] == resolution_of(algos, regs[i]));
        assert(resolvable(algos, regs[i]));
        lemma_first_cover_exists(algos, regs[i]);
        let c = cover_index(algos, regs[i]);
        assert(covers(algos[c], regs[i]));
        assert(algos[c].name == picked[k].algo_name);
        assert(pred(picked[k]));
        assert(picked[k].algo_name == p.group.algo_name);
        // distinct algorithm names make the bound index the covering one
        assert(algos[p.algo_index as int].name == algos[c].name);
        if c != p.algo_index as int {
            assert(false);
        }
        assert(p.group.regions[k] == regs[i]);
    }
}

impl Target {
    /// Plans a read against this target: classifies its memory map, resolves
    /// coverage, groups the regions by (algorithm, core), and binds every
    /// group to its algorithm handle and core index. Fails exactly when some
    /// serviceable region has no covering algorithm (`NoFlashAlgorithm`) or
    /// no access core (`NoNvmCoreAccess`); the dispatch-time name lookups are
    /// proved to succeed by the closed-world invariant.
    pub fn read_plan(&self) -> (r: Result<ReadPlan, FlashError>)
        requires
            self@.wf(),
        ensures
            match r {
                Ok(plan) => all_resolvable(self@) && plan_matches_target(plan@, self@),
                Err(e) => {
                    &&& !all_resolvable(self@)
                    &&& exists|i: int|
                        {
                            &&& #[trigger] first_failure(
                                self@.flash_algorithms,
                                self@.nvm_regions(),
                                i,
                            )
                            &&& if !has_cover(self@.flash_algorithms, self@.nvm_regions()[i]) {
                                e is NoFlashAlgorithm
                            } else {
                                e matches FlashError::NoNvmCoreAccess(rr) && rr@
                                    == self@.nvm_regions()[i]
                            }
                        }
                },
            },
    {
        let ghost tv = self@;
        let ghost algos = tv.flash_algorithms;
        let ghost regs = tv.nvm_regions();
        let regions = nvm_regions(&self.memory_map);
        proof {
            assert(regions.deep_view() =~= regs);
        }
        let resolved = match resolve_regions(&regions, self) {
            Ok(v) => v,
            Err(e) => {
                proof {
                    let i = choose|i: int|
                        #[trigger] first_failure(algos, regs, i) && if !has_cover(
                            algos,
                            regs[i],
                        ) {
                            e is NoFlashAlgorithm
                        } else {
                            e matches FlashError::NoNvmCoreAccess(rr) && rr@ == regs[i]
                        };
                    assert(!resolvable(algos, regs[i]));
                    assert(!all_resolvable(tv));
                }
                return Err(e);
            },
        };
        let ghost rv = resolutions(tv);
        proof {
            assert(resolved.deep_view() =~= rv);
        }
        let groups = build_groups(&resolved);
        let ghost gv = groups.deep_view();
        let mut plans: Vec<GroupPlan> = Vec::new();
        let mut g: usize = 0;
        while g < groups.len()
            invariant
                g <= groups@.len(),
                tv == self@,
                algos == tv.flash_algorithms,
                regs == tv.nvm_regions(),
                rv == resolutions(tv),
                tv.wf(),
                all_resolvable(tv),
                gv == groups.deep_view(),
                gv.len() == groups@.len(),
                groups_regions(gv, rv),
                plans.deep_view().len() == g,
                forall|q: int|
                    0 <= q < g ==> (#[trigger] plans.deep_view()[q]).group == gv[q],
                forall|q: int| 0 <= q < g ==> valid_binding(tv, #[trigger] plans.deep_view()[q]),
            decreases groups.len() - g,
        {
            proof {
                assert(gv[g as int] == groups@[g as int]@);
            }
            let group = &groups[g];
            proof {
                assert(key_is_used(rv, gv[g as int].key()));
                let i = choose|i: int| 0 <= i < rv.len() && key_of(#[trigger] rv[i]) == gv[
                    g as int].key();
                assert(rv[i] == resolution_of(algos, regs[i]));
                assert(resolvable(algos, regs[i]));
                lemma_first_cover_exists(algos, regs[i]);
                let c = cover_index(algos, regs[i]);
                assert(algos[c].name == gv[g as int].algo_name);
                assert(regs[i].cores[0] == gv[g as int].core_name);
                assert(tv.cores.contains(regs[i].cores[0]));
                assert(exists|j: int|
                    0 <= j < algos.len() && (#[trigger] algos[j]).name == gv[g as int].algo_name);
                assert(tv.cores.contains(gv[g as int].core_name));
            }
            let algo_index = match self.flash_algorithm_by_name(&group.algo_name) {
                Some(j) => j,
                None => {
                    // unreachable: the group's algorithm name came from the
                    // target's own algorithm list
                    proof {
                        let j = choose|j: int|
                            0 <= j < algos.len() && (#[trigger] algos[j]).name == gv[
                                g as int].algo_name;
                        assert(false);
                    }
                    return unreached();
                },
            };
            let core_index = match self.core_index_by_name(&group.core_name) {
                Some(j) => j,
                None => {
                    // unreachable: the closed-world invariant puts every
                    // core name a region lists among the target's cores
                    proof {
                        let w = choose|w: int|
                            0 <= w < tv.cores.len() && #[trigger] tv.cores[w] == gv[
                                g as int].core_name;
                        assert(false);
                    }
                    return unreached();
                },
            };
            let entry = GroupPlan {
                algo_index,
                core_index,
                group: RegionGroup {
                    algo_name: group.algo_name.clone(),
                    core_name: group.core_name.clone(),
                    regions: clone_region_list(&group.regions),
                },
            };
            proof {
                assert(entry@.group.regions == gv[g as int].regions);
                assert(entry@.group == gv[g as int]);
                assert(valid_binding(tv, entry@));
            }
            let ghost prev = plans.deep_view();
            plans.push(entry);
            proof {
                assert(plans.deep_view() =~= prev.push(entry@));
            }
            g = g + 1;
        }
        let plan = ReadPlan { groups: plans };
        proof {
            let pv = plan@;
            assert(pv.map_values(|p: GroupPlanShape| p.group) =~= gv);
            assert forall|q: int| 0 <= q < pv.len() implies group_covered(
                tv,
                #[trigger] pv[q],
            ) by {
                assert(pv[q].group == gv[q]);
                assert(gv[q].regions == regions_with_key(rv, gv[q].key()));
                lemma_group_covered(tv, pv[q]);
            }
        }
        Ok(plan)
    }
}

} // verus!
