//! Coverage resolver: maps each classified region to the flash algorithm
//! that services it and to the first core permitted to access it, or reports
//! the coverage gap.

use vstd::prelude::*;
use crate::error::FlashError;
use crate::region::{NvmRegion, NvmRegionShape};
use crate::target::{FlashAlgorithmShape, Target, covers};

verus! {

/// Whether some algorithm of `algos` covers `region`.
pub open spec fn has_cover(algos: Seq<FlashAlgorithmShape>, region: NvmRegionShape) -> bool {
    exists|j: int| 0 <= j < algos.len() && covers(#[trigger] algos[j], region)
}

/// Whether `algos[j]` is the first algorithm that covers `region`.
pub open spec fn is_first_cover(
    algos: Seq<FlashAlgorithmShape>,
    region: NvmRegionShape,
    j: int,
) -> bool {
    &&& 0 <= j < algos.len()
    &&& covers(algos[j], region)
    &&& forall|k: int| 0 <= k < j ==> !covers(#[trigger] algos[k], region)
}

/// The index of the first algorithm that covers `region`; meaningful only
/// when `has_cover` holds.
pub open spec fn cover_index(algos: Seq<FlashAlgorithmShape>, region: NvmRegionShape) -> int {
    choose|j: int| is_first_cover(algos, region, j)
}

/// At most one index is the first cover, so `cover_index` names it exactly.
pub proof fn lemma_first_cover_unique(
    algos: Seq<FlashAlgorithmShape>,
    region: NvmRegionShape,
    j: int,
)
    requires
        is_first_cover(algos, region, j),
    ensures
        cover_index(algos, region) == j,
{
    let w = cover_index(algos, region);
    assert(is_first_cover(algos, region, w));
}

/// A sequence with any cover has a first cover.
proof fn lemma_some_first_cover(
    algos: Seq<FlashAlgorithmShape>,
    region: NvmRegionShape,
    j: int,
)
    requires
        0 <= j < algos.len(),
        covers(algos[j], region),
    ensures
        exists|w: int| is_first_cover(algos, region, w),
    decreases j,
{
    if forall|k: int| 0 <= k < j ==> !covers(#[trigger] algos[k], region) {
        assert(is_first_cover(algos, region, j));
    } else {
        let k = choose|k: int| 0 <= k < j && covers(#[trigger] algos[k], region);
        lemma_some_first_cover(algos, region, k);
    }
}

/// When anything covers `region`, `cover_index` names its first cover.
pub proof fn lemma_first_cover_exists(algos: Seq<FlashAlgorithmShape>, region: NvmRegionShape)
    requires
        has_cover(algos, region),
    ensures
        is_first_cover(algos, region, cover_index(algos, region)),
{
    let j = choose|j: int| 0 <= j < algos.len() && covers(#[trigger] algos[j], region);
    lemma_some_first_cover(algos, region, j);
}

/// Whether the resolver accepts `region`: some algorithm covers it and at
/// least one core may access it.
pub open spec fn resolvable(algos: Seq<FlashAlgorithmShape>, region: NvmRegionShape) -> bool {
    has_cover(algos, region) && region.cores.len() > 0
}

/// Whether `regions[i]` is the first region the resolver rejects.
pub open spec fn first_failure(
    algos: Seq<FlashAlgorithmShape>,
    regions: Seq<NvmRegionShape>,
    i: int,
) -> bool {
    &&& 0 <= i < regions.len()
    &&& !resolvable(algos, regions[i])
    &&& forall|k: int| 0 <= k < i ==> resolvable(algos, #[trigger] regions[k])
}

/// Mathematical image of a [`ResolvedRegion`].
pub struct ResolvedRegionShape {
    pub region: NvmRegionShape,
    pub algo_name: Seq<char>,
    pub core_name: Seq<char>,
}

/// What the resolver returns for a resolvable region: the name of its first
/// covering algorithm and the name of the first core that may access it.
pub open spec fn resolution_of(
    algos: Seq<FlashAlgorithmShape>,
    region: NvmRegionShape,
) -> ResolvedRegionShape {
    ResolvedRegionShape {
        region: region,
        algo_name: algos[cover_index(algos, region)].name,
        core_name: region.cores[0],
    }
}

/// A region paired with the names of the algorithm and core that serve it.
/// Names, not live handles, are what the grouping phase carries; handles are
/// re-resolved at dispatch time.
pub struct ResolvedRegion {
    pub region: NvmRegion,
    pub algo_name: String,
    pub core_name: String,
}

impl View for ResolvedRegion {
    type V = ResolvedRegionShape;

    open spec fn view(&self) -> ResolvedRegionShape {
        ResolvedRegionShape {
            region: self.region@,
            algo_name: self.algo_name@,
            core_name: self.core_name@,
        }
    }
}

impl DeepView for ResolvedRegion {
    type V = ResolvedRegionShape;

    open spec fn deep_view(&self) -> ResolvedRegionShape {
        self.view()
    }
}

/// The index of the first flash algorithm of the target that covers the
/// whole of `region`'s address range, if any covers it.
pub fn get_flash_algorithm_for_region(region: &NvmRegion, target: &Target) -> (r: Option<usize>)
    ensures
        match r {
            Some(j) => is_first_cover(target@.flash_algorithms, region@, j as int),
            None => !has_cover(target@.flash_algorithms, region@),
        },
{
    let ghost algos = target@.flash_algorithms;
    let mut j: usize = 0;
    while j < target.flash_algorithms.len()
        invariant
            j <= target.flash_algorithms@.len(),
            algos == target@.flash_algorithms,
            algos.len() == target.flash_algorithms@.len(),
            forall|k: int| 0 <= k < j ==> !covers(#[trigger] algos[k], region@),
        decreases target.flash_algorithms.len() - j,
    {
        proof {
            assert(algos[j as int] == target.flash_algorithms@[j as int]@);
        }
        if target.flash_algorithms[j].address_range.contains_range(&region.range) {
            return Some(j);
        }
        j = j + 1;
    }
    None
}

/// Coverage resolver: pairs every region with the name of its first covering
/// algorithm and the name of the first core allowed to access it. The first
/// region with no covering algorithm aborts the whole resolution with
/// `NoFlashAlgorithm`; the first covered region with an empty core list
/// aborts it with `NoNvmCoreAccess` carrying that region. No partial result
/// is returned.
pub fn resolve_regions(regions: &Vec<NvmRegion>, target: &Target) -> (r: Result<
    Vec<ResolvedRegion>,
    FlashError,
>)
    ensures
        match r {
            Ok(rs) => {
                &&& forall|i: int|
                    0 <= i < regions.deep_view().len() ==> resolvable(
                        target@.flash_algorithms,
                        #[trigger] regions.deep_view()[i],
                    )
                &&& rs.deep_view() == regions.deep_view().map_values(
                    |rg: NvmRegionShape| resolution_of(target@.flash_algorithms, rg),
                )
            },
            Err(e) => exists|i: int|
                {
                    &&& #[trigger] first_failure(target@.flash_algorithms, regions.deep_view(), i)
                    &&& if !has_cover(target@.flash_algorithms, regions.deep_view()[i]) {
                        e is NoFlashAlgorithm
                    } else {
                        e matches FlashError::NoNvmCoreAccess(rr) && rr@ == regions.deep_view()[i]
                    }
                },
        },
{
    let ghost algos = target@.flash_algorithms;
    let ghost regs = regions.deep_view();
    let mut out: Vec<ResolvedRegion> = Vec::new();
    let mut i: usize = 0;
    while i < regions.len()
        invariant
            i <= regions@.len(),
            regs == regions.deep_view(),
            algos == target@.flash_algorithms,
            regs.len() == regions@.len(),
            forall|k: int| 0 <= k < i ==> resolvable(algos, #[trigger] regs[k]),
            out.deep_view() =~= regs.subrange(0, i as int).map_values(
                |rg: NvmRegionShape| resolution_of(algos, rg),
            ),
        decreases regions.len() - i,
    {
        let region = &regions[i];
        proof {
            assert(regs[i as int] == regions@[i as int]@);
        }
        match get_flash_algorithm_for_region(region, target) {
            None => {
                proof {
                    assert(first_failure(algos, regs, i as int));
                }
                return Err(FlashError::NoFlashAlgorithm);
            },
            Some(j) => {
                proof {
                    lemma_first_cover_unique(algos, regs[i as int], j as int);
                }
                if region.cores.len() == 0 {
                    proof {
                        assert(has_cover(algos, regs[i as int]));
                        assert(first_failure(algos, regs, i as int));
                    }
                    return Err(FlashError::NoNvmCoreAccess(region.clone()));
                }
                proof {
                    assert(algos[j as int] == target.flash_algorithms@[j as int]@);
                }
                let algo_name = target.flash_algorithms[j].name.clone();
                let core_name = region.cores[0].clone();
                let entry = ResolvedRegion { region: region.clone(), algo_name, core_name };
                proof {
                    assert(entry@.core_name == regs[i as int].cores[0]);
                    assert(entry@.algo_name == algos[j as int].name);
                    assert(entry@ == resolution_of(algos, regs[i as int]));
                }
                let ghost prev = out.deep_view();
                out.push(entry);
                proof {
                    let f = |rg: NvmRegionShape| resolution_of(algos, rg);
                    assert(out.deep_view() =~= prev.push(resolution_of(algos, regs[i as int])));
                    assert(regs.subrange(0, i + 1 as int) =~= regs.subrange(0, i as int).push(
                        regs[i as int],
                    ));
                    assert(out.deep_view() =~= regs.subrange(0, i + 1 as int).map_values(f));
                }
            },
        }
        i = i + 1;
    }
    proof {
        assert(regs.subrange(0, regs.len() as int) =~= regs);
        assert(out.deep_view() =~= regs.map_values(
            |rg: NvmRegionShape| resolution_of(algos, rg),
        ));
    }
    Ok(out)
}

} // verus!
