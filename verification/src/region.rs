//! Memory-map model: regions of the target's memory map and the classifier
//! that keeps only genuine (non-alias) NVM regions.

use vstd::prelude::*;

verus! {

/// A half-open span of target addresses: `start..end`.
#[derive(Clone, Copy, PartialEq, Eq, Structural, Debug)]
pub struct AddressRange {
    pub start: u64,
    pub end: u64,
}

impl AddressRange {
    /// Whether `other` lies entirely inside `self`.
    pub open spec fn spec_contains_range(self, other: AddressRange) -> bool {
        self.start <= other.start && other.end <= self.end
    }

    /// Whether `other` lies entirely inside `self`.
    pub fn contains_range(&self, other: &AddressRange) -> (r: bool)
        ensures
            r == self.spec_contains_range(*other),
    {
        self.start <= other.start && other.end <= self.end
    }
}

/// Mathematical image of an [`NvmRegion`].
pub struct NvmRegionShape {
    pub range: AddressRange,
    pub cores: Seq<Seq<char>>,
    pub is_alias: bool,
}

/// A non-volatile memory region of the target's memory map.
///
/// `cores` lists, in order, the names of the cores permitted to access the
/// region; the first listed core is the one a read session uses. An alias
/// region is a secondary view of memory already covered by a primary region
/// and must never be independently serviced.
#[derive(Debug)]
pub struct NvmRegion {
    pub range: AddressRange,
    pub cores: Vec<String>,
    pub is_alias: bool,
}

impl View for NvmRegion {
    type V = NvmRegionShape;

    open spec fn view(&self) -> NvmRegionShape {
        NvmRegionShape {
            range: self.range,
            cores: self.cores.deep_view(),
            is_alias: self.is_alias,
        }
    }
}

impl DeepView for NvmRegion {
    type V = NvmRegionShape;

    open spec fn deep_view(&self) -> NvmRegionShape {
        self.view()
    }
}

impl Clone for NvmRegion {
    fn clone(&self) -> (r: Self)
        ensures
            r@ == self@,
    {
        let cores = clone_cores(&self.cores);
        NvmRegion { range: self.range, cores, is_alias: self.is_alias }
    }
}

/// Clones a core-name list, keeping its contents.
fn clone_cores(cores: &Vec<String>) -> (r: Vec<String>)
    ensures
        r.deep_view() == cores.deep_view(),
{
    let r = cores.clone();
    proof {
        assert forall|i: int| 0 <= i < cores@.len() implies r@[i]@ == cores@[i]@ by {
            assert(cloned(cores@[i], r@[i]));
        }
        assert(r.deep_view() =~= cores.deep_view());
    }
    r
}

/// Mathematical image of a [`MemoryRegion`].
pub enum MemoryRegionShape {
    Ram(AddressRange),
    Generic(AddressRange),
    Nvm(NvmRegionShape),
}

/// One entry of the target's memory map.
pub enum MemoryRegion {
    Ram(AddressRange),
    Generic(AddressRange),
    Nvm(NvmRegion),
}

impl View for MemoryRegion {
    type V = MemoryRegionShape;

    open spec fn view(&self) -> MemoryRegionShape {
        match self {
            MemoryRegion::Ram(r) => MemoryRegionShape::Ram(*r),
            MemoryRegion::Generic(r) => MemoryRegionShape::Generic(*r),
            MemoryRegion::Nvm(n) => MemoryRegionShape::Nvm(n@),
        }
    }
}

impl DeepView for MemoryRegion {
    type V = MemoryRegionShape;

    open spec fn deep_view(&self) -> MemoryRegionShape {
        self.view()
    }
}

/// Whether a memory-map entry is an NVM region that a read must service:
/// the NVM variant, not marked as an alias.
pub open spec fn is_serviceable_nvm(m: MemoryRegionShape) -> bool {
    match m {
        MemoryRegionShape::Nvm(n) => !n.is_alias,
        _ => false,
    }
}

/// The ordered sequence of non-alias NVM regions of a memory map: what the
/// region classifier returns.
pub open spec fn classified(map: Seq<MemoryRegionShape>) -> Seq<NvmRegionShape>
    decreases map.len(),
{
    if map.len() == 0 {
        Seq::empty()
    } else {
        let rest = classified(map.drop_last());
        match map.last() {
            MemoryRegionShape::Nvm(n) => if !n.is_alias {
                rest.push(n)
            } else {
                rest
            },
            _ => rest,
        }
    }
}

/// No region the classifier keeps is an alias: alias regions never reach
/// grouping or dispatch.
pub proof fn lemma_alias_exclusion(map: Seq<MemoryRegionShape>)
    ensures
        forall|i: int| 0 <= i < classified(map).len() ==> !(#[trigger] classified(map)[i]).is_alias,
    decreases map.len(),
{
    if map.len() > 0 {
        lemma_alias_exclusion(map.drop_last());
        let rest = classified(map.drop_last());
        let whole = classified(map);
        assert forall|i: int| 0 <= i < whole.len() implies !(#[trigger] whole[i]).is_alias by {
            if i < rest.len() {
                assert(whole[i] == rest[i]);
            }
        }
    }
}

/// Every region the classifier keeps is a non-alias NVM entry of the map,
/// and every such entry is kept, in map order.
pub proof fn lemma_classified_complete(map: Seq<MemoryRegionShape>, i: int)
    requires
        0 <= i < map.len(),
        is_serviceable_nvm(map[i]),
    ensures
        classified(map).contains(map[i]->Nvm_0),
    decreases map.len(),
{
    if i == map.len() - 1 {
        assert(classified(map).last() == map[i]->Nvm_0);
    } else {
        lemma_classified_complete(map.drop_last(), i);
        let rest = classified(map.drop_last());
        let j = choose|j: int| 0 <= j < rest.len() && rest[j] == map[i]->Nvm_0;
        assert(classified(map)[j] == map[i]->Nvm_0);
    }
}

/// Region classifier: walks the memory map and keeps, in order, the NVM
/// regions that are not aliases.
pub fn nvm_regions(memory_map: &Vec<MemoryRegion>) -> (out: Vec<NvmRegion>)
    ensures
        out.deep_view() == classified(memory_map.deep_view()),
{
    let mut out: Vec<NvmRegion> = Vec::new();
    let ghost full = memory_map.deep_view();
    let mut i: usize = 0;
    while i < memory_map.len()
        invariant
            i <= memory_map.len(),
            full == memory_map.deep_view(),
            out.deep_view() == classified(full.subrange(0, i as int)),
        decreases memory_map.len() - i,
    {
        let ghost prefix = full.subrange(0, i as int);
        let ghost next = full.subrange(0, i + 1 as int);
        proof {
            assert(next.drop_last() =~= prefix);
            assert(next.last() == full[i as int]);
        }
        match &memory_map[i] {
            MemoryRegion::Nvm(region) => {
                if !region.is_alias {
                    out.push(region.clone());
                    proof {
                        assert(out.deep_view() =~= classified(next));
                    }
                } else {
                    proof {
                        assert(out.deep_view() =~= classified(next));
                    }
                }
            },
            _ => {
                proof {
                    assert(out.deep_view() =~= classified(next));
                }
            },
        }
        i = i + 1;
    }
    proof {
        assert(full.subrange(0, full.len() as int) =~= full);
    }
    out
}

} // verus!
