//! Target-description model: flash algorithms, cores, and the closed-world
//! invariant that makes dispatch-time name lookups infallible.

use vstd::prelude::*;
use crate::region::{AddressRange, MemoryRegion, MemoryRegionShape, NvmRegionShape, classified};

verus! {

/// Mathematical image of a [`FlashAlgorithm`].
pub struct FlashAlgorithmShape {
    pub name: Seq<char>,
    pub address_range: AddressRange,
}

/// A flash algorithm of the target description, identified by name and
/// capable of servicing one span of addresses.
pub struct FlashAlgorithm {
    pub name: String,
    pub address_range: AddressRange,
}

impl View for FlashAlgorithm {
    type V = FlashAlgorithmShape;

    open spec fn view(&self) -> FlashAlgorithmShape {
        FlashAlgorithmShape { name: self.name@, address_range: self.address_range }
    }
}

impl DeepView for FlashAlgorithm {
    type V = FlashAlgorithmShape;

    open spec fn deep_view(&self) -> FlashAlgorithmShape {
        self.view()
    }
}

/// Whether `algo` can service every address of `region`.
pub open spec fn covers(algo: FlashAlgorithmShape, region: NvmRegionShape) -> bool {
    algo.address_range.spec_contains_range(region.range)
}

/// Mathematical image of a [`Target`].
pub struct TargetShape {
    pub memory_map: Seq<MemoryRegionShape>,
    pub flash_algorithms: Seq<FlashAlgorithmShape>,
    pub cores: Seq<Seq<char>>,
}

impl TargetShape {
    /// The non-alias NVM regions of the memory map, in map order.
    pub open spec fn nvm_regions(self) -> Seq<NvmRegionShape> {
        classified(self.memory_map)
    }

    /// Closed-world invariant of a target description: algorithm names are
    /// unambiguous, and every core name an NVM region lists belongs to a core
    /// of the same target. Lookups by a name that originated from the
    /// description itself therefore cannot fail.
    pub open spec fn wf(self) -> bool {
        &&& forall|i: int, j: int|
            0 <= i < j < self.flash_algorithms.len()
                ==> (#[trigger] self.flash_algorithms[i]).name
                    != (#[trigger] self.flash_algorithms[j]).name
        &&& forall|i: int, c: int|
            0 <= i < self.nvm_regions().len() && 0 <= c < self.nvm_regions()[i].cores.len()
                ==> self.cores.contains(#[trigger] self.nvm_regions()[i].cores[c])
    }
}

/// The target description: its memory map, the flash algorithms it ships,
/// and the names of its cores (a core's index is its position here).
pub struct Target {
    pub memory_map: Vec<MemoryRegion>,
    pub flash_algorithms: Vec<FlashAlgorithm>,
    pub cores: Vec<String>,
}

impl View for Target {
    type V = TargetShape;

    open spec fn view(&self) -> TargetShape {
        TargetShape {
            memory_map: self.memory_map.deep_view(),
            flash_algorithms: self.flash_algorithms.deep_view(),
            cores: self.cores.deep_view(),
        }
    }
}

impl Target {
    /// The index of the flash algorithm with the given name, if any: names
    /// are the stable identifiers a group carries between resolution and
    /// dispatch.
    pub fn flash_algorithm_by_name(&self, name: &String) -> (r: Option<usize>)
        ensures
            match r {
                Some(j) => j < self@.flash_algorithms.len() && self@.flash_algorithms[j as int].name
                    == name@ && forall|k: int|
                    0 <= k < j ==> (#[trigger] self@.flash_algorithms[k]).name != name@,
                None => forall|k: int|
                    0 <= k < self@.flash_algorithms.len()
                        ==> (#[trigger] self@.flash_algorithms[k]).name != name@,
            },
    {
        let mut j: usize = 0;
        while j < self.flash_algorithms.len()
            invariant
                j <= self@.flash_algorithms.len(),
                self@.flash_algorithms.len() == self.flash_algorithms@.len(),
                forall|k: int|
                    0 <= k < j ==> (#[trigger] self@.flash_algorithms[k]).name != name@,
            decreases self.flash_algorithms.len() - j,
        {
            proof {
                assert(self@.flash_algorithms[j as int] == self.flash_algorithms@[j as int]@);
            }
            if self.flash_algorithms[j].name == *name {
                return Some(j);
            }
            j = j + 1;
        }
        None
    }

    /// The index of the core with the given name, if any.
    pub fn core_index_by_name(&self, name: &String) -> (r: Option<usize>)
        ensures
            match r {
                Some(j) => j < self@.cores.len() && self@.cores[j as int] == name@
                    && forall|k: int| 0 <= k < j ==> #[trigger] self@.cores[k] != name@,
                None => forall|k: int|
                    0 <= k < self@.cores.len() ==> #[trigger] self@.cores[k] != name@,
            },
    {
        let mut j: usize = 0;
        while j < self.cores.len()
            invariant
                j <= self@.cores.len(),
                self@.cores.len() == self.cores@.len(),
                forall|k: int| 0 <= k < j ==> #[trigger] self@.cores[k] != name@,
            decreases self.cores.len() - j,
        {
            proof {
                assert(self@.cores[j as int] == self.cores@[j as int]@);
            }
            if self.cores[j] == *name {
                return Some(j);
            }
            j = j + 1;
        }
        None
    }
}

} // verus!
