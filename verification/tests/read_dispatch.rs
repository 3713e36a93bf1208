use flash_read::dispatch::{dispatch_steps, FlasherStep};
use flash_read::error::FlashError;
use flash_read::region::{AddressRange, MemoryRegion, NvmRegion};
use flash_read::target::{FlashAlgorithm, Target};

fn range(start: u64, end: u64) -> AddressRange {
    AddressRange { start, end }
}

fn nvm(start: u64, end: u64, cores: &[&str], is_alias: bool) -> NvmRegion {
    NvmRegion {
        range: range(start, end),
        cores: cores.iter().map(|c| c.to_string()).collect(),
        is_alias,
    }
}

fn algo(name: &str, start: u64, end: u64) -> FlashAlgorithm {
    FlashAlgorithm { name: name.to_string(), address_range: range(start, end) }
}

/// A two-bank, two-core target whose banks need different algorithms.
fn dual_bank_target() -> Target {
    Target {
        memory_map: vec![
            MemoryRegion::Ram(range(0x2000_0000, 0x2001_0000)),
            MemoryRegion::Nvm(nvm(0x0800_0000, 0x0810_0000, &["core0"], false)),
            MemoryRegion::Nvm(nvm(0x0900_0000, 0x0910_0000, &["core1"], false)),
        ],
        flash_algorithms: vec![
            algo("bank0_loader", 0x0800_0000, 0x0810_0000),
            algo("bank1_loader", 0x0900_0000, 0x0910_0000),
        ],
        cores: vec!["core0".to_string(), "core1".to_string()],
    }
}

#[test]
fn alias_region_never_reaches_a_group() {
    let target = Target {
        memory_map: vec![
            MemoryRegion::Nvm(nvm(0x0800_0000, 0x0810_0000, &["core0"], false)),
            MemoryRegion::Nvm(nvm(0x1800_0000, 0x1810_0000, &["core0"], true)),
        ],
        flash_algorithms: vec![
            algo("loader", 0x0800_0000, 0x0810_0000),
            algo("alias_loader", 0x1800_0000, 0x1810_0000),
        ],
        cores: vec!["core0".to_string()],
    };
    let plan = target.read_plan().unwrap();
    assert_eq!(plan.groups.len(), 1);
    assert_eq!(plan.groups[0].group.algo_name, "loader");
    assert_eq!(plan.groups[0].group.regions.len(), 1);
    assert_eq!(plan.groups[0].group.regions[0].range.start, 0x0800_0000);
    // the alias bank triggers no dispatched read either
    let steps = dispatch_steps(&plan, 0x1800_0010);
    assert_eq!(steps.len(), 3);
}

#[test]
fn ram_and_generic_regions_are_not_serviced() {
    let target = Target {
        memory_map: vec![
            MemoryRegion::Ram(range(0x2000_0000, 0x2001_0000)),
            MemoryRegion::Generic(range(0x4000_0000, 0x4000_1000)),
        ],
        flash_algorithms: vec![],
        cores: vec!["core0".to_string()],
    };
    let plan = target.read_plan().unwrap();
    assert_eq!(plan.groups.len(), 0);
    assert!(dispatch_steps(&plan, 0x0).is_empty());
}

#[test]
fn uncovered_region_reports_no_flash_algorithm() {
    let target = Target {
        memory_map: vec![MemoryRegion::Nvm(nvm(0x0800_0000, 0x0810_0000, &["core0"], false))],
        flash_algorithms: vec![algo("elsewhere", 0x0900_0000, 0x0910_0000)],
        cores: vec!["core0".to_string()],
    };
    match target.read_plan() {
        Err(FlashError::NoFlashAlgorithm) => {}
        _ => panic!("expected NoFlashAlgorithm"),
    }
}

#[test]
fn empty_core_list_reports_no_nvm_core_access_with_that_region() {
    let target = Target {
        memory_map: vec![
            MemoryRegion::Nvm(nvm(0x0800_0000, 0x0810_0000, &["core0"], false)),
            MemoryRegion::Nvm(nvm(0x0900_0000, 0x0910_0000, &[], false)),
        ],
        flash_algorithms: vec![
            algo("bank0_loader", 0x0800_0000, 0x0810_0000),
            algo("bank1_loader", 0x0900_0000, 0x0910_0000),
        ],
        cores: vec!["core0".to_string()],
    };
    match target.read_plan() {
        Err(FlashError::NoNvmCoreAccess(region)) => {
            assert_eq!(region.range.start, 0x0900_0000);
            assert_eq!(region.range.end, 0x0910_0000);
            assert!(region.cores.is_empty());
            assert!(!region.is_alias);
        }
        _ => panic!("expected NoNvmCoreAccess"),
    }
}

#[test]
fn missing_algorithm_takes_precedence_within_a_region() {
    // one region both uncovered and without cores: the algorithm gap is
    // reported, as coverage is checked before core access
    let target = Target {
        memory_map: vec![MemoryRegion::Nvm(nvm(0x0800_0000, 0x0810_0000, &[], false))],
        flash_algorithms: vec![],
        cores: vec![],
    };
    match target.read_plan() {
        Err(FlashError::NoFlashAlgorithm) => {}
        _ => panic!("expected NoFlashAlgorithm"),
    }
}

#[test]
fn regions_sharing_algorithm_and_core_land_in_one_group() {
    let target = Target {
        memory_map: vec![
            MemoryRegion::Nvm(nvm(0x0800_0000, 0x0804_0000, &["core0"], false)),
            MemoryRegion::Nvm(nvm(0x0804_0000, 0x0808_0000, &["core0"], false)),
        ],
        flash_algorithms: vec![algo("loader", 0x0800_0000, 0x0810_0000)],
        cores: vec!["core0".to_string()],
    };
    let plan = target.read_plan().unwrap();
    assert_eq!(plan.groups.len(), 1);
    let group = &plan.groups[0].group;
    assert_eq!(group.algo_name, "loader");
    assert_eq!(group.core_name, "core0");
    // both regions, in memory-map order
    assert_eq!(group.regions.len(), 2);
    assert_eq!(group.regions[0].range.start, 0x0800_0000);
    assert_eq!(group.regions[1].range.start, 0x0804_0000);
}

#[test]
fn distinct_pairs_split_into_groups_in_first_seen_order() {
    let target = Target {
        memory_map: vec![
            MemoryRegion::Nvm(nvm(0x0900_0000, 0x0904_0000, &["core1"], false)),
            MemoryRegion::Nvm(nvm(0x0800_0000, 0x0804_0000, &["core0"], false)),
            MemoryRegion::Nvm(nvm(0x0904_0000, 0x0908_0000, &["core1"], false)),
        ],
        flash_algorithms: vec![
            algo("bank0_loader", 0x0800_0000, 0x0810_0000),
            algo("bank1_loader", 0x0900_0000, 0x0910_0000),
        ],
        cores: vec!["core0".to_string(), "core1".to_string()],
    };
    let plan = target.read_plan().unwrap();
    assert_eq!(plan.groups.len(), 2);
    let first = &plan.groups[0];
    let second = &plan.groups[1];
    assert_eq!(first.group.algo_name, "bank1_loader");
    assert_eq!(first.group.core_name, "core1");
    assert_eq!(first.group.regions.len(), 2);
    assert_eq!(first.group.regions[0].range.start, 0x0900_0000);
    assert_eq!(first.group.regions[1].range.start, 0x0904_0000);
    assert_eq!(second.group.algo_name, "bank0_loader");
    assert_eq!(second.group.core_name, "core0");
    assert_eq!(second.group.regions.len(), 1);
    // bindings point back into the target description
    assert_eq!(first.algo_index, 1);
    assert_eq!(first.core_index, 1);
    assert_eq!(second.algo_index, 0);
    assert_eq!(second.core_index, 0);
}

#[test]
fn same_algorithm_on_different_cores_makes_two_groups() {
    let target = Target {
        memory_map: vec![
            MemoryRegion::Nvm(nvm(0x0800_0000, 0x0804_0000, &["core0"], false)),
            MemoryRegion::Nvm(nvm(0x0804_0000, 0x0808_0000, &["core1"], false)),
        ],
        flash_algorithms: vec![algo("loader", 0x0800_0000, 0x0810_0000)],
        cores: vec!["core0".to_string(), "core1".to_string()],
    };
    let plan = target.read_plan().unwrap();
    assert_eq!(plan.groups.len(), 2);
    assert_eq!(plan.groups[0].group.core_name, "core0");
    assert_eq!(plan.groups[1].group.core_name, "core1");
    assert_eq!(plan.groups[0].algo_index, 0);
    assert_eq!(plan.groups[1].algo_index, 0);
}

#[test]
fn first_listed_core_is_selected() {
    let target = Target {
        memory_map: vec![
            MemoryRegion::Nvm(nvm(0x0800_0000, 0x0810_0000, &["core1", "core0"], false)),
        ],
        flash_algorithms: vec![algo("loader", 0x0800_0000, 0x0810_0000)],
        cores: vec!["core0".to_string(), "core1".to_string()],
    };
    let plan = target.read_plan().unwrap();
    assert_eq!(plan.groups[0].group.core_name, "core1");
    assert_eq!(plan.groups[0].core_index, 1);
}

#[test]
fn first_covering_algorithm_is_selected() {
    let target = Target {
        memory_map: vec![MemoryRegion::Nvm(nvm(0x0800_0000, 0x0804_0000, &["core0"], false))],
        flash_algorithms: vec![
            algo("narrow_loader", 0x0800_0000, 0x0808_0000),
            algo("wide_loader", 0x0000_0000, 0xffff_ffff),
        ],
        cores: vec!["core0".to_string()],
    };
    let plan = target.read_plan().unwrap();
    assert_eq!(plan.groups[0].group.algo_name, "narrow_loader");
    assert_eq!(plan.groups[0].algo_index, 0);
}

#[test]
fn single_group_dispatches_exactly_one_read_at_the_callers_address() {
    let target = Target {
        memory_map: vec![MemoryRegion::Nvm(nvm(0x0800_0000, 0x0810_0000, &["core0"], false))],
        flash_algorithms: vec![algo("loader", 0x0800_0000, 0x0810_0000)],
        cores: vec!["core0".to_string()],
    };
    let plan = target.read_plan().unwrap();
    assert_eq!(plan.groups.len(), 1);
    let steps = dispatch_steps(&plan, 0x0800_1234);
    assert_eq!(
        steps,
        vec![
            FlasherStep::Open { group: 0 },
            FlasherStep::ReadVerify { address: 0x0800_1234 },
            FlasherStep::Close { group: 0 },
        ]
    );
}

#[test]
fn two_groups_each_read_the_same_callers_address() {
    // the documented redundancy: every group's session is asked to read the
    // caller's absolute address, whichever group's regions hold it
    let plan = dual_bank_target().read_plan().unwrap();
    assert_eq!(plan.groups.len(), 2);
    let address = 0x0800_0040;
    let steps = dispatch_steps(&plan, address);
    assert_eq!(steps.len(), 6);
    let reads: Vec<&FlasherStep> = steps
        .iter()
        .filter(|s| matches!(s, FlasherStep::ReadVerify { .. }))
        .collect();
    assert_eq!(reads.len(), 2);
    for read in reads {
        assert_eq!(*read, FlasherStep::ReadVerify { address });
    }
}

#[test]
fn every_close_precedes_the_next_open() {
    let target = Target {
        memory_map: vec![
            MemoryRegion::Nvm(nvm(0x0800_0000, 0x0804_0000, &["core0"], false)),
            MemoryRegion::Nvm(nvm(0x0900_0000, 0x0904_0000, &["core0"], false)),
            MemoryRegion::Nvm(nvm(0x0a00_0000, 0x0a04_0000, &["core1"], false)),
        ],
        flash_algorithms: vec![
            algo("bank0_loader", 0x0800_0000, 0x0810_0000),
            algo("bank1_loader", 0x0900_0000, 0x0910_0000),
            algo("bank2_loader", 0x0a00_0000, 0x0a10_0000),
        ],
        cores: vec!["core0".to_string(), "core1".to_string()],
    };
    let plan = target.read_plan().unwrap();
    assert_eq!(plan.groups.len(), 3);
    let steps = dispatch_steps(&plan, 0x0800_0000);
    let mut open = false;
    for step in &steps {
        match step {
            FlasherStep::Open { .. } => {
                assert!(!open, "a session was opened while another was open");
                open = true;
            }
            FlasherStep::ReadVerify { .. } => assert!(open),
            FlasherStep::Close { .. } => {
                assert!(open);
                open = false;
            }
        }
    }
    assert!(!open);
}

#[test]
fn groups_partition_the_filtered_regions() {
    // four serviceable regions over two (algorithm, core) pairs: every
    // region lands in exactly one group, none lost, none duplicated
    let target = Target {
        memory_map: vec![
            MemoryRegion::Nvm(nvm(0x0800_0000, 0x0801_0000, &["core0"], false)),
            MemoryRegion::Nvm(nvm(0x0900_0000, 0x0901_0000, &["core1"], false)),
            MemoryRegion::Ram(range(0x2000_0000, 0x2001_0000)),
            MemoryRegion::Nvm(nvm(0x0801_0000, 0x0802_0000, &["core0"], false)),
            MemoryRegion::Nvm(nvm(0x0901_0000, 0x0902_0000, &["core1"], false)),
        ],
        flash_algorithms: vec![
            algo("bank0_loader", 0x0800_0000, 0x0810_0000),
            algo("bank1_loader", 0x0900_0000, 0x0910_0000),
        ],
        cores: vec!["core0".to_string(), "core1".to_string()],
    };
    let plan = target.read_plan().unwrap();
    let mut starts: Vec<u64> = plan
        .groups
        .iter()
        .flat_map(|entry| entry.group.regions.iter().map(|r| r.range.start))
        .collect();
    starts.sort();
    assert_eq!(starts, vec![0x0800_0000, 0x0801_0000, 0x0900_0000, 0x0901_0000]);
}

#[test]
fn planning_failure_dispatches_nothing() {
    let target = Target {
        memory_map: vec![MemoryRegion::Nvm(nvm(0x0800_0000, 0x0810_0000, &["core0"], false))],
        flash_algorithms: vec![],
        cores: vec!["core0".to_string()],
    };
    assert!(target.read_plan().is_err());
}
