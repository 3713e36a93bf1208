use flash_read::error::FlashError;
use flash_read::region::{AddressRange, MemoryRegion, NvmRegion};
use flash_read::target::{FlashAlgorithm, Target};

fn range(start: u64, end: u64) -> AddressRange {
    AddressRange { start, end }
}

fn named_target() -> Target {
    Target {
        memory_map: vec![],
        flash_algorithms: vec![
            FlashAlgorithm { name: "first".to_string(), address_range: range(0, 0x100) },
            FlashAlgorithm { name: "second".to_string(), address_range: range(0x100, 0x200) },
        ],
        cores: vec!["main".to_string(), "aux".to_string()],
    }
}

#[test]
fn contains_range_accepts_exact_and_inner_spans() {
    let outer = range(0x100, 0x200);
    assert!(outer.contains_range(&range(0x100, 0x200)));
    assert!(outer.contains_range(&range(0x140, 0x180)));
    assert!(!outer.contains_range(&range(0x0ff, 0x180)));
    assert!(!outer.contains_range(&range(0x140, 0x201)));
}

#[test]
fn flash_algorithm_by_name_finds_each_entry() {
    let target = named_target();
    assert_eq!(target.flash_algorithm_by_name(&"first".to_string()), Some(0));
    assert_eq!(target.flash_algorithm_by_name(&"second".to_string()), Some(1));
    assert_eq!(target.flash_algorithm_by_name(&"third".to_string()), None);
}

#[test]
fn core_index_by_name_finds_each_entry() {
    let target = named_target();
    assert_eq!(target.core_index_by_name(&"main".to_string()), Some(0));
    assert_eq!(target.core_index_by_name(&"aux".to_string()), Some(1));
    assert_eq!(target.core_index_by_name(&"missing".to_string()), None);
}

#[test]
fn errors_describe_themselves() {
    assert_eq!(
        FlashError::NoFlashAlgorithm.describe(),
        "no flash algorithm covers an NVM region"
    );
    let region = NvmRegion { range: range(0, 8), cores: vec![], is_alias: false };
    assert_eq!(
        FlashError::NoNvmCoreAccess(region).describe(),
        "no core may access an NVM region"
    );
}

#[test]
fn region_clone_keeps_contents() {
    let region = NvmRegion {
        range: range(0x10, 0x20),
        cores: vec!["a".to_string(), "b".to_string()],
        is_alias: true,
    };
    let copy = region.clone();
    assert_eq!(copy.range, region.range);
    assert_eq!(copy.cores, region.cores);
    assert_eq!(copy.is_alias, region.is_alias);
}

#[test]
fn memory_map_order_is_kept_through_classification() {
    let target = Target {
        memory_map: vec![
            MemoryRegion::Nvm(NvmRegion {
                range: range(0x300, 0x400),
                cores: vec!["main".to_string()],
                is_alias: false,
            }),
            MemoryRegion::Ram(range(0x1000, 0x2000)),
            MemoryRegion::Nvm(NvmRegion {
                range: range(0x100, 0x200),
                cores: vec!["main".to_string()],
                is_alias: false,
            }),
        ],
        flash_algorithms: vec![FlashAlgorithm {
            name: "loader".to_string(),
            address_range: range(0, 0x1000),
        }],
        cores: vec!["main".to_string()],
    };
    let plan = target.read_plan().unwrap();
    assert_eq!(plan.groups.len(), 1);
    let regions = &plan.groups[0].group.regions;
    assert_eq!(regions.len(), 2);
    assert_eq!(regions[0].range.start, 0x300);
    assert_eq!(regions[1].range.start, 0x100);
}
