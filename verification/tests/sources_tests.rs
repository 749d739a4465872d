use silicon_trust::sources::{
    cpu_identity, cpuid_cache_topology, dimm_from_table, first_physical_mac, gpu_device_ids,
    join_nonempty, memory_identifier, pci_clean, pcie_topology, trimmed_text, winapi_cache_topology,
    CacheKind, CacheParameters, NetworkAdapter, ProcessorCacheRecord,
};

fn strings(v: &[&str]) -> Vec<String> {
    v.iter().map(|s| s.to_string()).collect()
}

#[test]
fn join_nonempty_parts() {
    assert_eq!(join_nonempty(&strings(&["a", "b", "c"]), "|"), Some("a|b|c".to_string()));
    assert_eq!(join_nonempty(&strings(&["only"]), "|"), Some("only".to_string()));
    assert_eq!(join_nonempty(&Vec::new(), "|"), None);
}

#[test]
fn cpu_identity_all_parts() {
    let r = cpu_identity(
        Some("GenuineIntel".to_string()),
        Some((6, 0x9E, 10)),
        Some("  Intel(R) Core(TM) i7-8700 CPU @ 3.20GHz ".to_string()),
    );
    assert_eq!(
        r,
        Some("GenuineIntel|fam06mod9Estep0A|Intel(R)_Core(TM)_i7-8700_CPU_@_3.20GHz".to_string())
    );
}

#[test]
fn cpu_identity_partial_and_none() {
    assert_eq!(cpu_identity(None, Some((0x19, 1, 2)), None), Some("fam19mod01step02".to_string()));
    assert_eq!(cpu_identity(None, None, None), None);
}

#[test]
fn first_mac_skips_virtual_and_zero() {
    let adapters = vec![
        NetworkAdapter { if_type: 24, address_length: 0, address: [0; 8] },
        NetworkAdapter { if_type: 6, address_length: 6, address: [0; 8] },
        NetworkAdapter { if_type: 6, address_length: 8, address: [1; 8] },
        NetworkAdapter { if_type: 71, address_length: 6, address: [0x0a, 0x1b, 0x2c, 0x3d, 0x4e, 0xff, 9, 9] },
        NetworkAdapter { if_type: 6, address_length: 6, address: [1, 2, 3, 4, 5, 6, 0, 0] },
    ];
    assert_eq!(first_physical_mac(&adapters), Some("0a:1b:2c:3d:4e:ff".to_string()));
    assert_eq!(first_physical_mac(&adapters[..3].to_vec()), None);
}

#[test]
fn trimmed_text_values() {
    assert_eq!(trimmed_text(b"  S3Z9NB0K123456  "), Some("S3Z9NB0K123456".to_string()));
    assert_eq!(trimmed_text(b"ABCDEF\r\n"), Some("ABCDEF".to_string()));
    assert_eq!(trimmed_text(b" \t\n"), None);
    assert_eq!(trimmed_text(b""), None);
    assert_eq!(trimmed_text(b"a\xffb"), Some("a\u{fffd}b".to_string()));
}

#[test]
fn gpu_ids_from_numbered_subkeys() {
    let entries = vec![
        ("0000".to_string(), Some("pci\\ven_10de&dev_1c82".to_string())),
        ("Configuration".to_string(), Some("ignored".to_string())),
        ("0001".to_string(), None),
        ("0002".to_string(), Some("pci\\ven_8086&dev_3e92".to_string())),
    ];
    assert_eq!(
        gpu_device_ids(&entries),
        Some("pci\\ven_10de&dev_1c82|pci\\ven_8086&dev_3e92".to_string())
    );
    assert_eq!(gpu_device_ids(&entries[1..3].to_vec()), None);
}

#[test]
fn dimm_from_firmware_table() {
    let mut t = vec![0u8; 8];
    let mut r = vec![0u8; 40];
    r[0] = 17;
    r[1] = 40;
    r[12] = 0x00;
    r[13] = 0x40;
    r[23] = 1;
    r.extend_from_slice(b"Hynix\0\0");
    t.extend(r);
    assert_eq!(dimm_from_table(&t), Some("Hynix:16384MB".to_string()));
    assert_eq!(dimm_from_table(&[0u8; 7]), None);
}

#[test]
fn memory_identifier_any_case() {
    let ids = strings(&["PNP0A03", "System MEMORY controller", "mem2"]);
    assert_eq!(memory_identifier(&ids), Some("System MEMORY controller".to_string()));
    assert_eq!(memory_identifier(&strings(&["ISA", "PCI"])), None);
}

fn cache(kind: CacheKind, level: u8, ways: usize, sets: usize) -> CacheParameters {
    CacheParameters { kind, level, associativity: ways, partitions: 1, line_size: 64, sets }
}

#[test]
fn cpuid_cache_entries_sorted() {
    let caches = vec![
        cache(CacheKind::Unified, 3, 16, 12288),
        cache(CacheKind::Data, 1, 8, 64),
        cache(CacheKind::Null, 0, 0, 0),
        cache(CacheKind::Instruction, 1, 8, 64),
        cache(CacheKind::Unified, 2, 4, 1024),
    ];
    assert_eq!(
        cpuid_cache_topology(&caches),
        Some("L1D:32KB:8way|L1I:32KB:8way|L2U:256KB:4way|L3U:12288KB:16way".to_string())
    );
    assert_eq!(cpuid_cache_topology(&vec![cache(CacheKind::Reserved, 1, 1, 1)]), None);
}

#[test]
fn winapi_cache_entries_sorted() {
    let recs = vec![
        ProcessorCacheRecord { relationship: 3, level: 2, size: 262144 },
        ProcessorCacheRecord { relationship: 0, level: 9, size: 9 },
        ProcessorCacheRecord { relationship: 3, level: 1, size: 32768 },
        ProcessorCacheRecord { relationship: 3, level: 1, size: 32768 },
    ];
    assert_eq!(winapi_cache_topology(&recs), Some("L1:32KB|L1:32KB|L2:256KB".to_string()));
    assert_eq!(winapi_cache_topology(&Vec::new()), None);
}

#[test]
fn pci_name_reduced_to_ids() {
    assert_eq!(pci_clean("VEN_8086&DEV_A370&SUBSYS_00748086&REV_10"), "VEN_8086:DEV_A370");
    assert_eq!(pci_clean("SOMETHING"), "");
    assert_eq!(pci_clean(""), "");
    assert_eq!(pci_clean("DEV_1&&VEN_2"), "DEV_1:VEN_2");
}

#[test]
fn pcie_topology_sorted_unique() {
    let names = strings(&[
        "VEN_8086&DEV_A370&SUBSYS_00748086&REV_10",
        "VEN_10DE&DEV_1C82&SUBSYS_0",
        "ROOT",
        "VEN_8086&DEV_A370&SUBSYS_11111111&REV_11",
    ]);
    assert_eq!(
        pcie_topology(&names),
        Some("VEN_10DE:DEV_1C82|VEN_8086:DEV_A370".to_string())
    );
    assert_eq!(pcie_topology(&strings(&["ROOT", "ACPI"])), None);
}

#[test]
fn unknown_cache_kinds_are_not_sized() {
    let caches = vec![
        CacheParameters { kind: CacheKind::Null, level: 0, associativity: usize::MAX, partitions: usize::MAX, line_size: 2, sets: 2 },
        cache(CacheKind::Data, 1, 8, 64),
    ];
    assert_eq!(cpuid_cache_topology(&caches), Some("L1D:32KB:8way".to_string()));
}
