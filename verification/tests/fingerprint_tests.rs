use sha3::{Digest, Sha3_512};
use silicon_trust::fingerprint::{
    check_threshold, derive_key_with_costs, derive_master_key, source_digest, FingerprintError,
    HardwareFingerprint, THRESHOLD, TOTAL_SOURCES,
};

fn fp_with(n: usize) -> HardwareFingerprint {
    let v = |i: usize| if i < n { Some(format!("value{}", i)) } else { None };
    HardwareFingerprint {
        cpuid: v(0),
        smbios_uuid: v(1),
        nic_mac: v(2),
        ssd_serial: v(3),
        tpm_ek: v(4),
        gpu_device_id: v(5),
        dimm_spd: v(6),
        cache_topology: v(7),
        pcie_topology: v(8),
    }
}

#[test]
fn threshold_constants() {
    assert_eq!(TOTAL_SOURCES, 9);
    assert_eq!(THRESHOLD, 7);
}

#[test]
fn present_sources_in_canonical_order() {
    let fp = fp_with(9);
    let labels: Vec<&str> = fp.present_sources().iter().map(|p| p.0).collect();
    assert_eq!(
        labels,
        vec![
            "cpuid", "smbios_uuid", "nic_mac", "ssd_serial", "tpm_ek", "gpu_device_id", "dimm_spd",
            "cache_topology", "pcie_topology"
        ]
    );
    assert_eq!(fp.present_sources()[3], ("ssd_serial", "value3"));
}

#[test]
fn present_sources_skips_missing() {
    let mut fp = fp_with(9);
    fp.nic_mac = None;
    fp.pcie_topology = None;
    let s = fp.present_sources();
    assert_eq!(s.len(), 7);
    assert!(s.iter().all(|p| p.0 != "nic_mac" && p.0 != "pcie_topology"));
    assert_eq!(s[2], ("ssd_serial", "value3"));
}

#[test]
fn present_sources_empty() {
    assert!(fp_with(0).present_sources().is_empty());
}

#[test]
fn check_threshold_counts_sources() {
    assert_eq!(check_threshold(&fp_with(7)), Ok(()));
    assert_eq!(check_threshold(&fp_with(9)), Ok(()));
    assert_eq!(
        check_threshold(&fp_with(6)),
        Err(FingerprintError::BelowThreshold { found: 6, required: 7 })
    );
}

#[test]
fn derive_below_threshold_fails() {
    let r = derive_master_key(&fp_with(5), &[0u8; 16], "");
    match r {
        Err(e) => assert_eq!(e, FingerprintError::BelowThreshold { found: 5, required: 7 }),
        Ok(_) => panic!("derivation should fail"),
    }
}

#[test]
fn fingerprint_error_message() {
    let e = FingerprintError::BelowThreshold { found: 5, required: 7 };
    assert_eq!(e.message(), "Hardware mismatch: 5/7 sources \u{2014} wrong machine");
    let e = FingerprintError::BelowThreshold { found: 0, required: 12 };
    assert_eq!(e.message(), "Hardware mismatch: 0/12 sources \u{2014} wrong machine");
}

#[test]
fn source_digest_is_sha3_of_label_colon_value() {
    let mut h = Sha3_512::new();
    h.update(b"nic_mac");
    h.update(b":");
    h.update(b"aa:bb:cc:dd:ee:ff");
    let expected: [u8; 64] = h.finalize().into();
    assert_eq!(source_digest("nic_mac", "aa:bb:cc:dd:ee:ff"), expected);
}

fn expected_key(fp: &HardwareFingerprint, salt: &[u8; 16], pass: &str, m: u32, t: u32, p: u32) -> [u8; 32] {
    let mut hashes: Vec<[u8; 64]> = fp
        .present_sources()
        .iter()
        .map(|(l, v)| {
            let mut h = Sha3_512::new();
            h.update(l.as_bytes());
            h.update(b":");
            h.update(v.as_bytes());
            h.finalize().into()
        })
        .collect();
    hashes.sort_unstable();
    let mut pool: Vec<u8> = hashes.iter().flatten().copied().collect();
    pool.extend_from_slice(pass.as_bytes());
    let params = argon2::Params::new(m, t, p, Some(32)).unwrap();
    let a = argon2::Argon2::new(argon2::Algorithm::Argon2id, argon2::Version::V0x13, params);
    let mut out = [0u8; 32];
    a.hash_password_into(&pool, salt, &mut out).unwrap();
    out
}

#[test]
fn derive_key_matches_reference_pipeline() {
    let fp = fp_with(8);
    let salt = [5u8; 16];
    let k = derive_key_with_costs(&fp, &salt, "epoch-2025", 64, 1, 1).ok().unwrap();
    assert_eq!(k.0, expected_key(&fp, &salt, "epoch-2025", 64, 1, 1));
}

#[test]
fn derive_key_empty_passphrase() {
    let fp = fp_with(9);
    let salt = [1u8; 16];
    let k = derive_key_with_costs(&fp, &salt, "", 32, 2, 1).ok().unwrap();
    assert_eq!(k.0, expected_key(&fp, &salt, "", 32, 2, 1));
}

#[test]
fn derive_key_depends_on_salt_and_passphrase() {
    let fp = fp_with(9);
    let a = derive_key_with_costs(&fp, &[1u8; 16], "", 32, 1, 1).ok().unwrap();
    let b = derive_key_with_costs(&fp, &[2u8; 16], "", 32, 1, 1).ok().unwrap();
    let c = derive_key_with_costs(&fp, &[1u8; 16], "x", 32, 1, 1).ok().unwrap();
    assert_ne!(a.0, b.0);
    assert_ne!(a.0, c.0);
}

#[test]
fn derive_key_is_deterministic() {
    let fp = fp_with(7);
    let a = derive_key_with_costs(&fp, &[4u8; 16], "p", 16, 1, 1).ok().unwrap();
    let b = derive_key_with_costs(&fp, &[4u8; 16], "p", 16, 1, 1).ok().unwrap();
    assert_eq!(a.0, b.0);
}
