//! The hardware fingerprint, its K-of-N threshold, and the derivation of the
//! 256-bit master key from it with SHA3-512 and Argon2id.

use vstd::prelude::*;
use vstd::utf8::encode_utf8;
use crate::order::{digest_views, lex_order, sort_digests};
use crate::outside::{argon2id_hash, argon2id_tag, sha3_512, sha3_512_digest, wipe_byte_vec, wipe_key_bytes};
use crate::text::{push_decimal, spec_decimal};

verus! {

/// Number of hardware sources a fingerprint has room for.
pub const TOTAL_SOURCES: usize = 9;
/// Number of present sources that a key derivation requires.
pub const THRESHOLD: usize = 7;
/// Argon2id memory cost in KiB (512 MiB).
pub const ARGON2_M_COST: u32 = 524288;
/// Argon2id number of passes.
pub const ARGON2_T_COST: u32 = 4;
/// Argon2id number of lanes (single-threaded, for determinism).
pub const ARGON2_P_COST: u32 = 1;

/// The identifiers collected from the machine, each absent when unavailable.
#[derive(Debug, Clone)]
pub struct HardwareFingerprint {
    /// CPU vendor, family/model/stepping and brand.
    pub cpuid: Option<String>,
    /// Machine GUID and firmware/board identity.
    pub smbios_uuid: Option<String>,
    /// MAC address of the first physical network adapter.
    pub nic_mac: Option<String>,
    /// Serial number of the primary drive.
    pub ssd_serial: Option<String>,
    /// TPM endorsement key.
    pub tpm_ek: Option<String>,
    /// GPU device ids.
    pub gpu_device_id: Option<String>,
    /// Memory modules: manufacturer, part, serial, size.
    pub dimm_spd: Option<String>,
    /// Cache levels, sizes and associativity.
    pub cache_topology: Option<String>,
    /// Sorted PCI vendor/device ids.
    pub pcie_topology: Option<String>,
}

/// The 256-bit derived key.
pub struct DerivedKey(pub [u8; 32]);

impl Drop for DerivedKey {
    /// Wipes the key bytes when the key goes out of scope.
    fn drop(&mut self)
        ensures
            final(self).0@ == Seq::new(32, |i: int| 0u8),
        opens_invariants none
        no_unwind
    {
        wipe_key_bytes(&mut self.0);
    }
}

/// Why a key could not be derived.
#[derive(Debug, Clone, Copy, PartialEq, Eq, Structural)]
pub enum FingerprintError {
    BelowThreshold { found: usize, required: usize },
}

/// A labelled source as a list of zero or one (label, value) pair.
pub open spec fn source_pair(label: Seq<char>, field: Option<String>) -> Seq<(Seq<char>, Seq<char>)> {
    match field {
        Some(v) => seq![(label, v@)],
        None => Seq::empty(),
    }
}

/// The contents of a list of (label, value) pairs.
pub open spec fn pair_views(v: Seq<(&str, &str)>) -> Seq<(Seq<char>, Seq<char>)> {
    v.map_values(|p: (&str, &str)| (p.0@, p.1@))
}

impl HardwareFingerprint {
    /// The present sources with their labels, in the canonical order.
    pub open spec fn spec_present_sources(&self) -> Seq<(Seq<char>, Seq<char>)> {
        source_pair("cpuid"@, self.cpuid) + source_pair("smbios_uuid"@, self.smbios_uuid)
            + source_pair("nic_mac"@, self.nic_mac) + source_pair("ssd_serial"@, self.ssd_serial)
            + source_pair("tpm_ek"@, self.tpm_ek) + source_pair("gpu_device_id"@, self.gpu_device_id)
            + source_pair("dimm_spd"@, self.dimm_spd) + source_pair("cache_topology"@, self.cache_topology)
            + source_pair("pcie_topology"@, self.pcie_topology)
    }

    /// How many of the nine sources are present.
    pub open spec fn present_count(&self) -> nat {
        (if self.cpuid is Some { 1nat } else { 0nat }) + (if self.smbios_uuid is Some { 1nat } else { 0nat })
            + (if self.nic_mac is Some { 1nat } else { 0nat }) + (if self.ssd_serial is Some { 1nat } else { 0nat })
            + (if self.tpm_ek is Some { 1nat } else { 0nat }) + (if self.gpu_device_id is Some { 1nat } else { 0nat })
            + (if self.dimm_spd is Some { 1nat } else { 0nat }) + (if self.cache_topology is Some { 1nat } else { 0nat })
            + (if self.pcie_topology is Some { 1nat } else { 0nat })
    }

    /// The present sources as (label, value) pairs, in the canonical order:
    /// cpuid, smbios_uuid, nic_mac, ssd_serial, tpm_ek, gpu_device_id,
    /// dimm_spd, cache_topology, pcie_topology.
    pub fn present_sources(&self) -> (res: Vec<(&'static str, &str)>)
        ensures
            pair_views(res@) == self.spec_present_sources(),
            res@.len() == self.present_count(),
            carries(pair_views(res@), "cpuid"@, self.cpuid),
            carries(pair_views(res@), "smbios_uuid"@, self.smbios_uuid),
            carries(pair_views(res@), "nic_mac"@, self.nic_mac),
            carries(pair_views(res@), "ssd_serial"@, self.ssd_serial),
            carries(pair_views(res@), "tpm_ek"@, self.tpm_ek),
            carries(pair_views(res@), "gpu_device_id"@, self.gpu_device_id),
            carries(pair_views(res@), "dimm_spd"@, self.dimm_spd),
            carries(pair_views(res@), "cache_topology"@, self.cache_topology),
            carries(pair_views(res@), "pcie_topology"@, self.pcie_topology),
            forall|i: int, j: int|
                0 <= i < j < res@.len() ==> label_rank(pair_views(res@)[i].0) < label_rank(
                    pair_views(res@)[j].0,
                ),
    {
        let mut s: Vec<(&'static str, &str)> = Vec::new();
        assert(pair_views(s@) =~= Seq::empty());
        push_present(&mut s, "cpuid", &self.cpuid);
        push_present(&mut s, "smbios_uuid", &self.smbios_uuid);
        push_present(&mut s, "nic_mac", &self.nic_mac);
        push_present(&mut s, "ssd_serial", &self.ssd_serial);
        push_present(&mut s, "tpm_ek", &self.tpm_ek);
        push_present(&mut s, "gpu_device_id", &self.gpu_device_id);
        push_present(&mut s, "dimm_spd", &self.dimm_spd);
        push_present(&mut s, "cache_topology", &self.cache_topology);
        push_present(&mut s, "pcie_topology", &self.pcie_topology);
        assert(pair_views(s@) =~= self.spec_present_sources());
        proof {
            lemma_present_sources_carry_fields(*self);
        }
        s
    }
}

/// The pairs `r` carry field `field` under `label`: a pair with that label
/// exists exactly when the field holds a value, and then holds that value.
pub open spec fn carries(r: Seq<(Seq<char>, Seq<char>)>, label: Seq<char>, field: Option<String>) -> bool {
    &&& forall|i: int| 0 <= i < r.len() && #[trigger] r[i].0 == label ==> (field matches Some(v) && r[i].1 == v@)
    &&& (field matches Some(v) ==> exists|i: int| 0 <= i < r.len() && #[trigger] r[i] == (label, v@))
}

/// The place of a source label in the canonical order (9 for any other text).
pub open spec fn label_rank(label: Seq<char>) -> int {
    if label == "cpuid"@ {
        0
    } else if label == "smbios_uuid"@ {
        1
    } else if label == "nic_mac"@ {
        2
    } else if label == "ssd_serial"@ {
        3
    } else if label == "tpm_ek"@ {
        4
    } else if label == "gpu_device_id"@ {
        5
    } else if label == "dimm_spd"@ {
        6
    } else if label == "cache_topology"@ {
        7
    } else if label == "pcie_topology"@ {
        8
    } else {
        9
    }
}

/// The present entries of a table of labelled fields, in table order.
pub open spec fn present_of(t: Seq<(Seq<char>, Option<String>)>) -> Seq<(Seq<char>, Seq<char>)>
    decreases t.len(),
{
    if t.len() == 0 {
        Seq::empty()
    } else {
        present_of(t.drop_last()) + source_pair(t.last().0, t.last().1)
    }
}

/// In a table whose labels are ranked by their position, the present
/// entries keep the table's order and each carries the value of its field.
proof fn lemma_present_of(t: Seq<(Seq<char>, Option<String>)>, rank: spec_fn(Seq<char>) -> int)
    requires
        forall|k: int| 0 <= k < t.len() ==> rank(#[trigger] t[k].0) == k,
    ensures
        forall|i: int|
            0 <= i < present_of(t).len() ==> 0 <= #[trigger] rank(present_of(t)[i].0) < t.len()
                && t[rank(present_of(t)[i].0)].0 == present_of(t)[i].0 && (t[rank(
                present_of(t)[i].0,
            )].1 matches Some(v) && v@ == present_of(t)[i].1),
        forall|i: int, j: int|
            0 <= i < j < present_of(t).len() ==> #[trigger] rank(present_of(t)[i].0) < #[trigger] rank(
                present_of(t)[j].0,
            ),
        forall|k: int|
            0 <= k < t.len() && (#[trigger] t[k]).1 is Some ==> exists|i: int|
                0 <= i < present_of(t).len() && present_of(t)[i] == (t[k].0, t[k].1->0@),
    decreases t.len(),
{
    if t.len() > 0 {
        let t0 = t.drop_last();
        assert forall|k: int| 0 <= k < t0.len() implies rank(#[trigger] t0[k].0) == k by {
            assert(t0[k] == t[k]);
        }
        lemma_present_of(t0, rank);
        let r0 = present_of(t0);
        let r = present_of(t);
        let n = t.len() - 1;
        assert(t.last() == t[n]);
        assert(rank(t[n].0) == n);
        assert(r == r0 + source_pair(t[n].0, t[n].1));
        assert forall|i: int| 0 <= i < r.len() implies 0 <= #[trigger] rank(r[i].0) < t.len() && t[rank(
            r[i].0,
        )].0 == r[i].0 && (t[rank(r[i].0)].1 matches Some(v) && v@ == r[i].1) by {
            if i < r0.len() {
                assert(r[i] == r0[i]);
                assert(rank(r0[i].0) < t0.len());
                assert(t0[rank(r0[i].0)] == t[rank(r0[i].0)]);
            } else {
                assert(r[i] == (t[n].0, t[n].1->0@));
            }
        }
        assert forall|i: int, j: int| 0 <= i < j < r.len() implies #[trigger] rank(r[i].0) < #[trigger] rank(
            r[j].0,
        ) by {
            if j < r0.len() {
                assert(r[i] == r0[i]);
                assert(r[j] == r0[j]);
                assert(rank(r0[i].0) < rank(r0[j].0));
            } else {
                assert(r[i] == r0[i]);
                assert(rank(r0[i].0) < t0.len());
                assert(r[j] == (t[n].0, t[n].1->0@));
            }
        }
        assert forall|k: int| 0 <= k < t.len() && (#[trigger] t[k]).1 is Some implies exists|i: int|
            0 <= i < r.len() && r[i] == (t[k].0, t[k].1->0@) by {
            if k < n {
                assert(t0[k] == t[k]);
                let i = choose|i: int| 0 <= i < r0.len() && r0[i] == (t0[k].0, t0[k].1->0@);
                assert(r[i] == r0[i]);
            } else {
                assert(r[r0.len() as int] == (t[n].0, t[n].1->0@));
            }
        }
    }
}

/// The present sources of a fingerprint carry, under each label, the value of
/// the field of that name, and come in the canonical order.
pub proof fn lemma_present_sources_carry_fields(fp: HardwareFingerprint)
    ensures
        carries(fp.spec_present_sources(), "cpuid"@, fp.cpuid),
        carries(fp.spec_present_sources(), "smbios_uuid"@, fp.smbios_uuid),
        carries(fp.spec_present_sources(), "nic_mac"@, fp.nic_mac),
        carries(fp.spec_present_sources(), "ssd_serial"@, fp.ssd_serial),
        carries(fp.spec_present_sources(), "tpm_ek"@, fp.tpm_ek),
        carries(fp.spec_present_sources(), "gpu_device_id"@, fp.gpu_device_id),
        carries(fp.spec_present_sources(), "dimm_spd"@, fp.dimm_spd),
        carries(fp.spec_present_sources(), "cache_topology"@, fp.cache_topology),
        carries(fp.spec_present_sources(), "pcie_topology"@, fp.pcie_topology),
        forall|i: int, j: int|
            0 <= i < j < fp.spec_present_sources().len() ==> label_rank(fp.spec_present_sources()[i].0)
                < label_rank(fp.spec_present_sources()[j].0),
{
    reveal_strlit("cpuid");
    reveal_strlit("smbios_uuid");
    reveal_strlit("nic_mac");
    reveal_strlit("ssd_serial");
    reveal_strlit("tpm_ek");
    reveal_strlit("gpu_device_id");
    reveal_strlit("dimm_spd");
    reveal_strlit("cache_topology");
    reveal_strlit("pcie_topology");
    let t = seq![
        ("cpuid"@, fp.cpuid),
        ("smbios_uuid"@, fp.smbios_uuid),
        ("nic_mac"@, fp.nic_mac),
        ("ssd_serial"@, fp.ssd_serial),
        ("tpm_ek"@, fp.tpm_ek),
        ("gpu_device_id"@, fp.gpu_device_id),
        ("dimm_spd"@, fp.dimm_spd),
        ("cache_topology"@, fp.cache_topology),
        ("pcie_topology"@, fp.pcie_topology),
    ];
    let rank = |l: Seq<char>| label_rank(l);
    assert("cpuid"@.len() == 5);
    assert("smbios_uuid"@.len() == 11);
    assert("nic_mac"@.len() == 7);
    assert("ssd_serial"@.len() == 10);
    assert("tpm_ek"@.len() == 6);
    assert("gpu_device_id"@.len() == 13);
    assert("dimm_spd"@.len() == 8);
    assert("cache_topology"@.len() == 14);
    assert("pcie_topology"@.len() == 13);
    assert(label_rank("cpuid"@) == 0);
    assert(label_rank("smbios_uuid"@) == 1);
    assert(label_rank("nic_mac"@) == 2);
    assert(label_rank("ssd_serial"@) == 3);
    assert(label_rank("tpm_ek"@) == 4);
    assert(label_rank("gpu_device_id"@) == 5);
    assert("gpu_device_id"@[0] != "pcie_topology"@[0]);
    assert(label_rank("dimm_spd"@) == 6);
    assert(label_rank("cache_topology"@) == 7);
    assert(label_rank("pcie_topology"@) == 8);
    assert forall|k: int| 0 <= k < t.len() implies rank(#[trigger] t[k].0) == k by {
        if k == 0 {
            assert(t[k].0 == "cpuid"@);
        } else if k == 1 {
            assert(t[k].0 == "smbios_uuid"@);
        } else if k == 2 {
            assert(t[k].0 == "nic_mac"@);
        } else if k == 3 {
            assert(t[k].0 == "ssd_serial"@);
        } else if k == 4 {
            assert(t[k].0 == "tpm_ek"@);
        } else if k == 5 {
            assert(t[k].0 == "gpu_device_id"@);
        } else if k == 6 {
            assert(t[k].0 == "dimm_spd"@);
        } else if k == 7 {
            assert(t[k].0 == "cache_topology"@);
        } else {
            assert(t[k].0 == "pcie_topology"@);
        }
    }
    lemma_present_of(t, rank);
    assert(t.drop_last() =~= t.subrange(0, 8));
    assert(present_of(t) =~= fp.spec_present_sources()) by {
        reveal_with_fuel(present_of, 10);
        assert(t.subrange(0, 8).drop_last() =~= t.subrange(0, 7));
        assert(t.subrange(0, 7).drop_last() =~= t.subrange(0, 6));
        assert(t.subrange(0, 6).drop_last() =~= t.subrange(0, 5));
        assert(t.subrange(0, 5).drop_last() =~= t.subrange(0, 4));
        assert(t.subrange(0, 4).drop_last() =~= t.subrange(0, 3));
        assert(t.subrange(0, 3).drop_last() =~= t.subrange(0, 2));
        assert(t.subrange(0, 2).drop_last() =~= t.subrange(0, 1));
        assert(t.subrange(0, 1).drop_last() =~= t.subrange(0, 0));
    }
    let r = present_of(t);
    assert forall|k: int| 0 <= k < 9 implies carries(r, (#[trigger] t[k]).0, t[k].1) by {
        assert forall|i: int| 0 <= i < r.len() && #[trigger] r[i].0 == t[k].0 implies (t[k].1 matches Some(v)
            && r[i].1 == v@) by {
            assert(rank(r[i].0) == k);
        }
    }
    assert(carries(r, t[0].0, t[0].1));
    assert(carries(r, t[1].0, t[1].1));
    assert(carries(r, t[2].0, t[2].1));
    assert(carries(r, t[3].0, t[3].1));
    assert(carries(r, t[4].0, t[4].1));
    assert(carries(r, t[5].0, t[5].1));
    assert(carries(r, t[6].0, t[6].1));
    assert(carries(r, t[7].0, t[7].1));
    assert(carries(r, t[8].0, t[8].1));
    assert forall|i: int, j: int| 0 <= i < j < r.len() implies label_rank(r[i].0) < label_rank(r[j].0) by {
        assert(rank(r[i].0) < rank(r[j].0));
    }
}

/// Appends `(label, value)` when the field holds a value.
fn push_present<'a>(list: &mut Vec<(&'static str, &'a str)>, label: &'static str, field: &'a Option<String>)
    ensures
        pair_views(final(list)@) == pair_views(old(list)@) + source_pair(label@, *field),
        final(list)@.len() == old(list)@.len() + (if field is Some { 1nat } else { 0nat }),
{
    let ghost before = list@;
    match field {
        Some(v) => {
            list.push((label, v.as_str()));
            assert(pair_views(list@) =~= pair_views(before) + source_pair(label@, *field));
        },
        None => {
            assert(pair_views(list@) =~= pair_views(before) + source_pair(label@, *field));
        },
    }
}

impl FingerprintError {
    /// The text shown to a user for this error.
    pub fn message(&self) -> (res: String)
        ensures
            match *self {
                FingerprintError::BelowThreshold { found, required } => res@ == "Hardware mismatch: "@
                    + spec_decimal(found as nat) + "/"@ + spec_decimal(required as nat)
                    + " sources \u{2014} wrong machine"@,
            },
    {
        match self {
            FingerprintError::BelowThreshold { found, required } => {
                let mut s = String::new();
                s.append("Hardware mismatch: ");
                push_decimal(&mut s, *found as u64);
                s.append("/");
                push_decimal(&mut s, *required as u64);
                s.append(" sources \u{2014} wrong machine");
                s
            },
        }
    }
}

/// The threshold check: enough sources, or the count that was found.
pub open spec fn spec_check_threshold(found: nat) -> Result<(), FingerprintError> {
    if found < THRESHOLD {
        Err(FingerprintError::BelowThreshold { found: found as usize, required: THRESHOLD })
    } else {
        Ok(())
    }
}

/// Checks that at least `THRESHOLD` of the sources are present.
pub fn check_threshold(fp: &HardwareFingerprint) -> (res: Result<(), FingerprintError>)
    ensures
        res == spec_check_threshold(fp.present_count()),
{
    let n = fp.present_sources().len();
    if n < THRESHOLD {
        Err(FingerprintError::BelowThreshold { found: n, required: THRESHOLD })
    } else {
        Ok(())
    }
}

/// The bytes hashed for one source: `label`, a colon, then `value`, in UTF-8.
pub open spec fn source_preimage(label: Seq<char>, value: Seq<char>) -> Seq<u8> {
    encode_utf8(label) + seq![58u8] + encode_utf8(value)
}

/// The SHA3-512 digest of one labelled source.
pub open spec fn spec_source_digest(label: Seq<char>, value: Seq<char>) -> Seq<u8> {
    sha3_512_digest(source_preimage(label, value))
}

/// The digests of a list of labelled sources.
pub open spec fn spec_source_digests(pairs: Seq<(Seq<char>, Seq<char>)>) -> Seq<Seq<u8>> {
    pairs.map_values(|p: (Seq<char>, Seq<char>)| spec_source_digest(p.0, p.1))
}

/// The bytes the passphrase adds to the key pool (none when it is empty).
pub open spec fn passphrase_bytes(passphrase: Seq<char>) -> Seq<u8> {
    if passphrase.len() == 0 {
        Seq::empty()
    } else {
        encode_utf8(passphrase)
    }
}

/// The Argon2id password: the source digests in ascending byte order,
/// concatenated, followed by the passphrase.
pub open spec fn spec_key_pool(fp: HardwareFingerprint, passphrase: Seq<char>) -> Seq<u8> {
    spec_source_digests(fp.spec_present_sources()).sort_by(lex_order()).flatten()
        + passphrase_bytes(passphrase)
}

/// The key of a fingerprint, salt and passphrase under the given Argon2id
/// costs, or why there is none.
pub open spec fn spec_derive_key_with_costs(
    fp: HardwareFingerprint,
    salt: Seq<u8>,
    passphrase: Seq<char>,
    m_cost: u32,
    t_cost: u32,
    p_cost: u32,
) -> Result<Seq<u8>, FingerprintError> {
    match spec_check_threshold(fp.present_count()) {
        Err(e) => Err(e),
        Ok(()) => Ok(argon2id_tag(m_cost, t_cost, p_cost, spec_key_pool(fp, passphrase), salt)),
    }
}

/// The master key of a fingerprint, salt and passphrase, or why there is none.
pub open spec fn spec_derive_master_key(fp: HardwareFingerprint, salt: Seq<u8>, passphrase: Seq<char>) -> Result<Seq<u8>, FingerprintError> {
    spec_derive_key_with_costs(fp, salt, passphrase, ARGON2_M_COST, ARGON2_T_COST, ARGON2_P_COST)
}

/// The Argon2id costs are ones that the `argon2` crate accepts.
pub open spec fn valid_costs(m_cost: u32, t_cost: u32, p_cost: u32) -> bool {
    &&& 8 <= m_cost
    &&& 8 * p_cost <= m_cost
    &&& 1 <= t_cost
    &&& 1 <= p_cost <= 0xFF_FFFF
}

/// A key result seen through the key's bytes.
pub open spec fn key_result_view(r: Result<DerivedKey, FingerprintError>) -> Result<Seq<u8>, FingerprintError> {
    match r {
        Ok(k) => Ok(k.0@),
        Err(e) => Err(e),
    }
}

/// Appends the bytes of `s` to `v`.
fn append_bytes(v: &mut Vec<u8>, s: &[u8])
    ensures
        final(v)@ == old(v)@ + s@,
{
    let ghost start = v@;
    let mut i: usize = 0;
    while i < s.len()
        invariant
            0 <= i <= s@.len(),
            v@ == start + s@.take(i as int),
        decreases s@.len() - i,
    {
        v.push(s[i]);
        assert(s@.take(i + 1) =~= s@.take(i as int).push(s@[i as int]));
        i = i + 1;
    }
    assert(s@.take(s@.len() as int) =~= s@);
}

/// The SHA3-512 digest of `label:value`, the contribution of one source.
pub fn source_digest(label: &str, value: &str) -> (res: [u8; 64])
    ensures
        res@ == spec_source_digest(label@, value@),
        res@ == sha3_512_digest(encode_utf8(label@) + seq![58u8] + encode_utf8(value@)),
{
    let mut data: Vec<u8> = Vec::new();
    append_bytes(&mut data, label.as_bytes());
    data.push(58u8);
    append_bytes(&mut data, value.as_bytes());
    assert(data@ =~= source_preimage(label@, value@));
    sha3_512(data.as_slice())
}

/// Derives the 256-bit master key. Each present source is hashed on its own
/// with SHA3-512 (`label:value`); the digests are sorted, concatenated, the
/// passphrase (if not empty) appended, and the result fed to Argon2id
/// (512 MiB, 4 passes, 1 lane) with `salt`. Fails when fewer than
/// `THRESHOLD` sources are present.
pub fn derive_master_key(fp: &HardwareFingerprint, salt: &[u8; 16], passphrase: &str) -> (res: Result<DerivedKey, FingerprintError>)
    requires
        fp.present_count() >= THRESHOLD ==> 64 * fp.present_count() + encode_utf8(passphrase@).len()
            <= 0xFFFF_FFFF,
    ensures
        key_result_view(res) == spec_derive_master_key(*fp, salt@, passphrase@),
        fp.present_count() >= 7 ==> (res matches Ok(k) && k.0@ == argon2id_tag(
            524288u32,
            4u32,
            1u32,
            spec_key_pool(*fp, passphrase@),
            salt@,
        )),
        spec_key_pool(*fp, passphrase@) == fp.spec_present_sources().map_values(
            |p: (Seq<char>, Seq<char>)| sha3_512_digest(encode_utf8(p.0) + seq![58u8] + encode_utf8(p.1)),
        ).sort_by(lex_order()).flatten() + (if passphrase@.len() == 0 {
            Seq::<u8>::empty()
        } else {
            encode_utf8(passphrase@)
        }),
        fp.present_count() < 7 ==> (res matches Err(e) && e == (FingerprintError::BelowThreshold {
            found: fp.present_count() as usize,
            required: 7,
        })),
{
    let ghost ps = fp.spec_present_sources();
    assert(spec_source_digests(ps) =~= ps.map_values(
        |p: (Seq<char>, Seq<char>)| sha3_512_digest(encode_utf8(p.0) + seq![58u8] + encode_utf8(p.1)),
    ));
    derive_key_with_costs(fp, salt, passphrase, ARGON2_M_COST, ARGON2_T_COST, ARGON2_P_COST)
}

/// The key derivation of `derive_master_key` with the Argon2id memory cost
/// (KiB), number of passes and number of lanes given.
pub fn derive_key_with_costs(
    fp: &HardwareFingerprint,
    salt: &[u8; 16],
    passphrase: &str,
    m_cost: u32,
    t_cost: u32,
    p_cost: u32,
) -> (res: Result<DerivedKey, FingerprintError>)
    requires
        valid_costs(m_cost, t_cost, p_cost),
        fp.present_count() >= THRESHOLD ==> 64 * fp.present_count() + encode_utf8(passphrase@).len()
            <= 0xFFFF_FFFF,
    ensures
        key_result_view(res) == spec_derive_key_with_costs(*fp, salt@, passphrase@, m_cost, t_cost, p_cost),
{
    let sources = fp.present_sources();
    if sources.len() < THRESHOLD {
        return Err(FingerprintError::BelowThreshold { found: sources.len(), required: THRESHOLD });
    }
    let ghost pairs = pair_views(sources@);
    let ghost digests = spec_source_digests(pairs);
    let mut hashes: Vec<[u8; 64]> = Vec::new();
    let mut i: usize = 0;
    while i < sources.len()
        invariant
            0 <= i <= sources@.len(),
            pairs == pair_views(sources@),
            digests == spec_source_digests(pairs),
            digest_views(hashes@) == digests.take(i as int),
        decreases sources@.len() - i,
    {
        let (label, value) = sources[i];
        let h = source_digest(label, value);
        let ghost before = hashes@;
        hashes.push(h);
        assert(digest_views(hashes@) =~= digest_views(before).push(h@));
        assert(digests.take(i + 1) =~= digests.take(i as int).push(digests[i as int]));
        i = i + 1;
    }
    assert(digests.take(sources@.len() as int) =~= digests);
    let sorted = sort_digests(&hashes);
    let ghost sv = digest_views(sorted@);
    let mut pool: Vec<u8> = Vec::new();
    let mut k: usize = 0;
    assert(sv.take(0).flatten_alt() =~= Seq::<u8>::empty());
    while k < sorted.len()
        invariant
            0 <= k <= sorted@.len(),
            sv == digest_views(sorted@),
            sorted@.len() <= TOTAL_SOURCES,
            pool@ == sv.take(k as int).flatten_alt(),
            pool@.len() == 64 * k,
        decreases sorted@.len() - k,
    {
        let d = sorted[k];
        append_bytes(&mut pool, d.as_slice());
        assert(sv.take(k + 1).drop_last() =~= sv.take(k as int));
        k = k + 1;
    }
    assert(sv.take(sorted@.len() as int) =~= sv);
    proof {
        sv.lemma_flatten_and_flatten_alt_are_equivalent();
    }
    if !passphrase.is_empty() {
        append_bytes(&mut pool, passphrase.as_bytes());
    }
    assert(pool@ =~= spec_key_pool(*fp, passphrase@));
    let key_bytes = argon2id_hash(m_cost, t_cost, p_cost, pool.as_slice(), salt);
    wipe_byte_vec(&mut pool);
    Ok(DerivedKey(key_bytes))
}

/// The number of present sources is the number of (label, value) pairs.
pub proof fn lemma_present_count(fp: HardwareFingerprint)
    ensures
        fp.spec_present_sources().len() == fp.present_count(),
{
}

/// Missing sources contribute nothing: two fingerprints with the same present
/// sources (labels and values) give the same key, or the same error, for
/// every salt and passphrase.
pub proof fn lemma_key_depends_only_on_present_sources(
    fp1: HardwareFingerprint,
    fp2: HardwareFingerprint,
    salt: Seq<u8>,
    passphrase: Seq<char>,
)
    requires
        fp1.spec_present_sources() == fp2.spec_present_sources(),
    ensures
        spec_derive_master_key(fp1, salt, passphrase) == spec_derive_master_key(fp2, salt, passphrase),
{
    lemma_present_count(fp1);
    lemma_present_count(fp2);
}

/// The threshold decides success: a key is derived exactly when at least
/// `THRESHOLD` sources are present, and otherwise the error reports how many
/// were found and how many are required.
pub proof fn lemma_threshold_decides(fp: HardwareFingerprint, salt: Seq<u8>, passphrase: Seq<char>)
    ensures
        spec_derive_master_key(fp, salt, passphrase) is Ok <==> fp.present_count() >= THRESHOLD,
        fp.present_count() < THRESHOLD ==> spec_derive_master_key(fp, salt, passphrase) == Err::<Seq<u8>, FingerprintError>(
            FingerprintError::BelowThreshold { found: fp.present_count() as usize, required: THRESHOLD },
        ),
{
}

} // verus!
