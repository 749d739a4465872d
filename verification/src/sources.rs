//! What each hardware source makes of the raw values read from the machine.
//! Reading them (CPUID, registry, Win32 calls) is the caller's part; these
//! functions turn what was read into the identifier strings.

use vstd::prelude::*;
use vstd::slice::slice_subrange;
use crate::order::{char_lex_order, dedup_strings, sort_strings, spec_dedup};
use crate::outside::{str_to_lowercase, string_from_utf8_lossy, unicode_lowercase, utf8_lossy};
use crate::smbios::{opt_list, parse_smbios_type17, spec_parse_smbios_type17};
use crate::text::{
    push_decimal, spec_decimal, spec_starts_with, starts_with,
    contains, is_all_ascii_digits, join_strings, push_hex2, spaces_to_underscores, spec_contains,
    spec_hex2, spec_join, spec_spaces_to_underscores, spec_trim, all_ascii_digits, string_views, trim,
};

verus! {

/// `parts` joined with `sep`, or `None` when there are no parts.
pub open spec fn spec_join_nonempty(parts: Seq<Seq<char>>, sep: Seq<char>) -> Option<Seq<char>> {
    if parts.len() == 0 {
        None
    } else {
        Some(spec_join(parts, sep))
    }
}

/// An optional string seen through its contents.
pub open spec fn opt_string_view(o: Option<String>) -> Option<Seq<char>> {
    match o {
        Some(s) => Some(s@),
        None => None,
    }
}

/// Joins `parts` with `sep`; `None` when there are no parts.
pub fn join_nonempty(parts: &Vec<String>, sep: &str) -> (res: Option<String>)
    ensures
        opt_string_view(res) == spec_join_nonempty(string_views(parts@), sep@),
{
    if parts.len() == 0 {
        None
    } else {
        Some(join_strings(parts, sep))
    }
}

/// `fam..mod..step..` with each field as two upper-case hex digits.
pub open spec fn spec_cpu_signature(family: u8, model: u8, stepping: u8) -> Seq<char> {
    "fam"@ + spec_hex2(family, true) + "mod"@ + spec_hex2(model, true) + "step"@ + spec_hex2(
        stepping,
        true,
    )
}

/// The brand string with surrounding white space removed and spaces as `_`.
pub open spec fn spec_brand(brand: Seq<char>) -> Seq<char> {
    spec_spaces_to_underscores(spec_trim(brand))
}

/// The CPU identity: vendor, signature and brand (each when known), joined
/// with `|`; `None` when none is known.
pub open spec fn spec_cpu_identity(
    vendor: Option<Seq<char>>,
    signature: Option<(u8, u8, u8)>,
    brand: Option<Seq<char>>,
) -> Option<Seq<char>> {
    let sig = match signature {
        Some(f) => Some(spec_cpu_signature(f.0, f.1, f.2)),
        None => None,
    };
    let b = match brand {
        Some(x) => Some(spec_brand(x)),
        None => None,
    };
    spec_join_nonempty(opt_list(vendor) + opt_list(sig) + opt_list(b), "|"@)
}

/// The CPU signature reads `fam`, two hex digits of the family, `mod`, two
/// of the model, `step`, two of the stepping.
pub proof fn lemma_cpu_signature_layout(family: u8, model: u8, stepping: u8)
    ensures
        spec_cpu_signature(family, model, stepping).len() == 16,
        spec_cpu_signature(family, model, stepping).subrange(0, 3) == "fam"@,
        spec_cpu_signature(family, model, stepping).subrange(3, 5) == spec_hex2(family, true),
        spec_cpu_signature(family, model, stepping).subrange(5, 8) == "mod"@,
        spec_cpu_signature(family, model, stepping).subrange(8, 10) == spec_hex2(model, true),
        spec_cpu_signature(family, model, stepping).subrange(10, 14) == "step"@,
        spec_cpu_signature(family, model, stepping).subrange(14, 16) == spec_hex2(stepping, true),
{
    reveal_strlit("fam");
    reveal_strlit("mod");
    reveal_strlit("step");
    let sig = spec_cpu_signature(family, model, stepping);
    assert(sig.subrange(0, 3) =~= "fam"@);
    assert(sig.subrange(3, 5) =~= spec_hex2(family, true));
    assert(sig.subrange(5, 8) =~= "mod"@);
    assert(sig.subrange(8, 10) =~= spec_hex2(model, true));
    assert(sig.subrange(10, 14) =~= "step"@);
    assert(sig.subrange(14, 16) =~= spec_hex2(stepping, true));
}

/// With all three parts known, the CPU identity is the vendor, the
/// signature, and the trimmed brand with spaces as `_`, in that order,
/// separated by `|`.
pub proof fn lemma_cpu_identity_order(vendor: Seq<char>, family: u8, model: u8, stepping: u8, brand: Seq<char>)
    ensures
        spec_cpu_identity(Some(vendor), Some((family, model, stepping)), Some(brand)) == Some(
            vendor + "|"@ + spec_cpu_signature(family, model, stepping) + "|"@
                + spec_spaces_to_underscores(spec_trim(brand)),
        ),
{
    let parts = opt_list(Some(vendor)) + opt_list(Some(spec_cpu_signature(family, model, stepping)))
        + opt_list(Some(spec_brand(brand)));
    assert(parts =~= seq![vendor, spec_cpu_signature(family, model, stepping), spec_brand(brand)]);
    assert(parts.drop_last() =~= seq![vendor, spec_cpu_signature(family, model, stepping)]);
    assert(parts.drop_last().drop_last() =~= seq![vendor]);
    let sig = spec_cpu_signature(family, model, stepping);
    assert(spec_join(parts.drop_last().drop_last(), "|"@) == vendor);
    assert(spec_join(parts.drop_last(), "|"@) == vendor + "|"@ + sig);
    assert(spec_join(parts, "|"@) == vendor + "|"@ + sig + "|"@ + spec_brand(brand));
    assert(spec_cpu_identity(Some(vendor), Some((family, model, stepping)), Some(brand)) == spec_join_nonempty(parts, "|"@));
}

/// Appends an optional string to a list.
fn push_opt(list: &mut Vec<String>, o: Option<String>)
    ensures
        string_views(final(list)@) == string_views(old(list)@) + opt_list(opt_string_view(o)),
{
    let ghost before = list@;
    match o {
        Some(x) => {
            list.push(x);
            assert(string_views(list@) =~= string_views(before) + seq![x@]);
        },
        None => {
            assert(string_views(list@) =~= string_views(before) + Seq::<Seq<char>>::empty());
        },
    }
}

/// The CPU identity from the CPUID vendor string, the (family, model,
/// stepping) signature and the brand string, each as far as CPUID gave it.
pub fn cpu_identity(vendor: Option<String>, signature: Option<(u8, u8, u8)>, brand: Option<String>) -> (res: Option<String>)
    ensures
        opt_string_view(res) == spec_cpu_identity(
            opt_string_view(vendor),
            signature,
            opt_string_view(brand),
        ),
{
    let mut parts: Vec<String> = Vec::new();
    assert(string_views(parts@) =~= Seq::<Seq<char>>::empty());
    let ghost v = opt_string_view(vendor);
    push_opt(&mut parts, vendor);
    let sig = match signature {
        Some((f, m, s)) => {
            let mut t = String::new();
            t.append("fam");
            push_hex2(&mut t, f, true);
            t.append("mod");
            push_hex2(&mut t, m, true);
            t.append("step");
            push_hex2(&mut t, s, true);
            Some(t)
        },
        None => None,
    };
    push_opt(&mut parts, sig);
    let b = match brand {
        Some(x) => {
            let t = trim(x.as_str());
            Some(spaces_to_underscores(t.as_str()))
        },
        None => None,
    };
    push_opt(&mut parts, b);
    join_nonempty(&parts, "|")
}

/// A network adapter as the adapter list reports it.
#[derive(Debug, Clone, Copy)]
pub struct NetworkAdapter {
    /// Interface type (6: Ethernet, 71: IEEE 802.11).
    pub if_type: u32,
    /// Number of meaningful bytes in `address`.
    pub address_length: u32,
    /// Physical address.
    pub address: [u8; 8],
}

/// A wired or wireless adapter with a six-byte, not all-zero address.
pub open spec fn spec_is_physical(a: NetworkAdapter) -> bool {
    &&& (a.if_type == 6 || a.if_type == 71)
    &&& a.address_length == 6
    &&& exists|k: int| 0 <= k < 6 && #[trigger] a.address@[k] != 0
}

/// The six address bytes as lower-case hex pairs separated by `:`.
pub open spec fn spec_mac_text(addr: Seq<u8>) -> Seq<char> {
    spec_hex2(addr[0], false) + ":"@ + spec_hex2(addr[1], false) + ":"@ + spec_hex2(addr[2], false)
        + ":"@ + spec_hex2(addr[3], false) + ":"@ + spec_hex2(addr[4], false) + ":"@ + spec_hex2(
        addr[5],
        false,
    )
}

/// The MAC text is 17 characters: the six address bytes as lower-case hex
/// pairs at positions 0, 3, 6, 9, 12, 15, separated by `:`.
pub proof fn lemma_mac_text_layout(addr: Seq<u8>)
    requires
        addr.len() >= 6,
    ensures
        spec_mac_text(addr).len() == 17,
        forall|k: int| 0 <= k < 6 ==> spec_mac_text(addr).subrange(3 * k, 3 * k + 2) == spec_hex2(#[trigger] addr[k], false),
        forall|k: int| 0 <= k < 5 ==> #[trigger] spec_mac_text(addr)[3 * k + 2] == ':',
{
    reveal_strlit(":");
    let m = spec_mac_text(addr);
    assert forall|k: int| 0 <= k < 6 implies m.subrange(3 * k, 3 * k + 2) == spec_hex2(#[trigger] addr[k], false) by {
        assert(m.subrange(3 * k, 3 * k + 2) =~= spec_hex2(addr[k], false));
    }
}

/// The address of the first physical adapter in the list.
pub open spec fn spec_first_mac(adapters: Seq<NetworkAdapter>) -> Option<Seq<char>>
    decreases adapters.len(),
{
    if adapters.len() == 0 {
        None
    } else if spec_is_physical(adapters[0]) {
        Some(spec_mac_text(adapters[0].address@))
    } else {
        spec_first_mac(adapters.drop_first())
    }
}

/// Formats the first six bytes of an address as `xx:xx:xx:xx:xx:xx`.
pub fn mac_text(addr: &[u8; 8]) -> (res: String)
    ensures
        res@ == spec_mac_text(addr@),
{
    let mut s = String::new();
    push_hex2(&mut s, addr[0], false);
    s.append(":");
    push_hex2(&mut s, addr[1], false);
    s.append(":");
    push_hex2(&mut s, addr[2], false);
    s.append(":");
    push_hex2(&mut s, addr[3], false);
    s.append(":");
    push_hex2(&mut s, addr[4], false);
    s.append(":");
    push_hex2(&mut s, addr[5], false);
    s
}

/// The MAC address of the first wired or wireless adapter whose address is
/// six bytes long and not all zero.
pub fn first_physical_mac(adapters: &Vec<NetworkAdapter>) -> (res: Option<String>)
    ensures
        opt_string_view(res) == spec_first_mac(adapters@),
{
    let mut i: usize = 0;
    assert(adapters@.skip(0) =~= adapters@);
    while i < adapters.len()
        invariant
            0 <= i <= adapters@.len(),
            spec_first_mac(adapters@) == spec_first_mac(adapters@.skip(i as int)),
        decreases adapters@.len() - i,
    {
        let a = &adapters[i];
        assert(adapters@.skip(i as int)[0] == adapters@[i as int]);
        assert(adapters@.skip(i as int).drop_first() =~= adapters@.skip(i + 1));
        if (a.if_type == 6 || a.if_type == 71) && a.address_length == 6 {
            let mut k: usize = 0;
            let mut any = false;
            while k < 6
                invariant
                    0 <= k <= 6,
                    a.address@.len() == 8,
                    any <==> exists|j: int| 0 <= j < k && #[trigger] a.address@[j] != 0,
                decreases 6 - k,
            {
                if a.address[k] != 0 {
                    any = true;
                }
                k = k + 1;
            }
            if any {
                return Some(mac_text(&a.address));
            }
        }
        i = i + 1;
    }
    None
}

/// The adapter that gives the MAC address: the first one in the list that is
/// wired Ethernet (interface type 6) or IEEE 802.11 (type 71), has a six-byte
/// address, and whose address is not all zero; `None` when there is none.
pub proof fn lemma_first_mac_is_first_physical_adapter(adapters: Seq<NetworkAdapter>)
    ensures
        match spec_first_mac(adapters) {
            Some(m) => exists|i: int|
                0 <= i < adapters.len() && (adapters[i].if_type == 6 || adapters[i].if_type == 71)
                    && adapters[i].address_length == 6 && (exists|k: int|
                    0 <= k < 6 && #[trigger] adapters[i].address@[k] != 0) && m == spec_mac_text(
                    adapters[i].address@,
                ) && (forall|j: int|
                    0 <= j < i ==> !((adapters[j].if_type == 6 || adapters[j].if_type == 71)
                        && adapters[j].address_length == 6 && (exists|k: int|
                        0 <= k < 6 && #[trigger] adapters[j].address@[k] != 0))),
            None => forall|i: int|
                0 <= i < adapters.len() ==> !((adapters[i].if_type == 6 || adapters[i].if_type == 71)
                    && adapters[i].address_length == 6 && (exists|k: int|
                    0 <= k < 6 && #[trigger] adapters[i].address@[k] != 0)),
        },
    decreases adapters.len(),
{
    if adapters.len() > 0 {
        let rest = adapters.drop_first();
        lemma_first_mac_is_first_physical_adapter(rest);
        if !spec_is_physical(adapters[0]) {
            match spec_first_mac(rest) {
                Some(m) => {
                    let i = choose|i: int|
                        0 <= i < rest.len() && (rest[i].if_type == 6 || rest[i].if_type == 71)
                            && rest[i].address_length == 6 && (exists|k: int|
                            0 <= k < 6 && #[trigger] rest[i].address@[k] != 0) && m == spec_mac_text(
                            rest[i].address@,
                        ) && (forall|j: int|
                            0 <= j < i ==> !((rest[j].if_type == 6 || rest[j].if_type == 71)
                                && rest[j].address_length == 6 && (exists|k: int|
                                0 <= k < 6 && #[trigger] rest[j].address@[k] != 0)));
                    assert(adapters[i + 1] == rest[i]);
                    assert forall|j: int| 0 <= j < i + 1 implies !((adapters[j].if_type == 6
                        || adapters[j].if_type == 71) && adapters[j].address_length == 6 && (exists|k: int|
                        0 <= k < 6 && #[trigger] adapters[j].address@[k] != 0)) by {
                        if j > 0 {
                            assert(adapters[j] == rest[j - 1]);
                        }
                    }
                },
                None => {
                    assert forall|i: int| 0 <= i < adapters.len() implies !((adapters[i].if_type == 6
                        || adapters[i].if_type == 71) && adapters[i].address_length == 6 && (exists|k: int|
                        0 <= k < 6 && #[trigger] adapters[i].address@[k] != 0)) by {
                        if i > 0 {
                            assert(adapters[i] == rest[i - 1]);
                        }
                    }
                },
            }
        }
    }
}

/// What a raw text value (a drive serial, a TPM key in hex) yields: its
/// lossy UTF-8 decoding without surrounding white space, or `None` when
/// nothing is left.
pub open spec fn spec_trimmed_text(raw: Seq<u8>) -> Option<Seq<char>> {
    let t = spec_trim(utf8_lossy(raw));
    if t.len() == 0 {
        None
    } else {
        Some(t)
    }
}

/// Decodes `raw` (invalid UTF-8 replaced), trims it, and gives `None` when
/// the result is empty.
pub fn trimmed_text(raw: &[u8]) -> (res: Option<String>)
    ensures
        opt_string_view(res) == spec_trimmed_text(raw@),
{
    let s = string_from_utf8_lossy(raw);
    let t = trim(s.as_str());
    if t.as_str().unicode_len() == 0 {
        None
    } else {
        Some(t)
    }
}

/// The device ids of the display adapters: for each numbered subkey (a name
/// of ASCII digits) that has a matching device id, that id.
pub open spec fn spec_gpu_ids(entries: Seq<(Seq<char>, Option<Seq<char>>)>) -> Seq<Seq<char>>
    decreases entries.len(),
{
    if entries.len() == 0 {
        Seq::empty()
    } else {
        let rest = spec_gpu_ids(entries.drop_last());
        let e = entries.last();
        if all_ascii_digits(e.0) && e.1 is Some {
            rest.push(spec_join(seq![e.1->0], ":"@))
        } else {
            rest
        }
    }
}

/// A list of (subkey name, device id) pairs seen through their contents.
pub open spec fn gpu_entry_views(v: Seq<(String, Option<String>)>) -> Seq<(Seq<char>, Option<Seq<char>>)> {
    v.map_values(|e: (String, Option<String>)| (e.0@, opt_string_view(e.1)))
}

/// The GPU identity from the display-adapter class subkeys: the matching
/// device ids of the numbered subkeys, joined with `|`.
pub fn gpu_device_ids(entries: &Vec<(String, Option<String>)>) -> (res: Option<String>)
    ensures
        opt_string_view(res) == spec_join_nonempty(spec_gpu_ids(gpu_entry_views(entries@)), "|"@),
        opt_string_view(res) == spec_join_nonempty(
            gpu_entry_views(entries@).filter_map(
                |e: (Seq<char>, Option<Seq<char>>)|
                    if (forall|k: int| 0 <= k < e.0.len() ==> '0' <= #[trigger] e.0[k] <= '9') && e.1 is Some {
                        e.1
                    } else {
                        None::<Seq<char>>
                    },
            ),
            "|"@,
        ),
{
    proof {
        lemma_gpu_ids_are_numbered_ids_in_list_order(gpu_entry_views(entries@));
    }
    let ghost ev = gpu_entry_views(entries@);
    let mut ids: Vec<String> = Vec::new();
    let mut i: usize = 0;
    assert(string_views(ids@) =~= spec_gpu_ids(ev.take(0)));
    while i < entries.len()
        invariant
            0 <= i <= entries@.len(),
            ev == gpu_entry_views(entries@),
            string_views(ids@) == spec_gpu_ids(ev.take(i as int)),
        decreases entries@.len() - i,
    {
        let (name, value) = &entries[i];
        assert(ev.take(i + 1).drop_last() =~= ev.take(i as int));
        assert(ev.take(i + 1).last() == ev[i as int]);
        if is_all_ascii_digits(name.as_str()) {
            match value {
                Some(v) => {
                    let ghost before = ids@;
                    ids.push(v.clone());
                    assert(spec_join(seq![v@], ":"@) == v@);
                    assert(string_views(ids@) =~= string_views(before).push(v@));
                },
                None => {},
            }
        }
        i = i + 1;
    }
    assert(ev.take(entries@.len() as int) =~= ev);
    join_nonempty(&ids, "|")
}

/// The GPU identity keeps subkey order: adding a numbered subkey that has a
/// device id at the end of the list appends that id, after a `|` when there
/// were ids already; adding any other entry changes nothing.
pub proof fn lemma_gpu_ids_in_subkey_order(
    entries: Seq<(Seq<char>, Option<Seq<char>>)>,
    name: Seq<char>,
    id: Option<Seq<char>>,
)
    ensures
        (forall|i: int| 0 <= i < name.len() ==> '0' <= #[trigger] name[i] <= '9') && id is Some
            ==> spec_join_nonempty(
            spec_gpu_ids(entries.push((name, id))),
            "|"@,
        ) == match spec_join_nonempty(spec_gpu_ids(entries), "|"@) {
            None => Some(id->0),
            Some(r) => Some(r + "|"@ + id->0),
        },
        !((forall|i: int| 0 <= i < name.len() ==> '0' <= #[trigger] name[i] <= '9') && id is Some)
            ==> spec_join_nonempty(
            spec_gpu_ids(entries.push((name, id))),
            "|"@,
        ) == spec_join_nonempty(spec_gpu_ids(entries), "|"@),
{
    let e = entries.push((name, id));
    assert(e.drop_last() =~= entries);
    assert(e.last() == (name, id));
    if all_ascii_digits(name) && id is Some {
        let ids = spec_gpu_ids(entries);
        assert(spec_join(seq![id->0], ":"@) == id->0);
        let ids2 = ids.push(id->0);
        assert(spec_gpu_ids(e) == ids2);
        assert(ids2.drop_last() =~= ids);
        if ids.len() == 0 {
            assert(ids2 =~= seq![id->0]);
        }
    }
}

/// The GPU identity is the device ids of the numbered subkeys (names made of
/// ASCII digits) that have one, taken in the order of the subkey list and
/// joined with `|`; nothing is sorted or dropped. For two such subkeys with
/// ids `a` then `b`, it is `a|b`.
pub proof fn lemma_gpu_ids_are_numbered_ids_in_list_order(entries: Seq<(Seq<char>, Option<Seq<char>>)>)
    ensures
        spec_gpu_ids(entries) == entries.filter_map(
            |e: (Seq<char>, Option<Seq<char>>)|
                if (forall|k: int| 0 <= k < e.0.len() ==> '0' <= #[trigger] e.0[k] <= '9') && e.1 is Some {
                    e.1
                } else {
                    None::<Seq<char>>
                },
        ),
        entries.len() == 2 && (forall|k: int|
            0 <= k < entries[0].0.len() ==> '0' <= #[trigger] entries[0].0[k] <= '9') && (forall|k: int|
            0 <= k < entries[1].0.len() ==> '0' <= #[trigger] entries[1].0[k] <= '9')
            && entries[0].1 is Some && entries[1].1 is Some ==> spec_join_nonempty(
            spec_gpu_ids(entries),
            "|"@,
        ) == Some(entries[0].1->0 + "|"@ + entries[1].1->0),
    decreases entries.len(),
{
    if entries.len() > 0 {
        let rest = entries.drop_last();
        lemma_gpu_ids_are_numbered_ids_in_list_order(rest);
        let e = entries.last();
        assert(spec_join(seq![e.1->0], ":"@) == e.1->0);
        if all_ascii_digits(e.0) && e.1 is Some {
            assert(spec_gpu_ids(entries) =~= spec_gpu_ids(rest) + seq![e.1->0]);
        }
        if entries.len() == 2 && all_ascii_digits(entries[0].0) && all_ascii_digits(entries[1].0)
            && entries[0].1 is Some && entries[1].1 is Some {
            let r0 = rest.drop_last();
            assert(r0.len() == 0);
            assert(rest.last() == entries[0]);
            assert(e == entries[1]);
            assert(spec_gpu_ids(r0) =~= Seq::<Seq<char>>::empty());
            assert(spec_join(seq![entries[0].1->0], ":"@) == entries[0].1->0);
            assert(spec_gpu_ids(rest) =~= seq![entries[0].1->0]);
            let ids = spec_gpu_ids(entries);
            assert(ids =~= seq![entries[0].1->0, entries[1].1->0]);
            assert(ids.drop_last() =~= seq![entries[0].1->0]);
        }
    }
}

/// The memory devices of a firmware SMBIOS table (whose first 8 bytes are the
/// table header), or `None` when the table is too short or lists none.
pub open spec fn spec_dimm_from_table(table: Seq<u8>) -> Option<Seq<char>> {
    if table.len() < 8 {
        None
    } else {
        spec_parse_smbios_type17(table.subrange(8, table.len() as int))
    }
}

/// The memory devices listed in a raw firmware SMBIOS table.
pub fn dimm_from_table(table: &[u8]) -> (res: Option<String>)
    ensures
        opt_string_view(res) == spec_dimm_from_table(table@),
{
    if table.len() < 8 {
        return None;
    }
    let body = slice_subrange(table, 8, table.len());
    parse_smbios_type17(body)
}

/// The SMBIOS table's 8-byte header is skipped: the memory devices of a table
/// are those of the SMBIOS structures that follow its first 8 bytes, whatever
/// those bytes are.
pub proof fn lemma_dimm_table_skips_header(header: Seq<u8>, body: Seq<u8>)
    requires
        header.len() == 8,
    ensures
        spec_dimm_from_table(header + body) == spec_parse_smbios_type17(body),
{
    assert((header + body).subrange(8, (header + body).len() as int) =~= body);
}

/// `t` holds the three characters `m`, `e`, `m` in a row.
pub open spec fn holds_mem(t: Seq<char>) -> bool {
    exists|k: int| 0 <= k && k + 3 <= t.len() && t[k] == 'm' && t[k + 1] == 'e' && #[trigger] t[k + 2] == 'm'
}

/// The memory description is the first identifier, in list order, whose
/// lowercase form holds `mem`; `None` when no identifier does.
pub proof fn lemma_memory_identifier_is_first_match(ids: Seq<Seq<char>>)
    ensures
        match spec_memory_identifier(ids) {
            Some(x) => exists|i: int|
                0 <= i < ids.len() && x == ids[i] && holds_mem(unicode_lowercase(#[trigger] ids[i])) && (
                forall|j: int| 0 <= j < i ==> !holds_mem(unicode_lowercase(#[trigger] ids[j]))),
            None => forall|i: int| 0 <= i < ids.len() ==> !holds_mem(unicode_lowercase(#[trigger] ids[i])),
        },
    decreases ids.len(),
{
    reveal_strlit("mem");
    assert("mem"@.len() == 3);
    assert forall|t: Seq<char>| spec_contains(t, "mem"@) <==> holds_mem(t) by {
        if spec_contains(t, "mem"@) {
            let k = choose|k: int| 0 <= k && k + "mem"@.len() <= t.len() && #[trigger] t.subrange(k, k + "mem"@.len()) == "mem"@;
            assert(t.subrange(k, k + 3)[0] == t[k]);
            assert(t.subrange(k, k + 3)[1] == t[k + 1]);
            assert(t.subrange(k, k + 3)[2] == t[k + 2]);
        }
        if holds_mem(t) {
            let k = choose|k: int| 0 <= k && k + 3 <= t.len() && t[k] == 'm' && t[k + 1] == 'e' && #[trigger] t[k + 2] == 'm';
            assert(t.subrange(k, k + 3) =~= "mem"@);
        }
    }
    if ids.len() > 0 {
        let rest = ids.drop_first();
        lemma_memory_identifier_is_first_match(rest);
        if !holds_mem(unicode_lowercase(ids[0])) {
            match spec_memory_identifier(rest) {
                Some(x) => {
                    let i = choose|i: int|
                        0 <= i < rest.len() && x == rest[i] && holds_mem(unicode_lowercase(#[trigger] rest[i]))
                            && (forall|j: int| 0 <= j < i ==> !holds_mem(unicode_lowercase(#[trigger] rest[j])));
                    assert(ids[i + 1] == rest[i]);
                    assert forall|j: int| 0 <= j < i + 1 implies !holds_mem(unicode_lowercase(#[trigger] ids[j])) by {
                        if j > 0 {
                            assert(ids[j] == rest[j - 1]);
                        }
                    }
                },
                None => {
                    assert forall|i: int| 0 <= i < ids.len() implies !holds_mem(unicode_lowercase(#[trigger] ids[i])) by {
                        if i > 0 {
                            assert(ids[i] == rest[i - 1]);
                        }
                    }
                },
            }
        }
    }
}

/// The first identifier whose lowercase form contains `mem`.
pub open spec fn spec_memory_identifier(ids: Seq<Seq<char>>) -> Option<Seq<char>>
    decreases ids.len(),
{
    if ids.len() == 0 {
        None
    } else if spec_contains(unicode_lowercase(ids[0]), "mem"@) {
        Some(ids[0])
    } else {
        spec_memory_identifier(ids.drop_first())
    }
}

/// The memory description among the multifunction-adapter identifiers: the
/// first that contains `mem` in any letter case.
pub fn memory_identifier(ids: &Vec<String>) -> (res: Option<String>)
    ensures
        opt_string_view(res) == spec_memory_identifier(string_views(ids@)),
{
    let ghost sv = string_views(ids@);
    let mut i: usize = 0;
    assert(sv.skip(0) =~= sv);
    while i < ids.len()
        invariant
            0 <= i <= ids@.len(),
            sv == string_views(ids@),
            spec_memory_identifier(sv) == spec_memory_identifier(sv.skip(i as int)),
        decreases ids@.len() - i,
    {
        assert(sv.skip(i as int)[0] == sv[i as int]);
        assert(sv.skip(i as int).drop_first() =~= sv.skip(i + 1));
        let lower = str_to_lowercase(ids[i].as_str());
        if contains(lower.as_str(), "mem") {
            return Some(ids[i].clone());
        }
        i = i + 1;
    }
    None
}

/// The kind of a cache, as CPUID leaf 4 reports it.
#[derive(Debug, Clone, Copy, PartialEq, Eq, Structural)]
pub enum CacheKind {
    Null,
    Data,
    Instruction,
    Unified,
    Reserved,
}

/// One cache as CPUID describes it.
#[derive(Debug, Clone, Copy)]
pub struct CacheParameters {
    pub kind: CacheKind,
    pub level: u8,
    pub associativity: usize,
    pub partitions: usize,
    pub line_size: usize,
    pub sets: usize,
}

/// The letter of a data (`D`), instruction (`I`) or unified (`U`) cache.
pub open spec fn cache_letter(k: CacheKind) -> Option<char> {
    match k {
        CacheKind::Data => Some('D'),
        CacheKind::Instruction => Some('I'),
        CacheKind::Unified => Some('U'),
        _ => None,
    }
}

/// The products that the size computation forms fit in a `usize`.
pub open spec fn cache_size_fits(c: CacheParameters) -> bool {
    &&& c.associativity * c.partitions <= usize::MAX
    &&& c.associativity * c.partitions * c.line_size <= usize::MAX
    &&& c.associativity * c.partitions * c.line_size * c.sets <= usize::MAX
}

/// The cache size in KiB: ways times partitions times line size times sets,
/// divided by 1024 (rounded down).
pub open spec fn cache_size_kb(c: CacheParameters) -> nat {
    (c.associativity * c.partitions * c.line_size * c.sets / 1024) as nat
}

/// `L<level><letter>:<size>KB:<ways>way` for one cache of known kind.
pub open spec fn spec_cache_entry(c: CacheParameters, letter: char) -> Seq<char> {
    "L"@ + spec_decimal(c.level as nat) + seq![letter] + ":"@ + spec_decimal(cache_size_kb(c))
        + "KB:"@ + spec_decimal(c.associativity as nat) + "way"@
}

/// The entries of the caches of known kind, in list order.
pub open spec fn spec_cache_entries(caches: Seq<CacheParameters>) -> Seq<Seq<char>>
    decreases caches.len(),
{
    if caches.len() == 0 {
        Seq::empty()
    } else {
        let rest = spec_cache_entries(caches.drop_last());
        match cache_letter(caches.last().kind) {
            Some(t) => rest.push(spec_cache_entry(caches.last(), t)),
            None => rest,
        }
    }
}

/// The entry of one CPUID cache: a data, instruction or unified cache gives
/// `L<level><D|I|U>:<size>KB:<ways>way`, the size being ways times
/// partitions times line size times sets over 1024; other kinds give none.
pub proof fn lemma_cache_entry_format(c: CacheParameters)
    ensures
        spec_cache_entries(seq![c]) == match c.kind {
            CacheKind::Data => seq![
                "L"@ + spec_decimal(c.level as nat) + seq!['D'] + ":"@ + spec_decimal(
                    (c.associativity * c.partitions * c.line_size * c.sets / 1024) as nat,
                ) + "KB:"@ + spec_decimal(c.associativity as nat) + "way"@,
            ],
            CacheKind::Instruction => seq![
                "L"@ + spec_decimal(c.level as nat) + seq!['I'] + ":"@ + spec_decimal(
                    (c.associativity * c.partitions * c.line_size * c.sets / 1024) as nat,
                ) + "KB:"@ + spec_decimal(c.associativity as nat) + "way"@,
            ],
            CacheKind::Unified => seq![
                "L"@ + spec_decimal(c.level as nat) + seq!['U'] + ":"@ + spec_decimal(
                    (c.associativity * c.partitions * c.line_size * c.sets / 1024) as nat,
                ) + "KB:"@ + spec_decimal(c.associativity as nat) + "way"@,
            ],
            _ => Seq::empty(),
        },
{
    assert(seq![c].drop_last() =~= Seq::<CacheParameters>::empty());
    assert(spec_cache_entries(Seq::<CacheParameters>::empty()) == Seq::<Seq<char>>::empty());
    assert(seq![c].last() == c);
    assert(cache_size_kb(c) == (c.associativity * c.partitions * c.line_size * c.sets / 1024) as nat);
    assert(Seq::<Seq<char>>::empty().push(spec_cache_entry(c, 'D')) =~= seq![spec_cache_entry(c, 'D')]);
    assert(Seq::<Seq<char>>::empty().push(spec_cache_entry(c, 'I')) =~= seq![spec_cache_entry(c, 'I')]);
    assert(Seq::<Seq<char>>::empty().push(spec_cache_entry(c, 'U')) =~= seq![spec_cache_entry(c, 'U')]);
}

/// The cache topology from CPUID: the entries sorted and joined with `|`.
pub open spec fn spec_cpuid_cache_topology(caches: Seq<CacheParameters>) -> Option<Seq<char>> {
    spec_join_nonempty(spec_cache_entries(caches).sort_by(char_lex_order()), "|"@)
}

/// The cache topology from the CPUID cache descriptions; `None` when no
/// cache of known kind is listed.
pub fn cpuid_cache_topology(caches: &Vec<CacheParameters>) -> (res: Option<String>)
    requires
        forall|i: int|
            0 <= i < caches@.len() && cache_letter(#[trigger] caches@[i].kind) is Some
                ==> cache_size_fits(caches@[i]),
    ensures
        opt_string_view(res) == spec_cpuid_cache_topology(caches@),
{
    let mut entries: Vec<String> = Vec::new();
    let mut i: usize = 0;
    assert(string_views(entries@) =~= spec_cache_entries(caches@.take(0)));
    while i < caches.len()
        invariant
            0 <= i <= caches@.len(),
            forall|j: int|
                0 <= j < caches@.len() && cache_letter(#[trigger] caches@[j].kind) is Some
                    ==> cache_size_fits(caches@[j]),
            string_views(entries@) == spec_cache_entries(caches@.take(i as int)),
        decreases caches@.len() - i,
    {
        let c = &caches[i];
        assert(caches@.take(i + 1).drop_last() =~= caches@.take(i as int));
        assert(caches@.take(i + 1).last() == caches@[i as int]);
        let letter: Option<char> = match c.kind {
            CacheKind::Data => Some('D'),
            CacheKind::Instruction => Some('I'),
            CacheKind::Unified => Some('U'),
            _ => None,
        };
        match letter {
            Some(t) => {
                assert(cache_letter(caches@[i as int].kind) is Some);
                assert(cache_size_fits(caches@[i as int]));
                let p1 = c.associativity * c.partitions;
                let p2 = p1 * c.line_size;
                let p3 = p2 * c.sets;
                let size_kb = p3 / 1024;
                let mut e = String::new();
                e.append("L");
                push_decimal(&mut e, c.level as u64);
                push_char_to(&mut e, t);
                e.append(":");
                push_decimal(&mut e, size_kb as u64);
                e.append("KB:");
                push_decimal(&mut e, c.associativity as u64);
                e.append("way");
                let ghost before = entries@;
                entries.push(e);
                assert(e@ =~= spec_cache_entry(caches@[i as int], t));
                assert(string_views(entries@) =~= string_views(before).push(e@));
            },
            None => {},
        }
        i = i + 1;
    }
    assert(caches@.take(caches@.len() as int) =~= caches@);
    let sorted = sort_strings(&entries);
    join_nonempty(&sorted, "|")
}

/// Appends one character.
fn push_char_to(s: &mut String, c: char)
    ensures
        final(s)@ == old(s)@ + seq![c],
{
    crate::outside::push_char(s, c);
    assert(final(s)@ =~= old(s)@ + seq![c]);
}

/// One logical-processor record: its relationship (3 for a cache), and,
/// for a cache, its level and size in bytes.
#[derive(Debug, Clone, Copy)]
pub struct ProcessorCacheRecord {
    pub relationship: i32,
    pub level: u8,
    pub size: u32,
}

/// `L<level>:<size>KB` for one cache record.
pub open spec fn spec_winapi_cache_entry(r: ProcessorCacheRecord) -> Seq<char> {
    "L"@ + spec_decimal(r.level as nat) + ":"@ + spec_decimal((r.size / 1024) as nat) + "KB"@
}

/// The entries of the cache records, in list order.
pub open spec fn spec_winapi_cache_entries(recs: Seq<ProcessorCacheRecord>) -> Seq<Seq<char>>
    decreases recs.len(),
{
    if recs.len() == 0 {
        Seq::empty()
    } else {
        let rest = spec_winapi_cache_entries(recs.drop_last());
        if recs.last().relationship == 3 {
            rest.push(spec_winapi_cache_entry(recs.last()))
        } else {
            rest
        }
    }
}

/// The entry of one logical-processor record: a cache record (relationship
/// 3) gives `L<level>:<size/1024>KB`; any other record gives none.
pub proof fn lemma_winapi_cache_entry_format(r: ProcessorCacheRecord)
    ensures
        spec_winapi_cache_entries(seq![r]) == if r.relationship == 3 {
            seq!["L"@ + spec_decimal(r.level as nat) + ":"@ + spec_decimal((r.size / 1024) as nat) + "KB"@]
        } else {
            Seq::empty()
        },
{
    assert(seq![r].drop_last() =~= Seq::<ProcessorCacheRecord>::empty());
    assert(spec_winapi_cache_entries(Seq::<ProcessorCacheRecord>::empty()) == Seq::<Seq<char>>::empty());
    assert(seq![r].last() == r);
    assert(Seq::<Seq<char>>::empty().push(spec_winapi_cache_entry(r)) =~= seq![spec_winapi_cache_entry(r)]);
}

/// The cache topology from the logical-processor records: the cache
/// entries sorted and joined with `|`; `None` when there are none.
pub fn winapi_cache_topology(recs: &Vec<ProcessorCacheRecord>) -> (res: Option<String>)
    ensures
        opt_string_view(res) == spec_join_nonempty(
            spec_winapi_cache_entries(recs@).sort_by(char_lex_order()),
            "|"@,
        ),
{
    let mut entries: Vec<String> = Vec::new();
    let mut i: usize = 0;
    assert(string_views(entries@) =~= spec_winapi_cache_entries(recs@.take(0)));
    while i < recs.len()
        invariant
            0 <= i <= recs@.len(),
            string_views(entries@) == spec_winapi_cache_entries(recs@.take(i as int)),
        decreases recs@.len() - i,
    {
        let r = &recs[i];
        assert(recs@.take(i + 1).drop_last() =~= recs@.take(i as int));
        assert(recs@.take(i + 1).last() == recs@[i as int]);
        if r.relationship == 3 {
            let mut e = String::new();
            e.append("L");
            push_decimal(&mut e, r.level as u64);
            e.append(":");
            push_decimal(&mut e, (r.size / 1024) as u64);
            e.append("KB");
            let ghost before = entries@;
            entries.push(e);
            assert(e@ =~= spec_winapi_cache_entry(recs@[i as int]));
            assert(string_views(entries@) =~= string_views(before).push(e@));
        }
        i = i + 1;
    }
    assert(recs@.take(recs@.len() as int) =~= recs@);
    let sorted = sort_strings(&entries);
    join_nonempty(&sorted, "|")
}

/// The pieces of `s` between `&` separators, scanning from `i` with `cur`
/// collected so far (as `str::split('&')`: an empty text is one empty piece).
pub open spec fn split_amp_from(s: Seq<char>, i: nat, cur: Seq<char>) -> Seq<Seq<char>>
    decreases s.len() - i,
{
    if i >= s.len() {
        seq![cur]
    } else if s[i as int] == '&' {
        seq![cur] + split_amp_from(s, i + 1, Seq::empty())
    } else {
        split_amp_from(s, i + 1, cur.push(s[i as int]))
    }
}

/// The pieces of `s` between `&` separators.
pub open spec fn spec_split_amp(s: Seq<char>) -> Seq<Seq<char>> {
    split_amp_from(s, 0, Seq::empty())
}

/// A vendor (`VEN_`) or device (`DEV_`) id piece.
pub open spec fn is_ven_dev(p: Seq<char>) -> bool {
    spec_starts_with(p, "VEN_"@) || spec_starts_with(p, "DEV_"@)
}

/// The vendor and device id pieces, in order.
pub open spec fn keep_ven_dev(parts: Seq<Seq<char>>) -> Seq<Seq<char>>
    decreases parts.len(),
{
    if parts.len() == 0 {
        Seq::empty()
    } else {
        let rest = keep_ven_dev(parts.drop_last());
        if is_ven_dev(parts.last()) {
            rest.push(parts.last())
        } else {
            rest
        }
    }
}

/// A PCI device instance name reduced to its vendor and device ids, joined
/// with `:`.
pub open spec fn spec_pci_clean(name: Seq<char>) -> Seq<char> {
    spec_join(keep_ven_dev(spec_split_amp(name)), ":"@)
}

/// A piece of a PCI device name is kept exactly when it begins with `VEN_`
/// or `DEV_`.
pub proof fn lemma_ven_dev_pieces_kept(p: Seq<char>)
    ensures
        keep_ven_dev(seq![p]) == if (p.len() >= 4 && p.subrange(0, 4) == "VEN_"@) || (p.len() >= 4
            && p.subrange(0, 4) == "DEV_"@) {
            seq![p]
        } else {
            Seq::empty()
        },
{
    reveal_strlit("VEN_");
    reveal_strlit("DEV_");
    assert("VEN_"@.len() == 4);
    assert("DEV_"@.len() == 4);
    assert(seq![p].drop_last() =~= Seq::<Seq<char>>::empty());
    assert(keep_ven_dev(Seq::<Seq<char>>::empty()) == Seq::<Seq<char>>::empty());
    assert(seq![p].last() == p);
    assert(Seq::<Seq<char>>::empty().push(p) =~= seq![p]);
}

/// The reduced names that are not empty, in order.
pub open spec fn spec_pci_entries(names: Seq<Seq<char>>) -> Seq<Seq<char>>
    decreases names.len(),
{
    if names.len() == 0 {
        Seq::empty()
    } else {
        let rest = spec_pci_entries(names.drop_last());
        let c = spec_pci_clean(names.last());
        if c.len() > 0 {
            rest.push(c)
        } else {
            rest
        }
    }
}

/// The PCI topology: the reduced names sorted, without repeats, joined with
/// `|`; `None` when no name has a vendor or device id.
pub open spec fn spec_pcie_topology(names: Seq<Seq<char>>) -> Option<Seq<char>> {
    let e = spec_pci_entries(names);
    if e.len() == 0 {
        None
    } else {
        Some(spec_join(spec_dedup(e.sort_by(char_lex_order())), "|"@))
    }
}

/// Splits `s` at each `&`.
fn split_amp(s: &str) -> (res: Vec<String>)
    ensures
        string_views(res@) == spec_split_amp(s@),
{
    let n = s.unicode_len();
    let mut parts: Vec<String> = Vec::new();
    let mut cur = String::new();
    let mut i: usize = 0;
    while i < n
        invariant
            0 <= i <= n,
            n == s@.len(),
            string_views(parts@) + split_amp_from(s@, i as nat, cur@) == spec_split_amp(s@),
        decreases n - i,
    {
        let c = s.get_char(i);
        if c == '&' {
            let ghost before = parts@;
            let ghost piece = cur@;
            parts.push(cur);
            cur = String::new();
            assert(string_views(parts@) =~= string_views(before).push(piece));
            assert(string_views(parts@) + split_amp_from(s@, (i + 1) as nat, cur@)
                =~= string_views(before) + split_amp_from(s@, i as nat, piece));
        } else {
            crate::outside::push_char(&mut cur, c);
        }
        i = i + 1;
    }
    let ghost before = parts@;
    parts.push(cur);
    assert(string_views(parts@) =~= string_views(before) + split_amp_from(s@, i as nat, cur@));
    parts
}

/// Reduces a PCI device instance name to its `VEN_`/`DEV_` pieces joined
/// with `:`.
pub fn pci_clean(name: &str) -> (res: String)
    ensures
        res@ == spec_pci_clean(name@),
{
    let parts = split_amp(name);
    let ghost pv = string_views(parts@);
    let mut kept: Vec<String> = Vec::new();
    let mut i: usize = 0;
    assert(string_views(kept@) =~= keep_ven_dev(pv.take(0)));
    while i < parts.len()
        invariant
            0 <= i <= parts@.len(),
            pv == string_views(parts@),
            string_views(kept@) == keep_ven_dev(pv.take(i as int)),
        decreases parts@.len() - i,
    {
        assert(pv.take(i + 1).drop_last() =~= pv.take(i as int));
        assert(pv.take(i + 1).last() == pv[i as int]);
        let p = parts[i].as_str();
        if starts_with(p, "VEN_") || starts_with(p, "DEV_") {
            let ghost before = kept@;
            kept.push(parts[i].clone());
            assert(string_views(kept@) =~= string_views(before).push(pv[i as int]));
        }
        i = i + 1;
    }
    assert(pv.take(parts@.len() as int) =~= pv);
    join_strings(&kept, ":")
}

/// The PCI topology from the names of the PCI device instances: each name
/// reduced to its vendor and device ids, the non-empty ones sorted, repeats
/// removed, joined with `|`.
pub fn pcie_topology(names: &Vec<String>) -> (res: Option<String>)
    ensures
        opt_string_view(res) == spec_pcie_topology(string_views(names@)),
{
    let ghost nv = string_views(names@);
    let mut devices: Vec<String> = Vec::new();
    let mut i: usize = 0;
    assert(string_views(devices@) =~= spec_pci_entries(nv.take(0)));
    while i < names.len()
        invariant
            0 <= i <= names@.len(),
            nv == string_views(names@),
            string_views(devices@) == spec_pci_entries(nv.take(i as int)),
        decreases names@.len() - i,
    {
        assert(nv.take(i + 1).drop_last() =~= nv.take(i as int));
        assert(nv.take(i + 1).last() == nv[i as int]);
        let clean = pci_clean(names[i].as_str());
        if clean.as_str().unicode_len() > 0 {
            let ghost before = devices@;
            devices.push(clean);
            assert(string_views(devices@) =~= string_views(before).push(clean@));
        }
        i = i + 1;
    }
    assert(nv.take(names@.len() as int) =~= nv);
    if devices.len() == 0 {
        return None;
    }
    let sorted = sort_strings(&devices);
    let unique = dedup_strings(&sorted);
    Some(join_strings(&unique, "|"))
}

} // verus!
