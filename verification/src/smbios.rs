//! SMBIOS parsing: memory-device (type 17) records of a raw SMBIOS table.

use vstd::prelude::*;
use vstd::slice::slice_subrange;
use crate::outside::{string_from_utf8_lossy, utf8_lossy};
use crate::text::{join_strings, lemma_join_starts_with_first, push_decimal, spec_decimal, spec_join, string_views};

verus! {

/// The strings of a string area, scanning from `i` with `cur` collected so far:
/// each NUL ends a string, an empty string ends the area, and bytes after the
/// last NUL are not a string.
pub open spec fn strings_from(area: Seq<u8>, i: nat, cur: Seq<u8>) -> Seq<Seq<char>>
    decreases area.len() - i,
{
    if i >= area.len() {
        Seq::empty()
    } else if area[i as int] == 0 {
        if cur.len() == 0 {
            Seq::empty()
        } else {
            seq![utf8_lossy(cur)] + strings_from(area, i + 1, Seq::empty())
        }
    } else {
        strings_from(area, i + 1, cur.push(area[i as int]))
    }
}

/// The strings of an SMBIOS string area.
pub open spec fn spec_smbios_strings(area: Seq<u8>) -> Seq<Seq<char>> {
    strings_from(area, 0, Seq::empty())
}

/// Splits an SMBIOS string area into its strings.
pub fn extract_smbios_strings(area: &[u8]) -> (res: Vec<String>)
    ensures
        string_views(res@) == spec_smbios_strings(area@),
{
    let mut strings: Vec<String> = Vec::new();
    let mut current: Vec<u8> = Vec::new();
    let mut i: usize = 0;
    while i < area.len()
        invariant_except_break
            0 <= i <= area@.len(),
            string_views(strings@) + strings_from(area@, i as nat, current@)
                == spec_smbios_strings(area@),
        ensures
            string_views(strings@) == spec_smbios_strings(area@),
        decreases area@.len() - i,
    {
        let b = area[i];
        if b == 0 {
            if current.len() == 0 {
                assert(strings_from(area@, i as nat, current@) =~= Seq::empty());
                assert(string_views(strings@) + Seq::<Seq<char>>::empty() =~= string_views(strings@));
                break;
            }
            let s = string_from_utf8_lossy(current.as_slice());
            let ghost before = strings@;
            strings.push(s);
            assert(string_views(strings@) =~= string_views(before).push(s@));
            assert(string_views(strings@) + strings_from(area@, (i + 1) as nat, Seq::empty())
                =~= string_views(before) + strings_from(area@, i as nat, current@));
            current = Vec::new();
        } else {
            current.push(b);
        }
        i = i + 1;
    }
    proof {
        if i >= area.len() {
            assert(string_views(strings@) + Seq::<Seq<char>>::empty() =~= string_views(strings@));
        }
    }
    strings
}

/// Where the string area that starts at `e` ends: just past its double NUL,
/// or, when there is none, at the last byte of the table.
pub open spec fn spec_area_end(s: Seq<u8>, e: int) -> int
    decreases s.len() - e,
{
    if e + 1 < s.len() {
        if s[e] == 0 && s[e + 1] == 0 {
            e + 2
        } else {
            spec_area_end(s, e + 1)
        }
    } else {
        e
    }
}

/// A string area ends no earlier than it starts and within the table.
pub proof fn lemma_area_end_bounds(s: Seq<u8>, e: int)
    requires
        0 <= e <= s.len(),
    ensures
        e <= spec_area_end(s, e) <= s.len(),
    decreases s.len() - e,
{
    if e + 1 < s.len() && !(s[e] == 0 && s[e + 1] == 0) {
        lemma_area_end_bounds(s, e + 1);
    }
}

/// String number `idx` (counted from one) of `strings`; zero names no string.
pub open spec fn string_ref(strings: Seq<Seq<char>>, idx: int) -> Option<Seq<char>> {
    if idx == 0 || idx > strings.len() {
        None
    } else {
        Some(strings[idx - 1])
    }
}

/// An optional string as a list of zero or one string.
pub open spec fn opt_list(o: Option<Seq<char>>) -> Seq<Seq<char>> {
    match o {
        Some(x) => seq![x],
        None => Seq::empty(),
    }
}

/// The size field of the memory device record at `i`, in MB (little endian).
pub open spec fn record_size_mb(s: Seq<u8>, i: int) -> nat {
    (s[i + 12] + 256 * s[i + 13]) as nat
}

/// The fields reported for the memory device record at `i`: manufacturer,
/// part number, serial number (each when present), then the size when nonzero.
pub open spec fn spec_dimm_fields(s: Seq<u8>, i: int, strings: Seq<Seq<char>>) -> Seq<Seq<char>> {
    let size = record_size_mb(s, i);
    opt_list(string_ref(strings, s[i + 23] as int)) + opt_list(string_ref(strings, s[i + 26] as int))
        + opt_list(string_ref(strings, s[i + 24] as int)) + if size != 0 {
        seq![spec_decimal(size) + "MB"@]
    } else {
        Seq::empty()
    }
}

/// The entry for the memory device record at `i` of formatted length `len`
/// whose string area ends at `end`.
pub open spec fn spec_dimm_entry(s: Seq<u8>, i: int, len: int, end: int) -> Option<Seq<char>> {
    let fields = spec_dimm_fields(s, i, spec_smbios_strings(s.subrange(i + len, end)));
    if fields.len() == 0 {
        None
    } else {
        Some(spec_join(fields, ":"@))
    }
}

/// The entries of all memory device records from offset `i` on. The walk
/// stops at a record whose length is below 4 or runs past the table.
pub open spec fn spec_records_from(s: Seq<u8>, i: int) -> Seq<Seq<char>>
    decreases s.len() - i,
{
    if 0 <= i && i + 4 < s.len() {
        let len = s[i + 1] as int;
        if len < 4 || i + len > s.len() {
            Seq::empty()
        } else {
            let end = spec_area_end(s, i + len);
            proof {
                lemma_area_end_bounds(s, i + len);
            }
            let rest = spec_records_from(s, end);
            if s[i] == 17 && len >= 28 {
                opt_list(spec_dimm_entry(s, i, len, end)) + rest
            } else {
                rest
            }
        }
    } else {
        Seq::empty()
    }
}

/// The memory devices of an SMBIOS table, joined with `|`; `None` when none.
pub open spec fn spec_parse_smbios_type17(s: Seq<u8>) -> Option<Seq<char>> {
    let r = spec_records_from(s, 0);
    if r.len() == 0 {
        None
    } else {
        Some(spec_join(r, "|"@))
    }
}

/// A memory device is read whatever its formatted length, as long as that is
/// at least 28 bytes and the record fits in the table: when the table opens
/// with such a type 17 record that names no strings and gives a nonzero size,
/// the listing begins with that size in MB.
pub proof fn lemma_memory_device_of_any_length_is_listed(s: Seq<u8>)
    requires
        s.len() > 4,
        s[0] == 17,
        28 <= s[1],
        s[1] <= s.len(),
        s[23] == 0,
        s[24] == 0,
        s[26] == 0,
        s[12] + 256 * s[13] != 0,
    ensures
        spec_parse_smbios_type17(s) is Some,
        spec_parse_smbios_type17(s)->0.len() >= (spec_decimal((s[12] + 256 * s[13]) as nat) + "MB"@).len(),
        spec_parse_smbios_type17(s)->0.subrange(
            0,
            (spec_decimal((s[12] + 256 * s[13]) as nat) + "MB"@).len() as int,
        ) == spec_decimal((s[12] + 256 * s[13]) as nat) + "MB"@,
{
    let len = s[1] as int;
    let end = spec_area_end(s, len);
    lemma_area_end_bounds(s, len);
    let d = spec_decimal((s[12] + 256 * s[13]) as nat) + "MB"@;
    let strings = spec_smbios_strings(s.subrange(len, end));
    let fields = spec_dimm_fields(s, 0, strings);
    assert(fields =~= seq![d]);
    assert(spec_dimm_entry(s, 0, len, end) == Some(d));
    let records = spec_records_from(s, 0);
    assert(records == opt_list(spec_dimm_entry(s, 0, len, end)) + spec_records_from(s, end));
    assert(records[0] == d);
    lemma_join_starts_with_first(records, "|"@);
}

/// The fields of a memory device come in the order manufacturer, part
/// number, serial number: when the table opens with a type 17 record of
/// size zero whose manufacturer, serial and part are strings 1, 2 and 3 of
/// a string area holding the one-byte strings `a`, `b`, `c`, the listing
/// begins with `a:c:b`.
pub proof fn lemma_memory_device_fields_in_order(s: Seq<u8>, a: u8, b: u8, c: u8)
    requires
        s.len() > 4,
        s[0] == 17,
        28 <= s[1],
        s[1] + 7 <= s.len(),
        s[23] == 1,
        s[24] == 2,
        s[26] == 3,
        s[12] == 0,
        s[13] == 0,
        a != 0,
        b != 0,
        c != 0,
        s.subrange(s[1] as int, s[1] + 7) == seq![a, 0u8, b, 0u8, c, 0u8, 0u8],
    ensures
        spec_parse_smbios_type17(s) is Some,
        spec_parse_smbios_type17(s)->0.len() >= (utf8_lossy(seq![a]) + ":"@ + utf8_lossy(seq![c]) + ":"@
            + utf8_lossy(seq![b])).len(),
        spec_parse_smbios_type17(s)->0.subrange(
            0,
            (utf8_lossy(seq![a]) + ":"@ + utf8_lossy(seq![c]) + ":"@ + utf8_lossy(seq![b])).len() as int,
        ) == utf8_lossy(seq![a]) + ":"@ + utf8_lossy(seq![c]) + ":"@ + utf8_lossy(seq![b]),
{
    let len = s[1] as int;
    assert(s[len] == a);
    assert(s[len + 1] == 0);
    assert(s[len + 2] == b);
    assert(s[len + 3] == 0);
    assert(s[len + 4] == c);
    assert(s[len + 5] == 0);
    assert(s[len + 6] == 0);
    assert(spec_area_end(s, len + 5) == len + 7);
    assert(spec_area_end(s, len + 4) == len + 7);
    assert(spec_area_end(s, len + 3) == len + 7);
    assert(spec_area_end(s, len + 2) == len + 7);
    assert(spec_area_end(s, len + 1) == len + 7);
    assert(spec_area_end(s, len) == len + 7);
    let end = len + 7;
    lemma_area_end_bounds(s, len);
    let area = s.subrange(len, end);
    assert(area =~= seq![a, 0u8, b, 0u8, c, 0u8, 0u8]);
    assert(strings_from(area, 6, Seq::empty()) =~= Seq::<Seq<char>>::empty());
    assert(strings_from(area, 5, seq![c]) =~= seq![utf8_lossy(seq![c])]);
    assert(Seq::<u8>::empty().push(c) =~= seq![c]);
    assert(strings_from(area, 4, Seq::empty()) =~= seq![utf8_lossy(seq![c])]);
    assert(strings_from(area, 3, seq![b]) =~= seq![utf8_lossy(seq![b]), utf8_lossy(seq![c])]);
    assert(Seq::<u8>::empty().push(b) =~= seq![b]);
    assert(strings_from(area, 2, Seq::empty()) =~= seq![utf8_lossy(seq![b]), utf8_lossy(seq![c])]);
    assert(strings_from(area, 1, seq![a]) =~= seq![utf8_lossy(seq![a]), utf8_lossy(seq![b]), utf8_lossy(seq![c])]);
    assert(Seq::<u8>::empty().push(a) =~= seq![a]);
    assert(strings_from(area, 0, Seq::empty()) =~= seq![utf8_lossy(seq![a]), utf8_lossy(seq![b]), utf8_lossy(seq![c])]);
    let strings = spec_smbios_strings(area);
    let fields = spec_dimm_fields(s, 0, strings);
    assert(record_size_mb(s, 0) == 0);
    assert(fields =~= seq![utf8_lossy(seq![a]), utf8_lossy(seq![c]), utf8_lossy(seq![b])]);
    let e = utf8_lossy(seq![a]) + ":"@ + utf8_lossy(seq![c]) + ":"@ + utf8_lossy(seq![b]);
    assert(fields.drop_last() =~= seq![utf8_lossy(seq![a]), utf8_lossy(seq![c])]);
    assert(fields.drop_last().drop_last() =~= seq![utf8_lossy(seq![a])]);
    let f2 = fields.drop_last();
    let f1 = f2.drop_last();
    assert(spec_join(f1, ":"@) == utf8_lossy(seq![a]));
    assert(f2.last() == utf8_lossy(seq![c]));
    assert(spec_join(f2, ":"@) == spec_join(f1, ":"@) + ":"@ + f2.last());
    assert(fields.last() == utf8_lossy(seq![b]));
    assert(spec_join(fields, ":"@) == spec_join(f2, ":"@) + ":"@ + fields.last());
    assert(spec_join(fields, ":"@) =~= e);
    assert(spec_dimm_entry(s, 0, len, end) == Some(e));
    let records = spec_records_from(s, 0);
    assert(records == opt_list(spec_dimm_entry(s, 0, len, end)) + spec_records_from(s, end));
    assert(records[0] == e);
    lemma_join_starts_with_first(records, "|"@);
}

/// A copy of string number `idx` (counted from one), if there is one.
fn string_at(strings: &Vec<String>, idx: u8) -> (res: Option<String>)
    ensures
        match res {
            Some(r) => string_ref(string_views(strings@), idx as int) == Some(r@),
            None => string_ref(string_views(strings@), idx as int) is None,
        },
{
    if idx == 0 || idx as usize > strings.len() {
        None
    } else {
        Some(strings[idx as usize - 1].clone())
    }
}

/// Appends an optional string to a list.
fn push_some(list: &mut Vec<String>, o: Option<String>)
    ensures
        string_views(final(list)@) == string_views(old(list)@) + match o {
            Some(x) => seq![x@],
            None => Seq::<Seq<char>>::empty(),
        },
{
    let ghost before = list@;
    match o {
        Some(x) => {
            list.push(x);
            assert(string_views(list@) =~= string_views(before) + seq![x@]);
        },
        None => {
            assert(string_views(list@) =~= string_views(before) + Seq::<Seq<char>>::empty());
        },
    }
}

/// The entry of the memory device record at `i` whose strings lie in `start..end`.
fn dimm_entry(smbios: &[u8], i: usize, start: usize, end: usize) -> (res: Option<String>)
    requires
        i + 28 <= start <= end <= smbios@.len(),
        start == i + smbios@[i + 1] as int,
    ensures
        match res {
            Some(r) => spec_dimm_entry(smbios@, i as int, smbios@[i + 1] as int, end as int) == Some(r@),
            None => spec_dimm_entry(smbios@, i as int, smbios@[i + 1] as int, end as int) is None,
        },
{
    let area = slice_subrange(smbios, start, end);
    let strings = extract_smbios_strings(area);
    let ghost sv = string_views(strings@);
    let mfr = string_at(&strings, smbios[i + 23]);
    let ser = string_at(&strings, smbios[i + 24]);
    let part = string_at(&strings, smbios[i + 26]);
    let size_mb: u16 = smbios[i + 12] as u16 + (smbios[i + 13] as u16) * 256;
    assert(size_mb as nat == record_size_mb(smbios@, i as int));
    let mut entry: Vec<String> = Vec::new();
    assert(string_views(entry@) =~= Seq::<Seq<char>>::empty());
    push_some(&mut entry, mfr);
    push_some(&mut entry, part);
    push_some(&mut entry, ser);
    let ghost fields3 = string_views(entry@);
    if size_mb != 0 {
        let mut t = String::new();
        push_decimal(&mut t, size_mb as u64);
        t.append("MB");
        let ghost before = entry@;
        entry.push(t);
        assert(string_views(entry@) =~= string_views(before) + seq![t@]);
    } else {
        assert(string_views(entry@) =~= fields3 + Seq::<Seq<char>>::empty());
    }
    assert(area@ =~= smbios@.subrange(start as int, end as int));
    assert(string_views(entry@) =~= spec_dimm_fields(smbios@, i as int, sv));
    if entry.len() == 0 {
        None
    } else {
        Some(join_strings(&entry, ":"))
    }
}

/// Lists the memory devices (SMBIOS type 17 records) of a raw SMBIOS table:
/// manufacturer, part number, serial number and size of each, joined with
/// `:`, the devices joined with `|`. `None` when no device yields a field.
pub fn parse_smbios_type17(smbios: &[u8]) -> (res: Option<String>)
    ensures
        match res {
            Some(r) => spec_parse_smbios_type17(smbios@) == Some(r@),
            None => spec_parse_smbios_type17(smbios@) is None,
        },
{
    let mut results: Vec<String> = Vec::new();
    let mut i: usize = 0;
    let n = smbios.len();
    while n > 4 && i < n - 4
        invariant_except_break
            0 <= i <= n,
            n == smbios@.len(),
            string_views(results@) + spec_records_from(smbios@, i as int)
                == spec_records_from(smbios@, 0),
        ensures
            string_views(results@) == spec_records_from(smbios@, 0),
        decreases n - i,
    {
        let stype = smbios[i];
        let length = smbios[i + 1] as usize;
        if length < 4 || length > n - i {
            assert(spec_records_from(smbios@, i as int) =~= Seq::empty());
            assert(string_views(results@) + Seq::<Seq<char>>::empty() =~= string_views(results@));
            break;
        }
        let str_area_start = i + length;
        let mut str_area_end = str_area_start;
        while str_area_end < n - 1
            invariant_except_break
                str_area_start <= str_area_end <= n,
                n == smbios@.len(),
                n > 4,
                spec_area_end(smbios@, str_area_end as int)
                    == spec_area_end(smbios@, str_area_start as int),
            ensures
                str_area_start <= str_area_end <= n,
                str_area_end as int == spec_area_end(smbios@, str_area_start as int),
            decreases n - str_area_end,
        {
            if smbios[str_area_end] == 0 && smbios[str_area_end + 1] == 0 {
                str_area_end = str_area_end + 2;
                break;
            }
            str_area_end = str_area_end + 1;
        }
        proof {
            lemma_area_end_bounds(smbios@, str_area_start as int);
        }
        let ghost before = results@;
        let ghost rest = spec_records_from(smbios@, str_area_end as int);
        if stype == 17 && length >= 28 {
            let entry = dimm_entry(smbios, i, str_area_start, str_area_end);
            push_some(&mut results, entry);
        } else {
            assert(string_views(results@) =~= string_views(before));
        }
        assert(string_views(results@) + rest =~= string_views(before)
            + spec_records_from(smbios@, i as int));
        i = str_area_end;
    }
    proof {
        if !(n > 4 && i < n - 4) {
            assert(string_views(results@) + Seq::<Seq<char>>::empty() =~= string_views(results@));
        }
    }
    if results.len() == 0 {
        None
    } else {
        Some(join_strings(&results, "|"))
    }
}

} // verus!
