use silicon_trust::smbios::{extract_smbios_strings, parse_smbios_type17};

/// A type 17 record (formatted length 40) with the given string numbers and
/// size, followed by its string area.
fn dimm(mfr: u8, serial: u8, part: u8, size_mb: u16, strings: &[&str]) -> Vec<u8> {
    let mut r = vec![0u8; 40];
    r[0] = 17;
    r[1] = 40;
    r[12] = (size_mb & 0xff) as u8;
    r[13] = (size_mb >> 8) as u8;
    r[23] = mfr;
    r[24] = serial;
    r[26] = part;
    if strings.is_empty() {
        r.extend_from_slice(&[0, 0]);
    } else {
        for s in strings {
            r.extend_from_slice(s.as_bytes());
            r.push(0);
        }
        r.push(0);
    }
    r
}

fn end_of_table() -> Vec<u8> {
    vec![127, 4, 0, 0, 0, 0]
}

#[test]
fn strings_split_at_nul() {
    assert_eq!(extract_smbios_strings(b"abc\0de\0\0junk"), vec!["abc", "de"]);
    assert_eq!(extract_smbios_strings(b"\0abc\0"), Vec::<String>::new());
    assert_eq!(extract_smbios_strings(b"abc"), Vec::<String>::new());
    assert_eq!(extract_smbios_strings(b"x\0yz"), vec!["x"]);
}

#[test]
fn strings_invalid_utf8_replaced() {
    assert_eq!(extract_smbios_strings(b"a\xffb\0"), vec!["a\u{fffd}b"]);
}

#[test]
fn one_dimm() {
    let mut t = dimm(1, 2, 3, 8192, &["Samsung", "12345678", "M378A1K43CB2"]);
    t.extend(end_of_table());
    assert_eq!(
        parse_smbios_type17(&t),
        Some("Samsung:M378A1K43CB2:12345678:8192MB".to_string())
    );
}

#[test]
fn two_dimms_and_other_records() {
    let mut t = vec![0u8, 24];
    t.extend(vec![0u8; 22]);
    t.extend_from_slice(b"BIOS Vendor\0\0");
    t.extend(dimm(1, 0, 2, 4096, &["Micron", "MTA8"]));
    t.extend(dimm(1, 2, 3, 0, &["Kingston", "SN1", "KVR"]));
    t.extend(end_of_table());
    assert_eq!(
        parse_smbios_type17(&t),
        Some("Micron:MTA8:4096MB|Kingston:KVR:SN1".to_string())
    );
}

#[test]
fn empty_slot_gives_nothing() {
    let mut t = dimm(0, 0, 0, 0, &[]);
    t.extend(end_of_table());
    assert_eq!(parse_smbios_type17(&t), None);
}

#[test]
fn string_number_out_of_range_is_skipped() {
    let mut t = dimm(5, 1, 0, 16, &["SER"]);
    t.extend(end_of_table());
    assert_eq!(parse_smbios_type17(&t), Some("SER:16MB".to_string()));
}

#[test]
fn short_record_stops_the_walk() {
    let mut t = vec![1u8, 2, 0, 0, 0, 0];
    t.extend(dimm(1, 0, 0, 1024, &["A"]));
    assert_eq!(parse_smbios_type17(&t), None);
}

#[test]
fn record_running_past_the_table_stops_the_walk() {
    let mut t = dimm(1, 0, 0, 1024, &["A"]);
    t.truncate(30);
    assert_eq!(parse_smbios_type17(&t), None);
}

#[test]
fn empty_and_tiny_tables() {
    assert_eq!(parse_smbios_type17(&[]), None);
    assert_eq!(parse_smbios_type17(&[17, 40, 0, 0, 0]), None);
}
