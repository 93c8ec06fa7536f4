use windows_sddl::sid::{Guid, Sid};
use windows_sddl::sid_to_bytes;

#[test]
fn sid_roundtrip_string_and_bytes() {
    let s = Sid::parse("S-1-5-21-1-2-3-1104").unwrap();
    assert_eq!(s.rid(), Some(1104));
    assert_eq!(s.to_string(), "S-1-5-21-1-2-3-1104");
    let bytes = s.to_bytes();
    assert_eq!(Sid::from_bytes(&bytes).unwrap(), s);
}

#[test]
fn guid_parse_display_roundtrip() {
    let g = Guid::parse("1131f6aa-9c07-11d1-f79f-00c04fc2dcd2").unwrap();
    assert_eq!(g.to_string(), "1131f6aa-9c07-11d1-f79f-00c04fc2dcd2");
}

#[test]
fn sid_parse_fields() {
    let s = Sid::parse("S-1-5-32-544").unwrap();
    assert_eq!(s.revision, 1);
    assert_eq!(s.identifier_authority, 5);
    assert_eq!(s.sub_authorities, vec![32, 544]);
}

#[test]
fn sid_parse_without_sub_authorities() {
    let s = Sid::parse("S-1-5").unwrap();
    assert!(s.sub_authorities.is_empty());
    assert_eq!(s.rid(), None);
    assert_eq!(s.to_string(), "S-1-5");
}

#[test]
fn sid_parse_rejects_malformed() {
    assert!(Sid::parse("").is_none());
    assert!(Sid::parse("S").is_none());
    assert!(Sid::parse("S-1").is_none());
    assert!(Sid::parse("s-1-5").is_none());
    assert!(Sid::parse("X-1-5").is_none());
    assert!(Sid::parse("S-1-5-").is_none());
    assert!(Sid::parse("S-1-5--7").is_none());
    assert!(Sid::parse("S-256-5").is_none());
    assert!(Sid::parse("S-1-18446744073709551616").is_none());
    assert!(Sid::parse("S-1-5-4294967296").is_none());
    assert!(Sid::parse("S-1-5-12a").is_none());
    assert!(Sid::parse("S-1-5-+").is_none());
    assert!(Sid::parse("S-1-5-é").is_none());
}

#[test]
fn sid_parse_accepts_plus_and_leading_zeros() {
    let s = Sid::parse("S-+1-005-+32-0544").unwrap();
    assert_eq!(s.revision, 1);
    assert_eq!(s.identifier_authority, 5);
    assert_eq!(s.sub_authorities, vec![32, 544]);
    assert_eq!(s.to_string(), "S-1-5-32-544");
}

#[test]
fn sid_parse_limits() {
    let s = Sid::parse("S-255-281474976710655-4294967295").unwrap();
    assert_eq!(s.revision, 255);
    assert_eq!(s.identifier_authority, 0xFFFF_FFFF_FFFF);
    assert_eq!(s.sub_authorities, vec![u32::MAX]);
    assert_eq!(s.to_string(), "S-255-281474976710655-4294967295");
    assert_eq!(Sid::from_bytes(&s.to_bytes()).unwrap(), s);
}

#[test]
fn sid_parse_rejects_authority_beyond_six_bytes() {
    assert!(Sid::parse("S-1-281474976710656-5").is_none());
    assert!(Sid::parse("S-1-18446744073709551615").is_none());
}

#[test]
fn sid_text_round_trip_law() {
    let s = Sid {
        revision: 7,
        identifier_authority: 0,
        sub_authorities: vec![0, 10, 4000000000],
    };
    let text = s.to_string();
    assert_eq!(text, "S-7-0-0-10-4000000000");
    assert_eq!(Sid::parse(&text).unwrap(), s);
}

#[test]
fn sid_to_bytes_layout() {
    let s = Sid::parse("S-1-5-32-544").unwrap();
    assert_eq!(
        s.to_bytes(),
        vec![1, 2, 0, 0, 0, 0, 0, 5, 32, 0, 0, 0, 0x20, 0x02, 0, 0]
    );
    assert_eq!(sid_to_bytes(&s), s.to_bytes());
}

#[test]
fn sid_to_bytes_writes_low_48_bits_big_endian() {
    let s = Sid {
        revision: 1,
        identifier_authority: 0x0102_0304_0506,
        sub_authorities: vec![0x1122_3344],
    };
    let b = s.to_bytes();
    assert_eq!(b, vec![1, 1, 1, 2, 3, 4, 5, 6, 0x44, 0x33, 0x22, 0x11]);
    assert_eq!(Sid::from_bytes(&b).unwrap(), s);
}

#[test]
fn sid_to_bytes_truncates_authority_and_count() {
    let s = Sid {
        revision: 1,
        identifier_authority: 0xAB00_0000_0000_0005,
        sub_authorities: vec![0; 256],
    };
    let b = s.to_bytes();
    assert_eq!(b.len(), 8 + 4 * 256);
    assert_eq!(b[1], 0);
    assert_eq!(&b[2..8], &[0, 0, 0, 0, 0, 5]);
    let back = Sid::from_bytes(&b).unwrap();
    assert_eq!(back.identifier_authority, 5);
    assert!(back.sub_authorities.is_empty());
}

#[test]
fn sid_from_bytes_short_input() {
    assert!(Sid::from_bytes(&[]).is_none());
    assert!(Sid::from_bytes(&[1, 0, 0, 0, 0, 0, 0]).is_none());
    assert!(Sid::from_bytes(&[1, 1, 0, 0, 0, 0, 0, 5, 1, 2, 3]).is_none());
    let s = Sid::from_bytes(&[1, 0, 0, 0, 0, 0, 0, 1, 99, 99]).unwrap();
    assert_eq!(s.to_string(), "S-1-1");
}

#[test]
fn sid_is_well_known_cases() {
    assert!(Sid::parse("S-1-1-0").unwrap().is_well_known());
    assert!(Sid::parse("S-1-3-0").unwrap().is_well_known());
    assert!(Sid::parse("S-1-5-32-544").unwrap().is_well_known());
    assert!(!Sid::parse("S-1-5-21-1-2-3-500").unwrap().is_well_known());
    assert!(Sid::parse("S-1-5-18").unwrap().is_well_known());
    assert!(Sid::parse("S-1-5-11").unwrap().is_well_known());
    assert!(Sid::parse("S-1-5").unwrap().is_well_known());
    assert!(!Sid::parse("S-1-5-21-1-2-3").unwrap().is_well_known());
    assert!(!Sid::parse("S-1-2-0").unwrap().is_well_known());
}

#[test]
fn guid_parse_stores_mixed_endian() {
    let g = Guid::parse("00112233-4455-6677-8899-aabbccddeeff").unwrap();
    assert_eq!(
        g.0,
        [0x33, 0x22, 0x11, 0x00, 0x55, 0x44, 0x77, 0x66, 0x88, 0x99, 0xaa, 0xbb, 0xcc, 0xdd, 0xee, 0xff]
    );
    assert_eq!(g.to_string(), "00112233-4455-6677-8899-aabbccddeeff");
}

#[test]
fn guid_parse_braces_case_and_dashes() {
    let want = Guid::parse("1131f6aa-9c07-11d1-f79f-00c04fc2dcd2").unwrap();
    assert_eq!(Guid::parse("{1131F6AA-9C07-11D1-F79F-00C04FC2DCD2}").unwrap(), want);
    assert_eq!(Guid::parse("{{1131f6aa9c0711d1f79f00c04fc2dcd2}}").unwrap(), want);
    assert_eq!(Guid::parse("1-1-3-1-f6aa9c0711d1f79f00c04fc2dcd2").unwrap(), want);
    assert!(Guid::parse("{}").is_none());
    assert_eq!(Guid::parse("{{}}"), Guid::parse(""));
}

#[test]
fn guid_parse_plus_pair() {
    // `u8::from_str_radix("+a", 16)` is 10.
    let g = Guid::parse("+a000000-0000-0000-0000-000000000000").unwrap();
    assert_eq!(g.0[3], 0x0a);
}

#[test]
fn guid_parse_rejects_malformed() {
    assert!(Guid::parse("").is_none());
    assert!(Guid::parse("1131f6aa-9c07-11d1-f79f-00c04fc2dcd").is_none());
    assert!(Guid::parse("1131f6aa-9c07-11d1-f79f-00c04fc2dcd2a").is_none());
    assert!(Guid::parse("1131f6ag-9c07-11d1-f79f-00c04fc2dcd2").is_none());
    assert!(Guid::parse("{1131f6aa-9c07-11d1-f79f-00c04fc2dcd2").is_some());
    assert!(Guid::parse("1131f6aa 9c07 11d1 f79f 00c04fc2dc").is_none());
    // Sixteen two-byte characters: 32 bytes, every pair a whole character.
    assert!(Guid::parse("éééééééééééééééé").is_none());
    // Multi-byte characters that a two-byte slice would cut give None too.
    assert!(Guid::parse("aé00000000000000000000000000000").is_none());
    assert!(Guid::parse("€€00000000000000000000000000").is_none());
    assert!(Guid::parse("😀0000000000000000000000000000").is_none());
}

#[test]
fn guid_text_round_trip_law() {
    let g = Guid([0, 1, 2, 3, 4, 5, 6, 7, 8, 9, 10, 11, 12, 13, 14, 255]);
    let text = g.to_string();
    assert_eq!(text, "03020100-0504-0706-0809-0a0b0c0d0eff");
    assert_eq!(Guid::parse(&text).unwrap(), g);
}

#[test]
fn guid_from_bytes_takes_first_sixteen() {
    let b: Vec<u8> = (0u8..20).collect();
    let g = Guid::from_bytes(&b).unwrap();
    assert_eq!(g.0.to_vec(), (0u8..16).collect::<Vec<u8>>());
    assert!(Guid::from_bytes(&b[..15]).is_none());
}

#[test]
fn sid_bytes_read_write_law() {
    let raw = [1u8, 2, 0, 0, 0, 0, 0, 5, 21, 0, 0, 0, 0x50, 0x04, 0, 0, 0xEE, 0xEE];
    let s = Sid::from_bytes(&raw).unwrap();
    assert_eq!(s.to_string(), "S-1-5-21-1104");
    assert_eq!(s.to_bytes(), raw[..16].to_vec());
}
