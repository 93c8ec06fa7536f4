use windows_sddl::{build_rbcd_sd, parse, AccessMask, AceType, SddlError, Sid};

fn header(owner: u32, group: u32, dacl: u32) -> Vec<u8> {
    let mut sd = vec![1, 0, 0, 0];
    sd.extend_from_slice(&owner.to_le_bytes());
    sd.extend_from_slice(&group.to_le_bytes());
    sd.extend_from_slice(&0u32.to_le_bytes());
    sd.extend_from_slice(&dacl.to_le_bytes());
    sd
}

fn truncated_at(r: Result<windows_sddl::SecurityDescriptor, SddlError>) -> &'static str {
    match r {
        Err(SddlError::Truncated(what)) => what,
        Err(SddlError::BadSid) => "bad sid",
        Ok(_) => "ok",
    }
}

#[test]
fn rbcd_sd_roundtrips_through_parser() {
    let sid = Sid::parse("S-1-5-21-1-2-3-1104").unwrap();
    let sd = build_rbcd_sd(&sid);
    let parsed = parse(&sd).expect("parse our own SD");
    let aces = &parsed.dacl.expect("dacl").aces;
    assert_eq!(aces.len(), 1);
    assert!(aces[0].is_allow());
    assert_eq!(aces[0].trustee, sid);
    assert!(aces[0].mask.contains(AccessMask::WRITE_DAC));
}

/// A truncated object-ACE (ObjectType flag set, no GUID bytes) must not panic.
#[test]
fn truncated_object_ace_does_not_panic() {
    let mut sd = vec![1, 0, 0, 0];
    sd.extend_from_slice(&0u32.to_le_bytes()); // owner off
    sd.extend_from_slice(&0u32.to_le_bytes()); // group off
    sd.extend_from_slice(&0u32.to_le_bytes()); // sacl off
    sd.extend_from_slice(&20u32.to_le_bytes()); // dacl off
    sd.extend_from_slice(&[2, 0, 0x30, 0, 1, 0, 0, 0]); // ACL hdr: 1 ACE
    sd.extend_from_slice(&[0x05, 0, 0x20, 0]); // AccessAllowedObject, size 0x20
    sd.extend_from_slice(&0u32.to_le_bytes()); // mask
    sd.extend_from_slice(&1u32.to_le_bytes()); // obj_flags = ObjectType present, no GUID follows
    let _ = parse(&sd); // must not panic
}

/// Fuzz-lite: random + seed-mutated bytes must never panic (deterministic seed).
#[test]
fn fuzz_parse_never_panics() {
    let mut seed = vec![1, 0, 0, 0];
    seed.extend_from_slice(&0u32.to_le_bytes());
    seed.extend_from_slice(&0u32.to_le_bytes());
    seed.extend_from_slice(&0u32.to_le_bytes());
    seed.extend_from_slice(&20u32.to_le_bytes());
    seed.extend_from_slice(&[2, 0, 0x30, 0, 1, 0, 0, 0]);
    seed.extend_from_slice(&[0x05, 0, 0x2c, 0]);
    seed.extend_from_slice(&[0u8; 40]);

    let mut s: u64 = 0xDEAD_BEEF_CAFE_F00D;
    let mut rng = || {
        s ^= s >> 12;
        s ^= s << 25;
        s ^= s >> 27;
        s.wrapping_mul(0x2545_F491_4F6C_DD1D)
    };
    for _ in 0..200_000 {
        let mut buf = if rng() & 1 == 0 {
            seed.clone()
        } else {
            let n = (rng() as usize) % 80;
            (0..n).map(|_| rng() as u8).collect::<Vec<u8>>()
        };
        for _ in 0..(rng() as usize % 6) {
            if !buf.is_empty() {
                let i = (rng() as usize) % buf.len();
                buf[i] = rng() as u8;
            }
        }
        let _ = parse(&buf);
    }
}

#[test]
fn rbcd_sd_full_contents() {
    let sid = Sid::parse("S-1-5-21-1-2-3-1104").unwrap();
    let sd = parse(&build_rbcd_sd(&sid)).unwrap();
    let ba = Sid::parse("S-1-5-32-544").unwrap();
    assert_eq!(sd.owner, Some(ba.clone()));
    assert_eq!(sd.group, Some(ba));
    let aces = sd.dacl.unwrap().aces;
    assert_eq!(aces.len(), 1);
    assert_eq!(aces[0].ace_type, AceType::AccessAllowed);
    assert_eq!(aces[0].flags, 0);
    assert_eq!(aces[0].mask.bits(), 0x000F_01FF);
    assert!(aces[0].object_type.is_none());
    assert!(aces[0].inherited_object_type.is_none());
}

#[test]
fn rbcd_sd_bytes_layout() {
    let sid = Sid::parse("S-1-5-21-1-2-3-1104").unwrap();
    let sd = build_rbcd_sd(&sid);
    assert_eq!(&sd[..20], &[1, 0, 4, 0x80, 20, 0, 0, 0, 36, 0, 0, 0, 0, 0, 0, 0, 52, 0, 0, 0]);
    // 20 header + 16 owner + 16 group + 8 ACL header + 8 ACE header/mask + 28 SID
    assert_eq!(sd.len(), 96);
    assert_eq!(&sd[52..60], &[2, 0, 44, 0, 1, 0, 0, 0]);
    assert_eq!(&sd[60..68], &[0, 0, 36, 0, 0xFF, 0x01, 0x0F, 0x00]);
}

#[test]
fn parse_short_header() {
    assert_eq!(truncated_at(parse(&[])), "sd header");
    assert_eq!(truncated_at(parse(&[1u8; 19])), "sd header");
}

#[test]
fn parse_empty_descriptor() {
    let sd = parse(&header(0, 0, 0)).unwrap();
    assert!(sd.owner.is_none());
    assert!(sd.group.is_none());
    assert!(sd.dacl.is_none());
}

#[test]
fn parse_owner_out_of_range() {
    assert_eq!(truncated_at(parse(&header(19, 0, 0))), "sid");
    assert_eq!(truncated_at(parse(&header(0xFFFF_FFFF, 0, 0))), "sid");
    // Count byte present, body missing.
    let mut b = header(20, 0, 0);
    b.extend_from_slice(&[1, 1, 0, 0, 0, 0, 0, 5]);
    assert_eq!(truncated_at(parse(&b)), "sid");
}

#[test]
fn parse_owner_and_group() {
    let mut b = header(20, 32, 0);
    b.extend_from_slice(&[1, 1, 0, 0, 0, 0, 0, 5, 18, 0, 0, 0]);
    b.extend_from_slice(&[1, 0, 0, 0, 0, 0, 0, 1]);
    let sd = parse(&b).unwrap();
    assert_eq!(sd.owner.unwrap().to_string(), "S-1-5-18");
    assert_eq!(sd.group.unwrap().to_string(), "S-1-1");
}

#[test]
fn parse_acl_count_truncated() {
    let mut b = header(0, 0, 20);
    b.extend_from_slice(&[2, 0, 8, 0, 1]);
    assert_eq!(truncated_at(parse(&b)), "u16");
}

#[test]
fn parse_ace_truncations() {
    // No ACE byte at all.
    let mut b = header(0, 0, 20);
    b.extend_from_slice(&[2, 0, 8, 0, 1, 0, 0, 0]);
    assert_eq!(truncated_at(parse(&b)), "ace type");
    // Type byte only.
    let mut c = b.clone();
    c.push(0);
    assert_eq!(truncated_at(parse(&c)), "ace flags");
    // Type and flags, no size.
    c.push(0);
    assert_eq!(truncated_at(parse(&c)), "u16");
    // Size, no mask.
    c.extend_from_slice(&[16, 0]);
    assert_eq!(truncated_at(parse(&c)), "u32");
    // Mask, no SID.
    c.extend_from_slice(&[0, 0, 0, 0]);
    assert_eq!(truncated_at(parse(&c)), "sid");
}

#[test]
fn parse_ace_count_zero() {
    let mut b = header(0, 0, 20);
    b.extend_from_slice(&[2, 0, 8, 0, 0, 0, 0, 0]);
    let sd = parse(&b).unwrap();
    assert!(sd.dacl.unwrap().aces.is_empty());
}

fn plain_ace(ace_type: u8, flags: u8, size: u16, mask: u32) -> Vec<u8> {
    let mut a = vec![ace_type, flags];
    a.extend_from_slice(&size.to_le_bytes());
    a.extend_from_slice(&mask.to_le_bytes());
    a.extend_from_slice(&[1, 1, 0, 0, 0, 0, 0, 5, 18, 0, 0, 0]);
    a
}

#[test]
fn parse_ace_types_and_mask_truncation() {
    let mut b = header(0, 0, 20);
    b.extend_from_slice(&[2, 0, 0, 0, 3, 0, 0, 0]);
    b.extend_from_slice(&plain_ace(0x01, 0x03, 20, 0xFFFF_FFFF));
    b.extend_from_slice(&plain_ace(0x11, 0, 20, 0x0000_0010));
    b.extend_from_slice(&plain_ace(0x00, 0, 20, 0x0000_0200));
    let aces = parse(&b).unwrap().dacl.unwrap().aces;
    assert_eq!(aces.len(), 3);
    assert_eq!(aces[0].ace_type, AceType::AccessDenied);
    assert!(!aces[0].is_allow());
    assert_eq!(aces[0].flags, 3);
    assert_eq!(aces[0].mask.bits(), 0xF31F_FFFF);
    assert_eq!(aces[1].ace_type, AceType::Other(0x11));
    assert!(aces[1].mask.contains(AccessMask::READ_PROP));
    assert_eq!(aces[2].mask.bits(), 0x0000_0200);
    assert!(aces[2].is_allow());
}

#[test]
fn parse_ace_size_zero_stops() {
    let mut b = header(0, 0, 20);
    b.extend_from_slice(&[2, 0, 0, 0, 5, 0, 0, 0]);
    b.extend_from_slice(&plain_ace(0x00, 0, 0, 0x10));
    let aces = parse(&b).unwrap().dacl.unwrap().aces;
    assert_eq!(aces.len(), 1);
}

#[test]
fn parse_object_ace_with_guids() {
    let mut b = header(0, 0, 20);
    b.extend_from_slice(&[2, 0, 0, 0, 1, 0, 0, 0]);
    b.extend_from_slice(&[0x05, 0, 56, 0]);
    b.extend_from_slice(&0x100u32.to_le_bytes());
    b.extend_from_slice(&3u32.to_le_bytes());
    b.extend_from_slice(&[0xAA; 16]);
    b.extend_from_slice(&[0xBB; 16]);
    b.extend_from_slice(&[1, 1, 0, 0, 0, 0, 0, 5, 18, 0, 0, 0]);
    let aces = parse(&b).unwrap().dacl.unwrap().aces;
    assert_eq!(aces[0].ace_type, AceType::AccessAllowedObject);
    assert!(aces[0].is_allow());
    assert_eq!(aces[0].object_type.unwrap().0, [0xAA; 16]);
    assert_eq!(aces[0].inherited_object_type.unwrap().0, [0xBB; 16]);
    assert_eq!(aces[0].trustee.to_string(), "S-1-5-18");
    assert!(aces[0].mask.contains(AccessMask::CONTROL_ACCESS));
}

#[test]
fn parse_object_ace_inherited_only() {
    let mut b = header(0, 0, 20);
    b.extend_from_slice(&[2, 0, 0, 0, 1, 0, 0, 0]);
    b.extend_from_slice(&[0x06, 0, 40, 0]);
    b.extend_from_slice(&0x20u32.to_le_bytes());
    b.extend_from_slice(&2u32.to_le_bytes());
    b.extend_from_slice(&[0xCC; 16]);
    b.extend_from_slice(&[1, 1, 0, 0, 0, 0, 0, 5, 18, 0, 0, 0]);
    let aces = parse(&b).unwrap().dacl.unwrap().aces;
    assert_eq!(aces[0].ace_type, AceType::AccessDeniedObject);
    assert!(aces[0].object_type.is_none());
    assert_eq!(aces[0].inherited_object_type.unwrap().0, [0xCC; 16]);
}

#[test]
fn parse_object_ace_missing_flags() {
    let mut b = header(0, 0, 20);
    b.extend_from_slice(&[2, 0, 0, 0, 1, 0, 0, 0]);
    b.extend_from_slice(&[0x05, 0, 16, 0, 0, 0, 0, 0]);
    assert_eq!(truncated_at(parse(&b)), "u32");
}

#[test]
fn truncated_object_ace_is_an_error() {
    let mut sd = header(0, 0, 20);
    sd.extend_from_slice(&[2, 0, 0x30, 0, 1, 0, 0, 0]);
    sd.extend_from_slice(&[0x05, 0, 0x20, 0]);
    sd.extend_from_slice(&0u32.to_le_bytes());
    sd.extend_from_slice(&1u32.to_le_bytes());
    assert_eq!(truncated_at(parse(&sd)), "sid");
}

#[test]
fn access_mask_from_bits_truncate() {
    let m = AccessMask::from_bits_truncate(0xFFFF_FFFF);
    assert_eq!(m.bits(), 0xF31F_FFFF);
    assert!(m.contains(AccessMask::MAXIMUM_ALLOWED | AccessMask::SPECIFIC_RIGHTS_ALL));
    assert!(m.contains(AccessMask::GENERIC_ALL | AccessMask::WRITE_OWNER));
    let r = AccessMask::from_bits_truncate(AccessMask::READ_PROP);
    assert_eq!(r.bits(), AccessMask::READ_PROP);
    assert!(r.contains(AccessMask::READ_PROP));
    assert!(!r.contains(AccessMask::WRITE_PROP));
    // Object-specific bits without a name, and MAXIMUM_ALLOWED, are kept.
    assert_eq!(AccessMask::from_bits_truncate(0x0000_0200).bits(), 0x0000_0200);
    assert_eq!(AccessMask::from_bits_truncate(0x0200_0000).bits(), AccessMask::MAXIMUM_ALLOWED);
    // Reserved bits 21-23 and 26-27 are dropped.
    assert_eq!(AccessMask::from_bits_truncate(0x0CE0_0000).bits(), 0);
}

#[test]
fn sddl_error_messages() {
    assert_eq!(SddlError::Truncated("u16").to_string(), "buffer too short at u16");
    assert_eq!(SddlError::BadSid.to_string(), "bad ACE sid");
    match parse(&[0u8; 3]) {
        Err(e) => assert_eq!(e.to_string(), "buffer too short at sd header"),
        Ok(_) => panic!("a 3-byte buffer parsed"),
    }
}

#[test]
fn parse_far_offsets_are_truncated() {
    assert_eq!(truncated_at(parse(&header(0, 0xFFFF_FFFF, 0))), "sid");
    assert_eq!(truncated_at(parse(&header(0, 0, 0xFFFF_FFFF))), "u16");
    assert_eq!(truncated_at(parse(&header(0, 0, 17))), "u16");
}
