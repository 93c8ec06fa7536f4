//! Reading and writing the self-relative `SECURITY_DESCRIPTOR` blob
//! (MS-DTYP §2.4.6). Offsets are from the start of the buffer; hostile or
//! truncated input gives an error, never a panic.
use vstd::prelude::*;

use crate::acl::{
    ace_type_of, is_object_ace, AccessMask, Ace, AceType, AceView, Acl, SddlError, SdView,
    SecurityDescriptor, ACCESS_MASK_ALL,
};
use crate::sid::{le32_at, sid_bytes, sid_from_bytes, u32_le_bytes, Guid, Sid, SidView};

verus! {

/// The little-endian `u16` stored at `b[o..o + 2]`.
pub open spec fn le16_at(b: Seq<u8>, o: int) -> u16 {
    (b[o] + b[o + 1] * 0x100) as u16
}

/// A `u16` read at `o`, or `Truncated("u16")` when fewer than two bytes remain.
pub open spec fn read_u16(b: Seq<u8>, o: int) -> Result<u16, SddlError> {
    if 0 <= o && o + 2 <= b.len() {
        Ok(le16_at(b, o))
    } else {
        Err(SddlError::Truncated("u16"))
    }
}

/// A `u32` read at `o`, or `Truncated("u32")` when fewer than four bytes remain.
pub open spec fn read_u32(b: Seq<u8>, o: int) -> Result<u32, SddlError> {
    if 0 <= o && o + 4 <= b.len() {
        Ok(le32_at(b, o))
    } else {
        Err(SddlError::Truncated("u32"))
    }
}

/// The SID at `o`: its count byte at `o + 1` sizes it; `Truncated("sid")`
/// when the count byte or the SID runs past the end.
pub open spec fn read_sid(b: Seq<u8>, o: int) -> Result<SidView, SddlError> {
    if o + 1 >= b.len() {
        Err(SddlError::Truncated("sid"))
    } else if o + 8 + 4 * b[o + 1] > b.len() {
        Err(SddlError::Truncated("sid"))
    } else {
        match sid_from_bytes(b.subrange(o, o + 8 + 4 * b[o + 1])) {
            Some(v) => Ok(v),
            None => Err(SddlError::BadSid),
        }
    }
}

/// The SID at `off`, or none when `off` is zero.
pub open spec fn read_opt_sid(b: Seq<u8>, off: int) -> Result<Option<SidView>, SddlError> {
    if off == 0 {
        Ok(None)
    } else {
        match read_sid(b, off) {
            Ok(v) => Ok(Some(v)),
            Err(e) => Err(e),
        }
    }
}

/// The sixteen GUID bytes at `p`, or none when they run past the end.
pub open spec fn read_guid(b: Seq<u8>, p: int) -> Option<Seq<u8>> {
    if p + 16 <= b.len() {
        Some(b.subrange(p, p + 16))
    } else {
        None
    }
}

/// For an object ACE at `cur`: the object-type and inherited-object-type
/// GUIDs that its flags announce, and the offset of its SID.  Other ACEs have
/// no GUIDs and their SID right after the mask.
pub open spec fn read_ace_objects(b: Seq<u8>, cur: int, t: AceType) -> Result<
    (Option<Seq<u8>>, Option<Seq<u8>>, int),
    SddlError,
> {
    if is_object_ace(t) {
        match read_u32(b, cur + 8) {
            Err(e) => Err(e),
            Ok(f) => {
                let p0 = cur + 12;
                let ot = if f & 1 != 0 {
                    read_guid(b, p0)
                } else {
                    None
                };
                let p1 = if f & 1 != 0 {
                    p0 + 16
                } else {
                    p0
                };
                let iot = if f & 2 != 0 {
                    read_guid(b, p1)
                } else {
                    None
                };
                let p2 = if f & 2 != 0 {
                    p1 + 16
                } else {
                    p1
                };
                Ok((ot, iot, p2))
            },
        }
    } else {
        Ok((None, None, cur + 8))
    }
}

/// The ACE at `cur` and the size its header gives.
pub open spec fn read_ace(b: Seq<u8>, cur: int) -> Result<(AceView, int), SddlError> {
    if cur >= b.len() {
        Err(SddlError::Truncated("ace type"))
    } else if cur + 1 >= b.len() {
        Err(SddlError::Truncated("ace flags"))
    } else {
        match read_u16(b, cur + 2) {
            Err(e) => Err(e),
            Ok(size) => {
                let t = ace_type_of(b[cur]);
                match read_u32(b, cur + 4) {
                    Err(e) => Err(e),
                    Ok(m) => match read_ace_objects(b, cur, t) {
                        Err(e) => Err(e),
                        Ok((ot, iot, so)) => match read_sid(b, so) {
                            Err(e) => Err(e),
                            Ok(trustee) => Ok(
                                (
                                    AceView {
                                        ace_type: t,
                                        flags: b[cur + 1],
                                        mask: m & ACCESS_MASK_ALL,
                                        trustee,
                                        object_type: ot,
                                        inherited_object_type: iot,
                                    },
                                    size as int,
                                ),
                            ),
                        },
                    },
                }
            },
        }
    }
}

/// Up to `n` ACEs from `cur`, each following the previous by its size; an ACE
/// of size zero is the last one read.
pub open spec fn read_aces(b: Seq<u8>, cur: int, n: nat) -> Result<Seq<AceView>, SddlError>
    decreases n,
{
    if n == 0 {
        Ok(Seq::<AceView>::empty())
    } else {
        match read_ace(b, cur) {
            Err(e) => Err(e),
            Ok((a, size)) => if size == 0 {
                Ok(seq![a])
            } else {
                match read_aces(b, cur + size, (n - 1) as nat) {
                    Err(e) => Err(e),
                    Ok(rest) => Ok(seq![a] + rest),
                }
            },
        }
    }
}

/// The ACL at `off`: its ACE count at `off + 4`, its ACEs from `off + 8`.
pub open spec fn read_acl(b: Seq<u8>, off: int) -> Result<Seq<AceView>, SddlError> {
    match read_u16(b, off + 4) {
        Err(e) => Err(e),
        Ok(count) => read_aces(b, off + 8, count as nat),
    }
}

/// The ACL at `off`, or none when `off` is zero.
pub open spec fn read_opt_acl(b: Seq<u8>, off: int) -> Result<Option<Seq<AceView>>, SddlError> {
    if off == 0 {
        Ok(None)
    } else {
        match read_acl(b, off) {
            Ok(a) => Ok(Some(a)),
            Err(e) => Err(e),
        }
    }
}

/// What [`parse`] gives: a 20-byte header whose owner, group and DACL offsets
/// (at bytes 4, 8 and 16; zero for absent) lead to the parts, read in that
/// order, the first failure winning.
pub open spec fn parse_sd(b: Seq<u8>) -> Result<SdView, SddlError> {
    if b.len() < 20 {
        Err(SddlError::Truncated("sd header"))
    } else {
        match read_opt_sid(b, le32_at(b, 4) as int) {
            Err(e) => Err(e),
            Ok(owner) => match read_opt_sid(b, le32_at(b, 8) as int) {
                Err(e) => Err(e),
                Ok(group) => match read_opt_acl(b, le32_at(b, 16) as int) {
                    Err(e) => Err(e),
                    Ok(dacl) => Ok(SdView { owner, group, dacl }),
                },
            },
        }
    }
}

// Offsets are `u128` in the readers below: wide enough that adding a field's
// position to any `u64` offset never wraps, so every offset gets an answer.

fn u16le(b: &[u8], o: u128) -> (r: Result<u16, SddlError>)
    ensures
        r == read_u16(b@, o as int),
{
    let len = b.len() as u128;
    if o > len || len - o < 2 {
        return Err(SddlError::Truncated("u16"));
    }
    let o = o as usize;
    Ok(b[o] as u16 + (b[o + 1] as u16) * 0x100)
}

fn u32le(b: &[u8], o: u128) -> (r: Result<u32, SddlError>)
    ensures
        r == read_u32(b@, o as int),
{
    let len = b.len() as u128;
    if o > len || len - o < 4 {
        return Err(SddlError::Truncated("u32"));
    }
    let o = o as usize;
    Ok(b[o] as u32 + (b[o + 1] as u32) * 0x100 + (b[o + 2] as u32) * 0x1_0000 + (b[o + 3] as u32)
        * 0x100_0000)
}

/// The SID reader only fails with `Truncated("sid")`: the slice it hands to
/// [`Sid::from_bytes`] is always exactly as long as its count byte asks for.
pub proof fn lemma_read_sid_never_bad_sid(b: Seq<u8>, o: nat)
    ensures
        read_sid(b, o as int) != Err::<SidView, SddlError>(SddlError::BadSid),
{
    let o = o as int;
    if o + 1 < b.len() && o + 8 + 4 * b[o + 1] <= b.len() {
        let sub = b.subrange(o, o + 8 + 4 * b[o + 1]);
        assert(sub[1] == b[o + 1]);
        assert(sid_from_bytes(sub) is Some);
    }
}

fn sid_at(b: &[u8], o: u128) -> (r: Result<Sid, SddlError>)
    ensures
        match r {
            Ok(s) => read_sid(b@, o as int) == Ok::<SidView, SddlError>(s@),
            Err(e) => read_sid(b@, o as int) == Err::<SidView, SddlError>(e),
        },
        !(r matches Err(SddlError::BadSid)),
{
    proof {
        lemma_read_sid_never_bad_sid(b@, o as nat);
    }
    let len = b.len() as u128;
    if o >= len || len - o < 2 {
        return Err(SddlError::Truncated("sid"));
    }
    let count = b[(o + 1) as usize] as u128;
    if 8 + count * 4 > len - o {
        return Err(SddlError::Truncated("sid"));
    }
    let end = o + 8 + count * 4;
    let sub = &b[o as usize..end as usize];
    match Sid::from_bytes(sub) {
        Some(s) => Ok(s),
        None => Err(SddlError::BadSid),
    }
}

fn guid_at(b: &[u8], p: u128) -> (r: Option<Guid>)
    ensures
        match r {
            Some(g) => read_guid(b@, p as int) == Some(g@),
            None => read_guid(b@, p as int) is None,
        },
{
    let len = b.len() as u128;
    if p > len || len - p < 16 {
        return None;
    }
    let sub = &b[p as usize..(p + 16) as usize];
    Guid::from_bytes(sub)
}

fn ace_type_exec(x: u8) -> (t: AceType)
    ensures
        t == ace_type_of(x),
{
    match x {
        0x00 => AceType::AccessAllowed,
        0x01 => AceType::AccessDenied,
        0x05 => AceType::AccessAllowedObject,
        0x06 => AceType::AccessDeniedObject,
        x => AceType::Other(x),
    }
}

fn ace_objects(b: &[u8], cur: u64, t: AceType) -> (r: Result<
    (Option<Guid>, Option<Guid>, u128),
    SddlError,
>)
    ensures
        match r {
            Ok((ot, iot, so)) => read_ace_objects(b@, cur as int, t) == Ok::<
                (Option<Seq<u8>>, Option<Seq<u8>>, int),
                SddlError,
            >((crate::acl::opt_guid_view(ot), crate::acl::opt_guid_view(iot), so as int)),
            Err(e) => read_ace_objects(b@, cur as int, t) == Err::<
                (Option<Seq<u8>>, Option<Seq<u8>>, int),
                SddlError,
            >(e),
        },
{
    let cur = cur as u128;
    match t {
        AceType::AccessAllowedObject | AceType::AccessDeniedObject => {
            let obj_flags = match u32le(b, cur + 8) {
                Ok(f) => f,
                Err(e) => return Err(e),
            };
            let mut p = cur + 12;
            let mut ot: Option<Guid> = None;
            let mut iot: Option<Guid> = None;
            if obj_flags & 1 != 0 {
                ot = guid_at(b, p);
                p = p + 16;
            }
            if obj_flags & 2 != 0 {
                iot = guid_at(b, p);
                p = p + 16;
            }
            Ok((ot, iot, p))
        },
        _ => Ok((None, None, cur + 8)),
    }
}

fn ace_at(b: &[u8], cur: u128) -> (r: Result<(Ace, u16), SddlError>)
    ensures
        match r {
            Ok((a, size)) => read_ace(b@, cur as int) == Ok::<(AceView, int), SddlError>(
                (a@, size as int),
            ),
            Err(e) => read_ace(b@, cur as int) == Err::<(AceView, int), SddlError>(e),
        },
{
    let len = b.len() as u128;
    if cur >= len {
        return Err(SddlError::Truncated("ace type"));
    }
    let ace_type_byte = b[cur as usize];
    if cur + 1 >= len {
        return Err(SddlError::Truncated("ace flags"));
    }
    let flags = b[(cur + 1) as usize];
    let size = match u16le(b, cur + 2) {
        Ok(s) => s,
        Err(e) => return Err(e),
    };
    let ace_type = ace_type_exec(ace_type_byte);
    let raw_mask = match u32le(b, cur + 4) {
        Ok(m) => m,
        Err(e) => return Err(e),
    };
    let mask = AccessMask::from_bits_truncate(raw_mask);
    let (object_type, inherited_object_type, sid_off) = match ace_objects(
        b,
        cur as u64,
        ace_type,
    ) {
        Ok(x) => x,
        Err(e) => return Err(e),
    };
    let trustee = match sid_at(b, sid_off) {
        Ok(s) => s,
        Err(e) => return Err(e),
    };
    Ok((Ace { ace_type, flags, mask, trustee, object_type, inherited_object_type }, size))
}

/// The ACEs already read, followed by those still to come (or the error that
/// stops them).
spec fn after(done: Seq<AceView>, r: Result<Seq<AceView>, SddlError>) -> Result<
    Seq<AceView>,
    SddlError,
> {
    match r {
        Ok(rest) => Ok(done + rest),
        Err(e) => Err(e),
    }
}

fn parse_acl(b: &[u8], off: u64) -> (r: Result<Acl, SddlError>)
    ensures
        match r {
            Ok(acl) => read_acl(b@, off as int) == Ok::<Seq<AceView>, SddlError>(acl@),
            Err(e) => read_acl(b@, off as int) == Err::<Seq<AceView>, SddlError>(e),
        },
{
    // ACL header: Revision(1) Sbz1(1) AclSize(2) AceCount(2) Sbz2(2)
    let ace_count = match u16le(b, off as u128 + 4) {
        Ok(c) => c,
        Err(e) => return Err(e),
    };
    let mut cur: u128 = off as u128 + 8;
    let mut aces: Vec<Ace> = Vec::new();
    let mut i: u16 = 0;
    assert(after(Seq::<AceView>::empty(), read_aces(b@, cur as int, ace_count as nat))
        =~= read_aces(b@, cur as int, ace_count as nat)) by {
        match read_aces(b@, cur as int, ace_count as nat) {
            Ok(rest) => {
                assert(Seq::<AceView>::empty() + rest =~= rest);
            },
            Err(_) => {},
        }
    }
    while i < ace_count
        invariant
            i <= ace_count,
            cur <= off + 8 + 0x1_0000 * i,
            read_acl(b@, off as int) == after(
                aces@.map_values(|a: Ace| a@),
                read_aces(b@, cur as int, (ace_count - i) as nat),
            ),
        decreases ace_count - i,
    {
        let ghost done = aces@.map_values(|a: Ace| a@);
        let (ace, size) = match ace_at(b, cur) {
            Ok(x) => x,
            Err(e) => return Err(e),
        };
        let ghost av = ace@;
        aces.push(ace);
        assert(aces@.map_values(|a: Ace| a@) =~= done.push(av));
        if size == 0 {
            assert(done + seq![av] =~= done.push(av));
            return Ok(Acl { aces });
        }
        proof {
            match read_aces(b@, cur + size, (ace_count - i - 1) as nat) {
                Ok(rest) => {
                    assert(done + (seq![av] + rest) =~= done.push(av) + rest);
                },
                Err(_) => {},
            }
        }
        cur = cur + size as u128;
        i = i + 1;
    }
    assert(aces@.map_values(|a: Ace| a@) + Seq::<AceView>::empty() =~= aces@.map_values(
        |a: Ace| a@,
    ));
    Ok(Acl { aces })
}

/// Parse a self-relative `SECURITY_DESCRIPTOR`. Offsets are from the start of `b`. Never panics
/// on malformed / hostile input — returns [`SddlError`] instead.
pub fn parse(b: &[u8]) -> (r: Result<SecurityDescriptor, SddlError>)
    ensures
        match r {
            Ok(sd) => parse_sd(b@) == Ok::<SdView, SddlError>(sd@),
            Err(e) => parse_sd(b@) == Err::<SdView, SddlError>(e),
        },
{
    if b.len() < 20 {
        return Err(SddlError::Truncated("sd header"));
    }
    let owner_off = match u32le(b, 4) {
        Ok(v) => v as u128,
        Err(e) => return Err(e),
    };
    let group_off = match u32le(b, 8) {
        Ok(v) => v as u128,
        Err(e) => return Err(e),
    };
    let dacl_off = match u32le(b, 16) {
        Ok(v) => v as u64,
        Err(e) => return Err(e),
    };
    let owner = if owner_off != 0 {
        match sid_at(b, owner_off) {
            Ok(s) => Some(s),
            Err(e) => return Err(e),
        }
    } else {
        None
    };
    let group = if group_off != 0 {
        match sid_at(b, group_off) {
            Ok(s) => Some(s),
            Err(e) => return Err(e),
        }
    } else {
        None
    };
    let dacl = if dacl_off != 0 {
        match parse_acl(b, dacl_off) {
            Ok(a) => Some(a),
            Err(e) => return Err(e),
        }
    } else {
        None
    };
    Ok(SecurityDescriptor { owner, group, dacl })
}


// ---------------------------------------------------------------------------
// Building a descriptor.

/// The two little-endian bytes of `x`.
pub open spec fn u16_le_bytes(x: u16) -> Seq<u8> {
    seq![(x % 0x100) as u8, (x / 0x100) as u8]
}

/// `BUILTIN\Administrators`, `S-1-5-32-544`.
pub open spec fn builtin_administrators() -> SidView {
    SidView { revision: 1, identifier_authority: 5, sub_authorities: seq![32u32, 544u32] }
}

/// The access mask that grants full control.
pub const FULL_CONTROL: u32 = 0x000F_01FF;

/// An `ACCESS_ALLOWED_ACE` granting full control to `t`: type 0, flags 0,
/// its size (modulo 2^16), the mask, the SID.
pub open spec fn rbcd_ace_bytes(t: SidView) -> Seq<u8> {
    let tb = sid_bytes(t);
    seq![0u8, 0u8] + u16_le_bytes(((8 + tb.len()) % 0x1_0000) as u16) + u32_le_bytes(FULL_CONTROL)
        + tb
}

/// An ACL of revision 2 holding that one ACE.
pub open spec fn rbcd_dacl_bytes(t: SidView) -> Seq<u8> {
    let ace = rbcd_ace_bytes(t);
    seq![2u8, 0u8] + u16_le_bytes(((8 + ace.len()) % 0x1_0000) as u16) + u16_le_bytes(1)
        + u16_le_bytes(0) + ace
}

/// What [`build_rbcd_sd`] writes: a self-relative header (revision 1,
/// control `SE_SELF_RELATIVE | SE_DACL_PRESENT`), owner and group both
/// `BUILTIN\Administrators`, no SACL, then the DACL.
pub open spec fn rbcd_sd_bytes(t: SidView) -> Seq<u8> {
    let ob = sid_bytes(builtin_administrators());
    seq![1u8, 0u8] + u16_le_bytes(0x8004) + u32_le_bytes(20) + u32_le_bytes((20 + ob.len()) as u32)
        + u32_le_bytes(0) + u32_le_bytes((20 + 2 * ob.len()) as u32) + ob + ob + rbcd_dacl_bytes(t)
}

fn push_u16_le(v: &mut Vec<u8>, x: u16)
    ensures
        final(v)@ == old(v)@ + u16_le_bytes(x),
{
    v.push((x % 0x100) as u8);
    v.push((x / 0x100) as u8);
    assert(final(v)@ =~= old(v)@ + u16_le_bytes(x));
}

fn push_u32_le(v: &mut Vec<u8>, x: u32)
    ensures
        final(v)@ == old(v)@ + u32_le_bytes(x),
{
    v.push((x % 0x100) as u8);
    v.push((x / 0x100 % 0x100) as u8);
    v.push((x / 0x1_0000 % 0x100) as u8);
    v.push((x / 0x100_0000) as u8);
    assert(final(v)@ =~= old(v)@ + u32_le_bytes(x));
}

fn push_all(v: &mut Vec<u8>, src: &Vec<u8>)
    ensures
        final(v)@ == old(v)@ + src@,
{
    let mut i: usize = 0;
    while i < src.len()
        invariant
            i <= src@.len(),
            v@ == old(v)@ + src@.take(i as int),
        decreases src@.len() - i,
    {
        v.push(src[i]);
        assert(src@.take(i + 1) =~= src@.take(i as int).push(src@[i as int]));
        assert(v@ =~= old(v)@ + src@.take(i + 1));
        i = i + 1;
    }
    assert(src@.take(src@.len() as int) =~= src@);
}

/// `(8 + len) mod 2^16`, the size field for a body of `len` bytes.
fn size_field(len: usize) -> (r: u16)
    ensures
        r == ((8 + len) % 0x1_0000) as u16,
{
    let low = (len % 0x1_0000) as u32;
    let r = ((low + 8) % 0x1_0000) as u16;
    assert((len % 0x1_0000 + 8) % 0x1_0000 == (8 + len) % 0x1_0000) by (nonlinear_arith);
    r
}

/// Serialize a SID to its binary (`objectSid`) form. (Convenience alias for [`Sid::to_bytes`].)
pub fn sid_to_bytes(sid: &Sid) -> (r: Vec<u8>)
    ensures
        r@ == sid_bytes(sid@),
{
    sid.to_bytes()
}

/// Build a `msDS-AllowedToActOnBehalfOfOtherIdentity`-style security descriptor granting
/// `trustee` full control (the RBCD primitive): a self-relative SD with one allow ACE, owner
/// `BUILTIN\Administrators`. Handy for tests and for tooling that needs to *write* an SD.
pub fn build_rbcd_sd(trustee: &Sid) -> (r: Vec<u8>)
    ensures
        r@ == rbcd_sd_bytes(trustee@),
{
    let mut subs: Vec<u32> = Vec::new();
    subs.push(32);
    subs.push(544);
    let owner = Sid { revision: 1, identifier_authority: 5, sub_authorities: subs };
    assert(owner@.sub_authorities =~= seq![32u32, 544u32]);
    let ownerb = owner.to_bytes();
    let trusteeb = trustee.to_bytes();
    proof {
        crate::sid::lemma_sid_bytes_round_trip(builtin_administrators());
    }
    // ACCESS_ALLOWED_ACE: type 0, flags 0, size, mask (full control), sid.
    let ace_size = size_field(trusteeb.len());
    let mut ace: Vec<u8> = Vec::new();
    ace.push(0x00);
    ace.push(0x00);
    push_u16_le(&mut ace, ace_size);
    push_u32_le(&mut ace, FULL_CONTROL);
    push_all(&mut ace, &trusteeb);
    assert(ace@ =~= rbcd_ace_bytes(trustee@));
    // ACL: revision 2, size, ace_count 1.
    let dacl_size = size_field(ace.len());
    let mut dacl: Vec<u8> = Vec::new();
    dacl.push(0x02);
    dacl.push(0x00);
    push_u16_le(&mut dacl, dacl_size);
    push_u16_le(&mut dacl, 1);
    push_u16_le(&mut dacl, 0);
    push_all(&mut dacl, &ace);
    assert(dacl@ =~= rbcd_dacl_bytes(trustee@));
    // Self-relative SD: owner = group = BA, DACL present.
    let owner_off: u32 = 20;
    let group_off: u32 = 20 + ownerb.len() as u32;
    let dacl_off: u32 = group_off + ownerb.len() as u32;
    let mut sd: Vec<u8> = Vec::new();
    sd.push(1);
    sd.push(0);
    push_u16_le(&mut sd, 0x8004);  // SE_SELF_RELATIVE | SE_DACL_PRESENT
    push_u32_le(&mut sd, owner_off);
    push_u32_le(&mut sd, group_off);
    push_u32_le(&mut sd, 0);  // SACL offset
    push_u32_le(&mut sd, dacl_off);
    push_all(&mut sd, &ownerb);  // owner
    push_all(&mut sd, &ownerb);  // group
    push_all(&mut sd, &dacl);
    assert(sd@ =~= rbcd_sd_bytes(trustee@));
    sd
}


proof fn lemma_le16_round_trip(x: u16)
    ensures
        le16_at(u16_le_bytes(x), 0) == x,
{
    assert((x % 0x100) + (x / 0x100) * 0x100 == x) by (bit_vector);
}

/// Where the pieces of the built descriptor lie.
proof fn lemma_rbcd_layout(t: SidView)
    requires
        crate::sid::fits_binary(t),
    ensures
        ({
            let sd = rbcd_sd_bytes(t);
            let ob = sid_bytes(builtin_administrators());
            let n = t.sub_authorities.len();
            &&& sd.len() == 76 + 4 * n
            &&& le32_at(sd, 4) == 20
            &&& le32_at(sd, 8) == 36
            &&& le32_at(sd, 16) == 52
            &&& sd.subrange(20, 36) == ob
            &&& sd.subrange(36, 52) == ob
            &&& sd.subrange(52, sd.len() as int) == rbcd_dacl_bytes(t)
            &&& sd.subrange(60, sd.len() as int) == rbcd_ace_bytes(t)
            &&& sd[56] == 1 && sd[57] == 0
        }),
{
    let ba = builtin_administrators();
    crate::sid::lemma_sid_bytes_round_trip(ba);
    crate::sid::lemma_sid_bytes_round_trip(t);
    let ob = sid_bytes(ba);
    let dacl = rbcd_dacl_bytes(t);
    let ace = rbcd_ace_bytes(t);
    let sd = rbcd_sd_bytes(t);
    let head = seq![1u8, 0u8, 4u8, 0x80u8, 20u8, 0u8, 0u8, 0u8, 36u8, 0u8, 0u8, 0u8, 0u8, 0u8, 0u8, 0u8, 52u8, 0u8, 0u8, 0u8];
    assert(u16_le_bytes(0x8004) =~= seq![4u8, 0x80u8]);
    assert(u32_le_bytes(20) =~= seq![20u8, 0u8, 0u8, 0u8]);
    assert(u32_le_bytes(36) =~= seq![36u8, 0u8, 0u8, 0u8]);
    assert(u32_le_bytes(0) =~= seq![0u8, 0u8, 0u8, 0u8]);
    assert(u32_le_bytes(52) =~= seq![52u8, 0u8, 0u8, 0u8]);
    assert(sd =~= head + ob + ob + dacl);
    assert(u16_le_bytes(1) =~= seq![1u8, 0u8]);
    assert(u16_le_bytes(0) =~= seq![0u8, 0u8]);
    assert(sd.subrange(20, 36) =~= ob);
    assert(sd.subrange(36, 52) =~= ob);
    assert(sd.subrange(52, sd.len() as int) =~= dacl);
    assert(dacl.subrange(8, dacl.len() as int) =~= ace);
    assert(sd.subrange(60, sd.len() as int) =~= ace);
    assert(dacl[4] == 1 && dacl[5] == 0);
}

/// Owner and group of the built descriptor.
proof fn lemma_rbcd_owner_group(t: SidView)
    requires
        crate::sid::fits_binary(t),
    ensures
        read_sid(rbcd_sd_bytes(t), 20) == Ok::<SidView, SddlError>(builtin_administrators()),
        read_sid(rbcd_sd_bytes(t), 36) == Ok::<SidView, SddlError>(builtin_administrators()),
{
    let ba = builtin_administrators();
    crate::sid::lemma_sid_bytes_round_trip(ba);
    lemma_rbcd_layout(t);
    let sd = rbcd_sd_bytes(t);
    let ob = sid_bytes(ba);
    assert(ob[1] == 2);
    assert(sd[21] == sd.subrange(20, 36)[1]);
    assert(sd[37] == sd.subrange(36, 52)[1]);
}

/// The one ACE of the built descriptor.
#[verifier::spinoff_prover]
#[verifier::rlimit(60)]
proof fn lemma_rbcd_ace(t: SidView)
    requires
        crate::sid::fits_binary(t),
    ensures
        read_ace(rbcd_sd_bytes(t), 60) == Ok::<(AceView, int), SddlError>(
            (
                AceView {
                    ace_type: AceType::AccessAllowed,
                    flags: 0,
                    mask: FULL_CONTROL,
                    trustee: t,
                    object_type: None,
                    inherited_object_type: None,
                },
                16 + 4 * t.sub_authorities.len() as int,
            ),
        ),
{
    crate::sid::lemma_sid_bytes_round_trip(t);
    lemma_rbcd_layout(t);
    let sd = rbcd_sd_bytes(t);
    let ace = rbcd_ace_bytes(t);
    let tb = sid_bytes(t);
    let n = t.sub_authorities.len();
    let ace_size = ((8 + tb.len()) % 0x1_0000) as u16;
    assert(ace_size == 16 + 4 * n);
    let tail = sd.subrange(60, sd.len() as int);
    assert(tail == ace);
    assert(sd[60] == ace[0] && sd[61] == ace[1]);
    assert(ace[0] == 0 && ace[1] == 0);
    lemma_le16_round_trip(ace_size);
    assert(sd[62] == ace[2] && sd[63] == ace[3]);
    assert(ace.subrange(2, 4) =~= u16_le_bytes(ace_size));
    assert(le16_at(sd, 62) == le16_at(u16_le_bytes(ace_size), 0));
    crate::sid::lemma_le32_round_trip(FULL_CONTROL);
    assert(sd[64] == ace[4] && sd[65] == ace[5] && sd[66] == ace[6] && sd[67] == ace[7]);
    assert(ace.subrange(4, 8) =~= u32_le_bytes(FULL_CONTROL));
    assert(le32_at(sd, 64) == le32_at(u32_le_bytes(FULL_CONTROL), 0));
    assert(FULL_CONTROL & ACCESS_MASK_ALL == FULL_CONTROL) by (bit_vector);
    assert(ace.subrange(8, ace.len() as int) =~= tb);
    assert(sd[69] == ace[9]);
    assert(tb[1] == n);
    assert(sd.subrange(68, 76 + 4 * n as int) =~= tb);
}

/// The descriptor that [`build_rbcd_sd`] writes parses back to owner and
/// group `BUILTIN\Administrators` and a DACL holding exactly one ACE: an
/// `AccessAllowed` ACE with no flags, full control, for the given trustee —
/// whenever the trustee fits the binary SID form.
pub proof fn lemma_rbcd_sd_round_trip(t: SidView)
    requires
        crate::sid::fits_binary(t),
    ensures
        parse_sd(rbcd_sd_bytes(t)) == Ok::<SdView, SddlError>(
            SdView {
                owner: Some(builtin_administrators()),
                group: Some(builtin_administrators()),
                dacl: Some(
                    seq![
                        AceView {
                            ace_type: AceType::AccessAllowed,
                            flags: 0,
                            mask: FULL_CONTROL,
                            trustee: t,
                            object_type: None,
                            inherited_object_type: None,
                        },
                    ],
                ),
            },
        ),
{
    lemma_rbcd_layout(t);
    lemma_rbcd_owner_group(t);
    lemma_rbcd_ace(t);
    let sd = rbcd_sd_bytes(t);
    let n = t.sub_authorities.len();
    let av = AceView {
        ace_type: AceType::AccessAllowed,
        flags: 0,
        mask: FULL_CONTROL,
        trustee: t,
        object_type: None,
        inherited_object_type: None,
    };
    assert(read_u16(sd, 56) == Ok::<u16, SddlError>(1));
    assert(read_aces(sd, 76 + 4 * n as int, 0) == Ok::<Seq<AceView>, SddlError>(Seq::empty()));
    assert(seq![av] + Seq::<AceView>::empty() =~= seq![av]);
    assert(read_aces(sd, 60, 1) == Ok::<Seq<AceView>, SddlError>(seq![av]));
    assert(read_acl(sd, 52) == Ok::<Seq<AceView>, SddlError>(seq![av]));
}


// ---------------------------------------------------------------------------
// What a parsed DACL says about the bytes it came from.

/// The little-endian 16-bit value of `b[o]`, `b[o + 1]`.
pub open spec fn raw16(b: Seq<u8>, o: int) -> int {
    b[o] + b[o + 1] * 0x100
}

/// The little-endian 32-bit value of `b[o..o + 4]`.
pub open spec fn raw32(b: Seq<u8>, o: int) -> int {
    b[o] + b[o + 1] * 0x100 + b[o + 2] * 0x1_0000 + b[o + 3] * 0x100_0000
}

/// Where the `k`-th ACE lies when the first is at `cur` and each one is
/// followed by the next after as many bytes as its AceSize field (bytes 2-3) says.
pub open spec fn ace_offset(b: Seq<u8>, cur: int, k: nat) -> int
    decreases k,
{
    if k == 0 {
        cur
    } else {
        ace_offset(b, cur + raw16(b, cur + 2), (k - 1) as nat)
    }
}

/// The ACE `a` is what the bytes at `c` hold: its type byte and flags byte,
/// its mask keeping every MS-DTYP bit, for object ACE types (5 and 6) the
/// GUIDs that the object flags announce, copied byte for byte from where they
/// lie, and the SID that follows.
pub open spec fn ace_matches_bytes(b: Seq<u8>, c: int, a: AceView) -> bool {
    let t = b[c];
    let obj = t == 5 || t == 6;
    let f = raw32(b, c + 8) as u32;
    let has_ot = obj && f & 1 != 0;
    let has_iot = obj && f & 2 != 0;
    let g1 = c + 12;
    let g2 = if has_ot {
        g1 + 16
    } else {
        g1
    };
    let so = if !obj {
        c + 8
    } else if has_iot {
        g2 + 16
    } else {
        g2
    };
    &&& (t == 0 ==> a.ace_type == AceType::AccessAllowed)
    &&& (t == 1 ==> a.ace_type == AceType::AccessDenied)
    &&& (t == 5 ==> a.ace_type == AceType::AccessAllowedObject)
    &&& (t == 6 ==> a.ace_type == AceType::AccessDeniedObject)
    &&& (t != 0 && t != 1 && t != 5 && t != 6 ==> a.ace_type == AceType::Other(t))
    &&& a.flags == b[c + 1]
    &&& a.mask == (raw32(b, c + 4) as u32) & 0xF31F_FFFFu32
    &&& (has_ot && g1 + 16 <= b.len() ==> a.object_type == Some(b.subrange(g1, g1 + 16)))
    &&& (!(has_ot && g1 + 16 <= b.len()) ==> a.object_type is None)
    &&& (has_iot && g2 + 16 <= b.len() ==> a.inherited_object_type == Some(
        b.subrange(g2, g2 + 16),
    ))
    &&& (!(has_iot && g2 + 16 <= b.len()) ==> a.inherited_object_type is None)
    &&& 0 <= so <= b.len()
    &&& sid_from_bytes(b.subrange(so, b.len() as int)) == Some(a.trustee)
}

proof fn lemma_sid_prefix(b: Seq<u8>, o: int, end: int)
    requires
        0 <= o < end <= b.len(),
        o + 1 < end,
        end == o + 8 + 4 * b[o + 1],
    ensures
        sid_from_bytes(b.subrange(o, end)) == sid_from_bytes(b.subrange(o, b.len() as int)),
{
    let x = b.subrange(o, end);
    let y = b.subrange(o, b.len() as int);
    assert(x[1] == y[1]);
    assert(forall|i: int| 0 <= i < x.len() ==> x[i] == y[i]);
    if sid_from_bytes(x) is Some {
        let n = x[1] as int;
        assert(sid_from_bytes(x).unwrap().sub_authorities =~= sid_from_bytes(y).unwrap().sub_authorities) by {
            assert forall|i: int| 0 <= i < n implies #[trigger] crate::sid::le32_at(x, 8 + 4 * i) == crate::sid::le32_at(y, 8 + 4 * i) by {
                assert(x[8 + 4 * i] == y[8 + 4 * i]);
                assert(x[8 + 4 * i + 1] == y[8 + 4 * i + 1]);
                assert(x[8 + 4 * i + 2] == y[8 + 4 * i + 2]);
                assert(x[8 + 4 * i + 3] == y[8 + 4 * i + 3]);
            }
        }
        assert(crate::sid::be48_at(x, 2) == crate::sid::be48_at(y, 2));
    }
}

/// One ACE read at `c` is what the bytes there hold, and its size is the
/// AceSize field.
proof fn lemma_read_ace_bytes(b: Seq<u8>, c: int, a: AceView, size: int)
    requires
        c >= 0,
        read_ace(b, c) == Ok::<(AceView, int), SddlError>((a, size)),
    ensures
        ace_matches_bytes(b, c, a),
        size == raw16(b, c + 2),
{
    let t = b[c];
    let obj = t == 5 || t == 6;
    assert(is_object_ace(ace_type_of(t)) == obj);
    let so = match read_ace_objects(b, c, ace_type_of(t)) {
        Ok((_, _, so)) => so,
        Err(_) => 0,
    };
    assert(read_ace_objects(b, c, ace_type_of(t)) is Ok);
    assert(read_sid(b, so) is Ok);
    let end = so + 8 + 4 * b[so + 1];
    assert(sid_from_bytes(b.subrange(so, end)) == Some(a.trustee));
    lemma_sid_prefix(b, so, end);
}

/// Up to `n` ACEs read from `cur`: at most `n` of them, the `k`-th where the
/// AceSize fields of the earlier ones put it, and fewer than `n` only when
/// the last one read has AceSize 0.
proof fn lemma_read_aces_bytes(b: Seq<u8>, cur: int, n: nat, aces: Seq<AceView>)
    requires
        cur >= 0,
        read_aces(b, cur, n) == Ok::<Seq<AceView>, SddlError>(aces),
    ensures
        aces.len() <= n,
        forall|k: int| 0 <= k < aces.len() ==> ace_matches_bytes(b, #[trigger] ace_offset(b, cur, k as nat), aces[k]),
        forall|k: int| 0 <= k < aces.len() - 1 ==> raw16(b, #[trigger] ace_offset(b, cur, k as nat) + 2) != 0,
        aces.len() < n ==> aces.len() > 0 && raw16(b, ace_offset(b, cur, (aces.len() - 1) as nat) + 2) == 0,
    decreases n,
{
    if n == 0 {
        assert(aces =~= Seq::<AceView>::empty());
    } else {
        let (a, size) = match read_ace(b, cur) {
            Ok(x) => x,
            Err(_) => (aces[0], 0),
        };
        assert(read_ace(b, cur) is Ok);
        lemma_read_ace_bytes(b, cur, a, size);
        assert(ace_offset(b, cur, 0) == cur);
        if size == 0 {
            assert(aces =~= seq![a]);
        } else {
            let rest = match read_aces(b, cur + size, (n - 1) as nat) {
                Ok(r) => r,
                Err(_) => aces,
            };
            assert(read_aces(b, cur + size, (n - 1) as nat) is Ok);
            assert(aces =~= seq![a] + rest);
            assert(cur + size >= 0) by {
                assert(size == raw16(b, cur + 2));
            }
            lemma_read_aces_bytes(b, cur + size, (n - 1) as nat, rest);
            assert forall|k: int| 0 < k < aces.len() implies #[trigger] ace_offset(b, cur, k as nat)
                == ace_offset(b, cur + size, (k - 1) as nat) by {}
            assert forall|k: int| 0 <= k < aces.len() implies ace_matches_bytes(
                b,
                #[trigger] ace_offset(b, cur, k as nat),
                aces[k],
            ) by {
                if k > 0 {
                    assert(aces[k] == rest[k - 1]);
                    assert(ace_matches_bytes(b, ace_offset(b, cur + size, (k - 1) as nat), rest[k - 1]));
                }
            }
            assert forall|k: int| 0 <= k < aces.len() - 1 implies raw16(
                b,
                #[trigger] ace_offset(b, cur, k as nat) + 2,
            ) != 0 by {
                if k > 0 {
                    assert(raw16(b, ace_offset(b, cur + size, (k - 1) as nat) + 2) != 0);
                }
            }
            if aces.len() < n {
                assert(rest.len() < n - 1);
                assert(ace_offset(b, cur, (aces.len() - 1) as nat) == ace_offset(
                    b,
                    cur + size,
                    (rest.len() - 1) as nat,
                ));
            }
        }
    }
}

/// A parsed DACL is what the buffer holds: with the DACL at the offset in
/// header bytes 16-19 and its AceCount in bytes 4-5 of the ACL, there are at
/// most AceCount ACEs; the first lies 8 bytes into the ACL and each next one
/// as many bytes further as the previous one's AceSize; each ACE is the type,
/// flags, mask, GUIDs (copied byte for byte) and SID stored there; and there
/// are fewer than AceCount only when the last ACE read has AceSize 0.
pub proof fn lemma_parsed_dacl_layout(b: Seq<u8>, v: SdView, aces: Seq<AceView>)
    requires
        parse_sd(b) == Ok::<SdView, SddlError>(v),
        v.dacl == Some(aces),
    ensures
        ({
            let d = raw32(b, 16);
            let n = raw16(b, d + 4);
            &&& aces.len() <= n
            &&& forall|k: int|
                0 <= k < aces.len() ==> ace_matches_bytes(
                    b,
                    #[trigger] ace_offset(b, d + 8, k as nat),
                    aces[k],
                )
            &&& forall|k: int|
                0 <= k < aces.len() - 1 ==> raw16(b, #[trigger] ace_offset(b, d + 8, k as nat) + 2)
                    != 0
            &&& aces.len() < n ==> aces.len() > 0 && raw16(
                b,
                ace_offset(b, d + 8, (aces.len() - 1) as nat) + 2,
            ) == 0
        }),
{
    let d = le32_at(b, 16) as int;
    assert(d == raw32(b, 16));
    assert(read_opt_acl(b, d) == Ok::<Option<Seq<AceView>>, SddlError>(Some(aces)));
    assert(read_acl(b, d) == Ok::<Seq<AceView>, SddlError>(aces));
    assert(read_u16(b, d + 4) is Ok);
    let n = le16_at(b, d + 4);
    assert(n == raw16(b, d + 4));
    lemma_read_aces_bytes(b, d + 8, n as nat, aces);
}


/// In the built descriptor every size field counts what follows it: the
/// DACL offset in the header leads to an ACL whose AclSize is the number of
/// bytes from there to the end, whose AceCount is 1, and whose one ACE has an
/// AceSize of the bytes from it to the end — for every trustee that fits the
/// binary form.
pub proof fn lemma_rbcd_sizes(t: SidView)
    requires
        crate::sid::fits_binary(t),
    ensures
        ({
            let sd = rbcd_sd_bytes(t);
            let d = raw32(sd, 16);
            &&& 20 <= d && d + 8 <= sd.len()
            &&& raw16(sd, d + 2) == sd.len() - d
            &&& raw16(sd, d + 4) == 1
            &&& raw16(sd, d + 8 + 2) == sd.len() - (d + 8)
        }),
{
    lemma_rbcd_layout(t);
    crate::sid::lemma_sid_bytes_round_trip(t);
    let sd = rbcd_sd_bytes(t);
    let dacl = rbcd_dacl_bytes(t);
    let ace = rbcd_ace_bytes(t);
    let n = t.sub_authorities.len();
    assert(raw32(sd, 16) == le32_at(sd, 16));
    assert(ace.len() == 16 + 4 * n);
    let acl_size = ((8 + ace.len()) % 0x1_0000) as u16;
    let ace_size = ((8 + sid_bytes(t).len()) % 0x1_0000) as u16;
    assert(acl_size == 24 + 4 * n);
    assert(ace_size == 16 + 4 * n);
    assert(sd[54] == dacl[2] && sd[55] == dacl[3]);
    assert(dacl[2] == (acl_size % 0x100) as u8 && dacl[3] == (acl_size / 0x100) as u8);
    assert(raw16(sd, 54) == acl_size);
    assert(sd[62] == ace[2] && sd[63] == ace[3]);
    assert(ace[2] == (ace_size % 0x100) as u8 && ace[3] == (ace_size / 0x100) as u8);
    assert(raw16(sd, 62) == ace_size);
}

} // verus!
