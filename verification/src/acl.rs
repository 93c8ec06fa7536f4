//! The parsed shape of a security descriptor: access masks, ACE types, ACEs,
//! ACLs and the descriptor itself, each with its mathematical view.
use vstd::prelude::*;

use crate::sid::{Guid, Sid, SidView};

verus! {

/// Every ACCESS_MASK bit that MS-DTYP defines: the object-specific rights
/// (bits 0-15), the standard rights (16-20), ACCESS_SYSTEM_SECURITY (24),
/// MAXIMUM_ALLOWED (25) and the generic rights (28-31).
pub const ACCESS_MASK_ALL: u32 = 0xF31F_FFFF;

/// ACCESS_MASK bits (MS-DTYP §2.4.3 + AD-specific extended rights).
#[derive(Clone, Copy, Debug, PartialEq, Eq, Structural)]
pub struct AccessMask {
    bits: u32,
}

impl View for AccessMask {
    type V = u32;

    closed spec fn view(&self) -> u32 {
        self.bits
    }
}

impl AccessMask {
    pub const CREATE_CHILD: u32 = 0x0000_0001;
    pub const DELETE_CHILD: u32 = 0x0000_0002;
    pub const LIST_CHILDREN: u32 = 0x0000_0004;
    /// Validated write.
    pub const SELF: u32 = 0x0000_0008;
    /// Read property (scoped by object GUID).
    pub const READ_PROP: u32 = 0x0000_0010;
    /// Write property (scoped by object GUID).
    pub const WRITE_PROP: u32 = 0x0000_0020;
    pub const DELETE_TREE: u32 = 0x0000_0040;
    pub const LIST_OBJECT: u32 = 0x0000_0080;
    /// Extended right (scoped by object GUID).
    pub const CONTROL_ACCESS: u32 = 0x0000_0100;
    /// All sixteen object-specific rights (bits 0-15), named or not.
    pub const SPECIFIC_RIGHTS_ALL: u32 = 0x0000_FFFF;
    pub const DELETE: u32 = 0x0001_0000;
    pub const READ_CONTROL: u32 = 0x0002_0000;
    pub const WRITE_DAC: u32 = 0x0004_0000;
    pub const WRITE_OWNER: u32 = 0x0008_0000;
    pub const SYNCHRONIZE: u32 = 0x0010_0000;
    pub const ACCESS_SYSTEM_SECURITY: u32 = 0x0100_0000;
    pub const MAXIMUM_ALLOWED: u32 = 0x0200_0000;
    pub const GENERIC_ALL: u32 = 0x1000_0000;
    pub const GENERIC_EXECUTE: u32 = 0x2000_0000;
    pub const GENERIC_WRITE: u32 = 0x4000_0000;
    pub const GENERIC_READ: u32 = 0x8000_0000;

    /// The mask holding the named bits of `bits`; other bits are dropped.
    pub fn from_bits_truncate(bits: u32) -> (m: AccessMask)
        ensures
            m@ == bits & ACCESS_MASK_ALL,
    {
        AccessMask { bits: bits & ACCESS_MASK_ALL }
    }

    /// The raw bits.
    pub fn bits(&self) -> (r: u32)
        ensures
            r == self@,
    {
        self.bits
    }

    /// True when every bit of `other` is set in `self`.
    pub fn contains(&self, other: u32) -> (r: bool)
        ensures
            r == (self@ & other == other),
    {
        self.bits & other == other
    }
}

/// Every named flag, and every MS-DTYP bit, survives `from_bits_truncate`;
/// truncating twice changes nothing.
pub proof fn lemma_access_mask_named_bits(bits: u32)
    ensures
        (bits & ACCESS_MASK_ALL) & ACCESS_MASK_ALL == bits & ACCESS_MASK_ALL,
        AccessMask::CREATE_CHILD & ACCESS_MASK_ALL == AccessMask::CREATE_CHILD,
        AccessMask::DELETE_CHILD & ACCESS_MASK_ALL == AccessMask::DELETE_CHILD,
        AccessMask::LIST_CHILDREN & ACCESS_MASK_ALL == AccessMask::LIST_CHILDREN,
        AccessMask::SELF & ACCESS_MASK_ALL == AccessMask::SELF,
        AccessMask::READ_PROP & ACCESS_MASK_ALL == AccessMask::READ_PROP,
        AccessMask::WRITE_PROP & ACCESS_MASK_ALL == AccessMask::WRITE_PROP,
        AccessMask::DELETE_TREE & ACCESS_MASK_ALL == AccessMask::DELETE_TREE,
        AccessMask::LIST_OBJECT & ACCESS_MASK_ALL == AccessMask::LIST_OBJECT,
        AccessMask::CONTROL_ACCESS & ACCESS_MASK_ALL == AccessMask::CONTROL_ACCESS,
        AccessMask::SPECIFIC_RIGHTS_ALL & ACCESS_MASK_ALL == AccessMask::SPECIFIC_RIGHTS_ALL,
        AccessMask::DELETE & ACCESS_MASK_ALL == AccessMask::DELETE,
        AccessMask::READ_CONTROL & ACCESS_MASK_ALL == AccessMask::READ_CONTROL,
        AccessMask::WRITE_DAC & ACCESS_MASK_ALL == AccessMask::WRITE_DAC,
        AccessMask::WRITE_OWNER & ACCESS_MASK_ALL == AccessMask::WRITE_OWNER,
        AccessMask::SYNCHRONIZE & ACCESS_MASK_ALL == AccessMask::SYNCHRONIZE,
        AccessMask::ACCESS_SYSTEM_SECURITY & ACCESS_MASK_ALL == AccessMask::ACCESS_SYSTEM_SECURITY,
        AccessMask::MAXIMUM_ALLOWED & ACCESS_MASK_ALL == AccessMask::MAXIMUM_ALLOWED,
        AccessMask::GENERIC_ALL & ACCESS_MASK_ALL == AccessMask::GENERIC_ALL,
        AccessMask::GENERIC_EXECUTE & ACCESS_MASK_ALL == AccessMask::GENERIC_EXECUTE,
        AccessMask::GENERIC_WRITE & ACCESS_MASK_ALL == AccessMask::GENERIC_WRITE,
        AccessMask::GENERIC_READ & ACCESS_MASK_ALL == AccessMask::GENERIC_READ,
{
    assert((bits & 0xF31F_FFFFu32) & 0xF31F_FFFFu32 == bits & 0xF31F_FFFFu32) by (bit_vector);
    assert(0x00000001u32 & 0xF31F_FFFFu32 == 0x00000001u32) by (bit_vector);
    assert(0x00000002u32 & 0xF31F_FFFFu32 == 0x00000002u32) by (bit_vector);
    assert(0x00000004u32 & 0xF31F_FFFFu32 == 0x00000004u32) by (bit_vector);
    assert(0x00000008u32 & 0xF31F_FFFFu32 == 0x00000008u32) by (bit_vector);
    assert(0x00000010u32 & 0xF31F_FFFFu32 == 0x00000010u32) by (bit_vector);
    assert(0x00000020u32 & 0xF31F_FFFFu32 == 0x00000020u32) by (bit_vector);
    assert(0x00000040u32 & 0xF31F_FFFFu32 == 0x00000040u32) by (bit_vector);
    assert(0x00000080u32 & 0xF31F_FFFFu32 == 0x00000080u32) by (bit_vector);
    assert(0x00000100u32 & 0xF31F_FFFFu32 == 0x00000100u32) by (bit_vector);
    assert(0x0000FFFFu32 & 0xF31F_FFFFu32 == 0x0000FFFFu32) by (bit_vector);
    assert(0x00010000u32 & 0xF31F_FFFFu32 == 0x00010000u32) by (bit_vector);
    assert(0x00020000u32 & 0xF31F_FFFFu32 == 0x00020000u32) by (bit_vector);
    assert(0x00040000u32 & 0xF31F_FFFFu32 == 0x00040000u32) by (bit_vector);
    assert(0x00080000u32 & 0xF31F_FFFFu32 == 0x00080000u32) by (bit_vector);
    assert(0x00100000u32 & 0xF31F_FFFFu32 == 0x00100000u32) by (bit_vector);
    assert(0x01000000u32 & 0xF31F_FFFFu32 == 0x01000000u32) by (bit_vector);
    assert(0x02000000u32 & 0xF31F_FFFFu32 == 0x02000000u32) by (bit_vector);
    assert(0x10000000u32 & 0xF31F_FFFFu32 == 0x10000000u32) by (bit_vector);
    assert(0x20000000u32 & 0xF31F_FFFFu32 == 0x20000000u32) by (bit_vector);
    assert(0x40000000u32 & 0xF31F_FFFFu32 == 0x40000000u32) by (bit_vector);
    assert(0x80000000u32 & 0xF31F_FFFFu32 == 0x80000000u32) by (bit_vector);
}

/// ACE header type byte (MS-DTYP §2.4.4). Allow/deny + their object variants; everything else
/// is preserved as [`AceType::Other`].
#[derive(Clone, Copy, Debug, PartialEq, Eq, Structural)]
pub enum AceType {
    AccessAllowed,
    AccessDenied,
    AccessAllowedObject,
    AccessDeniedObject,
    Other(u8),
}

/// The type that an ACE header's type byte names.
pub open spec fn ace_type_of(b: u8) -> AceType {
    if b == 0x00 {
        AceType::AccessAllowed
    } else if b == 0x01 {
        AceType::AccessDenied
    } else if b == 0x05 {
        AceType::AccessAllowedObject
    } else if b == 0x06 {
        AceType::AccessDeniedObject
    } else {
        AceType::Other(b)
    }
}

/// The two object ACE types, which carry GUIDs before the SID.
pub open spec fn is_object_ace(t: AceType) -> bool {
    t is AccessAllowedObject || t is AccessDeniedObject
}

/// The two allowing ACE types.
pub open spec fn is_allow_type(t: AceType) -> bool {
    t is AccessAllowed || t is AccessAllowedObject
}

/// An ACE allows exactly when its type is `AccessAllowed` or
/// `AccessAllowedObject`; `AccessDenied`, `AccessDeniedObject` and every
/// `Other(_)` type do not allow.
pub proof fn lemma_is_allow_exact(t: AceType)
    ensures
        is_allow_type(t) <==> (t == AceType::AccessAllowed || t == AceType::AccessAllowedObject),
        !is_allow_type(AceType::AccessDenied),
        !is_allow_type(AceType::AccessDeniedObject),
        forall|x: u8| !#[trigger] is_allow_type(AceType::Other(x)),
{
}

#[derive(Clone, Debug)]
pub struct Ace {
    pub ace_type: AceType,
    pub flags: u8,
    pub mask: AccessMask,
    pub trustee: Sid,
    /// Present for *object* ACEs: which property-set / extended-right / child-class this grants.
    pub object_type: Option<Guid>,
    pub inherited_object_type: Option<Guid>,
}

/// The mathematical value of an [`Ace`]; GUIDs as their sixteen bytes.
pub struct AceView {
    pub ace_type: AceType,
    pub flags: u8,
    pub mask: u32,
    pub trustee: SidView,
    pub object_type: Option<Seq<u8>>,
    pub inherited_object_type: Option<Seq<u8>>,
}

pub open spec fn opt_guid_view(g: Option<Guid>) -> Option<Seq<u8>> {
    match g {
        Some(g) => Some(g@),
        None => None,
    }
}

pub open spec fn opt_sid_view(s: Option<Sid>) -> Option<SidView> {
    match s {
        Some(s) => Some(s@),
        None => None,
    }
}

impl View for Ace {
    type V = AceView;

    open spec fn view(&self) -> AceView {
        AceView {
            ace_type: self.ace_type,
            flags: self.flags,
            mask: self.mask@,
            trustee: self.trustee@,
            object_type: opt_guid_view(self.object_type),
            inherited_object_type: opt_guid_view(self.inherited_object_type),
        }
    }
}

impl Ace {
    /// True for `AccessAllowed` and `AccessAllowedObject` ACEs.
    pub fn is_allow(&self) -> (r: bool)
        ensures
            r == is_allow_type(self.ace_type),
    {
        match self.ace_type {
            AceType::AccessAllowed | AceType::AccessAllowedObject => true,
            _ => false,
        }
    }
}

#[derive(Clone, Debug, Default)]
pub struct Acl {
    pub aces: Vec<Ace>,
}

impl View for Acl {
    type V = Seq<AceView>;

    open spec fn view(&self) -> Seq<AceView> {
        self.aces@.map_values(|a: Ace| a@)
    }
}

#[derive(Clone, Debug, Default)]
pub struct SecurityDescriptor {
    pub owner: Option<Sid>,
    pub group: Option<Sid>,
    pub dacl: Option<Acl>,
}

/// The mathematical value of a [`SecurityDescriptor`].
pub struct SdView {
    pub owner: Option<SidView>,
    pub group: Option<SidView>,
    pub dacl: Option<Seq<AceView>>,
}

impl View for SecurityDescriptor {
    type V = SdView;

    open spec fn view(&self) -> SdView {
        SdView {
            owner: opt_sid_view(self.owner),
            group: opt_sid_view(self.group),
            dacl: match self.dacl {
                Some(a) => Some(a@),
                None => None,
            },
        }
    }
}

/// Why a security descriptor could not be read.
#[derive(Debug)]
pub enum SddlError {
    /// The buffer ended before the named field.
    Truncated(&'static str),
    /// An ACE's SID could not be read.
    BadSid,
}


/// The message for an error: `buffer too short at {field}` or `bad ACE sid`.
pub open spec fn sddl_error_text(e: SddlError) -> Seq<char> {
    match e {
        SddlError::Truncated(what) => "buffer too short at "@ + what@,
        SddlError::BadSid => "bad ACE sid"@,
    }
}

impl SddlError {
    /// The error's message.
    pub fn to_string(&self) -> (r: String)
        ensures
            r@ == sddl_error_text(*self),
    {
        match self {
            SddlError::Truncated(what) => {
                let mut text = String::from_str("buffer too short at ");
                text.append(what);
                text
            },
            SddlError::BadSid => String::from_str("bad ACE sid"),
        }
    }
}

} // verus!
