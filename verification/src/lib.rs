//! A pure-Rust, no-FFI parser and builder for the Windows self-relative
//! `SECURITY_DESCRIPTOR` blob (MS-DTYP §2.4.6), with the `Sid` and `Guid`
//! types in their binary and textual forms.
use vstd::prelude::*;

mod text;
pub mod sid;
pub mod acl;
pub mod descriptor;

pub use acl::{AccessMask, Ace, AceType, Acl, SddlError, SecurityDescriptor};
pub use descriptor::{build_rbcd_sd, parse, sid_to_bytes};
pub use sid::{Guid, Sid};

verus! {
} // verus!
