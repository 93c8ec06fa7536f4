# windows-sddl

A parser and builder for the Windows self-relative `SECURITY_DESCRIPTOR`
blob (MS-DTYP §2.4.6), with the `Sid` and `Guid` types in their binary and
textual forms, verified with Verus.

- `src/text.rs` — decimal numbers as `str::parse` reads them, splitting on `-`, hex pairs.
- `src/sid.rs` — `Sid` and `Guid`: binary and textual forms, and their round-trip laws.
- `src/acl.rs` — `AccessMask`, `AceType`, `Ace`, `Acl`, `SecurityDescriptor`, `SddlError`.
- `src/descriptor.rs` — `parse`, `build_rbcd_sd`, `sid_to_bytes`, and the law that a built
  descriptor parses back to what was put in.
- `app/` — the error type with `thiserror`, the access mask as a `bitflags` type, and
  `Display` adapters.
