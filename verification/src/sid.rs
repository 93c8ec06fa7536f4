//! SID / GUID types per MS-DTYP: binary and textual forms, parsed and written
//! from raw bytes and characters, with no FFI.
use vstd::prelude::*;

use crate::text::{
    all_digits, chars_of, dec_digits, digit_char, digit_value, digits_value, is_digit, parse_unsigned,
    hex2, hex_char, hex_value, parse_unsigned_chars, push_char, push_decimal, radix16_pair,
    split_dash, split_dash_exec,
};
use vstd::utf8::{
    encode_scalar, encode_utf8, is_ascii_chars, is_scalar, leading_byte_width_2,
    leading_byte_width_3, leading_byte_width_4,
};

verus! {

/// Windows Security Identifier, stored canonically (`S-1-5-...` as text).
#[derive(Clone, PartialEq, Eq, Hash, Debug)]
pub struct Sid {
    pub revision: u8,
    /// 6-byte identifier authority (big-endian on the wire).
    pub identifier_authority: u64,
    pub sub_authorities: Vec<u32>,
}

/// The mathematical value of a [`Sid`].
pub struct SidView {
    pub revision: u8,
    pub identifier_authority: u64,
    pub sub_authorities: Seq<u32>,
}

impl View for Sid {
    type V = SidView;

    open spec fn view(&self) -> SidView {
        SidView {
            revision: self.revision,
            identifier_authority: self.identifier_authority,
            sub_authorities: self.sub_authorities@,
        }
    }
}

// ---------------------------------------------------------------------------
// Binary form.

/// The little-endian `u32` stored at `b[o..o + 4]`.
pub open spec fn le32_at(b: Seq<u8>, o: int) -> u32 {
    (b[o] + b[o + 1] * 0x100 + b[o + 2] * 0x1_0000 + b[o + 3] * 0x100_0000) as u32
}

/// The big-endian 48-bit value stored at `b[o..o + 6]`.
pub open spec fn be48_at(b: Seq<u8>, o: int) -> u64 {
    (b[o] * 0x100_0000_0000 + b[o + 1] * 0x1_0000_0000 + b[o + 2] * 0x100_0000 + b[o + 3]
        * 0x1_0000 + b[o + 4] * 0x100 + b[o + 5]) as u64
}

/// What [`Sid::from_bytes`] reads: revision, sub-authority count, the 6-byte
/// authority, then `count` little-endian sub-authorities; `None` when the
/// bytes are too few.  Bytes after the last sub-authority are ignored.
pub open spec fn sid_from_bytes(b: Seq<u8>) -> Option<SidView> {
    if b.len() < 8 {
        None
    } else if b.len() < 8 + 4 * b[1] {
        None
    } else {
        Some(
            SidView {
                revision: b[0],
                identifier_authority: be48_at(b, 2),
                sub_authorities: Seq::new(b[1] as nat, |i: int| le32_at(b, 8 + 4 * i)),
            },
        )
    }
}

/// The four little-endian bytes of `x`.
pub open spec fn u32_le_bytes(x: u32) -> Seq<u8> {
    seq![
        (x % 0x100) as u8,
        (x / 0x100 % 0x100) as u8,
        (x / 0x1_0000 % 0x100) as u8,
        (x / 0x100_0000) as u8,
    ]
}

/// The low six bytes of `a`, most significant first.
pub open spec fn authority_bytes(a: u64) -> Seq<u8> {
    seq![
        (a / 0x100_0000_0000 % 0x100) as u8,
        (a / 0x1_0000_0000 % 0x100) as u8,
        (a / 0x100_0000 % 0x100) as u8,
        (a / 0x1_0000 % 0x100) as u8,
        (a / 0x100 % 0x100) as u8,
        (a % 0x100) as u8,
    ]
}

/// The sub-authorities, each as four little-endian bytes, in order.
pub open spec fn subs_bytes(s: Seq<u32>) -> Seq<u8>
    decreases s.len(),
{
    if s.len() == 0 {
        Seq::<u8>::empty()
    } else {
        subs_bytes(s.drop_last()) + u32_le_bytes(s.last())
    }
}

/// What [`Sid::to_bytes`] writes.  The count byte holds the number of
/// sub-authorities modulo 256, and only the low 48 bits of the authority are
/// written.
pub open spec fn sid_bytes(v: SidView) -> Seq<u8> {
    seq![v.revision, (v.sub_authorities.len() % 256) as u8] + authority_bytes(
        v.identifier_authority,
    ) + subs_bytes(v.sub_authorities)
}

/// A SID that the binary form can hold exactly: at most 255 sub-authorities
/// and an authority that fits in six bytes.
pub open spec fn fits_binary(v: SidView) -> bool {
    v.sub_authorities.len() <= 255 && v.identifier_authority < 0x1_0000_0000_0000
}

fn le32_exec(b: &[u8], o: usize) -> (r: u32)
    requires
        o + 4 <= b@.len(),
    ensures
        r == le32_at(b@, o as int),
{
    b[o] as u32 + (b[o + 1] as u32) * 0x100 + (b[o + 2] as u32) * 0x1_0000 + (b[o + 3] as u32)
        * 0x100_0000
}

pub(crate) proof fn lemma_subs_bytes_len(s: Seq<u32>)
    ensures
        subs_bytes(s).len() == 4 * s.len(),
    decreases s.len(),
{
    if s.len() > 0 {
        lemma_subs_bytes_len(s.drop_last());
    }
}

proof fn lemma_subs_bytes_index(s: Seq<u32>, i: int, j: int)
    requires
        0 <= i < s.len(),
        0 <= j < 4,
    ensures
        subs_bytes(s)[4 * i + j] == u32_le_bytes(s[i])[j],
    decreases s.len(),
{
    lemma_subs_bytes_len(s.drop_last());
    if i < s.len() - 1 {
        lemma_subs_bytes_index(s.drop_last(), i, j);
    }
}

pub(crate) proof fn lemma_le32_round_trip(x: u32)
    ensures
        le32_at(u32_le_bytes(x), 0) == x,
{
    assert((x % 0x100) + (x / 0x100 % 0x100) * 0x100 + (x / 0x1_0000 % 0x100) * 0x1_0000 + (x
        / 0x100_0000) * 0x100_0000 == x) by (bit_vector);
}

proof fn lemma_be48_round_trip(a: u64)
    requires
        a < 0x1_0000_0000_0000,
    ensures
        be48_at(authority_bytes(a), 0) == a,
{
    assert((a / 0x100_0000_0000 % 0x100) * 0x100_0000_0000 + (a / 0x1_0000_0000 % 0x100)
        * 0x1_0000_0000 + (a / 0x100_0000 % 0x100) * 0x100_0000 + (a / 0x1_0000 % 0x100)
        * 0x1_0000 + (a / 0x100 % 0x100) * 0x100 + (a % 0x100) == a) by (bit_vector)
        requires
            a < 0x1_0000_0000_0000,
    ;
}

/// Reading back what [`Sid::to_bytes`] wrote gives the same SID, whenever the
/// binary form can hold it (at most 255 sub-authorities, a 48-bit authority).
pub proof fn lemma_sid_bytes_round_trip(v: SidView)
    requires
        fits_binary(v),
    ensures
        sid_from_bytes(sid_bytes(v)) == Some(v),
        sid_bytes(v).len() == 8 + 4 * v.sub_authorities.len(),
{
    let b = sid_bytes(v);
    let n = v.sub_authorities.len();
    lemma_subs_bytes_len(v.sub_authorities);
    lemma_be48_round_trip(v.identifier_authority);
    assert(b.subrange(2, 8) =~= authority_bytes(v.identifier_authority));
    assert(be48_at(b, 2) == be48_at(authority_bytes(v.identifier_authority), 0));
    let subs = Seq::new(n, |i: int| le32_at(b, 8 + 4 * i));
    assert forall|i: int| 0 <= i < n implies subs[i] == v.sub_authorities[i] by {
        lemma_subs_bytes_index(v.sub_authorities, i, 0);
        lemma_subs_bytes_index(v.sub_authorities, i, 1);
        lemma_subs_bytes_index(v.sub_authorities, i, 2);
        lemma_subs_bytes_index(v.sub_authorities, i, 3);
        lemma_le32_round_trip(v.sub_authorities[i]);
        assert(b[8 + 4 * i] == subs_bytes(v.sub_authorities)[4 * i + 0]);
        assert(b[8 + 4 * i + 1] == subs_bytes(v.sub_authorities)[4 * i + 1]);
        assert(b[8 + 4 * i + 2] == subs_bytes(v.sub_authorities)[4 * i + 2]);
        assert(b[8 + 4 * i + 3] == subs_bytes(v.sub_authorities)[4 * i + 3]);
    }
    assert(subs =~= v.sub_authorities);
}

proof fn lemma_le32_bytes_of_value(b0: u8, b1: u8, b2: u8, b3: u8)
    ensures
        ({
            let x = (b0 + b1 * 0x100 + b2 * 0x1_0000 + b3 * 0x100_0000) as u32;
            u32_le_bytes(x) == seq![b0, b1, b2, b3]
        }),
{
    let (x0, x1, x2, x3) = (b0 as u32, b1 as u32, b2 as u32, b3 as u32);
    let x = (b0 + b1 * 0x100 + b2 * 0x1_0000 + b3 * 0x100_0000) as u32;
    assert(x == x0 + x1 * 0x100 + x2 * 0x1_0000 + x3 * 0x100_0000);
    assert(x % 0x100 == x0 && x / 0x100 % 0x100 == x1 && x / 0x1_0000 % 0x100 == x2 && x
        / 0x100_0000 == x3) by (bit_vector)
        requires
            x0 < 0x100,
            x1 < 0x100,
            x2 < 0x100,
            x3 < 0x100,
            x == x0 + x1 * 0x100 + x2 * 0x1_0000 + x3 * 0x100_0000,
    ;
    assert(u32_le_bytes(x) =~= seq![b0, b1, b2, b3]);
}

proof fn lemma_authority_bytes_of_value(b: Seq<u8>)
    requires
        b.len() >= 8,
    ensures
        authority_bytes(be48_at(b, 2)) == b.subrange(2, 8),
{
    let (x0, x1, x2, x3, x4, x5) = (
        b[2] as u64,
        b[3] as u64,
        b[4] as u64,
        b[5] as u64,
        b[6] as u64,
        b[7] as u64,
    );
    let a = be48_at(b, 2);
    assert(a == x0 * 0x100_0000_0000 + x1 * 0x1_0000_0000 + x2 * 0x100_0000 + x3 * 0x1_0000 + x4
        * 0x100 + x5);
    assert(a / 0x100_0000_0000 % 0x100 == x0 && a / 0x1_0000_0000 % 0x100 == x1 && a
        / 0x100_0000 % 0x100 == x2 && a / 0x1_0000 % 0x100 == x3 && a / 0x100 % 0x100 == x4 && a
        % 0x100 == x5) by (bit_vector)
        requires
            x0 < 0x100,
            x1 < 0x100,
            x2 < 0x100,
            x3 < 0x100,
            x4 < 0x100,
            x5 < 0x100,
            a == x0 * 0x100_0000_0000 + x1 * 0x1_0000_0000 + x2 * 0x100_0000 + x3 * 0x1_0000 + x4
                * 0x100 + x5,
    ;
    assert(authority_bytes(a) =~= b.subrange(2, 8));
}

/// Writing a SID that was read from bytes gives back exactly the bytes it was
/// read from: the header, the authority and the sub-authorities that its count
/// byte announces (anything after them is not part of the SID).
pub proof fn lemma_sid_bytes_read_write(b: Seq<u8>)
    requires
        sid_from_bytes(b) is Some,
    ensures
        sid_bytes(sid_from_bytes(b).unwrap()) == b.subrange(0, 8 + 4 * b[1] as int),
{
    let v = sid_from_bytes(b).unwrap();
    let n = b[1] as int;
    let subs = v.sub_authorities;
    lemma_authority_bytes_of_value(b);
    lemma_subs_bytes_len(subs);
    assert forall|i: int, j: int| 0 <= i < n && 0 <= j < 4 implies #[trigger] subs_bytes(subs)[4
        * i + j] == b[8 + 4 * i + j] by {
        lemma_subs_bytes_index(subs, i, j);
        lemma_le32_bytes_of_value(b[8 + 4 * i], b[8 + 4 * i + 1], b[8 + 4 * i + 2], b[8 + 4 * i + 3]);
    }
    assert forall|k: int| 0 <= k < 4 * n implies #[trigger] subs_bytes(subs)[k] == b[8 + k] by {
        let i = k / 4;
        let j = k % 4;
        assert(k == 4 * i + j);
        assert(subs_bytes(subs)[4 * i + j] == b[8 + 4 * i + j]);
    }
    let w = sid_bytes(v);
    assert forall|k: int| 0 <= k < w.len() implies w[k] == b[k] by {
        if k == 1 {
            assert((n % 256) as u8 == b[1]);
        } else if 2 <= k < 8 {
            assert(b.subrange(2, 8)[k - 2] == b[k]);
        } else if k >= 8 {
            assert(w[k] == subs_bytes(subs)[k - 8]);
        }
    }
    assert(w =~= b.subrange(0, 8 + 4 * n));
}

impl Sid {
    /// Parse the binary (`objectSid` / `SID_AND_ATTRIBUTES`) representation.
    pub fn from_bytes(b: &[u8]) -> (r: Option<Sid>)
        ensures
            match r {
                Some(s) => sid_from_bytes(b@) == Some(s@),
                None => sid_from_bytes(b@) is None,
            },
    {
        if b.len() < 8 {
            return None;
        }
        let revision = b[0];
        let count = b[1] as usize;
        let authority: u64 = (b[2] as u64) * 0x100_0000_0000 + (b[3] as u64) * 0x1_0000_0000 + (
        b[4] as u64) * 0x100_0000 + (b[5] as u64) * 0x1_0000 + (b[6] as u64) * 0x100
            + b[7] as u64;
        if b.len() < 8 + count * 4 {
            return None;
        }
        let mut subs: Vec<u32> = Vec::new();
        let mut i: usize = 0;
        while i < count
            invariant
                i <= count,
                count == b@[1],
                8 + count * 4 <= b@.len(),
                subs@ =~= Seq::new(i as nat, |k: int| le32_at(b@, 8 + 4 * k)),
            decreases count - i,
        {
            let off: usize = 8 + i * 4;
            subs.push(le32_exec(b, off));
            i = i + 1;
        }
        Some(Sid { revision, identifier_authority: authority, sub_authorities: subs })
    }

    /// Serialize to the binary (`objectSid`) form.
    pub fn to_bytes(&self) -> (r: Vec<u8>)
        ensures
            r@ == sid_bytes(self@),
    {
        let n = self.sub_authorities.len();
        let mut b: Vec<u8> = Vec::new();
        b.push(self.revision);
        b.push((n % 256) as u8);
        let a = self.identifier_authority;
        b.push((a / 0x100_0000_0000 % 0x100) as u8);
        b.push((a / 0x1_0000_0000 % 0x100) as u8);
        b.push((a / 0x100_0000 % 0x100) as u8);
        b.push((a / 0x1_0000 % 0x100) as u8);
        b.push((a / 0x100 % 0x100) as u8);
        b.push((a % 0x100) as u8);
        let ghost head = seq![self.revision, (n % 256) as u8] + authority_bytes(a);
        assert(b@ =~= head);
        let mut i: usize = 0;
        while i < n
            invariant
                i <= n,
                n == self.sub_authorities@.len(),
                b@ == head + subs_bytes(self.sub_authorities@.take(i as int)),
            decreases n - i,
        {
            let s = self.sub_authorities[i];
            let ghost before = b@;
            b.push((s % 0x100) as u8);
            b.push((s / 0x100 % 0x100) as u8);
            b.push((s / 0x1_0000 % 0x100) as u8);
            b.push((s / 0x100_0000) as u8);
            assert(self.sub_authorities@.take(i + 1).drop_last() =~= self.sub_authorities@.take(
                i as int,
            ));
            assert(b@ =~= before + u32_le_bytes(s));
            i = i + 1;
        }
        assert(self.sub_authorities@.take(n as int) =~= self.sub_authorities@);
        b
    }
}


// ---------------------------------------------------------------------------
// Textual form `S-R-I-S1-S2-...`.

/// The largest identifier authority: it is a 6-byte value.
pub const MAX_AUTHORITY: u64 = 0xFFFF_FFFF_FFFF;

/// What [`Sid::parse`] accepts: the pieces between dashes are `S`, a `u8`
/// revision, an authority that fits six bytes, then any number of `u32`
/// sub-authorities, each as `str::parse` reads it.
pub open spec fn sid_parse_text(s: Seq<char>) -> Option<SidView> {
    let parts = split_dash(s);
    if parts.len() < 3 || parts[0] != seq!['S'] {
        None
    } else if parse_unsigned(parts[1], 0xff) is None || parse_unsigned(parts[2], MAX_AUTHORITY as nat)
        is None {
        None
    } else if exists|i: int| 3 <= i < parts.len() && #[trigger] parse_unsigned(parts[i], u32::MAX as nat) is None {
        None
    } else {
        Some(
            SidView {
                revision: parse_unsigned(parts[1], 0xff).unwrap() as u8,
                identifier_authority: parse_unsigned(parts[2], MAX_AUTHORITY as nat).unwrap() as u64,
                sub_authorities: Seq::new(
                    (parts.len() - 3) as nat,
                    |i: int| parse_unsigned(parts[i + 3], u32::MAX as nat).unwrap() as u32,
                ),
            },
        )
    }
}

/// `-S1-S2-...` for the given sub-authorities, in decimal.
pub open spec fn subs_text(subs: Seq<u32>) -> Seq<char>
    decreases subs.len(),
{
    if subs.len() == 0 {
        Seq::<char>::empty()
    } else {
        subs_text(subs.drop_last()) + seq!['-'] + dec_digits(subs.last() as nat)
    }
}

/// The display form `S-{revision}-{authority}-{sub}...`, all in decimal.
pub open spec fn sid_text(v: SidView) -> Seq<char> {
    seq!['S', '-'] + dec_digits(v.revision as nat) + seq!['-'] + dec_digits(
        v.identifier_authority as nat,
    ) + subs_text(v.sub_authorities)
}

pub open spec fn no_dash(s: Seq<char>) -> bool {
    forall|i: int| 0 <= i < s.len() ==> s[i] != '-'
}

proof fn lemma_split_append_no_dash(x: Seq<char>, y: Seq<char>)
    requires
        no_dash(y),
    ensures
        split_dash(x + y) == split_dash(x).update(
            split_dash(x).len() - 1,
            split_dash(x).last() + y,
        ),
        split_dash(x + y).len() == split_dash(x).len(),
    decreases y.len(),
{
    lemma_split_nonempty(x);
    if y.len() == 0 {
        assert(x + y =~= x);
        assert(split_dash(x).last() + y =~= split_dash(x).last());
        assert(split_dash(x).update(split_dash(x).len() - 1, split_dash(x).last()) =~= split_dash(
            x,
        ));
    } else {
        let y0 = y.drop_last();
        lemma_split_append_no_dash(x, y0);
        assert((x + y).drop_last() =~= x + y0);
        assert((x + y).last() == y.last());
        let prev = split_dash(x + y0);
        assert(prev.last() =~= split_dash(x).last() + y0);
        assert(prev.last().push(y.last()) =~= split_dash(x).last() + y);
        assert(split_dash(x + y) =~= split_dash(x).update(
            split_dash(x).len() - 1,
            split_dash(x).last() + y,
        ));
    }
}

proof fn lemma_split_nonempty(x: Seq<char>)
    ensures
        split_dash(x).len() >= 1,
    decreases x.len(),
{
    if x.len() > 0 {
        lemma_split_nonempty(x.drop_last());
    }
}

/// Splitting `x`, a dash, then a dash-free `y` adds `y` as one more piece.
proof fn lemma_split_dash_then(x: Seq<char>, y: Seq<char>)
    requires
        no_dash(y),
    ensures
        split_dash(x + seq!['-'] + y) == split_dash(x).push(y),
{
    let xd = x + seq!['-'];
    assert(xd.drop_last() =~= x);
    assert(split_dash(xd) == split_dash(x).push(Seq::<char>::empty()));
    lemma_split_append_no_dash(xd, y);
    assert(Seq::<char>::empty() + y =~= y);
    assert(split_dash(x).push(Seq::<char>::empty()).update(split_dash(x).len() as int, y)
        =~= split_dash(x).push(y));
}

proof fn lemma_dec_digits_all_digits(n: nat)
    ensures
        all_digits(dec_digits(n)),
        dec_digits(n).len() > 0,
        digits_value(dec_digits(n)) == n,
    decreases n,
{
    if n < 10 {
        let c = digit_char(n);
        assert((c as u32) == n + 48);
        assert(seq![c].drop_last() =~= Seq::<char>::empty());
        assert(digits_value(Seq::<char>::empty()) == 0);
        assert(digits_value(seq![c]) == digit_value(c));
    } else {
        lemma_dec_digits_all_digits(n / 10);
        let p = dec_digits(n / 10);
        let c = digit_char(n % 10);
        assert((c as u32) == n % 10 + 48);
        assert(p.push(c).drop_last() =~= p);
        assert(digits_value(p.push(c)) == digits_value(p) * 10 + digit_value(c));
        assert(digit_value(c) == n % 10);
        assert((n / 10) * 10 + n % 10 == n);
        assert forall|i: int| 0 <= i < p.push(c).len() implies #[trigger] is_digit(
            p.push(c)[i],
        ) by {
            if i < p.len() {
                assert(p.push(c)[i] == p[i]);
            }
        }
    }
}

proof fn lemma_dec_digits_parse(n: nat, max: nat)
    requires
        n <= max,
    ensures
        parse_unsigned(dec_digits(n), max) == Some(n),
        no_dash(dec_digits(n)),
{
    lemma_dec_digits_all_digits(n);
    let d = dec_digits(n);
    assert(is_digit(d[0]));
    assert forall|i: int| 0 <= i < d.len() implies d[i] != '-' by {
        assert(is_digit(d[i]));
    }
}

proof fn lemma_split_subs_text(t: Seq<char>, subs: Seq<u32>)
    ensures
        split_dash(t + subs_text(subs)) == split_dash(t) + subs.map_values(
            |x: u32| dec_digits(x as nat),
        ),
    decreases subs.len(),
{
    if subs.len() == 0 {
        assert(t + subs_text(subs) =~= t);
        assert(split_dash(t) + subs.map_values(|x: u32| dec_digits(x as nat)) =~= split_dash(t));
    } else {
        let rest = subs.drop_last();
        lemma_split_subs_text(t, rest);
        lemma_dec_digits_parse(subs.last() as nat, u32::MAX as nat);
        let d = dec_digits(subs.last() as nat);
        assert(t + subs_text(subs) =~= (t + subs_text(rest)) + seq!['-'] + d);
        lemma_split_dash_then(t + subs_text(rest), d);
        assert((split_dash(t) + rest.map_values(|x: u32| dec_digits(x as nat))).push(d)
            =~= split_dash(t) + subs.map_values(|x: u32| dec_digits(x as nat)));
    }
}

/// Parsing the display form of any SID whose authority fits six bytes gives
/// that SID back.
pub proof fn lemma_sid_text_round_trip(v: SidView)
    requires
        v.identifier_authority <= MAX_AUTHORITY,
    ensures
        sid_parse_text(sid_text(v)) == Some(v),
{
    let r = dec_digits(v.revision as nat);
    let a = dec_digits(v.identifier_authority as nat);
    lemma_dec_digits_parse(v.revision as nat, 0xff);
    lemma_dec_digits_parse(v.identifier_authority as nat, MAX_AUTHORITY as nat);
    let s0 = seq!['S'];
    assert(no_dash(s0));
    lemma_split_append_no_dash(Seq::<char>::empty(), s0);
    assert(Seq::<char>::empty() + s0 =~= s0);
    assert(split_dash(s0) =~= seq![s0]);
    lemma_split_dash_then(s0, r);
    let t1 = s0 + seq!['-'] + r;
    lemma_split_dash_then(t1, a);
    let t2 = t1 + seq!['-'] + a;
    assert(split_dash(t2) =~= seq![s0, r, a]);
    lemma_split_subs_text(t2, v.sub_authorities);
    assert(sid_text(v) =~= t2 + subs_text(v.sub_authorities));
    let parts = split_dash(sid_text(v));
    let subs = v.sub_authorities;
    assert(parts =~= seq![s0, r, a] + subs.map_values(|x: u32| dec_digits(x as nat)));
    assert forall|i: int| 3 <= i < parts.len() implies #[trigger] parse_unsigned(
        parts[i],
        u32::MAX as nat,
    ) == Some(subs[i - 3] as nat) by {
        lemma_dec_digits_parse(subs[i - 3] as nat, u32::MAX as nat);
    }
    let got = Seq::new(
        (parts.len() - 3) as nat,
        |i: int| parse_unsigned(parts[i + 3], u32::MAX as nat).unwrap() as u32,
    );
    assert forall|i: int| 0 <= i < got.len() implies got[i] == subs[i] by {
        assert(parse_unsigned(parts[i + 3], u32::MAX as nat) == Some(subs[i] as nat));
    }
    assert(got =~= subs);
}

/// The last sub-authority, if any.
pub open spec fn sid_rid(v: SidView) -> Option<u32> {
    if v.sub_authorities.len() == 0 {
        None
    } else {
        Some(v.sub_authorities.last())
    }
}

/// The RID is the last sub-authority: appending `x` to any SID's
/// sub-authorities makes its RID `Some(x)`, whatever came before; a SID with
/// no sub-authorities has none.
pub proof fn lemma_rid_is_last(revision: u8, identifier_authority: u64, subs: Seq<u32>, x: u32)
    ensures
        sid_rid(SidView { revision, identifier_authority, sub_authorities: subs.push(x) }) == Some(x),
        sid_rid(SidView { revision, identifier_authority, sub_authorities: Seq::<u32>::empty() })
            is None,
{
}

/// WORLD (1) and CREATOR (3) authorities, and NT authority (5) SIDs that are
/// not domain-relative: every NT authority SID whose first sub-authority is
/// not 21 (`S-1-5-18` LocalSystem, `S-1-5-32-544` BUILTIN, ...).
pub open spec fn sid_is_well_known(v: SidView) -> bool {
    v.identifier_authority == 1 || v.identifier_authority == 3 || (v.identifier_authority == 5
        && !(v.sub_authorities.len() > 0 && v.sub_authorities[0] == 21))
}

/// A parsed SID always fits the binary form's six-byte authority, so reading
/// back its bytes gives it again whenever it has at most 255 sub-authorities.
pub proof fn lemma_parsed_sid_fits_binary(s: Seq<char>)
    requires
        sid_parse_text(s) is Some,
    ensures
        sid_parse_text(s).unwrap().identifier_authority <= MAX_AUTHORITY,
        sid_parse_text(s).unwrap().sub_authorities.len() <= 255 ==> sid_from_bytes(
            sid_bytes(sid_parse_text(s).unwrap()),
        ) == Some(sid_parse_text(s).unwrap()),
{
    let v = sid_parse_text(s).unwrap();
    if v.sub_authorities.len() <= 255 {
        lemma_sid_bytes_round_trip(v);
    }
}

fn is_single_s(p: &Vec<char>) -> (r: bool)
    ensures
        r == (p@ == seq!['S']),
{
    if p.len() == 1 && p[0] == 'S' {
        assert(p@ =~= seq!['S']);
        true
    } else {
        false
    }
}

impl Sid {
    /// Parse the string form `S-1-5-21-...-513`.
    pub fn parse(s: &str) -> (r: Option<Sid>)
        ensures
            match r {
                Some(sid) => sid_parse_text(s@) == Some(sid@),
                None => sid_parse_text(s@) is None,
            },
    {
        let chars = chars_of(s);
        let parts = split_dash_exec(&chars);
        let ghost sp = split_dash(s@);
        if parts.len() < 3 {
            return None;
        }
        if !is_single_s(&parts[0]) {
            return None;
        }
        let revision = match parse_unsigned_chars(&parts[1], 0xff) {
            Some(v) => v as u8,
            None => return None,
        };
        let authority = match parse_unsigned_chars(&parts[2], MAX_AUTHORITY) {
            Some(v) => v,
            None => return None,
        };
        let mut subs: Vec<u32> = Vec::new();
        let mut i: usize = 3;
        while i < parts.len()
            invariant
                3 <= i <= parts@.len(),
                sp == split_dash(s@),
                parts@.len() == sp.len(),
                forall|k: int| 0 <= k < parts@.len() ==> #[trigger] parts@[k]@ == sp[k],
                subs@.len() == i - 3,
                forall|k: int|
                    3 <= k < i ==> #[trigger] parse_unsigned(sp[k], u32::MAX as nat) == Some(
                        subs@[k - 3] as nat,
                    ),
            decreases parts@.len() - i,
        {
            match parse_unsigned_chars(&parts[i], u32::MAX as u64) {
                Some(v) => {
                    subs.push(v as u32);
                },
                None => {
                    assert(parse_unsigned(sp[i as int], u32::MAX as nat) is None);
                    return None;
                },
            }
            i = i + 1;
        }
        let sid = Sid { revision, identifier_authority: authority, sub_authorities: subs };
        proof {
            let want = Seq::new(
                (sp.len() - 3) as nat,
                |k: int| parse_unsigned(sp[k + 3], u32::MAX as nat).unwrap() as u32,
            );
            assert forall|k: int| 0 <= k < want.len() implies want[k] == subs@[k] by {
                assert(parse_unsigned(sp[k + 3], u32::MAX as nat) == Some(subs@[k] as nat));
            }
            assert(want =~= subs@);
        }
        Some(sid)
    }

    /// Writes the display form `S-1-5-21-...`.
    pub fn to_string(&self) -> (r: String)
        ensures
            r@ == sid_text(self@),
    {
        let mut out = String::new();
        push_char(&mut out, 'S');
        push_char(&mut out, '-');
        push_decimal(&mut out, self.revision as u64);
        push_char(&mut out, '-');
        push_decimal(&mut out, self.identifier_authority);
        let ghost head = seq!['S', '-'] + dec_digits(self.revision as nat) + seq!['-']
            + dec_digits(self.identifier_authority as nat);
        assert(out@ =~= head);
        let n = self.sub_authorities.len();
        let mut i: usize = 0;
        while i < n
            invariant
                i <= n,
                n == self.sub_authorities@.len(),
                out@ == head + subs_text(self.sub_authorities@.take(i as int)),
            decreases n - i,
        {
            let ghost before = out@;
            push_char(&mut out, '-');
            push_decimal(&mut out, self.sub_authorities[i] as u64);
            assert(self.sub_authorities@.take(i + 1).drop_last() =~= self.sub_authorities@.take(
                i as int,
            ));
            assert(out@ =~= before + seq!['-'] + dec_digits(self.sub_authorities@[i as int] as nat));
            i = i + 1;
        }
        assert(self.sub_authorities@.take(n as int) =~= self.sub_authorities@);
        out
    }

    /// Last sub-authority — the RID.
    pub fn rid(&self) -> (r: Option<u32>)
        ensures
            r == sid_rid(self@),
    {
        let n = self.sub_authorities.len();
        if n == 0 {
            None
        } else {
            Some(self.sub_authorities[n - 1])
        }
    }

    /// True for built-in / well-known SIDs that are never domain-specific (e.g. `S-1-5-32-544`,
    /// `S-1-5-18`); NT authority SIDs under `S-1-5-21` are domain-relative.
    pub fn is_well_known(&self) -> (r: bool)
        ensures
            r == sid_is_well_known(self@),
    {
        self.identifier_authority == 1 || self.identifier_authority == 3 || (
        self.identifier_authority == 5 && !(self.sub_authorities.len() > 0
            && self.sub_authorities[0] == 21))
    }
}


// ---------------------------------------------------------------------------
// GUIDs.

/// 16-byte GUID stored in the mixed-endian on-wire layout, normalized to a comparable byte
/// array. Rendered `aaaaaaaa-bbbb-cccc-dddd-eeeeeeeeeeee`.
#[derive(Clone, Copy, PartialEq, Eq, Hash, Debug)]
pub struct Guid(pub [u8; 16]);

impl View for Guid {
    type V = Seq<u8>;

    open spec fn view(&self) -> Seq<u8> {
        self.0@
    }
}

/// The first sixteen bytes, if there are that many.
pub open spec fn guid_from_bytes(b: Seq<u8>) -> Option<Seq<u8>> {
    if b.len() >= 16 {
        Some(b.subrange(0, 16))
    } else {
        None
    }
}

pub open spec fn is_brace(c: char) -> bool {
    c == '\u{7b}' || c == '\u{7d}'
}

/// `s` without its leading braces.
pub open spec fn trim_start_braces(s: Seq<char>) -> Seq<char>
    decreases s.len(),
{
    if s.len() > 0 && is_brace(s[0]) {
        trim_start_braces(s.drop_first())
    } else {
        s
    }
}

/// `s` without its trailing braces.
pub open spec fn trim_end_braces(s: Seq<char>) -> Seq<char>
    decreases s.len(),
{
    if s.len() > 0 && is_brace(s.last()) {
        trim_end_braces(s.drop_last())
    } else {
        s
    }
}

/// `s` with every `-` removed.
pub open spec fn without_dashes(s: Seq<char>) -> Seq<char>
    decreases s.len(),
{
    if s.len() == 0 {
        Seq::<char>::empty()
    } else if s.last() == '-' {
        without_dashes(s.drop_last())
    } else {
        without_dashes(s.drop_last()).push(s.last())
    }
}

/// The UTF-8 bytes of the hex digits of a textual GUID: braces trimmed from
/// both ends, dashes removed.
pub open spec fn guid_hex_bytes(s: Seq<char>) -> Seq<u8> {
    encode_utf8(without_dashes(trim_end_braces(trim_start_braces(s))))
}

/// The `k`-th two-byte group of the hex digits, read as a radix-16 `u8`.
pub open spec fn guid_pair(bytes: Seq<u8>, k: int) -> Option<u8> {
    radix16_pair(bytes[2 * k], bytes[2 * k + 1])
}

/// The byte order of the text (big-endian first three groups) turned into the
/// stored mixed-endian order; the same permutation maps back.
pub open spec fn guid_swap_order(raw: Seq<u8>) -> Seq<u8> {
    seq![raw[3], raw[2], raw[1], raw[0], raw[5], raw[4], raw[7], raw[6]] + raw.subrange(8, 16)
}

/// What [`Guid::parse`] gives: exactly 32 bytes of hex digits once braces
/// and dashes are gone, read as sixteen radix-16 pairs.
pub open spec fn guid_parse_text(s: Seq<char>) -> Option<Seq<u8>> {
    let bytes = guid_hex_bytes(s);
    if bytes.len() != 32 {
        None
    } else if exists|k: int| 0 <= k < 16 && #[trigger] guid_pair(bytes, k) is None {
        None
    } else {
        Some(guid_swap_order(Seq::new(16, |k: int| guid_pair(bytes, k).unwrap())))
    }
}

/// The display form: lowercase hex, first three groups byte-swapped.
pub open spec fn guid_text(g: Seq<u8>) -> Seq<char> {
    hex2(g[3]) + hex2(g[2]) + hex2(g[1]) + hex2(g[0]) + seq!['-'] + hex2(g[5]) + hex2(g[4])
        + seq!['-'] + hex2(g[7]) + hex2(g[6]) + seq!['-'] + hex2(g[8]) + hex2(g[9]) + seq!['-']
        + hex2(g[10]) + hex2(g[11]) + hex2(g[12]) + hex2(g[13]) + hex2(g[14]) + hex2(g[15])
}

/// The number of bytes UTF-8 takes for `c`.
pub open spec fn utf8_width(c: char) -> nat {
    if (c as u32) < 0x80 {
        1
    } else if (c as u32) < 0x800 {
        2
    } else if (c as u32) < 0x1_0000 {
        3
    } else {
        4
    }
}

proof fn lemma_encode_utf8_append(x: Seq<char>, y: Seq<char>)
    ensures
        encode_utf8(x + y) == encode_utf8(x) + encode_utf8(y),
    decreases x.len(),
{
    if x.len() == 0 {
        assert(x + y =~= y);
        assert(encode_utf8(x) + encode_utf8(y) =~= encode_utf8(y));
    } else {
        assert((x + y).drop_first() =~= x.drop_first() + y);
        assert((x + y)[0] == x[0]);
        lemma_encode_utf8_append(x.drop_first(), y);
        assert(encode_utf8(x + y) =~= encode_utf8(x) + encode_utf8(y));
    }
}

/// The encoding of one character: its width, and a first byte with the high
/// bit set exactly when the character is not ASCII.
proof fn lemma_encode_one(c: char)
    ensures
        encode_utf8(seq![c]).len() == utf8_width(c),
        (c as u32) >= 0x80 ==> encode_utf8(seq![c])[0] >= 0x80,
{
    broadcast use vstd::utf8::char_is_scalar;

    let v = c as u32;
    assert(is_scalar(v));
    assert(seq![c].drop_first() =~= Seq::<char>::empty());
    assert(encode_utf8(Seq::<char>::empty()) =~= Seq::<u8>::empty());
    assert(encode_utf8(seq![c]) == encode_scalar(seq![c][0] as u32) + encode_utf8(
        seq![c].drop_first(),
    ));
    assert(encode_utf8(seq![c]) =~= encode_scalar(v));
    assert(0x80 <= v ==> leading_byte_width_2(v) >= 0x80) by (bit_vector);
    assert(0x80 <= v ==> leading_byte_width_3(v) >= 0x80) by (bit_vector);
    assert(0x80 <= v ==> leading_byte_width_4(v) >= 0x80) by (bit_vector);
}

proof fn lemma_encode_push(x: Seq<char>, c: char)
    ensures
        encode_utf8(x.push(c)) == encode_utf8(x) + encode_utf8(seq![c]),
{
    assert(x.push(c) =~= x + seq![c]);
    lemma_encode_utf8_append(x, seq![c]);
}

proof fn lemma_char_ascii(c: char)
    requires
        (c as u32) < 0x80,
    ensures
        '\0' <= c && c <= '\u{7f}',
{
}

/// A byte with the high bit set makes every pair that holds it fail.
proof fn lemma_high_byte_fails_pair(bytes: Seq<u8>, p: int)
    requires
        bytes.len() == 32,
        0 <= p < 32,
        bytes[p] >= 0x80,
    ensures
        guid_pair(bytes, p / 2) is None,
{
    let k = p / 2;
    assert(2 * k == p || 2 * k + 1 == p);
}

fn hex_value_exec(b: u8) -> (r: Option<u8>)
    ensures
        match r {
            Some(v) => hex_value(b) == Some(v as nat),
            None => hex_value(b) is None,
        },
{
    if 0x30 <= b && b <= 0x39 {
        Some(b - 0x30)
    } else if 0x61 <= b && b <= 0x66 {
        Some(b - 0x61 + 10)
    } else if 0x41 <= b && b <= 0x46 {
        Some(b - 0x41 + 10)
    } else {
        None
    }
}

fn radix16_pair_exec(b0: u8, b1: u8) -> (r: Option<u8>)
    ensures
        r == radix16_pair(b0, b1),
{
    if b0 == 0x2B {
        hex_value_exec(b1)
    } else {
        match (hex_value_exec(b0), hex_value_exec(b1)) {
            (Some(h), Some(l)) => Some(h * 16 + l),
            _ => None,
        }
    }
}

fn is_brace_exec(c: char) -> (r: bool)
    ensures
        r == is_brace(c),
{
    c == '\u{7b}' || c == '\u{7d}'
}

fn hex_char_exec(d: u8) -> (c: char)
    requires
        d < 16,
    ensures
        c == hex_char(d as nat),
{
    if d < 10 {
        (d + 48) as char
    } else {
        (d - 10 + 97) as char
    }
}

fn push_hex2(out: &mut String, b: u8)
    ensures
        final(out)@ == old(out)@ + hex2(b),
{
    push_char(out, hex_char_exec(b / 16));
    push_char(out, hex_char_exec(b % 16));
    assert(final(out)@ =~= old(out)@ + hex2(b));
}

/// The range left once braces are trimmed from both ends.
fn trim_braces_range(chars: &Vec<char>) -> (r: (usize, usize))
    ensures
        r.0 <= r.1 <= chars@.len(),
        chars@.subrange(r.0 as int, r.1 as int) == trim_end_braces(trim_start_braces(chars@)),
{
    let n = chars.len();
    let mut start: usize = 0;
    assert(chars@.subrange(0, n as int) =~= chars@);
    while start < n && is_brace_exec(chars[start])
        invariant
            start <= n,
            n == chars@.len(),
            trim_start_braces(chars@) == trim_start_braces(chars@.subrange(start as int, n as int)),
        decreases n - start,
    {
        assert(chars@.subrange(start as int, n as int).drop_first() =~= chars@.subrange(
            start + 1,
            n as int,
        ));
        start = start + 1;
    }
    assert(trim_start_braces(chars@) == chars@.subrange(start as int, n as int));
    let mut end: usize = n;
    while end > start && is_brace_exec(chars[end - 1])
        invariant
            start <= end <= n,
            n == chars@.len(),
            trim_end_braces(chars@.subrange(start as int, n as int)) == trim_end_braces(
                chars@.subrange(start as int, end as int),
            ),
        decreases end - start,
    {
        assert(chars@.subrange(start as int, end as int).drop_last() =~= chars@.subrange(
            start as int,
            end - 1,
        ));
        end = end - 1;
    }
    (start, end)
}

/// The characters of `chars[start..end]` other than `-`.
fn without_dashes_exec(chars: &Vec<char>, start: usize, end: usize) -> (hex: Vec<char>)
    requires
        start <= end <= chars@.len(),
    ensures
        hex@ == without_dashes(chars@.subrange(start as int, end as int)),
{
    let mut hex: Vec<char> = Vec::new();
    let mut j: usize = start;
    assert(chars@.subrange(start as int, start as int) =~= Seq::<char>::empty());
    while j < end
        invariant
            start <= j <= end <= chars@.len(),
            hex@ == without_dashes(chars@.subrange(start as int, j as int)),
        decreases end - j,
    {
        assert(chars@.subrange(start as int, j + 1).drop_last() =~= chars@.subrange(
            start as int,
            j as int,
        ));
        if chars[j] != '-' {
            hex.push(chars[j]);
        }
        j = j + 1;
    }
    hex
}

fn utf8_width_exec(c: char) -> (w: usize)
    ensures
        w == utf8_width(c),
{
    if (c as u32) < 0x80 {
        1
    } else if (c as u32) < 0x800 {
        2
    } else if (c as u32) < 0x1_0000 {
        3
    } else {
        4
    }
}

/// The UTF-8 length of `hex`, exact up to 32; anything above 32 may be cut short.
fn utf8_len_capped(hex: &Vec<char>) -> (len: usize)
    ensures
        len <= 32 ==> len == encode_utf8(hex@).len(),
        len > 32 ==> encode_utf8(hex@).len() > 32,
{
    let mut len: usize = 0;
    let mut i: usize = 0;
    assert(hex@.take(0) =~= Seq::<char>::empty());
    assert(encode_utf8(Seq::<char>::empty()) =~= Seq::<u8>::empty());
    while i < hex.len()
        invariant
            i <= hex@.len(),
            len <= 32,
            len == encode_utf8(hex@.take(i as int)).len(),
        decreases hex@.len() - i,
    {
        let c = hex[i];
        let w = utf8_width_exec(c);
        proof {
            assert(hex@.take(i + 1) =~= hex@.take(i as int).push(c));
            lemma_encode_push(hex@.take(i as int), c);
            lemma_encode_one(c);
        }
        len = len + w;
        i = i + 1;
        if len > 32 {
            proof {
                let rest = hex@.subrange(i as int, hex@.len() as int);
                assert(hex@ =~= hex@.take(i as int) + rest);
                lemma_encode_utf8_append(hex@.take(i as int), rest);
            }
            return len;
        }
    }
    assert(hex@.take(hex@.len() as int) =~= hex@);
    len
}

fn all_ascii(hex: &Vec<char>) -> (r: bool)
    ensures
        r == is_ascii_chars(hex@),
{
    let mut m: usize = 0;
    while m < hex.len()
        invariant
            m <= hex@.len(),
            forall|q: int| 0 <= q < m ==> '\0' <= #[trigger] hex@[q] && hex@[q] <= '\u{7f}',
        decreases hex@.len() - m,
    {
        if (hex[m] as u32) >= 0x80 {
            return false;
        }
        proof {
            lemma_char_ascii(hex@[m as int]);
        }
        m = m + 1;
    }
    true
}

/// Digits that are not all ASCII never parse: some byte has its high bit set.
proof fn lemma_non_ascii_fails(hex: Seq<char>)
    requires
        !is_ascii_chars(hex),
        encode_utf8(hex).len() == 32,
    ensures
        exists|k: int| 0 <= k < 16 && #[trigger] guid_pair(encode_utf8(hex), k) is None,
{
    let m = choose|m: int| 0 <= m < hex.len() && !('\0' <= #[trigger] hex[m] && hex[m] <= '\u{7f}');
    let c = hex[m];
    if (c as u32) < 0x80 {
        lemma_char_ascii(c);
    }
    assert((c as u32) >= 0x80);
    let pre = hex.take(m);
    let post = hex.subrange(m + 1, hex.len() as int);
    assert(hex =~= pre + seq![c] + post);
    lemma_encode_utf8_append(pre + seq![c], post);
    lemma_encode_utf8_append(pre, seq![c]);
    lemma_encode_one(c);
    let bytes = encode_utf8(hex);
    let p = encode_utf8(pre).len() as int;
    assert(bytes[p] >= 0x80);
    lemma_high_byte_fails_pair(bytes, p);
}

/// Sixteen radix-16 pairs of 32 ASCII digits.
fn hex_pairs(hex: &Vec<char>) -> (r: Option<Vec<u8>>)
    requires
        hex@.len() == 32,
        encode_utf8(hex@).len() == 32,
        forall|q: int| 0 <= q < 32 ==> #[trigger] encode_utf8(hex@)[q] == hex@[q] as u8,
    ensures
        match r {
            Some(raw) => raw@.len() == 16 && forall|q: int|
                0 <= q < 16 ==> guid_pair(encode_utf8(hex@), q) == Some(#[trigger] raw@[q]),
            None => exists|k: int| 0 <= k < 16 && #[trigger] guid_pair(encode_utf8(hex@), k) is None,
        },
{
    let ghost bytes = encode_utf8(hex@);
    let mut raw: Vec<u8> = Vec::new();
    let mut k: usize = 0;
    while k < 16
        invariant
            k <= 16,
            hex@.len() == 32,
            bytes == encode_utf8(hex@),
            bytes.len() == 32,
            forall|q: int| 0 <= q < 32 ==> #[trigger] bytes[q] == hex@[q] as u8,
            raw@.len() == k,
            forall|q: int| 0 <= q < k ==> guid_pair(bytes, q) == Some(#[trigger] raw@[q]),
        decreases 16 - k,
    {
        let b0 = hex[2 * k] as u8;
        let b1 = hex[2 * k + 1] as u8;
        assert(bytes[2 * k] == b0 && bytes[2 * k + 1] == b1);
        match radix16_pair_exec(b0, b1) {
            Some(v) => raw.push(v),
            None => {
                assert(guid_pair(bytes, k as int) is None);
                return None;
            },
        }
        k = k + 1;
    }
    Some(raw)
}

/// The stored byte order of sixteen bytes read in text order.
fn guid_from_text_order(raw: &Vec<u8>) -> (g: Guid)
    requires
        raw@.len() == 16,
    ensures
        g@ == guid_swap_order(raw@),
{
    let g = Guid(
        [
            raw[3],
            raw[2],
            raw[1],
            raw[0],
            raw[5],
            raw[4],
            raw[7],
            raw[6],
            raw[8],
            raw[9],
            raw[10],
            raw[11],
            raw[12],
            raw[13],
            raw[14],
            raw[15],
        ],
    );
    assert(g@ =~= guid_swap_order(raw@));
    g
}

impl Guid {
    /// The first sixteen bytes of `b` as a GUID, or `None` when `b` is shorter.
    pub fn from_bytes(b: &[u8]) -> (r: Option<Guid>)
        ensures
            match r {
                Some(g) => guid_from_bytes(b@) == Some(g@),
                None => guid_from_bytes(b@) is None,
            },
    {
        if b.len() < 16 {
            return None;
        }
        let g = Guid(
            [
                b[0],
                b[1],
                b[2],
                b[3],
                b[4],
                b[5],
                b[6],
                b[7],
                b[8],
                b[9],
                b[10],
                b[11],
                b[12],
                b[13],
                b[14],
                b[15],
            ],
        );
        assert(g@ =~= b@.subrange(0, 16));
        Some(g)
    }

    /// Parse `1131f6aa-9c07-11d1-f79f-00c04fc2dcd2` (braces optional).
    pub fn parse(s: &str) -> (r: Option<Guid>)
        ensures
            match r {
                Some(g) => guid_parse_text(s@) == Some(g@),
                None => guid_parse_text(s@) is None,
            },
    {
        let chars = chars_of(s);
        let (start, end) = trim_braces_range(&chars);
        let hex = without_dashes_exec(&chars, start, end);
        let ghost bytes = guid_hex_bytes(s@);
        assert(bytes == encode_utf8(hex@));
        let len = utf8_len_capped(&hex);
        if len != 32 {
            return None;
        }
        if !all_ascii(&hex) {
            proof {
                lemma_non_ascii_fails(hex@);
            }
            return None;
        }
        proof {
            vstd::utf8::is_ascii_chars_encode_utf8(hex@);
        }
        let raw = match hex_pairs(&hex) {
            Some(raw) => raw,
            None => return None,
        };
        let g = guid_from_text_order(&raw);
        proof {
            assert forall|k: int| 0 <= k < 16 implies guid_pair(bytes, k) == Some(raw@[k]) by {
                assert(guid_pair(bytes, k) == Some(raw@[k]));
            }
            let want = Seq::new(16, |q: int| guid_pair(bytes, q).unwrap());
            assert(want =~= raw@);
            assert(guid_parse_text(s@) == Some(guid_swap_order(want)));
        }
        Some(g)
    }

    /// Writes `aaaaaaaa-bbbb-cccc-dddd-eeeeeeeeeeee` in lowercase hex.
    pub fn to_string(&self) -> (r: String)
        ensures
            r@ == guid_text(self@),
    {
        let b = &self.0;
        let mut out = String::new();
        push_hex2(&mut out, b[3]);
        push_hex2(&mut out, b[2]);
        push_hex2(&mut out, b[1]);
        push_hex2(&mut out, b[0]);
        push_char(&mut out, '-');
        push_hex2(&mut out, b[5]);
        push_hex2(&mut out, b[4]);
        push_char(&mut out, '-');
        push_hex2(&mut out, b[7]);
        push_hex2(&mut out, b[6]);
        push_char(&mut out, '-');
        push_hex2(&mut out, b[8]);
        push_hex2(&mut out, b[9]);
        push_char(&mut out, '-');
        push_hex2(&mut out, b[10]);
        push_hex2(&mut out, b[11]);
        push_hex2(&mut out, b[12]);
        push_hex2(&mut out, b[13]);
        push_hex2(&mut out, b[14]);
        push_hex2(&mut out, b[15]);
        assert(out@ =~= guid_text(self@));
        out
    }
}


proof fn lemma_hex_char(d: nat)
    requires
        d < 16,
    ensures
        !is_brace(hex_char(d)),
        hex_char(d) != '-',
        (hex_char(d) as u32) < 0x80,
        hex_char(d) as u8 != 0x2B,
        hex_value(hex_char(d) as u8) == Some(d),
{
    let c = hex_char(d);
    if d < 10 {
        assert(c as u32 == d + 48);
    } else {
        assert(c as u32 == d - 10 + 97);
    }
}

proof fn lemma_hex2_pair(b: u8)
    ensures
        radix16_pair(hex2(b)[0] as u8, hex2(b)[1] as u8) == Some(b),
        no_dash(hex2(b)),
        (hex2(b)[0] as u32) < 0x80,
        (hex2(b)[1] as u32) < 0x80,
        !is_brace(hex2(b)[0]),
        !is_brace(hex2(b)[1]),
{
    lemma_hex_char((b / 16) as nat);
    lemma_hex_char((b % 16) as nat);
    assert((b / 16) * 16 + b % 16 == b);
}

proof fn lemma_without_dashes_append(x: Seq<char>, y: Seq<char>)
    ensures
        without_dashes(x + y) == without_dashes(x) + without_dashes(y),
    decreases y.len(),
{
    if y.len() == 0 {
        assert(x + y =~= x);
        assert(without_dashes(x) + without_dashes(y) =~= without_dashes(x));
    } else {
        lemma_without_dashes_append(x, y.drop_last());
        assert((x + y).drop_last() =~= x + y.drop_last());
        assert((x + y).last() == y.last());
        if y.last() == '-' {
        } else {
            assert((without_dashes(x) + without_dashes(y.drop_last())).push(y.last())
                =~= without_dashes(x) + without_dashes(y.drop_last()).push(y.last()));
        }
    }
}

proof fn lemma_without_dashes_none(x: Seq<char>)
    requires
        no_dash(x),
    ensures
        without_dashes(x) == x,
    decreases x.len(),
{
    if x.len() > 0 {
        lemma_without_dashes_none(x.drop_last());
        assert(x.drop_last().push(x.last()) =~= x);
    } else {
        assert(x =~= Seq::<char>::empty());
    }
}

proof fn lemma_without_one_dash(x: Seq<char>, y: Seq<char>)
    ensures
        without_dashes(x + seq!['-'] + y) == without_dashes(x) + without_dashes(y),
{
    lemma_without_dashes_append(x + seq!['-'], y);
    lemma_without_dashes_append(x, seq!['-']);
    assert(seq!['-'].drop_last() =~= Seq::<char>::empty());
    assert(without_dashes(Seq::<char>::empty()) =~= Seq::<char>::empty());
    assert(seq!['-'].last() == '-');
    assert(without_dashes(seq!['-']) =~= Seq::<char>::empty());
    assert(without_dashes(x) + Seq::<char>::empty() =~= without_dashes(x));
}

/// The hex digits of the display form, two per byte, in text order.
spec fn guid_digits(g: Seq<u8>) -> Seq<char> {
    let o = guid_swap_order(g);
    Seq::new(
        32,
        |i: int|
            if i % 2 == 0 {
                hex_char((o[i / 2] / 16) as nat)
            } else {
                hex_char((o[i / 2] % 16) as nat)
            },
    )
}

spec fn guid_group0(g: Seq<u8>) -> Seq<char> {
    hex2(g[3]) + hex2(g[2]) + hex2(g[1]) + hex2(g[0])
}

spec fn guid_group1(g: Seq<u8>) -> Seq<char> {
    hex2(g[5]) + hex2(g[4])
}

spec fn guid_group2(g: Seq<u8>) -> Seq<char> {
    hex2(g[7]) + hex2(g[6])
}

spec fn guid_group3(g: Seq<u8>) -> Seq<char> {
    hex2(g[8]) + hex2(g[9])
}

spec fn guid_group4(g: Seq<u8>) -> Seq<char> {
    hex2(g[10]) + hex2(g[11]) + hex2(g[12]) + hex2(g[13]) + hex2(g[14]) + hex2(g[15])
}

proof fn lemma_guid_groups_no_dash(g: Seq<u8>)
    requires
        g.len() == 16,
    ensures
        no_dash(guid_group0(g)),
        no_dash(guid_group1(g)),
        no_dash(guid_group2(g)),
        no_dash(guid_group3(g)),
        no_dash(guid_group4(g)),
{
    assert forall|k: int| 0 <= k < 16 implies #[trigger] no_dash(hex2(g[k])) by {
        lemma_hex2_pair(g[k]);
    }
    assert(no_dash(hex2(g[3])) && no_dash(hex2(g[2])) && no_dash(hex2(g[1])) && no_dash(
        hex2(g[0]),
    ));
    assert(no_dash(hex2(g[5])) && no_dash(hex2(g[4])) && no_dash(hex2(g[7])) && no_dash(
        hex2(g[6]),
    ));
    assert(no_dash(hex2(g[8])) && no_dash(hex2(g[9])));
    assert(no_dash(hex2(g[10])) && no_dash(hex2(g[11])) && no_dash(hex2(g[12])));
    assert(no_dash(hex2(g[13])) && no_dash(hex2(g[14])) && no_dash(hex2(g[15])));
}

proof fn lemma_guid_text_trim(g: Seq<u8>)
    requires
        g.len() == 16,
    ensures
        trim_end_braces(trim_start_braces(guid_text(g))) == guid_text(g),
{
    let t = guid_text(g);
    lemma_hex2_pair(g[3]);
    lemma_hex2_pair(g[15]);
    assert(t[0] == hex2(g[3])[0]);
    assert(t.last() == hex2(g[15])[1]);
    assert(trim_start_braces(t) == t);
    assert(trim_end_braces(t) == t);
}

proof fn lemma_guid_text_dashes(g: Seq<u8>)
    requires
        g.len() == 16,
    ensures
        without_dashes(guid_text(g)) == guid_group0(g) + guid_group1(g) + guid_group2(g)
            + guid_group3(g) + guid_group4(g),
{
    let t = guid_text(g);
    let p0 = guid_group0(g);
    let p1 = guid_group1(g);
    let p2 = guid_group2(g);
    let p3 = guid_group3(g);
    let p4 = guid_group4(g);
    assert(t =~= p0 + seq!['-'] + p1 + seq!['-'] + p2 + seq!['-'] + p3 + seq!['-'] + p4);
    lemma_guid_groups_no_dash(g);
    lemma_without_one_dash(p0 + seq!['-'] + p1 + seq!['-'] + p2 + seq!['-'] + p3, p4);
    lemma_without_one_dash(p0 + seq!['-'] + p1 + seq!['-'] + p2, p3);
    lemma_without_one_dash(p0 + seq!['-'] + p1, p2);
    lemma_without_one_dash(p0, p1);
    lemma_without_dashes_none(p0);
    lemma_without_dashes_none(p1);
    lemma_without_dashes_none(p2);
    lemma_without_dashes_none(p3);
    lemma_without_dashes_none(p4);
}

#[verifier::spinoff_prover]
#[verifier::rlimit(60)]
proof fn lemma_guid_groups_digits(g: Seq<u8>)
    requires
        g.len() == 16,
    ensures
        guid_group0(g) + guid_group1(g) + guid_group2(g) + guid_group3(g) + guid_group4(g)
            == guid_digits(g),
{
    assert(guid_group0(g) + guid_group1(g) + guid_group2(g) + guid_group3(g) + guid_group4(g)
        =~= guid_digits(g));
}

/// The display form, with its dashes removed, is the digit sequence.
proof fn lemma_guid_text_digits(g: Seq<u8>)
    requires
        g.len() == 16,
    ensures
        without_dashes(trim_end_braces(trim_start_braces(guid_text(g)))) == guid_digits(g),
{
    lemma_guid_text_trim(g);
    lemma_guid_text_dashes(g);
    lemma_guid_groups_digits(g);
}

/// The digit bytes: ASCII, and each pair reads back its byte.
proof fn lemma_guid_digits_bytes(g: Seq<u8>)
    requires
        g.len() == 16,
    ensures
        encode_utf8(guid_digits(g)).len() == 32,
        forall|k: int|
            0 <= k < 16 ==> #[trigger] guid_pair(encode_utf8(guid_digits(g)), k) == Some(
                guid_swap_order(g)[k],
            ),
{
    let o = guid_swap_order(g);
    let digits = guid_digits(g);
    assert forall|q: int| 0 <= q < digits.len() implies '\0' <= #[trigger] digits[q] && digits[q]
        <= '\u{7f}' by {
        lemma_hex_char((o[q / 2] / 16) as nat);
        lemma_hex_char((o[q / 2] % 16) as nat);
        lemma_char_ascii(digits[q]);
    }
    assert(is_ascii_chars(digits));
    vstd::utf8::is_ascii_chars_encode_utf8(digits);
    let bytes = encode_utf8(digits);
    assert forall|k: int| 0 <= k < 16 implies #[trigger] guid_pair(bytes, k) == Some(o[k]) by {
        assert(bytes[2 * k] == digits[2 * k] as u8);
        assert(bytes[2 * k + 1] == digits[2 * k + 1] as u8);
        assert((2 * k) / 2 == k && (2 * k + 1) / 2 == k);
        assert((2 * k) % 2 == 0 && (2 * k + 1) % 2 == 1);
        lemma_hex2_pair(o[k]);
    }
}

/// Parsing the display form of any GUID gives that GUID back.
pub proof fn lemma_guid_text_round_trip(g: Seq<u8>)
    requires
        g.len() == 16,
    ensures
        guid_parse_text(guid_text(g)) == Some(g),
{
    let t = guid_text(g);
    let o = guid_swap_order(g);
    lemma_guid_text_digits(g);
    lemma_guid_digits_bytes(g);
    let bytes = guid_hex_bytes(t);
    assert(bytes == encode_utf8(guid_digits(g)));
    assert forall|k: int| 0 <= k < 16 implies #[trigger] guid_pair(bytes, k) is Some by {
        assert(guid_pair(bytes, k) == Some(o[k]));
    }
    let raw = Seq::new(16, |k: int| guid_pair(bytes, k).unwrap());
    assert forall|k: int| 0 <= k < 16 implies raw[k] == o[k] by {
        assert(guid_pair(bytes, k) == Some(o[k]));
    }
    assert(raw =~= o);
    assert(guid_swap_order(o) =~= g);
}


proof fn lemma_trim_start_append(y: Seq<char>, z: Seq<char>)
    ensures
        trim_start_braces(y).len() > 0 ==> trim_start_braces(y + z) == trim_start_braces(y) + z,
        trim_start_braces(y).len() == 0 ==> trim_start_braces(y + z) == trim_start_braces(z),
    decreases y.len(),
{
    if y.len() == 0 {
        assert(y + z =~= z);
    } else if is_brace(y[0]) {
        assert((y + z).drop_first() =~= y.drop_first() + z);
        lemma_trim_start_append(y.drop_first(), z);
    } else {
        assert((y + z)[0] == y[0]);
    }
}

/// Braces around a GUID's text change nothing: `{g}` parses as `g` does.
pub proof fn lemma_guid_braces_optional(s: Seq<char>)
    ensures
        guid_parse_text(seq!['\u{7b}'] + s + seq!['\u{7d}']) == guid_parse_text(s),
{
    let open = seq!['\u{7b}'];
    let close = seq!['\u{7d}'];
    let x = open + s + close;
    assert(x =~= open + (s + close));
    assert(x.drop_first() =~= s + close);
    assert(trim_start_braces(x) == trim_start_braces(s + close));
    lemma_trim_start_append(s, close);
    let ts = trim_start_braces(s);
    if ts.len() > 0 {
        assert((ts + close).drop_last() =~= ts);
        assert(trim_end_braces(ts + close) == trim_end_braces(ts));
    } else {
        assert(close.drop_first() =~= Seq::<char>::empty());
        assert(trim_start_braces(Seq::<char>::empty()) =~= Seq::<char>::empty());
        assert(is_brace(close[0]));
        assert(trim_start_braces(close) =~= Seq::<char>::empty());
        assert(ts =~= Seq::<char>::empty());
    }
    assert(guid_hex_bytes(x) == guid_hex_bytes(s));
}

} // verus!
