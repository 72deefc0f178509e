//! Object ids as text: the full lowercase hex form and the 7-character short form.

use vstd::prelude::*;
use crate::model::ObjectId;
use crate::text::{chars_of, hex2, hex_char, slice_chars, string_of};

verus! {

/// Lowercase hex, two digits per byte, high nibble first.
pub open spec fn hex_of(bytes: Seq<u8>) -> Seq<char>
    decreases bytes.len(),
{
    if bytes.len() == 0 {
        Seq::empty()
    } else {
        hex_of(bytes.drop_last()) + hex2(bytes.last())
    }
}

pub proof fn lemma_hex_len(bytes: Seq<u8>)
    ensures
        hex_of(bytes).len() == 2 * bytes.len(),
    decreases bytes.len(),
{
    if bytes.len() > 0 {
        lemma_hex_len(bytes.drop_last());
    }
}

/// The id as git prints it: `git2::Oid`'s `Display`, which formats the 20 raw
/// bytes as 40 lowercase hex digits, high nibble first (libgit2's
/// `git_oid_tostr`). `Oid::from_bytes` fails only on a length other than 20.
#[verifier::external_body]
fn oid_hex(id: &ObjectId) -> (s: String)
    ensures
        s@ == hex_of(id.bytes@),
{
    match git2::Oid::from_bytes(&id.bytes) {
        Ok(oid) => oid.to_string(),
        Err(_) => String::new(),
    }
}

impl ObjectId {
    /// The full 40-digit hex form.
    pub fn hex(&self) -> (s: String)
        ensures
            s@ == hex_of(self.bytes@),
    {
        oid_hex(self)
    }
}

/// The abbreviated id shown in lists: the first 7 hex digits.
pub open spec fn short_of(bytes: Seq<u8>) -> Seq<char> {
    hex_of(bytes).take(7)
}

pub fn short_oid(id: &ObjectId) -> (s: String)
    ensures
        s@ == short_of(id.bytes@),
        s@.len() == 7,
{
    let full = oid_hex(id);
    let cs = chars_of(full.as_str());
    proof {
        lemma_hex_len(id.bytes@);
    }
    string_of(&slice_chars(&cs, 0, 7))
}

/// The value of a hex digit of either case.
pub open spec fn hex_value(c: char) -> Option<nat> {
    if '0' <= c <= '9' {
        Some((c as u32 - '0' as u32) as nat)
    } else if 'a' <= c <= 'f' {
        Some((c as u32 - 'a' as u32 + 10) as nat)
    } else if 'A' <= c <= 'F' {
        Some((c as u32 - 'A' as u32 + 10) as nat)
    } else {
        None
    }
}

/// Text that parses as an id: one to 40 hex digits.
pub open spec fn oid_text_ok(s: Seq<char>) -> bool {
    &&& 0 < s.len() <= 40
    &&& forall|i: int| 0 <= i < s.len() ==> (#[trigger] hex_value(s[i])) is Some
}

/// The digit at position `i`, a missing one reading as 0.
pub open spec fn nibble_at(s: Seq<char>, i: int) -> nat {
    if 0 <= i < s.len() {
        match hex_value(s[i]) {
            Some(v) => v,
            None => 0,
        }
    } else {
        0
    }
}

/// The 20 bytes hex text stands for, two digits per byte, high nibble first,
/// the missing digits of a short text being zeros.
pub open spec fn parsed_bytes(s: Seq<char>) -> Seq<u8> {
    Seq::new(20, |k: int| (16 * nibble_at(s, 2 * k) + nibble_at(s, 2 * k + 1)) as u8)
}

/// The number of UTF-8 bytes of a character.
pub open spec fn utf8_width(c: char) -> nat {
    if (c as u32) < 0x80 {
        1
    } else if (c as u32) < 0x800 {
        2
    } else if (c as u32) < 0x10000 {
        3
    } else {
        4
    }
}

pub open spec fn utf8_len(s: Seq<char>) -> nat
    decreases s.len(),
{
    if s.len() == 0 {
        0
    } else {
        utf8_len(s.drop_last()) + utf8_width(s.last())
    }
}

/// libgit2's message for text that does not parse, judged on its UTF-8 bytes.
pub open spec fn oid_parse_error(s: Seq<char>) -> Seq<char> {
    "unable to parse OID - "@ + if utf8_len(s) == 0 {
        "too short"@
    } else if utf8_len(s) > 40 {
        "too long"@
    } else {
        "contains invalid characters"@
    }
}

/// `git2::Oid::from_str`, with the error turned into its message: libgit2's
/// `git_oid_fromstrn` accepts one to 40 hex digits of either case, fills the
/// 20 bytes high nibble first and leaves the rest zero; otherwise it fails
/// with "too short", "too long" (over 40 bytes) or "contains invalid
/// characters", after "unable to parse OID - ".
#[verifier::external_body]
fn oid_from_str(s: &str) -> (r: Result<ObjectId, String>)
    ensures
        r is Ok <==> oid_text_ok(s@),
        r matches Ok(id) ==> id.bytes@ == parsed_bytes(s@),
        r matches Err(m) ==> m@ == oid_parse_error(s@),
{
    match git2::Oid::from_str(s) {
        Ok(oid) => {
            let mut bytes = [0u8; 20];
            bytes.copy_from_slice(oid.as_bytes());
            Ok(ObjectId { bytes })
        },
        Err(e) => Err(e.message().to_string()),
    }
}

/// Parses a hex id, as typed or as sent by a front end, reporting libgit2's
/// message when it does not parse.
pub fn parse_oid(s: &str) -> (r: Result<ObjectId, String>)
    ensures
        r is Ok <==> oid_text_ok(s@),
        r matches Ok(id) ==> id.bytes@ == parsed_bytes(s@),
        r matches Err(m) ==> m@ == oid_parse_error(s@),
{
    oid_from_str(s)
}

proof fn lemma_hex_digits(bytes: Seq<u8>)
    ensures
        hex_of(bytes).len() == 2 * bytes.len(),
        forall|k: int|
            0 <= k < bytes.len() ==> hex_of(bytes)[2 * k] == hex_char((#[trigger] bytes[k] / 16) as nat)
                && hex_of(bytes)[2 * k + 1] == hex_char((bytes[k] % 16) as nat),
    decreases bytes.len(),
{
    if bytes.len() > 0 {
        let pre = bytes.drop_last();
        lemma_hex_digits(pre);
        assert forall|k: int| 0 <= k < bytes.len() implies hex_of(bytes)[2 * k] == hex_char((#[trigger] bytes[k] / 16) as nat)
            && hex_of(bytes)[2 * k + 1] == hex_char((bytes[k] % 16) as nat) by {
            if k < pre.len() {
                assert(pre[k] == bytes[k]);
            }
        }
    }
}

proof fn lemma_hex_value(d: nat)
    requires
        d < 16,
    ensures
        hex_value(hex_char(d)) == Some(d),
{
}

/// Parsing the hex form of an id gives the id back.
pub proof fn law_parse_hex_roundtrip(bytes: Seq<u8>)
    requires
        bytes.len() == 20,
    ensures
        oid_text_ok(hex_of(bytes)),
        parsed_bytes(hex_of(bytes)) == bytes,
{
    let h = hex_of(bytes);
    lemma_hex_digits(bytes);
    assert forall|i: int| 0 <= i < h.len() implies (#[trigger] hex_value(h[i])) is Some by {
        let k = i / 2;
        lemma_hex_value((bytes[k] / 16) as nat);
        lemma_hex_value((bytes[k] % 16) as nat);
        if i % 2 == 0 {
            assert(i == 2 * k);
        } else {
            assert(i == 2 * k + 1);
        }
    }
    assert forall|k: int| 0 <= k < 20 implies #[trigger] parsed_bytes(h)[k] == bytes[k] by {
        lemma_hex_value((bytes[k] / 16) as nat);
        lemma_hex_value((bytes[k] % 16) as nat);
        assert(nibble_at(h, 2 * k) == bytes[k] / 16);
        assert(nibble_at(h, 2 * k + 1) == bytes[k] % 16);
    }
    assert(parsed_bytes(h) =~= bytes);
}

} // verus!
