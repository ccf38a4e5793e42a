//! Short random identifiers for rooms and users: the first eight characters
//! of a random UUID in its hyphenated text form.
use vstd::prelude::*;

verus! {

/// The lowercase hexadecimal digit for `n < 16`.
pub open spec fn hex_digit(n: nat) -> char {
    if n < 10 {
        (48 + n) as char
    } else {
        (87 + n) as char
    }
}

/// The two lowercase hexadecimal digits of a byte, high nibble first.
pub open spec fn hex_pair(b: u8) -> Seq<char> {
    seq![hex_digit((b / 16) as nat), hex_digit((b % 16) as nat)]
}

/// Lowercase hexadecimal text of a byte string, two digits per byte.
pub open spec fn hex_of(bs: Seq<u8>) -> Seq<char>
    decreases bs.len(),
{
    if bs.len() == 0 {
        Seq::empty()
    } else {
        hex_pair(bs[0]) + hex_of(bs.drop_first())
    }
}

/// The hyphenated text form of a UUID given by its 16 bytes:
/// `xxxxxxxx-xxxx-xxxx-xxxx-xxxxxxxxxxxx` in lowercase hexadecimal.
pub open spec fn uuid_hyphenated(bs: Seq<u8>) -> Seq<char> {
    hex_of(bs.subrange(0, 4)) + seq!['-'] + hex_of(bs.subrange(4, 6)) + seq!['-'] + hex_of(
        bs.subrange(6, 8),
    ) + seq!['-'] + hex_of(bs.subrange(8, 10)) + seq!['-'] + hex_of(bs.subrange(10, 16))
}

/// Whether `c` is a lowercase hexadecimal digit.
pub open spec fn is_lower_hex(c: char) -> bool {
    ('0' <= c && c <= '9') || ('a' <= c && c <= 'f')
}

/// `uuid::Uuid::new_v4` followed by `Uuid::as_bytes`: the 16 bytes of a fresh
/// random (version 4) UUID.  They come from the operating system's random
/// source, so nothing is claimed of them.
#[verifier::external_body]
fn random_uuid_bytes() -> (bs: [u8; 16]) {
    *uuid::Uuid::new_v4().as_bytes()
}

/// `uuid::Uuid::from_bytes` followed by `to_string`: the crate's `Display`
/// formats a UUID in its hyphenated lowercase form, each byte as two hex
/// digits, with hyphens after the 4th, 6th, 8th and 10th byte.
#[verifier::external_body]
fn uuid_text(bs: [u8; 16]) -> (s: String)
    ensures
        s@ == uuid_hyphenated(bs@),
{
    uuid::Uuid::from_bytes(bs).to_string()
}

proof fn lemma_hex_of_len(bs: Seq<u8>)
    ensures
        hex_of(bs).len() == 2 * bs.len(),
        forall|i: int| 0 <= i < hex_of(bs).len() ==> is_lower_hex(#[trigger] hex_of(bs)[i]),
    decreases bs.len(),
{
    if bs.len() > 0 {
        lemma_hex_of_len(bs.drop_first());
        let h = hex_of(bs);
        let p = hex_pair(bs[0]);
        assert forall|i: int| 0 <= i < h.len() implies is_lower_hex(#[trigger] h[i]) by {
            if i >= 2 {
                assert(h[i] == hex_of(bs.drop_first())[i - 2]);
            } else {
                assert(h[i] == p[i]);
            }
        }
    }
}

/// The short id for a UUID given by its bytes: the first eight characters of
/// its hyphenated text, which are the hex digits of its first four bytes.
pub fn short_id_from_bytes(bs: [u8; 16]) -> (id: String)
    ensures
        id@ == hex_of(bs@.subrange(0, 4)),
        id@ == uuid_hyphenated(bs@).subrange(0, 8),
{
    let text = uuid_text(bs);
    proof {
        lemma_hex_of_len(bs@.subrange(0, 4));
    }
    let head = text.as_str().substring_char(0, 8);
    let id = String::from_str(head);
    assert(id@ =~= hex_of(bs@.subrange(0, 4)));
    id
}

/// A fresh short id: eight lowercase hex digits taken from a random UUID.
pub fn new_short_id() -> (id: String)
    ensures
        id@.len() == 8,
        forall|i: int| 0 <= i < 8 ==> is_lower_hex(#[trigger] id@[i]),
{
    let bs = random_uuid_bytes();
    let id = short_id_from_bytes(bs);
    proof {
        lemma_hex_of_len(bs@.subrange(0, 4));
    }
    id
}

} // verus!
