//! User names, and the bytes by which they stand in storage keys.

use vstd::prelude::*;
use vstd::utf8::{
    encode_scalar, encode_utf8, encode_utf8_decode_utf8, has_width_1_encoding, has_width_2_encoding,
    has_width_3_encoding, is_scalar,
};

use crate::key::{valid_user, SEPARATOR};
use crate::order::{compare, Place};

verus! {

/// The bytes by which the user `name` stands in keys: its UTF-8 encoding.
pub open spec fn name_bytes(name: Seq<char>) -> Seq<u8> {
    encode_utf8(name)
}

/// A name can stand in a key if it holds no `/`.
pub open spec fn valid_name(name: Seq<char>) -> bool {
    forall|i: int| 0 <= i < name.len() ==> name[i] != '/'
}

/// Two names with the same bytes are the same name.
pub proof fn lemma_name_bytes_tell_names_apart(a: Seq<char>, b: Seq<char>)
    ensures
        name_bytes(a) == name_bytes(b) <==> a == b,
{
    encode_utf8_decode_utf8(a);
    encode_utf8_decode_utf8(b);
}

/// The encoding of one character holds the byte of `/` only where the character
/// is `/`.
proof fn lemma_separator_encodes_itself(c: char)
    ensures
        valid_user(encode_scalar(c as u32)) <==> c != '/',
{
    let v = c as u32;
    let bytes = encode_scalar(v);
    assert(is_scalar(v));
    if has_width_1_encoding(v) {
        assert(((v & 0x7F) as u8 == 47u8) <==> v == 47u32) by (bit_vector)
            requires
                v <= 0x7F,
        ;
        assert(bytes[0] == (v & 0x7F) as u8);
        if c != '/' {
            assert(valid_user(bytes));
        } else {
            assert(bytes[0] == SEPARATOR);
        }
    } else {
        assert((0xC0u8 | ((v >> 6) & 0x1F) as u8) != 47u8) by (bit_vector);
        assert((0xE0u8 | ((v >> 12) & 0x0F) as u8) != 47u8) by (bit_vector);
        assert((0xF0u8 | ((v >> 18) & 0x7) as u8) != 47u8) by (bit_vector);
        assert((0x80u8 | (v & 0x3F) as u8) != 47u8) by (bit_vector);
        assert((0x80u8 | ((v >> 6) & 0x3F) as u8) != 47u8) by (bit_vector);
        assert((0x80u8 | ((v >> 12) & 0x3F) as u8) != 47u8) by (bit_vector);
        assert(v != 47);
        if has_width_2_encoding(v) {
            assert(valid_user(bytes));
        } else if has_width_3_encoding(v) {
            assert(valid_user(bytes));
        } else {
            assert(valid_user(bytes));
        }
    }
}

/// The bytes of a name hold no separator exactly when the name holds no `/`.
pub proof fn lemma_valid_name_has_valid_bytes(name: Seq<char>)
    ensures
        valid_user(name_bytes(name)) <==> valid_name(name),
    decreases name.len(),
{
    if name.len() > 0 {
        let head = encode_scalar(name[0] as u32);
        let rest = name.drop_first();
        let tail = encode_utf8(rest);
        lemma_separator_encodes_itself(name[0]);
        lemma_valid_name_has_valid_bytes(rest);
        assert(name_bytes(name) == head + tail);
        if valid_name(name) {
            assert forall|i: int| 0 <= i < rest.len() implies rest[i] != '/' by {
                assert(rest[i] == name[i + 1]);
            }
            assert forall|i: int| 0 <= i < (head + tail).len() implies (head + tail)[i]
                != SEPARATOR by {
                if i < head.len() {
                    assert((head + tail)[i] == head[i]);
                } else {
                    assert((head + tail)[i] == tail[i - head.len()]);
                }
            }
        }
        if valid_user(head + tail) {
            assert forall|i: int| 0 <= i < head.len() implies head[i] != SEPARATOR by {
                assert((head + tail)[i] == head[i]);
            }
            assert forall|i: int| 0 <= i < tail.len() implies tail[i] != SEPARATOR by {
                assert((head + tail)[i + head.len()] == tail[i]);
            }
            assert forall|i: int| 0 <= i < name.len() implies name[i] != '/' by {
                if i > 0 {
                    assert(rest[i - 1] == name[i]);
                }
            }
        }
    }
}


/// Whether `a` and `b` are the same text.
pub fn same_text(a: &str, b: &str) -> (same: bool)
    ensures
        same == (a@ == b@),
{
    proof {
        lemma_name_bytes_tell_names_apart(a@, b@);
    }
    compare(a.as_bytes(), b.as_bytes()) == Place::Same
}

} // verus!
