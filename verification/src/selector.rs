//! Selector derivation: an entry point's name maps to a stable 4-byte
//! identifier, and that identifier to the name of the boundary export.
//!
//! The selector is the first 4 bytes of the SHA-256 digest of the name's
//! UTF-8 bytes, read little-endian. The export is named `action_` followed
//! by the selector's fixed-width lowercase hexadecimal form. This rule is
//! computed both at build time (to name the export) and at dispatch time (to
//! look it up); the two must never drift, so both go through this module.

use vstd::prelude::*;

use crate::intbytes::spec_u32_from_le_bytes;

verus! {

broadcast use vstd::string::group_string_axioms;

/// The SHA-256 digest of a byte sequence, named but not written out: it is a
/// function of the input alone.
pub uninterp spec fn sha256_of(bytes: Seq<u8>) -> Seq<u8>;

/// Relies on sha2's `Sha256` (via the `Digest` trait): the digest depends on
/// the input bytes alone and is exactly 32 bytes long.
#[verifier::external_body]
fn sha256_digest(bytes: &Vec<u8>) -> (r: Vec<u8>)
    ensures
        r@ == sha256_of(bytes@),
        r@.len() == 32,
{
    let mut digest = <sha2::Sha256 as sha2::Digest>::new();
    sha2::Digest::update(&mut digest, bytes.as_slice());
    sha2::Digest::finalize(digest).to_vec()
}

/// The selector an entry-point name derives to: the first 4 digest bytes of
/// its UTF-8 form, read as a little-endian 32-bit integer.
pub open spec fn spec_selector(name: Seq<char>) -> u32 {
    spec_u32_from_le_bytes(sha256_of(vstd::utf8::encode_utf8(name)).take(4))
}

/// Selector derivation is deterministic: one name, one selector, however
/// often and wherever it is computed.
pub proof fn lemma_selector_deterministic(a: Seq<char>, b: Seq<char>)
    requires
        a == b,
    ensures
        spec_selector(a) == spec_selector(b),
{
}

/// Derive the selector of an entry-point name.
pub fn hash_identifier(raw_name: &String) -> (r: u32)
    ensures
        r == spec_selector(raw_name@),
{
    let bytes = vstd::string::StrSliceExecFns::as_bytes_vec(raw_name.as_str());
    let digest = sha256_digest(&bytes);
    let b0 = digest[0];
    let b1 = digest[1];
    let b2 = digest[2];
    let b3 = digest[3];
    proof {
        assert(digest@.take(4)[0] == digest@[0]);
        assert(digest@.take(4)[1] == digest@[1]);
        assert(digest@.take(4)[2] == digest@[2]);
        assert(digest@.take(4)[3] == digest@[3]);
    }
    (b0 as u32) | ((b1 as u32) << 8) | ((b2 as u32) << 16) | ((b3 as u32) << 24)
}

/// The lowercase hexadecimal digit for a value below sixteen.
pub open spec fn spec_hex_digit(n: int) -> char {
    if n == 0 {
        '0'
    } else if n == 1 {
        '1'
    } else if n == 2 {
        '2'
    } else if n == 3 {
        '3'
    } else if n == 4 {
        '4'
    } else if n == 5 {
        '5'
    } else if n == 6 {
        '6'
    } else if n == 7 {
        '7'
    } else if n == 8 {
        '8'
    } else if n == 9 {
        '9'
    } else if n == 10 {
        'a'
    } else if n == 11 {
        'b'
    } else if n == 12 {
        'c'
    } else if n == 13 {
        'd'
    } else if n == 14 {
        'e'
    } else {
        'f'
    }
}

/// The eight lowercase hexadecimal digits of a 32-bit value, most
/// significant first, leading zeroes kept.
pub open spec fn spec_hex8(x: u32) -> Seq<char> {
    seq![
        spec_hex_digit((((x >> 28) & 0xf)) as int),
        spec_hex_digit((((x >> 24) & 0xf)) as int),
        spec_hex_digit((((x >> 20) & 0xf)) as int),
        spec_hex_digit((((x >> 16) & 0xf)) as int),
        spec_hex_digit((((x >> 12) & 0xf)) as int),
        spec_hex_digit((((x >> 8) & 0xf)) as int),
        spec_hex_digit((((x >> 4) & 0xf)) as int),
        spec_hex_digit((x & 0xf) as int),
    ]
}

/// The export name of the action with the given selector.
pub open spec fn spec_action_name(selector: u32) -> Seq<char> {
    seq!['a', 'c', 't', 'i', 'o', 'n', '_'] + spec_hex8(selector)
}

/// Every 4-bit slice of a 32-bit value is below sixteen.
pub proof fn lemma_nibbles_bounded(x: u32)
    ensures
        (x >> 28) & 0xf < 16,
        (x >> 24) & 0xf < 16,
        (x >> 20) & 0xf < 16,
        (x >> 16) & 0xf < 16,
        (x >> 12) & 0xf < 16,
        (x >> 8) & 0xf < 16,
        (x >> 4) & 0xf < 16,
        x & 0xf < 16,
{
    assert((x >> 28) & 0xf < 16 && (x >> 24) & 0xf < 16 && (x >> 20) & 0xf < 16 && (x >> 16) & 0xf
        < 16 && (x >> 12) & 0xf < 16 && (x >> 8) & 0xf < 16 && (x >> 4) & 0xf < 16 && x & 0xf
        < 16) by (bit_vector);
}

/// The lowercase hexadecimal digit of a value below sixteen, as text.
fn hex_digit_str(n: u32) -> (r: &'static str)
    requires
        n < 16,
    ensures
        r@ == seq![spec_hex_digit(n as int)],
{
    if n == 0 {
        proof {
            reveal_strlit("0");
            assert("0"@ =~= seq!['0']);
        }
        "0"
    } else if n == 1 {
        proof {
            reveal_strlit("1");
            assert("1"@ =~= seq!['1']);
        }
        "1"
    } else if n == 2 {
        proof {
            reveal_strlit("2");
            assert("2"@ =~= seq!['2']);
        }
        "2"
    } else if n == 3 {
        proof {
            reveal_strlit("3");
            assert("3"@ =~= seq!['3']);
        }
        "3"
    } else if n == 4 {
        proof {
            reveal_strlit("4");
            assert("4"@ =~= seq!['4']);
        }
        "4"
    } else if n == 5 {
        proof {
            reveal_strlit("5");
            assert("5"@ =~= seq!['5']);
        }
        "5"
    } else if n == 6 {
        proof {
            reveal_strlit("6");
            assert("6"@ =~= seq!['6']);
        }
        "6"
    } else if n == 7 {
        proof {
            reveal_strlit("7");
            assert("7"@ =~= seq!['7']);
        }
        "7"
    } else if n == 8 {
        proof {
            reveal_strlit("8");
            assert("8"@ =~= seq!['8']);
        }
        "8"
    } else if n == 9 {
        proof {
            reveal_strlit("9");
            assert("9"@ =~= seq!['9']);
        }
        "9"
    } else if n == 10 {
        proof {
            reveal_strlit("a");
            assert("a"@ =~= seq!['a']);
        }
        "a"
    } else if n == 11 {
        proof {
            reveal_strlit("b");
            assert("b"@ =~= seq!['b']);
        }
        "b"
    } else if n == 12 {
        proof {
            reveal_strlit("c");
            assert("c"@ =~= seq!['c']);
        }
        "c"
    } else if n == 13 {
        proof {
            reveal_strlit("d");
            assert("d"@ =~= seq!['d']);
        }
        "d"
    } else if n == 14 {
        proof {
            reveal_strlit("e");
            assert("e"@ =~= seq!['e']);
        }
        "e"
    } else {
        proof {
            reveal_strlit("f");
            assert("f"@ =~= seq!['f']);
        }
        "f"
    }
}

/// Format the export name of the action with the given selector: `action_`
/// followed by exactly eight lowercase hexadecimal digits.
pub fn create_action_name(selector: u32) -> (r: String)
    ensures
        r@ == spec_action_name(selector),
{
    proof {
        lemma_nibbles_bounded(selector);
    }
    let mut name = <String as vstd::string::StringExecFns>::from_str("action_");
    proof {
        reveal_strlit("action_");
        assert(name@ =~= seq!['a', 'c', 't', 'i', 'o', 'n', '_']);
    }
    <String as vstd::string::StringExecFns>::append(&mut name, hex_digit_str((selector >> 28) & 0xf));
    <String as vstd::string::StringExecFns>::append(&mut name, hex_digit_str((selector >> 24) & 0xf));
    <String as vstd::string::StringExecFns>::append(&mut name, hex_digit_str((selector >> 20) & 0xf));
    <String as vstd::string::StringExecFns>::append(&mut name, hex_digit_str((selector >> 16) & 0xf));
    <String as vstd::string::StringExecFns>::append(&mut name, hex_digit_str((selector >> 12) & 0xf));
    <String as vstd::string::StringExecFns>::append(&mut name, hex_digit_str((selector >> 8) & 0xf));
    <String as vstd::string::StringExecFns>::append(&mut name, hex_digit_str((selector >> 4) & 0xf));
    <String as vstd::string::StringExecFns>::append(&mut name, hex_digit_str(selector & 0xf));
    proof {
        assert(name@ =~= spec_action_name(selector));
    }
    name
}

} // verus!
