//! Entry-point descriptions and the calling convention around them: which
//! parameter types a declared entry point may use, which decode rule each
//! one stands for, how an entry point's export is named, the build-time
//! check that no two entry points share a selector, and the packed result
//! word every boundary export returns.

use vstd::prelude::*;

use crate::DecodeError;
use crate::address::Address;
use crate::address::AddressView;
use crate::address::spec_dec_address;
use crate::context::spec_dec_i64;
use crate::intbytes::spec_i32_from_be_bytes;
use crate::intbytes::spec_i64_from_be_bytes;
use crate::intbytes::spec_u32_from_be_bytes;
use crate::intbytes::spec_u64_from_be_bytes;
use crate::selector::create_action_name;
use crate::selector::hash_identifier;
use crate::selector::spec_action_name;
use crate::selector::spec_selector;
use crate::serialization::Cursor;
use crate::serialization::ReadInt;
use crate::serialization::ReadWrite;

verus! {

broadcast use vstd::string::group_string_axioms;

/// The parameter types the wrapper generator has an encoding rule for. An
/// entry point declaring anything else cannot be exported and must fail the
/// build.
#[derive(Clone, Copy, Debug, PartialEq, Eq, Structural)]
pub enum ParamType {
    U64,
    I64,
    I32,
    Address,
    Hash,
    Bytes,
    Text,
}

/// A decoded explicit parameter.
#[derive(Debug)]
pub enum ParamValue {
    U64(u64),
    I64(i64),
    I32(i32),
    Address(Address),
    Hash(crate::hash::Hash),
    Bytes(Vec<u8>),
    Text(String),
}

/// The abstract value of a [`ParamValue`].
pub enum ParamValueView {
    U64(u64),
    I64(i64),
    I32(i32),
    Address(AddressView),
    Hash(Seq<u8>),
    Bytes(Seq<u8>),
    Text(Seq<char>),
}

impl DeepView for ParamValue {
    type V = ParamValueView;

    open spec fn deep_view(&self) -> ParamValueView {
        match self {
            ParamValue::U64(v) => ParamValueView::U64(*v),
            ParamValue::I64(v) => ParamValueView::I64(*v),
            ParamValue::I32(v) => ParamValueView::I32(*v),
            ParamValue::Address(v) => ParamValueView::Address(v.deep_view()),
            ParamValue::Hash(v) => ParamValueView::Hash(v.deep_view()),
            ParamValue::Bytes(v) => ParamValueView::Bytes(v@),
            ParamValue::Text(v) => ParamValueView::Text(v@),
        }
    }
}

/// What decoding one declared parameter reads off the front of a stream.
pub open spec fn spec_dec_param(ty: ParamType, s: Seq<u8>) -> Result<
    (ParamValueView, int),
    DecodeError,
> {
    match ty {
        ParamType::U64 => if s.len() >= 8 {
            Ok((ParamValueView::U64(spec_u64_from_be_bytes(s.take(8))), 8))
        } else {
            Err(DecodeError::Truncated)
        },
        ParamType::I64 => if s.len() >= 8 {
            Ok((ParamValueView::I64(spec_i64_from_be_bytes(s.take(8))), 8))
        } else {
            Err(DecodeError::Truncated)
        },
        ParamType::I32 => if s.len() >= 4 {
            Ok((ParamValueView::I32(spec_i32_from_be_bytes(s.take(4))), 4))
        } else {
            Err(DecodeError::Truncated)
        },
        ParamType::Address => match spec_dec_address(s) {
            Err(e) => Err(e),
            Ok((a, n)) => Ok((ParamValueView::Address(a), n)),
        },
        ParamType::Hash => match crate::hash::spec_dec_hash(s) {
            Err(e) => Err(e),
            Ok((h, n)) => Ok((ParamValueView::Hash(h), n)),
        },
        ParamType::Bytes => if s.len() < 4 {
            Err(DecodeError::Truncated)
        } else {
            let n = spec_u32_from_be_bytes(s.take(4)) as int;
            if s.len() < 4 + n {
                Err(DecodeError::Truncated)
            } else {
                Ok((ParamValueView::Bytes(s.subrange(4, 4 + n)), 4 + n))
            }
        },
        ParamType::Text => if s.len() < 4 {
            Err(DecodeError::Truncated)
        } else {
            let n = spec_u32_from_be_bytes(s.take(4)) as int;
            if s.len() < 4 + n {
                Err(DecodeError::Truncated)
            } else if !vstd::utf8::valid_utf8(s.subrange(4, 4 + n)) {
                Err(DecodeError::InvalidUtf8)
            } else {
                Ok((ParamValueView::Text(vstd::utf8::decode_utf8(s.subrange(4, 4 + n))), 4 + n))
            }
        },
    }
}

/// Decode one declared parameter: the runtime form of the rule the wrapper
/// generator instantiates for each parameter type.
pub fn decode_param(reader: &mut Cursor, ty: ParamType) -> (r: Result<ParamValue, DecodeError>)
    requires
        old(reader).wf(),
    ensures
        final(reader).wf(),
        final(reader).stream() == old(reader).stream(),
        match spec_dec_param(ty, old(reader).remaining()) {
            Ok((m, n)) => {
                &&& r matches Ok(v)
                &&& v.deep_view() == m
                &&& final(reader).offset() == old(reader).offset() + n
            },
            Err(e) => r matches Err(e2) && e2 == e,
        },
{
    match ty {
        ParamType::U64 => {
            if reader.remaining_len() < 8 {
                return Err(DecodeError::Truncated);
            }
            let v = reader.read_u64_be();
            proof {
                assert(old(reader).stream().subrange(
                    old(reader).offset(),
                    old(reader).offset() + 8,
                ) =~= old(reader).remaining().take(8));
            }
            Ok(ParamValue::U64(v))
        },
        ParamType::I64 => {
            if reader.remaining_len() < 8 {
                return Err(DecodeError::Truncated);
            }
            let v = reader.read_i64_be();
            proof {
                assert(old(reader).stream().subrange(
                    old(reader).offset(),
                    old(reader).offset() + 8,
                ) =~= old(reader).remaining().take(8));
            }
            Ok(ParamValue::I64(v))
        },
        ParamType::I32 => {
            if reader.remaining_len() < 4 {
                return Err(DecodeError::Truncated);
            }
            let v = reader.read_i32_be();
            proof {
                assert(old(reader).stream().subrange(
                    old(reader).offset(),
                    old(reader).offset() + 4,
                ) =~= old(reader).remaining().take(4));
            }
            Ok(ParamValue::I32(v))
        },
        ParamType::Address => {
            match Address::read_from(reader) {
                Err(e) => Err(e),
                Ok(a) => Ok(ParamValue::Address(a)),
            }
        },
        ParamType::Hash => {
            match crate::hash::Hash::read_from(reader) {
                Err(e) => Err(e),
                Ok(h) => Ok(ParamValue::Hash(h)),
            }
        },
        ParamType::Bytes => {
            match Vec::<u8>::read_from(reader) {
                Err(e) => Err(e),
                Ok(b) => {
                    proof {
                        assert(b.deep_view() =~= b@);
                    }
                    Ok(ParamValue::Bytes(b))
                },
            }
        },
        ParamType::Text => {
            match String::read_from(reader) {
                Err(e) => Err(e),
                Ok(t) => Ok(ParamValue::Text(t)),
            }
        },
    }
}

/// The parameter type a declared type name selects, if the generator knows
/// one. `None` marks an unsupported entry shape, which must fail the build.
pub open spec fn spec_parse_param_type(name: Seq<char>) -> Option<ParamType> {
    if name == seq!['u', '6', '4'] {
        Option::Some(ParamType::U64)
    } else if name == seq!['i', '6', '4'] {
        Option::Some(ParamType::I64)
    } else if name == seq!['i', '3', '2'] {
        Option::Some(ParamType::I32)
    } else if name == seq!['A', 'd', 'd', 'r', 'e', 's', 's'] {
        Option::Some(ParamType::Address)
    } else if name == seq!['H', 'a', 's', 'h'] {
        Option::Some(ParamType::Hash)
    } else if name == seq!['V', 'e', 'c', '<', 'u', '8', '>'] {
        Option::Some(ParamType::Bytes)
    } else if name == seq!['S', 't', 'r', 'i', 'n', 'g'] {
        Option::Some(ParamType::Text)
    } else {
        Option::None
    }
}

/// Whether two strings hold the same characters.
fn str_eq(a: &str, b: &str) -> (r: bool)
    ensures
        r == (a@ == b@),
{
    let ab = a.as_bytes();
    let bb = b.as_bytes();
    proof {
        vstd::utf8::encode_utf8_decode_utf8(a@);
        vstd::utf8::encode_utf8_decode_utf8(b@);
    }
    if ab.len() != bb.len() {
        proof {
            assert(a@ != b@);
        }
        return false;
    }
    let mut i: usize = 0;
    while i < ab.len()
        invariant
            i <= ab@.len(),
            ab@.len() == bb@.len(),
            ab@ == vstd::utf8::encode_utf8(a@),
            bb@ == vstd::utf8::encode_utf8(b@),
            vstd::utf8::decode_utf8(vstd::utf8::encode_utf8(a@)) == a@,
            vstd::utf8::decode_utf8(vstd::utf8::encode_utf8(b@)) == b@,
            forall|j: int| 0 <= j < i ==> ab@[j] == bb@[j],
        decreases ab@.len() - i,
    {
        if ab[i] != bb[i] {
            proof {
                assert(ab@ != bb@);
            }
            return false;
        }
        i = i + 1;
    }
    proof {
        assert(ab@ =~= bb@);
    }
    true
}

/// Resolve a declared parameter type name to its decode rule.
pub fn parse_param_type(name: &str) -> (r: Option<ParamType>)
    ensures
        r == spec_parse_param_type(name@),
{
    proof {
        reveal_strlit("u64");
        assert("u64"@ =~= seq!['u', '6', '4']);
        reveal_strlit("i64");
        assert("i64"@ =~= seq!['i', '6', '4']);
        reveal_strlit("i32");
        assert("i32"@ =~= seq!['i', '3', '2']);
        reveal_strlit("Address");
        assert("Address"@ =~= seq!['A', 'd', 'd', 'r', 'e', 's', 's']);
        reveal_strlit("Hash");
        assert("Hash"@ =~= seq!['H', 'a', 's', 'h']);
        reveal_strlit("Vec<u8>");
        assert("Vec<u8>"@ =~= seq!['V', 'e', 'c', '<', 'u', '8', '>']);
        reveal_strlit("String");
        assert("String"@ =~= seq!['S', 't', 'r', 'i', 'n', 'g']);
    }
    if str_eq(name, "u64") {
        Some(ParamType::U64)
    } else if str_eq(name, "i64") {
        Some(ParamType::I64)
    } else if str_eq(name, "i32") {
        Some(ParamType::I32)
    } else if str_eq(name, "Address") {
        Some(ParamType::Address)
    } else if str_eq(name, "Hash") {
        Some(ParamType::Hash)
    } else if str_eq(name, "Vec<u8>") {
        Some(ParamType::Bytes)
    } else if str_eq(name, "String") {
        Some(ParamType::Text)
    } else {
        None
    }
}

/// Whether an entry point is the designated initializer or an action.
#[derive(Clone, Copy, Debug, PartialEq, Eq, Structural)]
pub enum EntryKind {
    Init,
    Action,
}

/// One declared entry point: its kind, its name as the contract author
/// wrote it, and its explicit parameters in declaration order.
#[derive(Debug)]
pub struct EntryPoint {
    pub kind: EntryKind,
    pub name: String,
    pub params: Vec<ParamType>,
}

/// The exported symbol of an entry point: the fixed name `init` for the
/// initializer, the selector-derived action name for everything else.
pub fn export_symbol(entry: &EntryPoint) -> (r: String)
    ensures
        match entry.kind {
            EntryKind::Init => r@ == seq!['i', 'n', 'i', 't'],
            EntryKind::Action => r@ == spec_action_name(spec_selector(entry.name@)),
        },
{
    match entry.kind {
        EntryKind::Init => {
            proof {
                reveal_strlit("init");
                assert("init"@ =~= seq!['i', 'n', 'i', 't']);
            }
            <String as vstd::string::StringExecFns>::from_str("init")
        },
        EntryKind::Action => {
            let selector = hash_identifier(&entry.name);
            create_action_name(selector)
        },
    }
}

/// No two declared entry points derive the same selector.
pub open spec fn spec_selectors_distinct(entries: Seq<EntryPoint>) -> bool {
    forall|i: int, j: int|
        #![trigger entries[i], entries[j]]
        0 <= i < j < entries.len() ==> spec_selector(entries[i].name@) != spec_selector(
            entries[j].name@,
        )
}

/// The build-time injectivity check over a contract's declared entry
/// points: accept the set only if every pair derives distinct selectors.
pub fn check_selectors(entries: &Vec<EntryPoint>) -> (r: bool)
    ensures
        r == spec_selectors_distinct(entries@),
{
    let mut selectors: Vec<u32> = Vec::new();
    let mut i: usize = 0;
    while i < entries.len()
        invariant
            i <= entries@.len(),
            selectors@.len() == i,
            forall|k: int|
                0 <= k < i ==> #[trigger] selectors@[k] == spec_selector(entries@[k].name@),
        decreases entries@.len() - i,
    {
        let s = hash_identifier(&entries[i].name);
        selectors.push(s);
        i = i + 1;
    }
    let mut a: usize = 0;
    while a < selectors.len()
        invariant
            a <= selectors@.len(),
            selectors@.len() == entries@.len(),
            forall|k: int|
                0 <= k < selectors@.len() ==> #[trigger] selectors@[k] == spec_selector(
                    entries@[k].name@,
                ),
            forall|i2: int, j2: int|
                #![trigger entries@[i2], entries@[j2]]
                0 <= i2 < j2 < entries@.len() && i2 < a ==> spec_selector(entries@[i2].name@)
                    != spec_selector(entries@[j2].name@),
        decreases selectors@.len() - a,
    {
        let mut b: usize = a + 1;
        while b < selectors.len()
            invariant
                a < b || b == a + 1,
                a + 1 <= b <= selectors@.len(),
                selectors@.len() == entries@.len(),
                forall|k: int|
                    0 <= k < selectors@.len() ==> #[trigger] selectors@[k] == spec_selector(
                        entries@[k].name@,
                    ),
                forall|j2: int|
                    #![trigger entries@[j2]]
                    a < j2 < b ==> spec_selector(entries@[a as int].name@) != spec_selector(
                        entries@[j2].name@,
                    ),
            decreases selectors@.len() - b,
        {
            if selectors[a] == selectors[b] {
                return false;
            }
            b = b + 1;
        }
        a = a + 1;
    }
    true
}

/// The packed word a boundary export returns: the output's byte length in
/// the high half, its address in the low half.
pub open spec fn spec_pack_result(length: u32, address: u32) -> u64 {
    ((length as u64) << 32) | (address as u64)
}

/// The two halves of a packed result word.
pub open spec fn spec_unpack_result(packed: u64) -> (u32, u32) {
    (((packed >> 32) & 0xffff_ffff) as u32, (packed & 0xffff_ffff) as u32)
}

/// Packing then unpacking gives back exactly the original pair, for every
/// length and every address.
pub proof fn lemma_pack_unpack_inverse(length: u32, address: u32)
    ensures
        spec_unpack_result(spec_pack_result(length, address)) == (length, address),
{
    assert(((((((length as u64) << 32) | (address as u64)) >> 32) & 0xffff_ffff) as u32) == length
        && (((((length as u64) << 32) | (address as u64)) & 0xffff_ffff) as u32)
        == address) by (bit_vector);
}

/// Pack an output buffer's length and address into the single word the
/// host receives.
pub fn pack_result(length: u32, address: u32) -> (r: u64)
    ensures
        r == spec_pack_result(length, address),
{
    ((length as u64) << 32) | (address as u64)
}

/// Split a packed result word back into the length and address halves.
pub fn unpack_result(packed: u64) -> (r: (u32, u32))
    ensures
        r == spec_unpack_result(packed),
{
    proof {
        assert((packed >> 32) & 0xffff_ffff < 0x1_0000_0000 && packed & 0xffff_ffff
            < 0x1_0000_0000) by (bit_vector);
    }
    (((packed >> 32) & 0xffff_ffff) as u32, (packed & 0xffff_ffff) as u32)
}

} // verus!
