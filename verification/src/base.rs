//! The per-transaction dispatcher's decisions, and the small helpers around
//! the host boundary: which export a payload routes to, which bytes it is
//! handed, and what a diagnostic message looks like to the host's sink.
//!
//! The host calls themselves — copying the payload in, invoking an export by
//! name, writing a log line — live outside this library; everything here is
//! plain values in, plain values out.

use vstd::prelude::*;

use crate::DecodeError;
use crate::intbytes::spec_u32_from_be_bytes;
use crate::selector::create_action_name;
use crate::selector::spec_action_name;
use crate::serialization::Cursor;
use crate::serialization::ReadInt;

verus! {

/// The raw bytes a diagnostic message hands to the host's logging sink: the
/// UTF-8 form of the text, unframed.
pub fn info(string: String) -> (r: Vec<u8>)
    ensures
        r@ == vstd::utf8::encode_utf8(string@),
{
    vstd::string::StrSliceExecFns::as_bytes_vec(string.as_str())
}

/// Strip the four selector bytes off the front of a payload, leaving the
/// call's argument bytes.
pub fn remove_function_name_hash(vec: Vec<u8>) -> (r: Vec<u8>)
    requires
        vec@.len() >= 4,
    ensures
        r@ == vec@.skip(4),
{
    let mut vec = vec;
    vec.split_off(4)
}

/// One routed transaction: the export to ask the host for, and the argument
/// bytes to hand it.
pub struct DispatchPlan {
    /// The export's name: `action_` plus the selector's eight hex digits.
    pub export_name: String,
    /// The payload with its selector stripped.
    pub argument: Vec<u8>,
}

/// Route one transaction's payload: read its first 4 bytes as a big-endian
/// selector, format the matching export name by the same rule the build
/// uses, and keep exactly the remaining bytes as the call's argument.
pub fn prepare_dispatch(rpc: Vec<u8>) -> (r: Result<DispatchPlan, DecodeError>)
    ensures
        match r {
            Ok(p) => {
                &&& rpc@.len() >= 4
                &&& p.export_name@ == spec_action_name(spec_u32_from_be_bytes(rpc@.take(4)))
                &&& p.argument@ == rpc@.skip(4)
            },
            Err(e) => rpc@.len() < 4 && e == DecodeError::Truncated,
        },
{
    if rpc.len() < 4 {
        return Err(DecodeError::Truncated);
    }
    let mut reader = Cursor::new(rpc);
    let selector = reader.read_u32_be();
    proof {
        assert(reader.stream().subrange(0, 4) =~= reader.stream().take(4));
    }
    let buf = reader.data;
    let argument = remove_function_name_hash(buf);
    let export_name = create_action_name(selector);
    Ok(DispatchPlan { export_name, argument })
}

} // verus!
