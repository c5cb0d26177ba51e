//! Multicall aggregation: an ordered batch of call descriptors becomes
//! one request of `(target, payload)` pairs; the aggregated response is
//! split back into per-call payloads and decoded in the original order.
//! Order is the only correlation key between calls and results, so
//! every step here preserves it exactly.
//!
//! Sending the request is the transport's business, outside this
//! library: a dispatch is one transport round trip followed by
//! [`check_response`] on the `(success, returnData)` entries the
//! multicall helper contract returned.

use vstd::prelude::*;

use crate::abi::{
    AbiValue, AbiValueView, DecodingError, EncodingError, args_fit, clone_bytes, decode,
    decode_err_ok, decode_ok, decoded_values, encode, encode_spec, value_fits, views,
};
use crate::calls::CallDescriptor;

verus! {

/// One entry of an aggregated request: a target contract address and
/// the encoded call payload for it.
#[derive(Clone, Debug, PartialEq, Eq)]
pub struct RequestEntry {
    pub target: Vec<u8>,
    pub payload: Vec<u8>,
}

/// An aggregated request: one `(target, payload)` pair per submitted
/// call, in submission order.
#[derive(Clone, Debug, PartialEq, Eq)]
pub struct AggregatedRequest {
    pub entries: Vec<RequestEntry>,
}

/// One entry of the multicall helper contract's answer: whether the
/// individual call succeeded, and its raw return bytes.
#[derive(Clone, Debug, PartialEq, Eq)]
pub struct ResponseEntry {
    pub success: bool,
    pub data: Vec<u8>,
}

/// The aggregated contract behaved unexpectedly.
#[derive(Clone, Copy, Debug, PartialEq, Eq, Structural)]
pub enum ProtocolError {
    /// The response holds a different number of entries than the
    /// request had calls.
    LengthMismatch { expected: usize, got: usize },
    /// The individual call at the zero-based `index` failed; per-call
    /// failure is not tolerated.
    CallFailed { index: usize },
}

/// An aggregated round trip failed, with enough context to diagnose
/// the offending call without re-running.
#[derive(Clone, Debug, PartialEq, Eq)]
pub enum MulticallError {
    /// The call at `index` could not be encoded. Unreachable for
    /// descriptors validated at construction.
    Encoding { index: usize, source: EncodingError },
    /// The aggregated response as a whole was malformed.
    Protocol(ProtocolError),
    /// The entry at `index`, for the call named `name`, does not
    /// decode against its declared return types.
    Decoding { index: usize, name: Vec<u8>, source: DecodingError },
}

/// A descriptor's arguments fit its declared parameter types.
pub open spec fn call_args_fit(c: CallDescriptor) -> bool {
    args_fit(c.signature.parameter_types@, views(c.arguments@))
}

/// The encoded payload of one call: its selector followed by its
/// argument words.
pub open spec fn call_payload(c: CallDescriptor) -> Seq<u8> {
    encode_spec(c.signature.name@, c.signature.parameter_types@, views(c.arguments@))
}

/// A per-call response payload decodes against the call's declared
/// return types.
pub open spec fn call_decode_ok(c: CallDescriptor, data: Seq<u8>) -> bool {
    decode_ok(c.signature.return_types@, data)
}

/// The typed values one call's response payload decodes to.
pub open spec fn call_decoded(c: CallDescriptor, data: Seq<u8>) -> Seq<AbiValueView> {
    decoded_values(c.signature.return_types@, data)
}

/// Encodes an ordered sequence of calls into one aggregated request:
/// for each call in order, its target paired with its encoded payload.
/// The output order is exactly the input order — it is the only
/// correlation key back to the results, and is never re-sorted or
/// deduplicated.
///
/// Succeeds exactly when every call's arguments fit its declared
/// parameter types, which a descriptor validated by
/// [`CallDescriptor::new`] guarantees; a refusal names the first
/// offending call.
pub fn build_request(calls: &Vec<CallDescriptor>) -> (r: Result<AggregatedRequest, MulticallError>)
    ensures
        r is Ok <==> forall|i: int| 0 <= i < calls@.len() ==> call_args_fit(calls@[i]),
        r matches Ok(req) ==> {
            &&& req.entries@.len() == calls@.len()
            &&& forall|i: int|
                0 <= i < calls@.len() ==> (#[trigger] req.entries@[i]).target@
                    == calls@[i].target@
            &&& forall|i: int|
                0 <= i < calls@.len() ==> (#[trigger] req.entries@[i]).payload@ == call_payload(
                    calls@[i],
                )
            &&& forall|i: int|
                0 <= i < calls@.len() ==> (#[trigger] req.entries@[i]).payload@.len() == 4 + 32
                    * calls@[i].arguments@.len()
        },
        r matches Err(MulticallError::Encoding { index, source }) ==> {
            &&& index < calls@.len()
            &&& !call_args_fit(calls@[index as int])
            &&& forall|j: int| 0 <= j < index ==> call_args_fit(calls@[j])
            &&& encoding_err_ok(calls@[index as int], source)
        },
        r matches Err(e) ==> e matches MulticallError::Encoding { .. },
{
    let mut entries: Vec<RequestEntry> = Vec::new();
    let mut k: usize = 0;
    while k < calls.len()
        invariant
            k <= calls@.len(),
            entries@.len() == k,
            forall|j: int| 0 <= j < k ==> call_args_fit(calls@[j]),
            forall|j: int|
                0 <= j < k ==> (#[trigger] entries@[j]).target@ == calls@[j].target@,
            forall|j: int|
                0 <= j < k ==> (#[trigger] entries@[j]).payload@ == call_payload(calls@[j]),
            forall|j: int|
                0 <= j < k ==> (#[trigger] entries@[j]).payload@.len() == 4 + 32
                    * calls@[j].arguments@.len(),
        decreases calls@.len() - k,
    {
        let c = &calls[k];
        match encode(&c.signature, &c.arguments) {
            Ok(payload) => {
                let target = clone_bytes(&c.target);
                entries.push(RequestEntry { target, payload });
            },
            Err(source) => {
                return Err(MulticallError::Encoding { index: k, source });
            },
        }
        k += 1;
    }
    Ok(AggregatedRequest { entries })
}

/// The encoding error `encode` refuses a call's arguments with.
pub open spec fn encoding_err_ok(c: CallDescriptor, e: EncodingError) -> bool {
    let params = c.signature.parameter_types@;
    let vals = views(c.arguments@);
    match e {
        EncodingError::Arity { expected, got } => {
            &&& expected == params.len()
            &&& got == vals.len()
            &&& vals.len() != params.len()
        },
        EncodingError::TypeMismatch { index } => {
            &&& vals.len() == params.len()
            &&& index < params.len()
            &&& !value_fits(vals[index as int], params[index as int])
            &&& forall|j: int| 0 <= j < index ==> value_fits(vals[j], params[j])
        },
    }
}

/// Checks the multicall helper contract's answer against the number of
/// submitted calls and the all-or-nothing failure policy, and hands
/// back the per-call payloads in order. A dispatch is the transport's
/// round trip followed by this check; a response is either consumed
/// whole or refused whole, never partially.
///
/// Succeeds exactly when the answer has one entry per call and every
/// entry's `success` flag is set; otherwise the length mismatch, or
/// the first failing call's zero-based index, is named.
pub fn check_response(expected_calls: usize, entries: Vec<ResponseEntry>) -> (r: Result<
    Vec<Vec<u8>>,
    ProtocolError,
>)
    ensures
        r is Ok <==> entries@.len() == expected_calls && (forall|i: int|
            0 <= i < entries@.len() ==> (#[trigger] entries@[i]).success),
        r matches Ok(datas) ==> {
            &&& datas@.len() == entries@.len()
            &&& forall|i: int|
                0 <= i < entries@.len() ==> (#[trigger] datas@[i])@ == entries@[i].data@
        },
        r matches Err(ProtocolError::LengthMismatch { expected, got }) ==> {
            &&& expected == expected_calls
            &&& got == entries@.len()
            &&& entries@.len() != expected_calls
        },
        r matches Err(ProtocolError::CallFailed { index }) ==> {
            &&& entries@.len() == expected_calls
            &&& index < entries@.len()
            &&& !entries@[index as int].success
            &&& forall|j: int| 0 <= j < index ==> (#[trigger] entries@[j]).success
        },
{
    if entries.len() != expected_calls {
        return Err(ProtocolError::LengthMismatch { expected: expected_calls, got: entries.len() });
    }
    let mut k: usize = 0;
    while k < entries.len()
        invariant
            k <= entries@.len(),
            entries@.len() == expected_calls,
            forall|j: int| 0 <= j < k ==> (#[trigger] entries@[j]).success,
        decreases entries@.len() - k,
    {
        if !entries[k].success {
            return Err(ProtocolError::CallFailed { index: k });
        }
        k += 1;
    }
    let mut datas: Vec<Vec<u8>> = Vec::new();
    let mut i: usize = 0;
    while i < entries.len()
        invariant
            i <= entries@.len(),
            datas@.len() == i,
            forall|j: int| 0 <= j < i ==> (#[trigger] datas@[j])@ == entries@[j].data@,
        decreases entries@.len() - i,
    {
        let d = clone_bytes(&entries[i].data);
        datas.push(d);
        i += 1;
    }
    Ok(datas)
}

/// Decodes an aggregated response: zips each call's declared return
/// types with the payload at the same position and decodes it, keeping
/// the results positionally aligned to the submitted call order.
///
/// Succeeds exactly when the response has one payload per call and
/// every payload decodes against its call's return types; a refusal
/// names the first offending call by index and function name, or the
/// length mismatch found before any decoding.
pub fn decode_results(calls: &Vec<CallDescriptor>, response: &Vec<Vec<u8>>) -> (r: Result<
    Vec<Vec<AbiValue>>,
    MulticallError,
>)
    ensures
        r is Ok <==> response@.len() == calls@.len() && (forall|i: int|
            0 <= i < calls@.len() ==> call_decode_ok(calls@[i], (#[trigger] response@[i])@)),
        r matches Ok(results) ==> {
            &&& results@.len() == calls@.len()
            &&& forall|i: int|
                0 <= i < calls@.len() ==> views((#[trigger] results@[i])@) == call_decoded(
                    calls@[i],
                    response@[i]@,
                )
        },
        r matches Err(MulticallError::Protocol(p)) ==> {
            &&& p matches ProtocolError::LengthMismatch { expected, got }
            &&& p->LengthMismatch_expected == calls@.len()
            &&& p->LengthMismatch_got == response@.len()
            &&& response@.len() != calls@.len()
        },
        r matches Err(MulticallError::Decoding { index, name, source }) ==> {
            &&& response@.len() == calls@.len()
            &&& index < calls@.len()
            &&& name@ == calls@[index as int].signature.name@
            &&& !call_decode_ok(calls@[index as int], response@[index as int]@)
            &&& forall|j: int|
                0 <= j < index ==> call_decode_ok(calls@[j], (#[trigger] response@[j])@)
            &&& decode_err_ok(
                calls@[index as int].signature.return_types@,
                response@[index as int]@,
                source,
            )
        },
        r matches Err(e) ==> !(e matches MulticallError::Encoding { .. }),
{
    if response.len() != calls.len() {
        return Err(
            MulticallError::Protocol(
                ProtocolError::LengthMismatch { expected: calls.len(), got: response.len() },
            ),
        );
    }
    let mut results: Vec<Vec<AbiValue>> = Vec::new();
    let mut k: usize = 0;
    while k < calls.len()
        invariant
            k <= calls@.len(),
            response@.len() == calls@.len(),
            results@.len() == k,
            forall|j: int|
                0 <= j < k ==> call_decode_ok(calls@[j], (#[trigger] response@[j])@),
            forall|j: int|
                0 <= j < k ==> views((#[trigger] results@[j])@) == call_decoded(
                    calls@[j],
                    response@[j]@,
                ),
        decreases calls@.len() - k,
    {
        match decode(&calls[k].signature.return_types, &response[k]) {
            Ok(vals) => {
                results.push(vals);
            },
            Err(source) => {
                let name = clone_bytes(&calls[k].signature.name);
                return Err(MulticallError::Decoding { index: k, name, source });
            },
        }
        k += 1;
    }
    Ok(results)
}

/// Order preservation: permuting a call set, with the response entries
/// permuted the same way, permutes the decoded results the same way —
/// each result stays positionally aligned to its own call, never to a
/// canonicalized order.
pub proof fn lemma_order_preservation(
    calls1: Seq<CallDescriptor>,
    response1: Seq<Seq<u8>>,
    calls2: Seq<CallDescriptor>,
    response2: Seq<Seq<u8>>,
    perm: Seq<int>,
)
    requires
        calls1.len() == response1.len(),
        calls2.len() == calls1.len(),
        response2.len() == response1.len(),
        perm.len() == calls1.len(),
        forall|i: int| 0 <= i < perm.len() ==> 0 <= #[trigger] perm[i] < perm.len(),
        forall|i: int, j: int|
            0 <= i < perm.len() && 0 <= j < perm.len() && i != j ==> perm[i] != perm[j],
        forall|i: int| 0 <= i < perm.len() ==> calls2[i] == calls1[#[trigger] perm[i]],
        forall|i: int| 0 <= i < perm.len() ==> response2[i] == response1[#[trigger] perm[i]],
    ensures
        forall|i: int|
            0 <= i < perm.len() ==> call_decoded(calls2[i], response2[i]) == call_decoded(
                calls1[#[trigger] perm[i]],
                response1[perm[i]],
            ),
        forall|i: int|
            0 <= i < perm.len() ==> (call_decode_ok(calls2[i], response2[i]) <==> call_decode_ok(
                calls1[#[trigger] perm[i]],
                response1[perm[i]],
            )),
{
}

} // verus!
