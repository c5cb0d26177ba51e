//! Wire format of the multicall helper contract: one aggregated
//! request becomes the calldata of `aggregate3((address,bool,bytes)[])`
//! — a dynamic array of `{target, allowFailure, callData}` structures —
//! and the helper's answer, a dynamic array of `{success, returnData}`
//! structures, is split back into per-call entries.
//!
//! The helper is asked to tolerate per-call failure on the wire
//! (`allowFailure = true`), so a failing call comes back as a
//! `success = false` entry; the all-or-nothing policy is enforced by
//! [`crate::multicall::check_response`] instead.

use vstd::prelude::*;

use crate::abi::keccak_of;
use crate::multicall::{AggregatedRequest, RequestEntry, ResponseEntry};

verus! {

/// The `k`-byte big-endian encoding of `n` (modulo `256^k`), most
/// significant byte first.
pub open spec fn be_bytes(n: nat, k: nat) -> Seq<u8>
    decreases k,
{
    if k == 0 {
        Seq::empty()
    } else {
        be_bytes(n / 256, (k - 1) as nat) + seq![(n % 256) as u8]
    }
}

/// How many zero bytes right-pad a `bytes` value of length `l` to a
/// whole number of 32-byte words.
pub open spec fn pad_gap(l: nat) -> nat {
    (((32 - l % 32) % 32) as nat)
}

/// A `bytes` value right-padded with zeros to a whole number of
/// 32-byte words.
pub open spec fn zero_pad(d: Seq<u8>) -> Seq<u8> {
    d + Seq::new(pad_gap(d.len()), |i: int| 0u8)
}

/// A boolean as a 32-byte word: zero, or one.
pub open spec fn bool_word(b: bool) -> Seq<u8> {
    be_bytes(if b { 1nat } else { 0nat }, 32)
}

/// The canonical signature string of the multicall helper's entry
/// point: `aggregate3((address,bool,bytes)[])`.
pub open spec fn aggregate3_signature() -> Seq<u8> {
    seq![
        97u8, 103u8, 103u8, 114u8, 101u8, 103u8, 97u8, 116u8, 101u8, 51u8, 40u8, 40u8, 97u8,
        100u8, 100u8, 114u8, 101u8, 115u8, 115u8, 44u8, 98u8, 111u8, 111u8, 108u8, 44u8, 98u8,
        121u8, 116u8, 101u8, 115u8, 41u8, 91u8, 93u8, 41u8,
    ]
}

/// The encoding of one `{target, allowFailure, callData}` structure:
/// the target as an address word, `allowFailure = true`, the offset of
/// the `callData` bytes within the structure (always `0x60`), then the
/// bytes' length and their padded content.
pub open spec fn call3_tail(target: Seq<u8>, payload: Seq<u8>) -> Seq<u8> {
    Seq::new(12, |i: int| 0u8) + target + bool_word(true) + be_bytes(0x60, 32) + be_bytes(
        payload.len(),
        32,
    ) + zero_pad(payload)
}

/// The byte size of one encoded `{target, allowFailure, callData}`
/// structure, for a 20-byte target.
pub open spec fn call3_tail_size(payload_len: nat) -> nat {
    128 + payload_len + pad_gap(payload_len)
}

/// The encoded structures of the first `i` request entries,
/// concatenated.
pub open spec fn request_tails_upto(entries: Seq<RequestEntry>, i: int) -> Seq<u8>
    decreases i,
{
    if i <= 0 {
        Seq::empty()
    } else {
        request_tails_upto(entries, i - 1) + call3_tail(
            entries[i - 1].target@,
            entries[i - 1].payload@,
        )
    }
}

/// The total byte size of the encoded structures of the first `i`
/// request entries.
pub open spec fn request_tails_size_upto(entries: Seq<RequestEntry>, i: int) -> nat
    decreases i,
{
    if i <= 0 {
        0
    } else {
        request_tails_size_upto(entries, i - 1) + call3_tail_size(entries[i - 1].payload@.len())
    }
}

/// The first `i` array head words: for each entry, the offset of its
/// structure from the start of the array's element area.
pub open spec fn request_heads_upto(entries: Seq<RequestEntry>, i: int) -> Seq<u8>
    decreases i,
{
    if i <= 0 {
        Seq::empty()
    } else {
        request_heads_upto(entries, i - 1) + be_bytes(
            32 * entries.len() + request_tails_size_upto(entries, i - 1),
            32,
        )
    }
}

/// The full `aggregate3` calldata for an aggregated request: the
/// 4-byte selector, the offset of the array (always `0x20`), the entry
/// count, the array head words, and the encoded structures.
pub open spec fn aggregate_calldata(entries: Seq<RequestEntry>) -> Seq<u8> {
    keccak_of(aggregate3_signature()).subrange(0, 4) + be_bytes(0x20, 32) + be_bytes(
        entries.len(),
        32,
    ) + request_heads_upto(entries, entries.len() as int) + request_tails_upto(
        entries,
        entries.len() as int,
    )
}

/// The byte size of the full `aggregate3` calldata, for 20-byte
/// targets.
pub open spec fn aggregate_calldata_size(entries: Seq<RequestEntry>) -> nat {
    68 + 32 * entries.len() + request_tails_size_upto(entries, entries.len() as int)
}

/// The structure sizes of a request prefix never shrink as the prefix
/// grows.
proof fn lemma_tails_size_monotone(entries: Seq<RequestEntry>, i: int, j: int)
    requires
        i <= j,
    ensures
        request_tails_size_upto(entries, i) <= request_tails_size_upto(entries, j),
    decreases j - i,
{
    if i < j {
        lemma_tails_size_monotone(entries, i, j - 1);
    }
}

/// A `k`-byte big-endian encoding is `k` bytes long.
pub proof fn lemma_be_len(n: nat, k: nat)
    ensures
        be_bytes(n, k).len() == k,
    decreases k,
{
    if k > 0 {
        lemma_be_len(n / 256, (k - 1) as nat);
    }
}

/// The first `i` array head words are `32 * i` bytes long.
proof fn lemma_heads_len(entries: Seq<RequestEntry>, i: int)
    ensures
        request_heads_upto(entries, i).len() == 32 * (if i <= 0 { 0int } else { i }),
    decreases i,
{
    if i > 0 {
        lemma_heads_len(entries, i - 1);
        lemma_be_len(32 * entries.len() + request_tails_size_upto(entries, i - 1), 32);
    }
}

/// Appends the `k`-byte big-endian encoding of `n`.
fn push_be(n: u64, k: usize, out: &mut Vec<u8>)
    ensures
        final(out)@ == old(out)@ + be_bytes(n as nat, k as nat),
        final(out)@.len() == old(out)@.len() + k,
    decreases k,
{
    if k > 0 {
        push_be(n / 256, k - 1, out);
        out.push((n % 256) as u8);
    }
}

/// Appends `count` zero bytes.
fn push_zeros(count: usize, out: &mut Vec<u8>)
    ensures
        final(out)@ == old(out)@ + Seq::new(count as nat, |i: int| 0u8),
{
    let mut z: usize = 0;
    while z < count
        invariant
            z <= count,
            out@ == old(out)@ + Seq::new(z as nat, |i: int| 0u8),
        decreases count - z,
    {
        out.push(0);
        z += 1;
        assert(out@ =~= old(out)@ + Seq::new(z as nat, |i: int| 0u8));
    }
}

/// Appends a byte vector.
fn push_bytes(data: &Vec<u8>, out: &mut Vec<u8>)
    ensures
        final(out)@ == old(out)@ + data@,
{
    let mut b: usize = 0;
    while b < data.len()
        invariant
            b <= data@.len(),
            out@ == old(out)@ + data@.subrange(0, b as int),
        decreases data@.len() - b,
    {
        out.push(data[b]);
        b += 1;
        assert(out@ =~= old(out)@ + data@.subrange(0, b as int));
    }
    assert(data@.subrange(0, data@.len() as int) =~= data@);
}

/// Appends a `bytes` value right-padded with zeros to a whole number
/// of 32-byte words.
fn push_padded(data: &Vec<u8>, out: &mut Vec<u8>)
    requires
        data@.len() + 32 <= usize::MAX,
    ensures
        final(out)@ == old(out)@ + zero_pad(data@),
{
    push_bytes(data, out);
    let rem: usize = data.len() % 32;
    let gap: usize = if rem == 0 {
        0
    } else {
        32 - rem
    };
    assert(gap == pad_gap(data@.len()));
    push_zeros(gap, out);
}

/// Encodes an aggregated request into the calldata of the multicall
/// helper's `aggregate3((address,bool,bytes)[])` entry point, with
/// per-call failure tolerated on the wire. Entry order is preserved
/// exactly: the helper answers positionally.
///
/// Returns the calldata whenever its total size fits the machine;
/// `None` can only mean the encoding would exceed `usize::MAX` bytes.
pub fn encode_aggregate(request: &AggregatedRequest) -> (r: Option<Vec<u8>>)
    requires
        forall|i: int|
            0 <= i < request.entries@.len() ==> (#[trigger] request.entries@[i]).target@.len()
                == 20,
    ensures
        r is None ==> aggregate_calldata_size(request.entries@) > usize::MAX,
        r matches Some(calldata) ==> {
            &&& calldata@ == aggregate_calldata(request.entries@)
            &&& calldata@.len() == aggregate_calldata_size(request.entries@)
        },
{
    let entries = &request.entries;
    let n: usize = entries.len();

    // First pass: the total size of the encoded structures, refused if
    // the whole calldata cannot fit in memory.
    let mut tails_size: u128 = 0;
    let mut j: usize = 0;
    while j < n
        invariant
            j <= n,
            n == entries@.len(),
            entries@ == request.entries@,
            tails_size == request_tails_size_upto(entries@, j as int),
            tails_size <= usize::MAX,
        decreases n - j,
    {
        let len: usize = entries[j].payload.len();
        let rem: usize = len % 32;
        let gap: usize = if rem == 0 {
            0
        } else {
            32 - rem
        };
        assert(gap == pad_gap(entries@[j as int].payload@.len()));
        let item: u128 = 128u128 + len as u128 + gap as u128;
        let next: u128 = tails_size + item;
        if next > usize::MAX as u128 {
            proof {
                lemma_tails_size_monotone(entries@, j as int + 1, entries@.len() as int);
            }
            return None;
        }
        tails_size = next;
        j += 1;
    }
    let total: u128 = 68u128 + 32u128 * n as u128 + tails_size;
    if total > usize::MAX as u128 {
        return None;
    }

    // Second pass: selector, array offset, entry count, head words.
    let sig: Vec<u8> = vec![
        97u8, 103u8, 103u8, 114u8, 101u8, 103u8, 97u8, 116u8, 101u8, 51u8, 40u8, 40u8, 97u8,
        100u8, 100u8, 114u8, 101u8, 115u8, 115u8, 44u8, 98u8, 111u8, 111u8, 108u8, 44u8, 98u8,
        121u8, 116u8, 101u8, 115u8, 41u8, 91u8, 93u8, 41u8,
    ];
    assert(sig@ =~= aggregate3_signature());
    let digest = crate::abi::keccak(&sig);
    let mut out: Vec<u8> = Vec::new();
    out.push(digest[0]);
    out.push(digest[1]);
    out.push(digest[2]);
    out.push(digest[3]);
    assert(out@ =~= keccak_of(aggregate3_signature()).subrange(0, 4));
    let ghost prefix0 = out@;
    push_be(0x20, 32, &mut out);
    push_be(n as u64, 32, &mut out);
    let ghost prefix1 = out@;
    assert(prefix1 + request_heads_upto(entries@, 0) =~= prefix1);
    let mut off: u128 = 32u128 * n as u128;
    let mut h: usize = 0;
    while h < n
        invariant
            h <= n,
            n == entries@.len(),
            entries@ == request.entries@,
            off == 32 * entries@.len() + request_tails_size_upto(entries@, h as int),
            off + 68 <= usize::MAX,
            request_tails_size_upto(entries@, h as int) <= request_tails_size_upto(
                entries@,
                entries@.len() as int,
            ),
            68 + 32 * entries@.len() + request_tails_size_upto(entries@, entries@.len() as int)
                <= usize::MAX,
            out@ == prefix1 + request_heads_upto(entries@, h as int),
        decreases n - h,
    {
        push_be(off as u64, 32, &mut out);
        assert(out@ =~= prefix1 + request_heads_upto(entries@, h as int + 1));
        let len: usize = entries[h].payload.len();
        let rem: usize = len % 32;
        let gap: usize = if rem == 0 {
            0
        } else {
            32 - rem
        };
        assert(gap == pad_gap(entries@[h as int].payload@.len()));
        proof {
            lemma_tails_size_monotone(entries@, h as int + 1, entries@.len() as int);
        }
        off = off + 128u128 + len as u128 + gap as u128;
        h += 1;
    }
    let ghost prefix2 = out@;
    assert(prefix2 + request_tails_upto(entries@, 0) =~= prefix2);
    proof {
        lemma_heads_len(entries@, entries@.len() as int);
    }
    let mut t: usize = 0;
    while t < n
        invariant
            t <= n,
            n == entries@.len(),
            entries@ == request.entries@,
            forall|i: int|
                0 <= i < entries@.len() ==> (#[trigger] entries@[i]).target@.len() == 20,
            68 + 32 * entries@.len() + request_tails_size_upto(entries@, entries@.len() as int)
                <= usize::MAX,
            request_tails_size_upto(entries@, t as int) <= request_tails_size_upto(
                entries@,
                entries@.len() as int,
            ),
            out@ == prefix2 + request_tails_upto(entries@, t as int),
            out@.len() == 68 + 32 * entries@.len() + request_tails_size_upto(entries@, t as int),
            prefix2 == prefix1 + request_heads_upto(entries@, entries@.len() as int),
            prefix1 == prefix0 + be_bytes(0x20, 32) + be_bytes(entries@.len() as nat, 32),
            prefix0 == keccak_of(aggregate3_signature()).subrange(0, 4),
            prefix0.len() == 4,
        decreases n - t,
    {
        let ghost at_entry = out@;
        push_zeros(12, &mut out);
        push_bytes(&entries[t].target, &mut out);
        push_be(1, 32, &mut out);
        push_be(0x60, 32, &mut out);
        let len: usize = entries[t].payload.len();
        proof {
            lemma_tails_size_monotone(entries@, t as int + 1, entries@.len() as int);
        }
        push_be(len as u64, 32, &mut out);
        push_padded(&entries[t].payload, &mut out);
        assert(out@ =~= at_entry + call3_tail(
            entries@[t as int].target@,
            entries@[t as int].payload@,
        ));
        t += 1;
        assert(out@ =~= prefix2 + request_tails_upto(entries@, t as int));
    }
    assert(out@ =~= aggregate_calldata(entries@));
    Some(out)
}

/// Why a raw helper answer was refused: it is not the canonical
/// encoding of a `{success, returnData}` array.
#[derive(Clone, Copy, Debug, PartialEq, Eq, Structural)]
pub enum WireError {
    /// The payload ends before the bytes expected at offset `at`.
    TooShort { at: usize },
    /// The 32-byte word at offset `at` does not hold the canonical
    /// value.
    BadWord { at: usize },
    /// Canonical content ends at `from`, but more bytes follow.
    Trailing { from: usize },
}

/// The encoding of one `{success, returnData}` structure: the flag
/// word, the offset of the `returnData` bytes within the structure
/// (always `0x40`), then the bytes' length and their padded content.
pub open spec fn result_tail(success: bool, d: Seq<u8>) -> Seq<u8> {
    bool_word(success) + be_bytes(0x40, 32) + be_bytes(d.len(), 32) + zero_pad(d)
}

/// The encoded structures of the first `i` response entries,
/// concatenated.
pub open spec fn response_tails_upto(entries: Seq<ResponseEntry>, i: int) -> Seq<u8>
    decreases i,
{
    if i <= 0 {
        Seq::empty()
    } else {
        response_tails_upto(entries, i - 1) + result_tail(
            entries[i - 1].success,
            entries[i - 1].data@,
        )
    }
}

/// The total byte size of the encoded structures of the first `i`
/// response entries.
pub open spec fn response_tails_size_upto(entries: Seq<ResponseEntry>, i: int) -> nat
    decreases i,
{
    if i <= 0 {
        0
    } else {
        response_tails_size_upto(entries, i - 1) + 96 + entries[i - 1].data@.len() + pad_gap(
            entries[i - 1].data@.len(),
        )
    }
}

/// The first `i` array head words of a response of `total` entries.
pub open spec fn response_heads_upto(entries: Seq<ResponseEntry>, total: nat, i: int) -> Seq<u8>
    decreases i,
{
    if i <= 0 {
        Seq::empty()
    } else {
        response_heads_upto(entries, total, i - 1) + be_bytes(
            32 * total + response_tails_size_upto(entries, i - 1),
            32,
        )
    }
}

/// The canonical return payload of the helper's `aggregate3` call: the
/// offset of the array (always `0x20`), the entry count, the array
/// head words, and the encoded `{success, returnData}` structures.
pub open spec fn response_wire(entries: Seq<ResponseEntry>) -> Seq<u8> {
    be_bytes(0x20, 32) + be_bytes(entries.len(), 32) + response_heads_upto(
        entries,
        entries.len(),
        entries.len() as int,
    ) + response_tails_upto(entries, entries.len() as int)
}

/// The byte size of the canonical return payload of a response.
pub open spec fn response_wire_size(entries: Seq<ResponseEntry>) -> nat {
    64 + 32 * entries.len() + response_tails_size_upto(entries, entries.len() as int)
}

/// The structure sizes of a response prefix never shrink as the prefix
/// grows.
proof fn lemma_response_size_monotone(entries: Seq<ResponseEntry>, i: int, j: int)
    requires
        i <= j,
    ensures
        response_tails_size_upto(entries, i) <= response_tails_size_upto(entries, j),
    decreases j - i,
{
    if i < j {
        lemma_response_size_monotone(entries, i, j - 1);
    }
}

/// The first `i` response head words are `32 * i` bytes long.
proof fn lemma_response_heads_len(entries: Seq<ResponseEntry>, total: nat, i: int)
    ensures
        response_heads_upto(entries, total, i).len() == 32 * (if i <= 0 { 0int } else { i }),
    decreases i,
{
    if i > 0 {
        lemma_response_heads_len(entries, total, i - 1);
        lemma_be_len(32 * total + response_tails_size_upto(entries, i - 1), 32);
    }
}

/// Serializes `{success, returnData}` entries into the canonical
/// return payload of the helper's `aggregate3` call: the exact bytes a
/// well-formed helper sends for these entries, and the exact form
/// [`parse_aggregate_response`] accepts.
///
/// Returns the payload whenever its total size fits the machine;
/// `None` can only mean the encoding would exceed `usize::MAX` bytes.
pub fn encode_response(entries: &Vec<ResponseEntry>) -> (r: Option<Vec<u8>>)
    ensures
        r is None ==> response_wire_size(entries@) > usize::MAX,
        r matches Some(payload) ==> {
            &&& payload@ == response_wire(entries@)
            &&& payload@.len() == response_wire_size(entries@)
        },
{
    let n: usize = entries.len();
    let mut tails_size: u128 = 0;
    let mut j: usize = 0;
    while j < n
        invariant
            j <= n,
            n == entries@.len(),
            tails_size == response_tails_size_upto(entries@, j as int),
            tails_size <= usize::MAX,
        decreases n - j,
    {
        let len: usize = entries[j].data.len();
        let rem: usize = len % 32;
        let gap: usize = if rem == 0 {
            0
        } else {
            32 - rem
        };
        assert(gap == pad_gap(entries@[j as int].data@.len()));
        let next: u128 = tails_size + 96u128 + len as u128 + gap as u128;
        if next > usize::MAX as u128 {
            proof {
                lemma_response_size_monotone(entries@, j as int + 1, entries@.len() as int);
            }
            return None;
        }
        tails_size = next;
        j += 1;
    }
    let total: u128 = 64u128 + 32u128 * n as u128 + tails_size;
    if total > usize::MAX as u128 {
        return None;
    }

    let mut out: Vec<u8> = Vec::new();
    push_be(0x20, 32, &mut out);
    push_be(n as u64, 32, &mut out);
    let ghost prefix1 = out@;
    assert(prefix1 + response_heads_upto(entries@, n as nat, 0) =~= prefix1);
    let mut off: u128 = 32u128 * n as u128;
    let mut h: usize = 0;
    while h < n
        invariant
            h <= n,
            n == entries@.len(),
            off == 32 * entries@.len() + response_tails_size_upto(entries@, h as int),
            off + 64 <= usize::MAX,
            64 + 32 * entries@.len() + response_tails_size_upto(entries@, entries@.len() as int)
                <= usize::MAX,
            out@ == prefix1 + response_heads_upto(entries@, n as nat, h as int),
        decreases n - h,
    {
        push_be(off as u64, 32, &mut out);
        assert(out@ =~= prefix1 + response_heads_upto(entries@, n as nat, h as int + 1));
        let len: usize = entries[h].data.len();
        let rem: usize = len % 32;
        let gap: usize = if rem == 0 {
            0
        } else {
            32 - rem
        };
        assert(gap == pad_gap(entries@[h as int].data@.len()));
        proof {
            lemma_response_size_monotone(entries@, h as int + 1, entries@.len() as int);
        }
        off = off + 96u128 + len as u128 + gap as u128;
        h += 1;
    }
    let ghost prefix2 = out@;
    assert(prefix2 + response_tails_upto(entries@, 0) =~= prefix2);
    proof {
        lemma_response_heads_len(entries@, n as nat, entries@.len() as int);
    }
    let mut t: usize = 0;
    while t < n
        invariant
            t <= n,
            n == entries@.len(),
            64 + 32 * entries@.len() + response_tails_size_upto(entries@, entries@.len() as int)
                <= usize::MAX,
            response_tails_size_upto(entries@, t as int) <= response_tails_size_upto(
                entries@,
                entries@.len() as int,
            ),
            out@ == prefix2 + response_tails_upto(entries@, t as int),
            out@.len() == 64 + 32 * entries@.len() + response_tails_size_upto(entries@, t as int),
            prefix2 == prefix1 + response_heads_upto(entries@, n as nat, entries@.len() as int),
            prefix1 == be_bytes(0x20, 32) + be_bytes(entries@.len() as nat, 32),
        decreases n - t,
    {
        let ghost at_entry = out@;
        if entries[t].success {
            push_be(1, 32, &mut out);
        } else {
            push_be(0, 32, &mut out);
        }
        push_be(0x40, 32, &mut out);
        let len: usize = entries[t].data.len();
        proof {
            lemma_response_size_monotone(entries@, t as int + 1, entries@.len() as int);
        }
        push_be(len as u64, 32, &mut out);
        push_padded(&entries[t].data, &mut out);
        assert(out@ =~= at_entry + result_tail(
            entries@[t as int].success,
            entries@[t as int].data@,
        ));
        t += 1;
        assert(out@ =~= prefix2 + response_tails_upto(entries@, t as int));
    }
    assert(out@ =~= response_wire(entries@));
    Some(out)
}

/// `256` to the `k`-th power.
pub open spec fn pow256(k: nat) -> nat
    decreases k,
{
    if k == 0 {
        1
    } else {
        256 * pow256((k - 1) as nat)
    }
}

proof fn lemma_pow256_pos(k: nat)
    ensures
        pow256(k) >= 1,
    decreases k,
{
    if k > 0 {
        lemma_pow256_pos((k - 1) as nat);
    }
}

proof fn lemma_pow256_increases(i: nat, j: nat)
    requires
        i <= j,
    ensures
        pow256(i) <= pow256(j),
    decreases j,
{
    if i < j {
        lemma_pow256_increases(i, (j - 1) as nat);
        lemma_pow256_pos((j - 1) as nat);
    }
}

/// Eight bytes hold values up to `2^64`.
proof fn lemma_pow256_words()
    ensures
        pow256(8) == 0x1_0000_0000_0000_0000,
        pow256(8) <= pow256(32),
{
    assert(pow256(0) == 1);
    assert(pow256(1) == 256);
    assert(pow256(2) == 0x1_0000);
    assert(pow256(3) == 0x100_0000);
    assert(pow256(4) == 0x1_0000_0000);
    assert(pow256(5) == 0x100_0000_0000);
    assert(pow256(6) == 0x1_0000_0000_0000);
    assert(pow256(7) == 0x100_0000_0000_0000);
    assert(pow256(8) == 0x1_0000_0000_0000_0000);
    lemma_pow256_increases(8, 32);
}

/// The byte `t` places before the end of a big-endian encoding is the
/// `t`-th base-256 digit of the value.
proof fn lemma_be_byte(n: nat, k: nat, t: nat)
    requires
        t < k,
    ensures
        be_bytes(n, k)[k - 1 - t] == ((n / pow256(t)) % 256) as u8,
    decreases k,
{
    lemma_be_len(n / 256, (k - 1) as nat);
    if t == 0 {
        assert(pow256(0) == 1);
        assert(n / pow256(0) == n);
    } else {
        lemma_be_byte(n / 256, (k - 1) as nat, (t - 1) as nat);
        assert(be_bytes(n, k)[k - 1 - t] == be_bytes(n / 256, (k - 1) as nat)[k - 1 - t]);
        lemma_pow256_pos((t - 1) as nat);
        vstd::arithmetic::div_mod::lemma_div_denominator(
            n as int,
            256,
            pow256((t - 1) as nat) as int,
        );
        assert(pow256(t) == 256 * pow256((t - 1) as nat));
    }
}

/// Two values below `256^k` with the same `k`-byte big-endian encoding
/// are equal.
proof fn lemma_be_injective(a: nat, b: nat, k: nat)
    requires
        a < pow256(k),
        b < pow256(k),
        be_bytes(a, k) == be_bytes(b, k),
    ensures
        a == b,
    decreases k,
{
    if k == 0 {
        assert(a == 0 && b == 0);
    } else {
        lemma_be_len(a / 256, (k - 1) as nat);
        lemma_be_len(b / 256, (k - 1) as nat);
        assert(be_bytes(a, k)[k - 1] == (a % 256) as u8);
        assert(be_bytes(b, k)[k - 1] == (b % 256) as u8);
        assert(a % 256 == b % 256);
        assert(be_bytes(a, k).subrange(0, k - 1) =~= be_bytes(a / 256, (k - 1) as nat));
        assert(be_bytes(b, k).subrange(0, k - 1) =~= be_bytes(b / 256, (k - 1) as nat));
        assert(a / 256 < pow256((k - 1) as nat)) by (nonlinear_arith)
            requires
                a < pow256(k),
                pow256(k) == 256 * pow256((k - 1) as nat),
        ;
        assert(b / 256 < pow256((k - 1) as nat)) by (nonlinear_arith)
            requires
                b < pow256(k),
                pow256(k) == 256 * pow256((k - 1) as nat),
        ;
        lemma_be_injective(a / 256, b / 256, (k - 1) as nat);
        vstd::arithmetic::div_mod::lemma_fundamental_div_mod(a as int, 256);
        vstd::arithmetic::div_mod::lemma_fundamental_div_mod(b as int, 256);
    }
}

/// Reading the low eight bytes of a 32-byte big-endian encoding back,
/// most significant first, recovers the value when it fits them.
proof fn lemma_be_readback(m: nat)
    requires
        m < pow256(8),
    ensures
        ({
            let w = be_bytes(m, 32);
            (((((((w[24] as nat * 256 + w[25] as nat) * 256 + w[26] as nat) * 256 + w[27] as nat)
                * 256 + w[28] as nat) * 256 + w[29] as nat) * 256 + w[30] as nat) * 256 + w[
                31] as nat) == m
        }),
{
    let w = be_bytes(m, 32);
    lemma_be_byte(m, 32, 0);
    lemma_be_byte(m, 32, 1);
    lemma_be_byte(m, 32, 2);
    lemma_be_byte(m, 32, 3);
    lemma_be_byte(m, 32, 4);
    lemma_be_byte(m, 32, 5);
    lemma_be_byte(m, 32, 6);
    lemma_be_byte(m, 32, 7);
    lemma_pow256_pos(7);
    assert(pow256(8) == 256 * pow256(7));
    assert(m / pow256(7) < 256) by (nonlinear_arith)
        requires
            m < pow256(8),
            pow256(8) == 256 * pow256(7),
            pow256(7) >= 1,
    ;
    lemma_pow256_pos(0);
    vstd::arithmetic::div_mod::lemma_div_denominator(m as int, pow256(0) as int, 256);
    assert(pow256(1) == 256 * pow256(0));
    vstd::arithmetic::div_mod::lemma_fundamental_div_mod((m / pow256(0)) as int, 256);
    lemma_pow256_pos(1);
    vstd::arithmetic::div_mod::lemma_div_denominator(m as int, pow256(1) as int, 256);
    assert(pow256(2) == 256 * pow256(1));
    vstd::arithmetic::div_mod::lemma_fundamental_div_mod((m / pow256(1)) as int, 256);
    lemma_pow256_pos(2);
    vstd::arithmetic::div_mod::lemma_div_denominator(m as int, pow256(2) as int, 256);
    assert(pow256(3) == 256 * pow256(2));
    vstd::arithmetic::div_mod::lemma_fundamental_div_mod((m / pow256(2)) as int, 256);
    lemma_pow256_pos(3);
    vstd::arithmetic::div_mod::lemma_div_denominator(m as int, pow256(3) as int, 256);
    assert(pow256(4) == 256 * pow256(3));
    vstd::arithmetic::div_mod::lemma_fundamental_div_mod((m / pow256(3)) as int, 256);
    lemma_pow256_pos(4);
    vstd::arithmetic::div_mod::lemma_div_denominator(m as int, pow256(4) as int, 256);
    assert(pow256(5) == 256 * pow256(4));
    vstd::arithmetic::div_mod::lemma_fundamental_div_mod((m / pow256(4)) as int, 256);
    lemma_pow256_pos(5);
    vstd::arithmetic::div_mod::lemma_div_denominator(m as int, pow256(5) as int, 256);
    assert(pow256(6) == 256 * pow256(5));
    vstd::arithmetic::div_mod::lemma_fundamental_div_mod((m / pow256(5)) as int, 256);
    lemma_pow256_pos(6);
    vstd::arithmetic::div_mod::lemma_div_denominator(m as int, pow256(6) as int, 256);
    assert(pow256(7) == 256 * pow256(6));
    vstd::arithmetic::div_mod::lemma_fundamental_div_mod((m / pow256(6)) as int, 256);
    assert(pow256(0) == 1);
    assert(m / pow256(0) == m) by (nonlinear_arith)
        requires
            pow256(0) == 1,
    ;
}

/// A prefix of the encoded response structures does not change when an
/// entry is appended behind it.
proof fn lemma_response_push(entries: Seq<ResponseEntry>, x: ResponseEntry, total: nat, i: int)
    requires
        i <= entries.len(),
    ensures
        response_tails_upto(entries.push(x), i) == response_tails_upto(entries, i),
        response_tails_size_upto(entries.push(x), i) == response_tails_size_upto(entries, i),
        response_heads_upto(entries.push(x), total, i) == response_heads_upto(entries, total, i),
    decreases i,
{
    if i > 0 {
        lemma_response_push(entries, x, total, i - 1);
        assert(entries.push(x)[i - 1] == entries[i - 1]);
    }
}

/// One encoded `{success, returnData}` structure is as long as the
/// size accounting says.
proof fn lemma_result_tail_len(success: bool, d: Seq<u8>)
    ensures
        result_tail(success, d).len() == 96 + d.len() + pad_gap(d.len()),
{
    lemma_be_len(if success { 1nat } else { 0nat }, 32);
    lemma_be_len(0x40, 32);
    lemma_be_len(d.len(), 32);
}

/// The first `i` encoded response structures are as long as the size
/// accounting says.
proof fn lemma_response_tails_len(entries: Seq<ResponseEntry>, i: int)
    ensures
        response_tails_upto(entries, i).len() == response_tails_size_upto(entries, i),
    decreases i,
{
    if i > 0 {
        lemma_response_tails_len(entries, i - 1);
        lemma_result_tail_len(entries[i - 1].success, entries[i - 1].data@);
    }
}

/// The `j`-th head word of a canonical response is the offset of the
/// `j`-th structure from the start of the array's element area.
proof fn lemma_response_head_word(entries: Seq<ResponseEntry>, total: nat, i: int, j: int)
    requires
        0 <= j < i,
    ensures
        response_heads_upto(entries, total, i).subrange(32 * j, 32 * j + 32) == be_bytes(
            32 * total + response_tails_size_upto(entries, j),
            32,
        ),
    decreases i,
{
    lemma_response_heads_len(entries, total, i - 1);
    lemma_be_len(32 * total + response_tails_size_upto(entries, i - 1), 32);
    if j == i - 1 {
        assert(response_heads_upto(entries, total, i).subrange(32 * j, 32 * j + 32) =~= be_bytes(
            32 * total + response_tails_size_upto(entries, j),
            32,
        ));
    } else {
        assert(response_heads_upto(entries, total, i).subrange(
            32 * j,
            32 * j + 32,
        ) =~= response_heads_upto(entries, total, i - 1).subrange(32 * j, 32 * j + 32));
        lemma_response_head_word(entries, total, i - 1, j);
    }
}

/// The slice of the concatenated response structures between the size
/// marks of entry `j` is exactly entry `j`'s encoded structure.
proof fn lemma_response_tail_slice(entries: Seq<ResponseEntry>, i: int, j: int)
    requires
        0 <= j < i,
    ensures
        response_tails_upto(entries, i).subrange(
            response_tails_size_upto(entries, j) as int,
            response_tails_size_upto(entries, j + 1) as int,
        ) == result_tail(entries[j].success, entries[j].data@),
    decreases i,
{
    lemma_response_tails_len(entries, i - 1);
    lemma_result_tail_len(entries[i - 1].success, entries[i - 1].data@);
    if j == i - 1 {
        assert(response_tails_upto(entries, i).subrange(
            response_tails_size_upto(entries, j) as int,
            response_tails_size_upto(entries, j + 1) as int,
        ) =~= result_tail(entries[j].success, entries[j].data@));
    } else {
        lemma_response_size_monotone(entries, j + 1, i - 1);
        assert(response_tails_upto(entries, i).subrange(
            response_tails_size_upto(entries, j) as int,
            response_tails_size_upto(entries, j + 1) as int,
        ) =~= response_tails_upto(entries, i - 1).subrange(
            response_tails_size_upto(entries, j) as int,
            response_tails_size_upto(entries, j + 1) as int,
        ));
        lemma_response_tail_slice(entries, i - 1, j);
    }
}

/// What every byte region of a canonical response payload holds, read
/// off its structure.
proof fn lemma_wire_structure(entries: Seq<ResponseEntry>, data: Seq<u8>)
    requires
        data == response_wire(entries),
    ensures
        data.len() == 64 + 32 * entries.len() + response_tails_size_upto(
            entries,
            entries.len() as int,
        ),
        data.subrange(0, 32) == be_bytes(0x20, 32),
        data.subrange(32, 64) == be_bytes(entries.len(), 32),
        forall|j: int|
            0 <= j < entries.len() ==> data.subrange(64 + 32 * j, 64 + 32 * j + 32) == be_bytes(
                32 * entries.len() + #[trigger] response_tails_size_upto(entries, j),
                32,
            ),
        forall|j: int|
            0 <= j < entries.len() ==> data.subrange(
                (64 + 32 * entries.len() + response_tails_size_upto(entries, j)) as int,
                (64 + 32 * entries.len() + #[trigger] response_tails_size_upto(entries, j + 1)) as int,
            ) == result_tail(entries[j].success, entries[j].data@),
{
    let n = entries.len() as int;
    lemma_be_len(0x20, 32);
    lemma_be_len(entries.len(), 32);
    lemma_response_heads_len(entries, entries.len(), n);
    lemma_response_tails_len(entries, n);
    assert(data.subrange(0, 32) =~= be_bytes(0x20, 32));
    assert(data.subrange(32, 64) =~= be_bytes(entries.len(), 32));
    assert forall|j: int| 0 <= j < entries.len() implies data.subrange(64 + 32 * j, 64 + 32 * j
        + 32) == be_bytes(
        32 * entries.len() + #[trigger] response_tails_size_upto(entries, j),
        32,
    ) by {
        lemma_response_head_word(entries, entries.len(), n, j);
        assert(data.subrange(64 + 32 * j, 64 + 32 * j + 32) =~= response_heads_upto(
            entries,
            entries.len(),
            n,
        ).subrange(32 * j, 32 * j + 32));
    }
    assert forall|j: int| 0 <= j < entries.len() implies data.subrange(
        (64 + 32 * entries.len() + response_tails_size_upto(entries, j)) as int,
        (64 + 32 * entries.len() + #[trigger] response_tails_size_upto(entries, j + 1)) as int,
    ) == result_tail(entries[j].success, entries[j].data@) by {
        lemma_response_tail_slice(entries, n, j);
        lemma_response_size_monotone(entries, j + 1, n);
        assert(data.subrange(
            (64 + 32 * entries.len() + response_tails_size_upto(entries, j)) as int,
            (64 + 32 * entries.len() + response_tails_size_upto(entries, j + 1)) as int,
        ) =~= response_tails_upto(entries, n).subrange(
            response_tails_size_upto(entries, j) as int,
            response_tails_size_upto(entries, j + 1) as int,
        ));
    }
}

/// Decides whether the 32-byte word of `data` at `pos` is the
/// big-endian encoding of `value`.
fn expect_word(data: &Vec<u8>, pos: usize, value: u64) -> (b: bool)
    requires
        pos + 32 <= data@.len(),
    ensures
        b == (data@.subrange(pos as int, pos as int + 32) == be_bytes(value as nat, 32)),
{
    let dl: usize = data.len();
    assert(pos + 32 <= dl);
    let mut w: Vec<u8> = Vec::new();
    push_be(value, 32, &mut w);
    let mut i: usize = 0;
    while i < 32
        invariant
            i <= 32,
            pos + 32 <= data@.len(),
            data@.len() <= usize::MAX,
            w@ == be_bytes(value as nat, 32),
            w@.len() == 32,
            forall|q: int| 0 <= q < i ==> data@[pos + q] == w@[q],
        decreases 32 - i,
    {
        if data[pos + i] != w[i] {
            assert(data@.subrange(pos as int, pos as int + 32)[i as int] != w@[i as int]);
            return false;
        }
        i += 1;
    }
    assert(data@.subrange(pos as int, pos as int + 32) =~= w@);
    true
}

/// Reads the 32-byte word of `data` at `pos` as a machine integer:
/// the value whose big-endian encoding the word is, if it has one.
fn read_word(data: &Vec<u8>, pos: usize) -> (r: Option<usize>)
    requires
        pos + 32 <= data@.len(),
    ensures
        r matches Some(v) ==> data@.subrange(pos as int, pos as int + 32) == be_bytes(
            v as nat,
            32,
        ),
        forall|m: nat|
            m <= usize::MAX && data@.subrange(pos as int, pos as int + 32) == be_bytes(m, 32)
                ==> r == Some(m as usize),
{
    let dl: usize = data.len();
    assert(pos + 32 <= dl);
    let b0 = data[pos + 24] as u64;
    let b1 = data[pos + 25] as u64;
    let b2 = data[pos + 26] as u64;
    let b3 = data[pos + 27] as u64;
    let b4 = data[pos + 28] as u64;
    let b5 = data[pos + 29] as u64;
    let b6 = data[pos + 30] as u64;
    let b7 = data[pos + 31] as u64;
    let val: u64 = (((((((b0 * 256 + b1) * 256 + b2) * 256 + b3) * 256 + b4) * 256 + b5) * 256
        + b6) * 256) + b7;
    proof {
        lemma_pow256_words();
        assert forall|m: nat|
            m <= usize::MAX && data@.subrange(pos as int, pos as int + 32) == be_bytes(
                m,
                32,
            ) implies val as nat == m by {
            let w = be_bytes(m, 32);
            assert forall|q: int| 24 <= q < 32 implies data@[pos + q] == w[q] by {
                assert(data@.subrange(pos as int, pos as int + 32)[q] == w[q]);
            }
            lemma_be_readback(m);
        }
    }
    if val > usize::MAX as u64 {
        return None;
    }
    if expect_word(data, pos, val) {
        Some(val as usize)
    } else {
        None
    }
}

/// What each slice of one encoded `{success, returnData}` structure
/// holds, read off its layout.
proof fn lemma_tail_parts(success: bool, d: Seq<u8>)
    ensures
        result_tail(success, d).subrange(0, 32) == bool_word(success),
        result_tail(success, d).subrange(32, 64) == be_bytes(0x40, 32),
        result_tail(success, d).subrange(64, 96) == be_bytes(d.len(), 32),
        result_tail(success, d).subrange(96, 96 + d.len() as int) == d,
        result_tail(success, d).subrange(
            96 + d.len() as int,
            (96 + d.len() + pad_gap(d.len())) as int,
        ) == Seq::new(pad_gap(d.len()), |q: int| 0u8),
{
    lemma_be_len(if success {
        1nat
    } else {
        0nat
    }, 32);
    lemma_be_len(0x40, 32);
    lemma_be_len(d.len(), 32);
    assert(result_tail(success, d).subrange(0, 32) =~= bool_word(success));
    assert(result_tail(success, d).subrange(32, 64) =~= be_bytes(0x40, 32));
    assert(result_tail(success, d).subrange(64, 96) =~= be_bytes(d.len(), 32));
    assert(result_tail(success, d).subrange(96, 96 + d.len() as int) =~= d);
    assert(result_tail(success, d).subrange(
        96 + d.len() as int,
        (96 + d.len() + pad_gap(d.len())) as int,
    ) =~= Seq::new(pad_gap(d.len()), |q: int| 0u8));
}

/// The facts parsing needs about entry `j` of a canonical payload: the
/// head word holds the entry's offset, each word of its structure
/// holds the canonical value, and the size marks advance by exactly
/// its structure's size.
proof fn lemma_canonical_entry(es: Seq<ResponseEntry>, data: Seq<u8>, j: int)
    requires
        data == response_wire(es),
        0 <= j < es.len(),
    ensures
        ({
            let n = es.len() as int;
            let tsj = response_tails_size_upto(es, j) as int;
            let start = 64 + 32 * n + tsj;
            let lenj = es[j].data@.len() as int;
            let gapj = pad_gap(es[j].data@.len()) as int;
            &&& data.len() == 64 + 32 * n + response_tails_size_upto(es, n)
            &&& response_tails_size_upto(es, j + 1) == tsj + 96 + lenj + gapj
            &&& response_tails_size_upto(es, j + 1) <= response_tails_size_upto(es, n)
            &&& data.subrange(64 + 32 * j, 64 + 32 * j + 32) == be_bytes((32 * n + tsj) as nat, 32)
            &&& data.subrange(start, start + 32) == bool_word(es[j].success)
            &&& data.subrange(start + 32, start + 64) == be_bytes(0x40, 32)
            &&& data.subrange(start + 64, start + 96) == be_bytes(es[j].data@.len(), 32)
            &&& data.subrange(start + 96, start + 96 + lenj) == es[j].data@
            &&& data.subrange(start + 96 + lenj, start + 96 + lenj + gapj) == Seq::new(
                pad_gap(es[j].data@.len()),
                |q: int| 0u8,
            )
        }),
{
    let n = es.len() as int;
    let tsj = response_tails_size_upto(es, j) as int;
    let start = 64 + 32 * n + tsj;
    let lenj = es[j].data@.len() as int;
    let gapj = pad_gap(es[j].data@.len()) as int;
    lemma_wire_structure(es, data);
    lemma_response_size_monotone(es, j + 1, n);
    lemma_tail_parts(es[j].success, es[j].data@);
    lemma_result_tail_len(es[j].success, es[j].data@);
    let tail = result_tail(es[j].success, es[j].data@);
    assert(data.subrange(start, 64 + 32 * n + response_tails_size_upto(es, j + 1) as int)
        == tail);
    assert(data.subrange(start, start + 32) =~= tail.subrange(0, 32));
    assert(data.subrange(start + 32, start + 64) =~= tail.subrange(32, 64));
    assert(data.subrange(start + 64, start + 96) =~= tail.subrange(64, 96));
    assert(data.subrange(start + 96, start + 96 + lenj) =~= tail.subrange(96, 96 + lenj));
    assert(data.subrange(start + 96 + lenj, start + 96 + lenj + gapj) =~= tail.subrange(
        96 + lenj,
        96 + lenj + gapj,
    ));
}

/// Parses one `{success, returnData}` structure of a raw helper
/// answer: checks the entry's head word and each word of its structure
/// against the canonical layout and hands back the entry with the
/// position behind its structure. A refusal means the whole payload is
/// not the canonical image of any entry list.
#[verifier::rlimit(100)]
#[verifier::spinoff_prover]
fn parse_entry(
    data: &Vec<u8>,
    n: usize,
    j: usize,
    pos: usize,
    Ghost(prev): Ghost<Seq<ResponseEntry>>,
) -> (r: Result<(ResponseEntry, usize), WireError>)
    requires
        j < n,
        prev.len() == j,
        64 + 32 * n <= data@.len(),
        data@.len() <= usize::MAX,
        pos == 64 + 32 * n + response_tails_size_upto(prev, j as int),
        pos <= data@.len(),
        forall|es: Seq<ResponseEntry>|
            data@ == #[trigger] response_wire(es) ==> es.len() == n
                && response_tails_size_upto(es, j as int) == response_tails_size_upto(
                prev,
                j as int,
            ),
    ensures
        r matches Ok(p) ==> {
            let entry = p.0;
            let new_pos = p.1;
            &&& new_pos == pos + 96 + entry.data@.len() + pad_gap(entry.data@.len())
            &&& new_pos <= data@.len()
            &&& data@.subrange(64 + 32 * (j as int), 64 + 32 * (j as int) + 32) == be_bytes(
                (32 * n + response_tails_size_upto(prev, j as int)) as nat,
                32,
            )
            &&& data@.subrange(pos as int, new_pos as int) == result_tail(
                entry.success,
                entry.data@,
            )
            &&& forall|es: Seq<ResponseEntry>|
                data@ == #[trigger] response_wire(es) ==> response_tails_size_upto(
                    es,
                    j as int + 1,
                ) == response_tails_size_upto(prev, j as int) + 96 + entry.data@.len() + pad_gap(
                    entry.data@.len(),
                )
        },
        r is Err ==> forall|es: Seq<ResponseEntry>| data@ != #[trigger] response_wire(es),
{
    let head_at: usize = 64 + 32 * j;
    let off: usize = pos - 64;
    if !expect_word(data, head_at, off as u64) {
        proof {
            assert forall|es: Seq<ResponseEntry>| data@ != #[trigger] response_wire(es) by {
                if data@ == response_wire(es) {
                    lemma_canonical_entry(es, data@, j as int);
                }
            }
        }
        return Err(WireError::BadWord { at: head_at });
    }
    if data.len() - pos < 96 {
        proof {
            assert forall|es: Seq<ResponseEntry>| data@ != #[trigger] response_wire(es) by {
                if data@ == response_wire(es) {
                    lemma_canonical_entry(es, data@, j as int);
                }
            }
        }
        return Err(WireError::TooShort { at: pos });
    }
    let success: bool;
    if expect_word(data, pos, 1) {
        success = true;
    } else if expect_word(data, pos, 0) {
        success = false;
    } else {
        proof {
            assert forall|es: Seq<ResponseEntry>| data@ != #[trigger] response_wire(es) by {
                if data@ == response_wire(es) {
                    lemma_canonical_entry(es, data@, j as int);
                }
            }
        }
        return Err(WireError::BadWord { at: pos });
    }
    if !expect_word(data, pos + 32, 0x40) {
        proof {
            assert forall|es: Seq<ResponseEntry>| data@ != #[trigger] response_wire(es) by {
                if data@ == response_wire(es) {
                    lemma_canonical_entry(es, data@, j as int);
                }
            }
        }
        return Err(WireError::BadWord { at: pos + 32 });
    }
    let l: usize = match read_word(data, pos + 64) {
        Some(v) => v,
        None => {
            proof {
                assert forall|es: Seq<ResponseEntry>| data@ != #[trigger] response_wire(es) by {
                    if data@ == response_wire(es) {
                        lemma_canonical_entry(es, data@, j as int);
                        assert(es[j as int].data@.len() <= usize::MAX);
                    }
                }
            }
            return Err(WireError::BadWord { at: pos + 64 });
        },
    };
    let rem: usize = l % 32;
    let gap: usize = if rem == 0 {
        0
    } else {
        32 - rem
    };
    assert(gap == pad_gap(l as nat));
    let tail_end_wide: u128 = pos as u128 + 96 + l as u128 + gap as u128;
    if tail_end_wide > data.len() as u128 {
        proof {
            lemma_pow256_words();
            assert forall|es: Seq<ResponseEntry>| data@ != #[trigger] response_wire(es) by {
                if data@ == response_wire(es) {
                    lemma_canonical_entry(es, data@, j as int);
                    assert(es[j as int].data@.len() <= usize::MAX);
                    lemma_be_injective(l as nat, es[j as int].data@.len(), 32);
                }
            }
        }
        return Err(WireError::TooShort { at: pos });
    }
    let payload = crate::abi::copy_range(data, pos + 96, pos + 96 + l);
    if !crate::abi::range_is_zero(data, pos + 96 + l, pos + 96 + l + gap) {
        proof {
            lemma_pow256_words();
            assert forall|es: Seq<ResponseEntry>| data@ != #[trigger] response_wire(es) by {
                if data@ == response_wire(es) {
                    lemma_canonical_entry(es, data@, j as int);
                    assert(es[j as int].data@.len() <= usize::MAX);
                    lemma_be_injective(l as nat, es[j as int].data@.len(), 32);
                    assert forall|q: int|
                        pos + 96 + l <= q < pos + 96 + l + gap implies #[trigger] data@[q]
                        == 0 by {
                        assert(data@.subrange(
                            pos as int + 96 + l as int,
                            pos as int + 96 + l + gap,
                        )[q - (pos + 96 + l)] == 0);
                    }
                }
            }
        }
        return Err(WireError::BadWord { at: pos + 96 + l });
    }
    let new_pos: usize = pos + 96 + l + gap;
    assert(data@.subrange(pos as int, new_pos as int) =~= result_tail(success, payload@)) by {
        assert(data@.subrange(pos as int + 96, pos as int + 96 + l as int) == payload@);
        assert(data@.subrange(
            pos as int + 96 + l as int,
            new_pos as int,
        ) =~= Seq::new(gap as nat, |q: int| 0u8));
        assert(data@.subrange(pos as int, pos as int + 32) =~= data@.subrange(
            pos as int,
            new_pos as int,
        ).subrange(0, 32));
    };
    proof {
        lemma_pow256_words();
        assert forall|es: Seq<ResponseEntry>|
            data@ == #[trigger] response_wire(es) implies response_tails_size_upto(
            es,
            j as int + 1,
        ) == response_tails_size_upto(prev, j as int) + 96 + payload@.len() + pad_gap(
            payload@.len(),
        ) by {
            lemma_canonical_entry(es, data@, j as int);
            assert(es[j as int].data@.len() <= usize::MAX);
            lemma_be_injective(l as nat, es[j as int].data@.len(), 32);
        }
    }
    Ok((ResponseEntry { success, data: payload }, new_pos))
}

/// Splits the helper's raw `aggregate3` return payload into its
/// `{success, returnData}` entries, in wire order, accepting exactly
/// the canonical encoding the helper contract produces.
///
/// An accepted payload is exactly the canonical image of the returned
/// entries, and every canonical image is accepted, so `decode_results`
/// applied to what a well-formed helper sent sees the helper's own
/// per-call payloads, unchanged and in order.
#[verifier::rlimit(100)]
#[verifier::spinoff_prover]
pub fn parse_aggregate_response(data: &Vec<u8>) -> (r: Result<Vec<ResponseEntry>, WireError>)
    ensures
        r matches Ok(entries) ==> data@ == response_wire(entries@),
        forall|es: Seq<ResponseEntry>| data@ == #[trigger] response_wire(es) ==> r is Ok,
{
    let dl: usize = data.len();
    assert(dl <= usize::MAX);
    if data.len() < 64 {
        proof {
            assert forall|es: Seq<ResponseEntry>| data@ != #[trigger] response_wire(es) by {
                if data@ == response_wire(es) {
                    lemma_wire_structure(es, data@);
                }
            }
        }
        return Err(WireError::TooShort { at: 0 });
    }
    if !expect_word(data, 0, 0x20) {
        proof {
            assert forall|es: Seq<ResponseEntry>| data@ != #[trigger] response_wire(es) by {
                if data@ == response_wire(es) {
                    lemma_wire_structure(es, data@);
                }
            }
        }
        return Err(WireError::BadWord { at: 0 });
    }
    let n: usize = match read_word(data, 32) {
        Some(v) => v,
        None => {
            proof {
                assert forall|es: Seq<ResponseEntry>| data@ != #[trigger] response_wire(es) by {
                    if data@ == response_wire(es) {
                        lemma_wire_structure(es, data@);
                        assert(64 + 32 * es.len() <= data@.len());
                        assert(es.len() <= usize::MAX);
                        assert(data@.subrange(32, 64) == be_bytes(es.len(), 32));
                    }
                }
            }
            return Err(WireError::BadWord { at: 32 });
        },
    };
    let heads_end_wide: u128 = 64u128 + 32u128 * n as u128;
    if heads_end_wide > data.len() as u128 {
        proof {
            lemma_pow256_words();
            assert forall|es: Seq<ResponseEntry>| data@ != #[trigger] response_wire(es) by {
                if data@ == response_wire(es) {
                    lemma_wire_structure(es, data@);
                    assert(es.len() <= usize::MAX);
                    lemma_be_injective(n as nat, es.len(), 32);
                }
            }
        }
        return Err(WireError::TooShort { at: 64 });
    }
    let heads_end: usize = 64 + 32 * n;
    proof {
        lemma_pow256_words();
        assert forall|es: Seq<ResponseEntry>|
            data@ == #[trigger] response_wire(es) implies es.len() == n by {
            lemma_wire_structure(es, data@);
            assert(es.len() <= usize::MAX);
            lemma_be_injective(n as nat, es.len(), 32);
        }
    }
    let mut entries: Vec<ResponseEntry> = Vec::new();
    let mut pos: usize = heads_end;
    let mut j: usize = 0;
    while j < n
        invariant
            j <= n,
            entries@.len() == j,
            heads_end == 64 + 32 * n,
            heads_end <= data@.len(),
            data@.len() <= usize::MAX,
            pos == 64 + 32 * n + response_tails_size_upto(entries@, j as int),
            pos <= data@.len(),
            data@.subrange(0, 32) == be_bytes(0x20, 32),
            data@.subrange(32, 64) == be_bytes(n as nat, 32),
            data@.subrange(64, 64 + 32 * (j as int)) == response_heads_upto(
                entries@,
                n as nat,
                j as int,
            ),
            data@.subrange(heads_end as int, pos as int) == response_tails_upto(
                entries@,
                j as int,
            ),
            forall|es: Seq<ResponseEntry>|
                data@ == #[trigger] response_wire(es) ==> es.len() == n
                    && response_tails_size_upto(es, j as int) == response_tails_size_upto(
                    entries@,
                    j as int,
                ),
        decreases n - j,
    {
        let ghost prev = entries@;
        let step = match parse_entry(data, n, j, pos, Ghost(prev)) {
            Ok(p) => p,
            Err(e) => {
                return Err(e);
            },
        };
        let entry = step.0;
        let new_pos = step.1;
        entries.push(entry);
        proof {
            lemma_response_push(prev, entries@[j as int], n as nat, j as int);
            assert(response_tails_upto(entries@, j as int + 1) =~= response_tails_upto(
                prev,
                j as int,
            ) + result_tail(entries@[j as int].success, entries@[j as int].data@));
            assert(data@.subrange(heads_end as int, new_pos as int) =~= data@.subrange(
                heads_end as int,
                pos as int,
            ) + data@.subrange(pos as int, new_pos as int));
            assert(data@.subrange(64, 64 + 32 * (j as int) + 32) =~= data@.subrange(
                64,
                64 + 32 * (j as int),
            ) + data@.subrange(64 + 32 * (j as int), 64 + 32 * (j as int) + 32));
            assert(response_heads_upto(entries@, n as nat, j as int + 1) =~= response_heads_upto(
                prev,
                n as nat,
                j as int,
            ) + be_bytes(32 * (n as nat) + response_tails_size_upto(prev, j as int), 32));
            assert forall|es: Seq<ResponseEntry>|
                data@ == #[trigger] response_wire(es) implies es.len() == n
                    && response_tails_size_upto(es, j as int + 1) == response_tails_size_upto(
                    entries@,
                    j as int + 1,
                ) by {
                assert(response_tails_size_upto(entries@, j as int + 1)
                    == response_tails_size_upto(prev, j as int) + 96
                    + entries@[j as int].data@.len() + pad_gap(entries@[j as int].data@.len()));
            }
        }
        pos = new_pos;
        j += 1;
    }
    if pos != data.len() {
        proof {
            assert forall|es: Seq<ResponseEntry>| data@ != #[trigger] response_wire(es) by {
                if data@ == response_wire(es) {
                    lemma_wire_structure(es, data@);
                }
            }
        }
        return Err(WireError::Trailing { from: pos });
    }
    assert(data@ =~= data@.subrange(0, 32) + data@.subrange(32, 64) + data@.subrange(
        64,
        heads_end as int,
    ) + data@.subrange(heads_end as int, pos as int));
    assert(data@ == response_wire(entries@));
    Ok(entries)
}
} // verus!
