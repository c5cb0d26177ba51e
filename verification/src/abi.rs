//! ABI codec: fixed 32-byte-word encoding and decoding for the
//! statically-sized types the oracle schema needs (`address`,
//! `uint{bits}`), plus selector derivation from the canonical signature
//! string.

use vstd::prelude::*;

verus! {

/// One ABI parameter or return type. A closed set of single-word
/// static types: a 20-byte address, or an unsigned integer of a
/// declared bit width.
#[derive(Clone, Copy, Debug, PartialEq, Eq, Structural)]
pub enum AbiType {
    Address,
    Uint(u16),
}

/// A concrete value of an [`AbiType`]. An address carries its 20
/// bytes; an unsigned integer carries its declared width and its full
/// 32-byte big-endian word.
#[derive(Clone, Debug, PartialEq, Eq)]
pub enum AbiValue {
    Address(Vec<u8>),
    Uint(u16, Vec<u8>),
}

/// One ABI function signature: its name (ASCII bytes), its ordered
/// parameter types, and its ordered return types. Order is significant
/// and fixed at definition time.
#[derive(Clone, Debug, PartialEq, Eq)]
pub struct FunctionSignature {
    pub name: Vec<u8>,
    pub parameter_types: Vec<AbiType>,
    pub return_types: Vec<AbiType>,
}

/// Mathematical image of an [`AbiValue`]: the same tags over byte
/// sequences.
pub enum AbiValueView {
    Address(Seq<u8>),
    Uint(u16, Seq<u8>),
}

impl View for AbiValue {
    type V = AbiValueView;

    open spec fn view(&self) -> AbiValueView {
        match self {
            AbiValue::Address(b) => AbiValueView::Address(b@),
            AbiValue::Uint(bits, w) => AbiValueView::Uint(*bits, w@),
        }
    }
}

/// The views of a sequence of values, element by element.
pub open spec fn views(s: Seq<AbiValue>) -> Seq<AbiValueView> {
    s.map(|i: int, v: AbiValue| v@)
}

/// A declared type is well formed: a `uint` width is positive, at most
/// 256, and a whole number of bytes.
pub open spec fn type_wf(t: AbiType) -> bool {
    match t {
        AbiType::Address => true,
        AbiType::Uint(bits) => 0 < bits <= 256 && bits % 8 == 0,
    }
}

/// The first `32 - bits/8` bytes of a 32-byte word are zero, so the
/// value fits in `bits` bits.
pub open spec fn fits_width(w: Seq<u8>, bits: u16) -> bool {
    forall|i: int| 0 <= i < 32 - (bits as int) / 8 ==> w[i] == 0
}

/// A value is well formed and positionally matches a declared type:
/// same tag, an address of 20 bytes, a `uint` word of 32 bytes whose
/// value fits the declared width.
pub open spec fn value_fits(v: AbiValueView, t: AbiType) -> bool {
    match (v, t) {
        (AbiValueView::Address(b), AbiType::Address) => b.len() == 20,
        (AbiValueView::Uint(vbits, w), AbiType::Uint(tbits)) => {
            &&& vbits == tbits
            &&& type_wf(t)
            &&& w.len() == 32
            &&& fits_width(w, tbits)
        },
        _ => false,
    }
}

/// The 32-byte word that encodes a value: an address is left-padded
/// with 12 zero bytes; a `uint` word is carried as it stands.
pub open spec fn word_of(v: AbiValueView) -> Seq<u8> {
    match v {
        AbiValueView::Address(b) => Seq::new(12, |i: int| 0u8) + b,
        AbiValueView::Uint(_, w) => w,
    }
}

/// The decimal digits of `n`, as ASCII bytes, most significant first,
/// no leading zero.
pub open spec fn dec_digits(n: nat) -> Seq<u8>
    decreases n,
{
    if n < 10 {
        seq![(48 + n) as u8]
    } else {
        dec_digits(n / 10) + seq![(48 + n % 10) as u8]
    }
}

/// The canonical ABI name of a type: `address`, or `uint` followed by
/// the decimal width.
pub open spec fn canonical_type(t: AbiType) -> Seq<u8> {
    match t {
        AbiType::Address => seq![97u8, 100u8, 100u8, 114u8, 101u8, 115u8, 115u8],
        AbiType::Uint(bits) => seq![117u8, 105u8, 110u8, 116u8] + dec_digits(bits as nat),
    }
}

/// The first `i` canonical type names joined by commas.
pub open spec fn joined_upto(params: Seq<AbiType>, i: int) -> Seq<u8>
    decreases i,
{
    if i <= 0 {
        Seq::empty()
    } else if i == 1 {
        canonical_type(params[0])
    } else {
        joined_upto(params, i - 1) + seq![44u8] + canonical_type(params[i - 1])
    }
}

/// The canonical signature string as bytes:
/// `name(type1,type2,...)`, no whitespace.
pub open spec fn canonical_signature(name: Seq<u8>, params: Seq<AbiType>) -> Seq<u8> {
    name + seq![40u8] + joined_upto(params, params.len() as int) + seq![41u8]
}

/// The Keccak-256 digest of a byte sequence, named but not written
/// out: the digest is a function of the input bytes alone.
pub uninterp spec fn keccak_of(data: Seq<u8>) -> Seq<u8>;

/// Relies on `alloy_primitives::keccak256`: the Keccak-256 digest of
/// the input bytes, 32 bytes long, depending on the input alone.
#[verifier::external_body]
pub(crate) fn keccak(data: &Vec<u8>) -> (r: Vec<u8>)
    ensures
        r@ == keccak_of(data@),
        r@.len() == 32,
{
    alloy_primitives::keccak256(data.as_slice()).as_slice().to_vec()
}

/// The 4-byte selector of a canonical signature: the first four bytes
/// of its Keccak-256 digest.
pub open spec fn selector_of(name: Seq<u8>, params: Seq<AbiType>) -> Seq<u8> {
    keccak_of(canonical_signature(name, params)).subrange(0, 4)
}

/// Appends the decimal digits of `n` to `out`.
fn push_dec(n: u16, out: &mut Vec<u8>)
    ensures
        final(out)@ == old(out)@ + dec_digits(n as nat),
    decreases n,
{
    if n < 10 {
        out.push(48 + n as u8);
    } else {
        push_dec(n / 10, out);
        out.push(48 + (n % 10) as u8);
    }
}

/// Appends the canonical name of `t` to `out`.
fn push_type_name(t: &AbiType, out: &mut Vec<u8>)
    ensures
        final(out)@ == old(out)@ + canonical_type(*t),
{
    match t {
        AbiType::Address => {
            out.push(97);
            out.push(100);
            out.push(100);
            out.push(114);
            out.push(101);
            out.push(115);
            out.push(115);
            assert(final(out)@ =~= old(out)@ + canonical_type(*t));
        },
        AbiType::Uint(bits) => {
            out.push(117);
            out.push(105);
            out.push(110);
            out.push(116);
            push_dec(*bits, out);
            assert(final(out)@ =~= old(out)@ + canonical_type(*t));
        },
    }
}

/// Builds the canonical signature string `name(type1,...)` as bytes.
pub fn signature_bytes(name: &Vec<u8>, params: &Vec<AbiType>) -> (r: Vec<u8>)
    ensures
        r@ == canonical_signature(name@, params@),
{
    let mut out: Vec<u8> = Vec::new();
    let mut i: usize = 0;
    while i < name.len()
        invariant
            i <= name@.len(),
            out@ == name@.subrange(0, i as int),
        decreases name@.len() - i,
    {
        out.push(name[i]);
        i += 1;
        assert(out@ =~= name@.subrange(0, i as int));
    }
    assert(out@ =~= name@);
    out.push(40);
    let mut k: usize = 0;
    while k < params.len()
        invariant
            k <= params@.len(),
            out@ == name@ + seq![40u8] + joined_upto(params@, k as int),
        decreases params@.len() - k,
    {
        if k > 0 {
            out.push(44);
        }
        push_type_name(&params[k], &mut out);
        k += 1;
        assert(out@ =~= name@ + seq![40u8] + joined_upto(params@, k as int));
    }
    out.push(41);
    assert(out@ =~= canonical_signature(name@, params@));
    out
}

/// The 4-byte selector for a function: the first four bytes of the
/// Keccak-256 digest of the canonical signature string.
pub fn selector(name: &Vec<u8>, params: &Vec<AbiType>) -> (r: Vec<u8>)
    ensures
        r@ == selector_of(name@, params@),
        r@.len() == 4,
{
    let sig = signature_bytes(name, params);
    let digest = keccak(&sig);
    let mut out: Vec<u8> = Vec::new();
    let mut i: usize = 0;
    while i < 4
        invariant
            i <= 4,
            digest@.len() == 32,
            digest@ == keccak_of(canonical_signature(name@, params@)),
            out@ == digest@.subrange(0, i as int),
        decreases 4 - i,
    {
        out.push(digest[i]);
        i += 1;
        assert(out@ =~= digest@.subrange(0, i as int));
    }
    assert(out@ =~= selector_of(name@, params@));
    out
}

/// Why an encoding was refused: the argument list does not
/// positionally match the declared parameter types.
#[derive(Clone, Copy, Debug, PartialEq, Eq, Structural)]
pub enum EncodingError {
    /// Argument count differs from the declared parameter count.
    Arity { expected: usize, got: usize },
    /// The argument at `index` does not fit its declared type.
    TypeMismatch { index: usize },
}

/// Why a response payload was refused.
#[derive(Clone, Copy, Debug, PartialEq, Eq, Structural)]
pub enum DecodingError {
    /// The payload length is not a multiple of 32.
    NotWordAligned { len: usize },
    /// The number of 32-byte words differs from the number of
    /// declared return types.
    WordCountMismatch { expected: usize, got: usize },
    /// An `address`-typed word has a non-zero byte among its first 12.
    AddressPadding { word: usize },
    /// A `uint`-typed word holds a value wider than the declared width.
    UintTooWide { word: usize, bits: u16 },
}

/// The `i`-th 32-byte word of a payload.
pub open spec fn word_at(data: Seq<u8>, i: int) -> Seq<u8> {
    data.subrange(32 * i, 32 * i + 32)
}

/// A 32-byte word is acceptable for a declared type: an address word
/// has 12 zero padding bytes; a `uint` word fits the declared width.
pub open spec fn word_ok(t: AbiType, w: Seq<u8>) -> bool {
    match t {
        AbiType::Address => forall|j: int| 0 <= j < 12 ==> w[j] == 0,
        AbiType::Uint(bits) => fits_width(w, bits),
    }
}

/// The value read from an acceptable word: the low 20 bytes of an
/// address word, or the whole `uint` word.
pub open spec fn decoded_word(t: AbiType, w: Seq<u8>) -> AbiValueView {
    match t {
        AbiType::Address => AbiValueView::Address(w.subrange(12, 32)),
        AbiType::Uint(bits) => AbiValueView::Uint(bits, w),
    }
}

/// A payload decodes against a return-type list: word-aligned, one
/// word per type, every word acceptable.
pub open spec fn decode_ok(types: Seq<AbiType>, data: Seq<u8>) -> bool {
    &&& data.len() % 32 == 0
    &&& data.len() == 32 * types.len()
    &&& forall|i: int| 0 <= i < types.len() ==> word_ok(types[i], word_at(data, i))
}

/// The values a payload decodes to, one per declared return type.
pub open spec fn decoded_values(types: Seq<AbiType>, data: Seq<u8>) -> Seq<AbiValueView> {
    Seq::new(types.len(), |i: int| decoded_word(types[i], word_at(data, i)))
}

/// The one decoding error a payload is refused with: alignment first,
/// then word count, then the first unacceptable word, named by its
/// index and the kind of its declared type.
pub open spec fn decode_err_ok(types: Seq<AbiType>, data: Seq<u8>, e: DecodingError) -> bool {
    match e {
        DecodingError::NotWordAligned { len } => {
            &&& len == data.len()
            &&& data.len() % 32 != 0
        },
        DecodingError::WordCountMismatch { expected, got } => {
            &&& data.len() % 32 == 0
            &&& data.len() != 32 * types.len()
            &&& expected == types.len()
            &&& got == data.len() / 32
        },
        DecodingError::AddressPadding { word } => {
            &&& data.len() % 32 == 0
            &&& data.len() == 32 * types.len()
            &&& word < types.len()
            &&& types[word as int] is Address
            &&& !word_ok(types[word as int], word_at(data, word as int))
            &&& forall|j: int| 0 <= j < word ==> word_ok(types[j], word_at(data, j))
        },
        DecodingError::UintTooWide { word, bits } => {
            &&& data.len() % 32 == 0
            &&& data.len() == 32 * types.len()
            &&& word < types.len()
            &&& types[word as int] == AbiType::Uint(bits)
            &&& !word_ok(types[word as int], word_at(data, word as int))
            &&& forall|j: int| 0 <= j < word ==> word_ok(types[j], word_at(data, j))
        },
    }
}

/// Decides whether a value is well formed for a declared type.
pub fn value_fits_exec(v: &AbiValue, t: &AbiType) -> (b: bool)
    ensures
        b == value_fits(v@, *t),
{
    match (v, t) {
        (AbiValue::Address(bytes), AbiType::Address) => bytes.len() == 20,
        (AbiValue::Uint(vbits, w), AbiType::Uint(tbits)) => {
            if *vbits != *tbits || !(0 < *tbits && *tbits <= 256) || *tbits % 8 != 0
                || w.len() != 32 {
                false
            } else {
                let zeros: usize = 32 - (*tbits as usize) / 8;
                range_is_zero(w, 0, zeros)
            }
        },
        _ => false,
    }
}

/// Decides whether the bytes of `data` from `start` to `end` are all
/// zero.
pub(crate) fn range_is_zero(data: &Vec<u8>, start: usize, end: usize) -> (b: bool)
    requires
        start <= end <= data@.len(),
    ensures
        b == forall|i: int| start <= i < end ==> data@[i] == 0,
{
    let mut i: usize = start;
    while i < end
        invariant
            start <= i <= end <= data@.len(),
            forall|j: int| start <= j < i ==> data@[j] == 0,
        decreases end - i,
    {
        if data[i] != 0 {
            return false;
        }
        i += 1;
    }
    true
}

/// Copies a byte vector.
pub(crate) fn clone_bytes(data: &Vec<u8>) -> (r: Vec<u8>)
    ensures
        r@ == data@,
{
    let r = copy_range(data, 0, data.len());
    assert(data@.subrange(0, data@.len() as int) =~= data@);
    r
}

/// Copies the bytes of `data` from `start` to `end` into a new vector.
pub(crate) fn copy_range(data: &Vec<u8>, start: usize, end: usize) -> (r: Vec<u8>)
    requires
        start <= end <= data@.len(),
    ensures
        r@ == data@.subrange(start as int, end as int),
{
    let mut out: Vec<u8> = Vec::new();
    let mut i: usize = start;
    while i < end
        invariant
            start <= i <= end <= data@.len(),
            out@ == data@.subrange(start as int, i as int),
        decreases end - i,
    {
        out.push(data[i]);
        i += 1;
        assert(out@ =~= data@.subrange(start as int, i as int));
    }
    out
}

/// The 32-byte words of the first `i` values, concatenated.
pub open spec fn words_upto(vals: Seq<AbiValueView>, i: int) -> Seq<u8>
    decreases i,
{
    if i <= 0 {
        Seq::empty()
    } else {
        words_upto(vals, i - 1) + word_of(vals[i - 1])
    }
}

/// The full call payload for a signature and argument list: the
/// 4-byte selector followed by one 32-byte word per argument.
pub open spec fn encode_spec(name: Seq<u8>, params: Seq<AbiType>, vals: Seq<AbiValueView>) -> Seq<u8> {
    selector_of(name, params) + words_upto(vals, vals.len() as int)
}

/// Every argument fits its declared parameter type, positionally.
pub open spec fn args_fit(params: Seq<AbiType>, vals: Seq<AbiValueView>) -> bool {
    &&& vals.len() == params.len()
    &&& forall|i: int| 0 <= i < params.len() ==> value_fits(vals[i], params[i])
}

/// Encodes a call: the selector of `name(params)` followed by the
/// arguments as 32-byte words, in order.
///
/// Succeeds exactly when the arguments positionally match the
/// declared parameter types; the payload is then a function of the
/// inputs alone, of length `4 + 32 * n`, so a zero-parameter call
/// encodes to exactly its 4-byte selector and repeated encodings are
/// byte-identical.
pub fn encode(sig: &FunctionSignature, args: &Vec<AbiValue>) -> (r: Result<
    Vec<u8>,
    EncodingError,
>)
    ensures
        r is Ok <==> args_fit(sig.parameter_types@, views(args@)),
        r matches Ok(payload) ==> {
            &&& payload@ == encode_spec(sig.name@, sig.parameter_types@, views(args@))
            &&& payload@.len() == 4 + 32 * args@.len()
        },
        r matches Err(EncodingError::Arity { expected, got }) ==> {
            &&& expected == sig.parameter_types@.len()
            &&& got == args@.len()
            &&& args@.len() != sig.parameter_types@.len()
        },
        r matches Err(EncodingError::TypeMismatch { index }) ==> {
            &&& args@.len() == sig.parameter_types@.len()
            &&& index < sig.parameter_types@.len()
            &&& !value_fits(views(args@)[index as int], sig.parameter_types@[index as int])
            &&& forall|j: int|
                0 <= j < index ==> value_fits(views(args@)[j], sig.parameter_types@[j])
        },
{
    let name = &sig.name;
    let params = &sig.parameter_types;
    if args.len() != params.len() {
        return Err(EncodingError::Arity { expected: params.len(), got: args.len() });
    }
    let mut k: usize = 0;
    while k < params.len()
        invariant
            k <= params@.len(),
            params@ == sig.parameter_types@,
            args@.len() == params@.len(),
            forall|j: int| 0 <= j < k ==> value_fits(views(args@)[j], params@[j]),
        decreases params@.len() - k,
    {
        assert(views(args@)[k as int] == args@[k as int]@);
        if !value_fits_exec(&args[k], &params[k]) {
            return Err(EncodingError::TypeMismatch { index: k });
        }
        k += 1;
    }
    let mut out = selector(name, params);
    let mut i: usize = 0;
    while i < args.len()
        invariant
            i <= args@.len(),
            params@ == sig.parameter_types@,
            name@ == sig.name@,
            args@.len() == params@.len(),
            forall|j: int| 0 <= j < args@.len() ==> value_fits(views(args@)[j], params@[j]),
            out@ == selector_of(name@, params@) + words_upto(views(args@), i as int),
            out@.len() == 4 + 32 * i,
        decreases args@.len() - i,
    {
        assert(views(args@)[i as int] == args@[i as int]@);
        assert(value_fits(views(args@)[i as int], params@[i as int]));
        match &args[i] {
            AbiValue::Address(bytes) => {
                let mut z: usize = 0;
                let ghost mid = out@;
                while z < 12
                    invariant
                        z <= 12,
                        out@ == mid + Seq::new(z as nat, |q: int| 0u8),
                    decreases 12 - z,
                {
                    out.push(0);
                    z += 1;
                    assert(out@ =~= mid + Seq::new(z as nat, |q: int| 0u8));
                }
                let mut b: usize = 0;
                let ghost mid2 = out@;
                while b < bytes.len()
                    invariant
                        b <= bytes@.len(),
                        out@ == mid2 + bytes@.subrange(0, b as int),
                    decreases bytes@.len() - b,
                {
                    out.push(bytes[b]);
                    b += 1;
                    assert(out@ =~= mid2 + bytes@.subrange(0, b as int));
                }
                assert(bytes@.subrange(0, bytes@.len() as int) =~= bytes@);
                assert(out@ =~= selector_of(name@, params@) + words_upto(
                    views(args@),
                    i as int,
                ) + word_of(views(args@)[i as int]));
                assert(out@.len() == 4 + 32 * (i as int) + 32);
            },
            AbiValue::Uint(_, w) => {
                let mut b: usize = 0;
                let ghost mid = out@;
                while b < w.len()
                    invariant
                        b <= w@.len(),
                        out@ == mid + w@.subrange(0, b as int),
                    decreases w@.len() - b,
                {
                    out.push(w[b]);
                    b += 1;
                    assert(out@ =~= mid + w@.subrange(0, b as int));
                }
                assert(w@.subrange(0, w@.len() as int) =~= w@);
                assert(out@ =~= selector_of(name@, params@) + words_upto(
                    views(args@),
                    i as int,
                ) + word_of(views(args@)[i as int]));
                assert(out@.len() == 4 + 32 * (i as int) + 32);
            },
        }
        i += 1;
    }
    Ok(out)
}

/// Decodes a response payload against a return-type list: refuses a
/// payload that is not word-aligned or has the wrong word count, then
/// reads one value per word, validating address padding and declared
/// `uint` widths.
///
/// Succeeds exactly when the payload decodes against the types; the
/// values are then positionally aligned to the type list, and each is
/// well formed for its (well-formed) declared type. A refused payload
/// yields the one error `decode_err_ok` describes: the first
/// unacceptable word, or the length fault before it.
pub fn decode(types: &Vec<AbiType>, data: &Vec<u8>) -> (r: Result<Vec<AbiValue>, DecodingError>)
    ensures
        r is Ok <==> decode_ok(types@, data@),
        r matches Ok(vals) ==> {
            &&& vals@.len() == types@.len()
            &&& views(vals@) == decoded_values(types@, data@)
            &&& forall|i: int|
                0 <= i < types@.len() && type_wf(types@[i]) ==> value_fits(
                    views(vals@)[i],
                    types@[i],
                )
        },
        r matches Err(e) ==> decode_err_ok(types@, data@, e),
{
    if data.len() % 32 != 0 {
        return Err(DecodingError::NotWordAligned { len: data.len() });
    }
    if data.len() / 32 != types.len() {
        return Err(
            DecodingError::WordCountMismatch { expected: types.len(), got: data.len() / 32 },
        );
    }
    let n_bytes: usize = data.len();
    assert(data@.len() == 32 * types@.len()) by {
        assert(data@.len() == 32 * (data@.len() / 32) + data@.len() % 32) by (nonlinear_arith);
    };
    let mut out: Vec<AbiValue> = Vec::new();
    let mut k: usize = 0;
    while k < types.len()
        invariant
            k <= types@.len(),
            data@.len() == n_bytes,
            data@.len() == 32 * types@.len(),
            data@.len() % 32 == 0,
            out@.len() == k,
            forall|j: int| 0 <= j < k ==> word_ok(types@[j], word_at(data@, j)),
            forall|j: int| 0 <= j < k ==> views(out@)[j] == decoded_word(types@[j], word_at(data@, j)),
            forall|j: int|
                0 <= j < k && type_wf(types@[j]) ==> value_fits(views(out@)[j], types@[j]),
        decreases types@.len() - k,
    {
        assert(32 * (k as int) + 32 <= data@.len());
        let base: usize = 32 * k;
        let ghost out0 = out@;
        match types[k] {
            AbiType::Address => {
                if !range_is_zero(data, base, base + 12) {
                    assert(!word_ok(types@[k as int], word_at(data@, k as int))) by {
                        if word_ok(types@[k as int], word_at(data@, k as int)) {
                            assert forall|i: int| base <= i < base + 12 implies data@[i] == 0 by {
                                assert(word_at(data@, k as int)[i - base] == 0);
                            }
                        }
                    };
                    return Err(DecodingError::AddressPadding { word: k });
                }
                let bytes = copy_range(data, base + 12, base + 32);
                assert(word_ok(types@[k as int], word_at(data@, k as int))) by {
                    assert forall|j: int| 0 <= j < 12 implies word_at(data@, k as int)[j] == 0 by {
                        assert(data@[32 * (k as int) + j] == 0);
                    }
                };
                assert(bytes@ =~= word_at(data@, k as int).subrange(12, 32));
                out.push(AbiValue::Address(bytes));
            },
            AbiType::Uint(bits) => {
                let zeros: usize = if bits >= 256 {
                    0
                } else {
                    32 - (bits as usize) / 8
                };
                assert(zeros <= 32);
                if !range_is_zero(data, base, base + zeros) {
                    assert(!word_ok(types@[k as int], word_at(data@, k as int))) by {
                        if word_ok(types@[k as int], word_at(data@, k as int)) {
                            assert forall|i: int| base <= i < base + zeros implies data@[i]
                                == 0 by {
                                assert(word_at(data@, k as int)[i - base] == 0);
                            }
                        }
                    };
                    return Err(DecodingError::UintTooWide { word: k, bits });
                }
                let w = copy_range(data, base, base + 32);
                assert(word_ok(types@[k as int], word_at(data@, k as int))) by {
                    assert forall|j: int| 0 <= j < 32 - (bits as int) / 8 implies word_at(
                        data@,
                        k as int,
                    )[j] == 0 by {
                        assert(data@[32 * (k as int) + j] == 0);
                    }
                };
                assert(w@ =~= word_at(data@, k as int));
                out.push(AbiValue::Uint(bits, w));
            },
        }
        k += 1;
        assert(out@[k - 1]@ == decoded_word(types@[k - 1], word_at(data@, k - 1)));
        assert forall|j: int| 0 <= j < k implies views(out@)[j] == decoded_word(
            types@[j],
            word_at(data@, j),
        ) by {
            assert(views(out@)[j] == out@[j]@);
            if j < k - 1 {
                assert(out@[j] == out0[j]);
                assert(views(out0)[j] == out0[j]@);
            }
        }
        assert forall|j: int| 0 <= j < k && type_wf(types@[j]) implies value_fits(
            views(out@)[j],
            types@[j],
        ) by {
            assert(views(out@)[j] == decoded_word(types@[j], word_at(data@, j)));
            assert(word_ok(types@[j], word_at(data@, j)));
            assert(word_at(data@, j).len() == 32);
        }
    }
    assert(views(out@) =~= decoded_values(types@, data@));
    Ok(out)
}

/// Round trip of one value: the word that encodes a value fitting its
/// declared type is acceptable for that type and decodes back to the
/// same value.
pub proof fn lemma_word_round_trip(t: AbiType, v: AbiValueView)
    requires
        value_fits(v, t),
    ensures
        word_of(v).len() == 32,
        word_ok(t, word_of(v)),
        decoded_word(t, word_of(v)) == v,
{
    match v {
        AbiValueView::Address(b) => {
            assert(word_of(v).subrange(12, 32) =~= b);
        },
        AbiValueView::Uint(_, _) => {},
    }
}

/// The concatenated words of the first `i` values are `32 * i` bytes
/// long, when each word is 32 bytes.
pub proof fn lemma_words_upto_len(vals: Seq<AbiValueView>, i: int)
    requires
        forall|j: int| 0 <= j < i ==> word_of(vals[j]).len() == 32,
    ensures
        words_upto(vals, i).len() == 32 * (if i <= 0 { 0int } else { i }),
    decreases i,
{
    if i > 0 {
        lemma_words_upto_len(vals, i - 1);
    }
}

/// The `i`-th 32-byte word of the concatenation of `n` words is the
/// word of the `i`-th value.
pub proof fn lemma_word_at_concat(vals: Seq<AbiValueView>, n: int, i: int)
    requires
        0 <= i < n <= vals.len(),
        forall|j: int| 0 <= j < n ==> word_of(vals[j]).len() == 32,
    ensures
        word_at(words_upto(vals, n), i) == word_of(vals[i]),
    decreases n,
{
    lemma_words_upto_len(vals, n - 1);
    if i == n - 1 {
        assert(word_at(words_upto(vals, n), i) =~= word_of(vals[i]));
    } else {
        assert(word_at(words_upto(vals, n), i) =~= word_at(words_upto(vals, n - 1), i));
        lemma_word_at_concat(vals, n - 1, i);
    }
}

/// Round trip of a value list: for every list of values positionally
/// fitting a declared type list, the concatenation of their 32-byte
/// words decodes against those types, back to the same values.
pub proof fn lemma_round_trip(types: Seq<AbiType>, vals: Seq<AbiValueView>)
    requires
        args_fit(types, vals),
    ensures
        decode_ok(types, words_upto(vals, vals.len() as int)),
        decoded_values(types, words_upto(vals, vals.len() as int)) == vals,
{
    let n = vals.len() as int;
    let data = words_upto(vals, n);
    assert forall|j: int| 0 <= j < n implies word_of(vals[j]).len() == 32 by {
        lemma_word_round_trip(types[j], vals[j]);
    }
    lemma_words_upto_len(vals, n);
    assert(data.len() == 32 * types.len());
    assert(data.len() % 32 == 0) by {
        assert((32 * types.len()) % 32 == 0) by (nonlinear_arith);
    };
    assert forall|i: int| 0 <= i < n implies word_ok(types[i], word_at(data, i)) && decoded_word(
        types[i],
        word_at(data, i),
    ) == vals[i] by {
        lemma_word_at_concat(vals, n, i);
        lemma_word_round_trip(types[i], vals[i]);
    }
    assert(decoded_values(types, data) =~= vals);
}

} // verus!
