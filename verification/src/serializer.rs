//! Type-length-value encoder for the data section of a database file.
//!
//! Every encoded value starts with a control byte sequence: a first byte
//! holding a three-bit type prefix and a five-bit length class, an extended
//! type byte for type codes above 7, and up to three big-endian bytes that
//! extend the length.  The payload follows.
use vstd::prelude::*;

verus! {

/// Largest payload length the control byte scheme can express.
pub const MAX_LENGTH: usize = 16_843_036;

/// Errors surfaced by the encoder stack.
#[derive(Debug, Clone, PartialEq, Eq)]
pub enum Error {
    /// An underlying sink failed.  Raised only by unverified sinks around
    /// this library; the in-memory buffers used here never fail.
    IO,
    /// A serialization driver reported an error of its own.
    Custom(String),
    /// A container was written without a known length.
    UnknownLength,
    /// A single payload exceeds `MAX_LENGTH` bytes.
    LengthOutOfRange,
    /// A signed integer does not fit into 32 bits.
    IntegerOutOfRange,
}

/// Type codes of the format.  Codes 1, 12 and 13 (pointers, containers and
/// end markers) are never written from user data and have no variant here.
#[derive(Clone, Copy, Debug, PartialEq, Eq, Structural)]
pub enum TypeId {
    Text,
    Double,
    Bytes,
    Uint16,
    Uint32,
    Mapping,
    Int32,
    Uint64,
    Uint128,
    Array,
    Boolean,
    Float,
}

impl TypeId {
    /// The integer code of this type on the wire.
    pub open spec fn spec_code(self) -> int {
        match self {
            TypeId::Text => 2,
            TypeId::Double => 3,
            TypeId::Bytes => 4,
            TypeId::Uint16 => 5,
            TypeId::Uint32 => 6,
            TypeId::Mapping => 7,
            TypeId::Int32 => 8,
            TypeId::Uint64 => 9,
            TypeId::Uint128 => 10,
            TypeId::Array => 11,
            TypeId::Boolean => 14,
            TypeId::Float => 15,
        }
    }

    /// The integer code of this type on the wire.
    pub fn code(self) -> (r: u8)
        ensures
            r == self.spec_code(),
    {
        match self {
            TypeId::Text => 2,
            TypeId::Double => 3,
            TypeId::Bytes => 4,
            TypeId::Uint16 => 5,
            TypeId::Uint32 => 6,
            TypeId::Mapping => 7,
            TypeId::Int32 => 8,
            TypeId::Uint64 => 9,
            TypeId::Uint128 => 10,
            TypeId::Array => 11,
            TypeId::Boolean => 14,
            TypeId::Float => 15,
        }
    }
}

/// The big-endian bytes of `v mod 256^n`, exactly `n` bytes long.
pub open spec fn be_bytes_fixed(v: nat, n: nat) -> Seq<u8>
    decreases n,
{
    if n == 0 {
        Seq::empty()
    } else {
        be_bytes_fixed(v / 256, (n - 1) as nat).push((v % 256) as u8)
    }
}

/// How many bytes the big-endian form of `v` takes once leading zero bytes
/// are stripped; zero for `v == 0`.
pub open spec fn spec_uint_len(v: nat) -> nat
    decreases v,
{
    if v == 0 {
        0
    } else {
        1 + spec_uint_len(v / 256)
    }
}

/// The big-endian bytes of `v` with leading zero bytes stripped.
pub open spec fn be_bytes_trimmed(v: nat) -> Seq<u8> {
    be_bytes_fixed(v, spec_uint_len(v))
}

/// High three bits of the first control byte: the type code for codes up
/// to 7, zero for extended codes.
pub open spec fn spec_type_prefix(t: int) -> int {
    if t <= 7 {
        32 * t
    } else {
        0
    }
}

/// The extended type byte, written for codes above 7, directly after the
/// first control byte and before any length extension bytes.
pub open spec fn spec_ext_type(t: int) -> Seq<u8> {
    if t > 7 {
        seq![(t - 7) as u8]
    } else {
        Seq::empty()
    }
}

/// The control byte sequence announcing a value of type code `t` with a
/// payload length `s`, for `0 <= s <= MAX_LENGTH` and a valid type code.
pub open spec fn spec_control_bytes(t: int, s: int) -> Seq<u8> {
    let first = spec_type_prefix(t);
    if s < 29 {
        seq![(first + s) as u8] + spec_ext_type(t)
    } else if s < 285 {
        seq![(first + 29) as u8] + spec_ext_type(t) + seq![(s - 29) as u8]
    } else if s < 65821 {
        seq![(first + 30) as u8] + spec_ext_type(t) + be_bytes_fixed((s - 285) as nat, 2)
    } else {
        seq![(first + 31) as u8] + spec_ext_type(t) + be_bytes_fixed((s - 65821) as nat, 3)
    }
}

/// Appends the control byte sequence for type `type_id` and payload length
/// `size`, or rejects a length the scheme cannot express.
pub fn write_control(out: &mut Vec<u8>, type_id: TypeId, size: usize) -> (r: Result<(), Error>)
    ensures
        size <= MAX_LENGTH ==> r is Ok && final(out)@ == old(out)@ + spec_control_bytes(
            type_id.spec_code(),
            size as int,
        ),
        size > MAX_LENGTH ==> r == Err::<(), Error>(Error::LengthOutOfRange) && final(out)@ == old(
            out,
        )@,
{
    if size > MAX_LENGTH {
        return Err(Error::LengthOutOfRange);
    }
    let t = type_id.code();
    let first: u8 = if t <= 7 {
        32 * t
    } else {
        0
    };

    // first byte, holding the length class in its low five bits
    if size < 29 {
        out.push(first + (size as u8));
    } else if size < 285 {
        out.push(first + 29);
    } else if size < 65821 {
        out.push(first + 30);
    } else {
        out.push(first + 31);
    }

    // extended type byte
    if t > 7 {
        out.push(t - 7);
    }

    // length extension bytes, big-endian
    if size < 29 {
        // none
    } else if size < 285 {
        out.push((size - 29) as u8);
    } else if size < 65821 {
        let v = size - 285;
        out.push((v / 256) as u8);
        out.push((v % 256) as u8);
    } else {
        let v = size - 65821;
        out.push((v / 65536) as u8);
        out.push(((v / 256) % 256) as u8);
        out.push((v % 256) as u8);
    }

    proof {
        reveal_with_fuel(be_bytes_fixed, 4);
        assert(out@ =~= old(out)@ + spec_control_bytes(type_id.spec_code(), size as int));
    }
    Ok(())
}

/// The big-endian bytes of `v` with leading zero bytes stripped, as a vector.
pub fn be_bytes_trimmed_vec(v: u128) -> (r: Vec<u8>)
    ensures
        r@ == be_bytes_trimmed(v as nat),
        r@.len() == spec_uint_len(v as nat),
    decreases v,
{
    if v == 0 {
        Vec::new()
    } else {
        let mut r = be_bytes_trimmed_vec(v / 256);
        r.push((v % 256) as u8);
        proof {
            assert(spec_uint_len(v as nat) == 1 + spec_uint_len((v / 256) as nat));
            assert(be_bytes_trimmed(v as nat) == be_bytes_fixed(
                (v / 256) as nat,
                spec_uint_len((v / 256) as nat),
            ).push((v % 256) as u8));
        }
        r
    }
}

/// A value below `256^n` strips to at most `n` bytes.
proof fn lemma_uint_len_le(v: nat, n: nat)
    requires
        v < vstd::arithmetic::power::pow(256, n),
    ensures
        spec_uint_len(v) <= n,
    decreases n,
{
    reveal(vstd::arithmetic::power::pow);
    vstd::arithmetic::power::lemma_pow_positive(256, n);
    if v > 0 {
        if n == 0 {
            assert(vstd::arithmetic::power::pow(256, 0) == 1);
        }
        assert(vstd::arithmetic::power::pow(256, n) == 256 * vstd::arithmetic::power::pow(
            256,
            (n - 1) as nat,
        ));
        assert(v / 256 < vstd::arithmetic::power::pow(256, (n - 1) as nat)) by (nonlinear_arith)
            requires
                v < 256 * vstd::arithmetic::power::pow(256, (n - 1) as nat),
        ;
        lemma_uint_len_le(v / 256, (n - 1) as nat);
    }
}

/// No unsigned integer of up to 128 bits strips to more than 16 bytes.
proof fn lemma_uint_len_le_16(v: u128)
    ensures
        spec_uint_len(v as nat) <= 16,
{
    vstd::arithmetic::power2::lemma2_to64();
    vstd::arithmetic::power2::lemma_pow2_adds(64, 64);
    vstd::arithmetic::power2::lemma_pow2(128);
    vstd::arithmetic::power2::lemma_pow2(8);
    vstd::arithmetic::power::lemma_pow_multiplies(2, 8, 16);
    assert(vstd::arithmetic::power::pow(256, 16) == vstd::arithmetic::power2::pow2(128));
    lemma_uint_len_le(v as nat, 16);
}

/// Appends the full encoding of an unsigned integer: a control byte sequence
/// for `type_id`, then the big-endian payload with leading zeros stripped.
pub fn write_uint(out: &mut Vec<u8>, type_id: TypeId, v: u128) -> (r: Result<(), Error>)
    ensures
        r is Ok,
        final(out)@ == old(out)@ + spec_control_bytes(
            type_id.spec_code(),
            spec_uint_len(v as nat) as int,
        ) + be_bytes_trimmed(v as nat),
{
    let bytes = be_bytes_trimmed_vec(v);
    proof {
        lemma_uint_len_le_16(v);
    }
    let _ = write_control(out, type_id, bytes.len());
    out.extend_from_slice(bytes.as_slice());
    Ok(())
}

/// A structured value of the data section.  Floating point numbers are
/// carried as their IEEE-754 bit patterns, so that the encoder itself works
/// on integers only; text is carried as UTF-8 strings and measured in bytes.
#[derive(Debug)]
pub enum Value {
    Boolean(bool),
    Uint16(u16),
    Uint32(u32),
    Uint64(u64),
    Uint128(u128),
    Int32(i32),
    /// IEEE-754 single-precision bit pattern.
    Float32(u32),
    /// IEEE-754 double-precision bit pattern.
    Float64(u64),
    Text(String),
    Bytes(Vec<u8>),
    Array(Vec<Value>),
    Mapping(Vec<(Value, Value)>),
}

/// Control bytes and stripped big-endian payload of one unsigned integer.
pub open spec fn spec_enc_uint(t: int, v: nat) -> Seq<u8> {
    spec_control_bytes(t, spec_uint_len(v) as int) + be_bytes_trimmed(v)
}

/// UTF-8 bytes of a string, as `str::as_bytes` yields them.
pub open spec fn spec_str_bytes(s: Seq<char>) -> Seq<u8> {
    vstd::utf8::encode_utf8(s)
}

/// Control bytes and UTF-8 payload of one text value.
pub open spec fn spec_enc_text(s: Seq<char>) -> Seq<u8> {
    spec_control_bytes(2, spec_str_bytes(s).len() as int) + spec_str_bytes(s)
}

/// The full encoding of a value: control byte sequence, then payload;
/// containers carry their element count in the control bytes and the
/// elements' own encodings as payload.  Meaningful when the value fits,
/// see `spec_value_fits`.
pub open spec fn spec_encode_value(v: Value) -> Seq<u8>
    decreases v,
{
    match v {
        Value::Boolean(b) => spec_control_bytes(14, if b { 1int } else { 0int }),
        Value::Uint16(x) => spec_enc_uint(5, x as nat),
        Value::Uint32(x) => spec_enc_uint(6, x as nat),
        Value::Uint64(x) => spec_enc_uint(9, x as nat),
        Value::Uint128(x) => spec_enc_uint(10, x as nat),
        Value::Int32(x) => spec_control_bytes(8, 4) + be_bytes_fixed((x as u32) as nat, 4),
        Value::Float32(bits) => spec_control_bytes(15, 4) + be_bytes_fixed(bits as nat, 4),
        Value::Float64(bits) => spec_control_bytes(3, 8) + be_bytes_fixed(bits as nat, 8),
        Value::Text(s) => spec_enc_text(s@),
        Value::Bytes(b) => spec_control_bytes(4, b@.len() as int) + b@,
        Value::Array(items) => spec_control_bytes(11, items@.len() as int) + spec_encode_list(
            items@,
        ),
        Value::Mapping(entries) => spec_control_bytes(7, entries@.len() as int)
            + spec_encode_entries(entries@),
    }
}

/// Concatenated encodings of a sequence of values.
pub open spec fn spec_encode_list(s: Seq<Value>) -> Seq<u8>
    decreases s,
{
    if s.len() == 0 {
        Seq::empty()
    } else {
        spec_encode_value(s[0]) + spec_encode_list(s.drop_first())
    }
}

/// Concatenated encodings of a sequence of key-value pairs, key first.
pub open spec fn spec_encode_entries(s: Seq<(Value, Value)>) -> Seq<u8>
    decreases s,
{
    if s.len() == 0 {
        Seq::empty()
    } else {
        spec_encode_value(s[0].0) + spec_encode_value(s[0].1) + spec_encode_entries(s.drop_first())
    }
}

/// Whether every payload length inside `v` stays within `MAX_LENGTH`, so
/// that the whole value can be framed by control bytes.
pub open spec fn spec_value_fits(v: Value) -> bool
    decreases v,
{
    match v {
        Value::Text(s) => spec_str_bytes(s@).len() <= MAX_LENGTH,
        Value::Bytes(b) => b@.len() <= MAX_LENGTH,
        Value::Array(items) => items@.len() <= MAX_LENGTH && (forall|i: int|
            0 <= i < items@.len() ==> spec_value_fits(#[trigger] items@[i])),
        Value::Mapping(entries) => entries@.len() <= MAX_LENGTH && (forall|i: int|
            0 <= i < entries@.len() ==> spec_value_fits(#[trigger] entries@[i].0)
                && spec_value_fits(entries@[i].1)),
        _ => true,
    }
}

/// Appending keeps the original bytes as a prefix.
pub(crate) proof fn lemma_prefix_concat(a: Seq<u8>, b: Seq<u8>)
    ensures
        a.is_prefix_of(a + b),
{
    assert(a =~= (a + b).subrange(0, a.len() as int));
}

/// Being a prefix is transitive.
pub(crate) proof fn lemma_prefix_trans(a: Seq<u8>, b: Seq<u8>, c: Seq<u8>)
    requires
        a.is_prefix_of(b),
        b.is_prefix_of(c),
    ensures
        a.is_prefix_of(c),
{
    assert(a =~= c.subrange(0, a.len() as int));
}

/// Encoding a list extended by one value appends that value's encoding.
proof fn lemma_encode_list_push(s: Seq<Value>, x: Value)
    ensures
        spec_encode_list(s.push(x)) == spec_encode_list(s) + spec_encode_value(x),
    decreases s.len(),
{
    if s.len() == 0 {
        assert(s.push(x).drop_first() =~= Seq::<Value>::empty());
        assert(s.push(x)[0] == x);
        assert(spec_encode_list(Seq::<Value>::empty()) == Seq::<u8>::empty());
        assert(spec_encode_list(s) == Seq::<u8>::empty());
        assert(spec_encode_list(s.push(x)) == spec_encode_value(x) + Seq::<u8>::empty());
        assert(spec_encode_value(x) + Seq::<u8>::empty() =~= spec_encode_value(x));
        assert(spec_encode_list(s) + spec_encode_value(x) =~= spec_encode_value(x));
    } else {
        lemma_encode_list_push(s.drop_first(), x);
        assert(s.push(x).drop_first() =~= s.drop_first().push(x));
        assert(s.push(x)[0] == s[0]);
        assert(spec_encode_list(s.push(x)) == spec_encode_value(s[0]) + spec_encode_list(
            s.drop_first().push(x),
        ));
        assert((spec_encode_value(s[0]) + spec_encode_list(s.drop_first())) + spec_encode_value(x)
            =~= spec_encode_value(s[0]) + (spec_encode_list(s.drop_first()) + spec_encode_value(
            x,
        )));
    }
}

/// Encoding an entry list extended by one pair appends the pair's encodings.
proof fn lemma_encode_entries_push(s: Seq<(Value, Value)>, x: (Value, Value))
    ensures
        spec_encode_entries(s.push(x)) == spec_encode_entries(s) + spec_encode_value(x.0)
            + spec_encode_value(x.1),
    decreases s.len(),
{
    if s.len() == 0 {
        assert(s.push(x).drop_first() =~= Seq::<(Value, Value)>::empty());
        assert(s.push(x)[0] == x);
        assert(spec_encode_entries(Seq::<(Value, Value)>::empty()) == Seq::<u8>::empty());
        assert(spec_encode_entries(s) == Seq::<u8>::empty());
        assert(spec_encode_entries(s.push(x)) == spec_encode_value(x.0) + spec_encode_value(x.1)
            + Seq::<u8>::empty());
        assert(spec_encode_value(x.0) + spec_encode_value(x.1) + Seq::<u8>::empty()
            =~= spec_encode_value(x.0) + spec_encode_value(x.1));
        assert(spec_encode_entries(s) + spec_encode_value(x.0) + spec_encode_value(x.1)
            =~= spec_encode_value(x.0) + spec_encode_value(x.1));
    } else {
        lemma_encode_entries_push(s.drop_first(), x);
        assert(s.push(x).drop_first() =~= s.drop_first().push(x));
        assert(s.push(x)[0] == s[0]);
        assert(spec_encode_entries(s.push(x)) == spec_encode_value(s[0].0) + spec_encode_value(
            s[0].1,
        ) + spec_encode_entries(s.drop_first().push(x)));
        assert(spec_encode_value(s[0].0) + spec_encode_value(s[0].1) + (spec_encode_entries(
            s.drop_first(),
        ) + spec_encode_value(x.0) + spec_encode_value(x.1)) =~= (spec_encode_value(s[0].0)
            + spec_encode_value(s[0].1) + spec_encode_entries(s.drop_first()))
            + spec_encode_value(x.0) + spec_encode_value(x.1));
    }
}

/// Appends the four big-endian bytes of `v`.
pub(crate) fn push_be4(out: &mut Vec<u8>, v: u32)
    ensures
        final(out)@ == old(out)@ + be_bytes_fixed(v as nat, 4),
{
    out.push((v / 0x100_0000) as u8);
    out.push(((v / 0x1_0000) % 256) as u8);
    out.push(((v / 256) % 256) as u8);
    out.push((v % 256) as u8);
    proof {
        reveal_with_fuel(be_bytes_fixed, 5);
        assert(out@ =~= old(out)@ + be_bytes_fixed(v as nat, 4));
    }
}

/// Appends the eight big-endian bytes of `v`.
#[verifier::spinoff_prover]
#[verifier::rlimit(100)]
fn push_be8(out: &mut Vec<u8>, v: u64)
    ensures
        final(out)@ == old(out)@ + be_bytes_fixed(v as nat, 8),
{
    out.push((v / 0x100_0000_0000_0000) as u8);
    out.push(((v / 0x1_0000_0000_0000) % 256) as u8);
    out.push(((v / 0x100_0000_0000) % 256) as u8);
    out.push(((v / 0x1_0000_0000) % 256) as u8);
    out.push(((v / 0x100_0000) % 256) as u8);
    out.push(((v / 0x1_0000) % 256) as u8);
    out.push(((v / 256) % 256) as u8);
    out.push((v % 256) as u8);
    proof {
        reveal_with_fuel(be_bytes_fixed, 9);
        assert(out@ =~= old(out)@ + be_bytes_fixed(v as nat, 8));
    }
}

/// Appends the full encoding of `v`: control byte sequence, then payload,
/// recursing into containers.  On failure the bytes written so far stay in
/// the buffer and the caller treats it as poisoned.
#[verifier::loop_isolation(false)]
#[verifier::rlimit(60)]
pub fn write_value(out: &mut Vec<u8>, v: &Value) -> (r: Result<(), Error>)
    ensures
        r is Ok <==> spec_value_fits(*v),
        r is Ok ==> final(out)@ == old(out)@ + spec_encode_value(*v),
        r is Err ==> r == Err::<(), Error>(Error::LengthOutOfRange) && old(out)@.is_prefix_of(
            final(out)@,
        ),
    decreases *v,
{
    match v {
        Value::Boolean(b) => {
            let _ = write_control(out, TypeId::Boolean, if *b { 1 } else { 0 });
            Ok(())
        },
        Value::Uint16(x) => {
            let r = write_uint(out, TypeId::Uint16, *x as u128);
            proof {
                assert(out@ =~= old(out)@ + spec_encode_value(*v));
            }
            r
        },
        Value::Uint32(x) => {
            let r = write_uint(out, TypeId::Uint32, *x as u128);
            proof {
                assert(out@ =~= old(out)@ + spec_encode_value(*v));
            }
            r
        },
        Value::Uint64(x) => {
            let r = write_uint(out, TypeId::Uint64, *x as u128);
            proof {
                assert(out@ =~= old(out)@ + spec_encode_value(*v));
            }
            r
        },
        Value::Uint128(x) => {
            let r = write_uint(out, TypeId::Uint128, *x);
            proof {
                assert(out@ =~= old(out)@ + spec_encode_value(*v));
            }
            r
        },
        Value::Int32(x) => {
            let _ = write_control(out, TypeId::Int32, 4);
            push_be4(out, *x as u32);
            proof {
                assert(out@ =~= old(out)@ + spec_encode_value(*v));
            }
            Ok(())
        },
        Value::Float32(bits) => {
            let _ = write_control(out, TypeId::Float, 4);
            push_be4(out, *bits);
            proof {
                assert(out@ =~= old(out)@ + spec_encode_value(*v));
            }
            Ok(())
        },
        Value::Float64(bits) => {
            let _ = write_control(out, TypeId::Double, 8);
            push_be8(out, *bits);
            proof {
                assert(out@ =~= old(out)@ + spec_encode_value(*v));
            }
            Ok(())
        },
        Value::Text(s) => {
            let bs = s.as_str().as_bytes();
            match write_control(out, TypeId::Text, bs.len()) {
                Ok(()) => {
                    out.extend_from_slice(bs);
                    proof {
                        assert(out@ =~= old(out)@ + spec_encode_value(*v));
                    }
                    Ok(())
                },
                Err(e) => {
                    proof {
                        lemma_prefix_concat(old(out)@, Seq::empty());
                        assert(old(out)@ + Seq::<u8>::empty() =~= old(out)@);
                    }
                    Err(e)
                },
            }
        },
        Value::Bytes(b) => {
            match write_control(out, TypeId::Bytes, b.len()) {
                Ok(()) => {
                    out.extend_from_slice(b.as_slice());
                    proof {
                        assert(out@ =~= old(out)@ + spec_encode_value(*v));
                    }
                    Ok(())
                },
                Err(e) => {
                    proof {
                        lemma_prefix_concat(old(out)@, Seq::empty());
                        assert(old(out)@ + Seq::<u8>::empty() =~= old(out)@);
                    }
                    Err(e)
                },
            }
        },
        Value::Array(items) => write_list(out, items),
        Value::Mapping(entries) => write_map_entries(out, entries),
    }
}

/// Appends the encoding of an array value: a control byte sequence carrying
/// the element count, then each element's encoding in order.
#[verifier::loop_isolation(false)]
#[verifier::rlimit(60)]
fn write_list(out: &mut Vec<u8>, items: &Vec<Value>) -> (r: Result<(), Error>)
    ensures
        r is Ok <==> spec_value_fits(Value::Array(*items)),
        r is Ok ==> final(out)@ == old(out)@ + spec_encode_value(Value::Array(*items)),
        r is Err ==> r == Err::<(), Error>(Error::LengthOutOfRange) && old(out)@.is_prefix_of(
            final(out)@,
        ),
    decreases items@,
{
    match write_control(out, TypeId::Array, items.len()) {
        Ok(()) => {},
        Err(e) => {
            proof {
                lemma_prefix_concat(old(out)@, Seq::empty());
                assert(old(out)@ + Seq::<u8>::empty() =~= old(out)@);
            }
            return Err(e);
        },
    }
    let mut i: usize = 0;
    while i < items.len()
        invariant
            i <= items@.len(),
            items@.len() <= MAX_LENGTH,
            out@ == old(out)@ + spec_control_bytes(11, items@.len() as int) + spec_encode_list(
                items@.take(i as int),
            ),
            forall|j: int| 0 <= j < i ==> spec_value_fits(#[trigger] items@[j]),
        decreases items@.len() - i,
    {
        let ghost pre = out@;
        match write_value(out, &items[i]) {
            Ok(()) => {},
            Err(e) => {
                proof {
                    lemma_prefix_concat(old(out)@, pre.skip(old(out)@.len() as int));
                    assert(old(out)@ + pre.skip(old(out)@.len() as int) =~= pre);
                    lemma_prefix_trans(old(out)@, pre, out@);
                }
                return Err(e);
            },
        }
        proof {
            lemma_encode_list_push(items@.take(i as int), items@[i as int]);
            assert(items@.take(i as int).push(items@[i as int]) =~= items@.take(i as int + 1));
            assert(out@ =~= old(out)@ + spec_control_bytes(11, items@.len() as int)
                + spec_encode_list(items@.take(i as int + 1)));
        }
        i += 1;
    }
    proof {
        assert(items@.take(items@.len() as int) =~= items@);
        assert(out@ =~= old(out)@ + spec_encode_value(Value::Array(*items)));
    }
    Ok(())
}

/// Appends the encoding of a map value: a control byte sequence carrying the
/// entry count, then each entry as key encoding followed by value encoding.
#[verifier::loop_isolation(false)]
#[verifier::rlimit(60)]
fn write_map_entries(out: &mut Vec<u8>, entries: &Vec<(Value, Value)>) -> (r: Result<(), Error>)
    ensures
        r is Ok <==> spec_value_fits(Value::Mapping(*entries)),
        r is Ok ==> final(out)@ == old(out)@ + spec_encode_value(Value::Mapping(*entries)),
        r is Err ==> r == Err::<(), Error>(Error::LengthOutOfRange) && old(out)@.is_prefix_of(
            final(out)@,
        ),
    decreases entries@,
{
    match write_control(out, TypeId::Mapping, entries.len()) {
        Ok(()) => {},
        Err(e) => {
            proof {
                lemma_prefix_concat(old(out)@, Seq::empty());
                assert(old(out)@ + Seq::<u8>::empty() =~= old(out)@);
            }
            return Err(e);
        },
    }
    let mut i: usize = 0;
    while i < entries.len()
        invariant
            i <= entries@.len(),
            entries@.len() <= MAX_LENGTH,
            out@ == old(out)@ + spec_control_bytes(7, entries@.len() as int) + spec_encode_entries(
                entries@.take(i as int),
            ),
            forall|j: int|
                #![trigger entries@[j]]
                0 <= j < i ==> spec_value_fits(entries@[j].0) && spec_value_fits(entries@[j].1),
        decreases entries@.len() - i,
    {
        let ghost pre = out@;
        match write_value(out, &entries[i].0) {
            Ok(()) => {},
            Err(e) => {
                proof {
                    lemma_prefix_concat(old(out)@, pre.skip(old(out)@.len() as int));
                    assert(old(out)@ + pre.skip(old(out)@.len() as int) =~= pre);
                    lemma_prefix_trans(old(out)@, pre, out@);
                }
                return Err(e);
            },
        }
        let ghost mid = out@;
        match write_value(out, &entries[i].1) {
            Ok(()) => {},
            Err(e) => {
                proof {
                    lemma_prefix_concat(old(out)@, mid.skip(old(out)@.len() as int));
                    assert(old(out)@ + mid.skip(old(out)@.len() as int) =~= mid);
                    lemma_prefix_trans(old(out)@, mid, out@);
                }
                return Err(e);
            },
        }
        proof {
            assert(spec_value_fits(entries@[i as int].0));
            assert(spec_value_fits(entries@[i as int].1));
            lemma_encode_entries_push(entries@.take(i as int), entries@[i as int]);
            assert(entries@.take(i as int).push(entries@[i as int]) =~= entries@.take(
                i as int + 1,
            ));
            assert(out@ =~= old(out)@ + spec_control_bytes(7, entries@.len() as int)
                + spec_encode_entries(entries@.take(i as int + 1)));
        }
        i += 1;
    }
    proof {
        assert(entries@.take(entries@.len() as int) =~= entries@);
        assert(out@ =~= old(out)@ + spec_encode_value(Value::Mapping(*entries)));
    }
    Ok(())
}


/// Appends the encoding of a string: control bytes counting UTF-8 bytes,
/// then the UTF-8 payload.
pub fn write_str(out: &mut Vec<u8>, v: &str) -> (r: Result<(), Error>)
    ensures
        r is Ok <==> spec_str_bytes(v@).len() <= MAX_LENGTH,
        r is Ok ==> final(out)@ == old(out)@ + spec_enc_text(v@),
        r is Err ==> r == Err::<(), Error>(Error::LengthOutOfRange) && final(out)@ == old(out)@,
{
    let bs = v.as_bytes();
    match write_control(out, TypeId::Text, bs.len()) {
        Ok(()) => {
            out.extend_from_slice(bs);
            proof {
                assert(out@ =~= old(out)@ + spec_enc_text(v@));
            }
            Ok(())
        },
        Err(e) => Err(e),
    }
}

/// Serializes values into an owned byte buffer using the type-length-value
/// scheme.  Encoding is deterministic: the bytes appended depend only on the
/// values written, in order.
pub struct Serializer {
    writer: Vec<u8>,
}

impl View for Serializer {
    type V = Seq<u8>;

    closed spec fn view(&self) -> Seq<u8> {
        self.writer@
    }
}

impl Serializer {
    /// Wraps a byte buffer; encoded values are appended to it.
    pub fn new(writer: Vec<u8>) -> (r: Serializer)
        ensures
            r@ == writer@,
    {
        Serializer { writer }
    }

    /// Hands the byte buffer back.
    pub fn into_inner(self) -> (r: Vec<u8>)
        ensures
            r@ == self@,
    {
        self.writer
    }

    /// Appends the control byte sequence for `type_id` and payload length
    /// `size`; see the free function `write_control`.
    pub fn write_control(&mut self, type_id: TypeId, size: usize) -> (r: Result<(), Error>)
        ensures
            size <= MAX_LENGTH ==> r is Ok && final(self)@ == old(self)@ + spec_control_bytes(
                type_id.spec_code(),
                size as int,
            ),
            size > MAX_LENGTH ==> r == Err::<(), Error>(Error::LengthOutOfRange) && final(self)@
                == old(self)@,
    {
        write_control(&mut self.writer, type_id, size)
    }

    /// Appends the full encoding of `v`; see the free function `write_value`.
    pub fn serialize_value(&mut self, v: &Value) -> (r: Result<(), Error>)
        ensures
            r is Ok <==> spec_value_fits(*v),
            r is Ok ==> final(self)@ == old(self)@ + spec_encode_value(*v),
            r is Err ==> r == Err::<(), Error>(Error::LengthOutOfRange) && old(
                self,
            )@.is_prefix_of(final(self)@),
    {
        write_value(&mut self.writer, v)
    }

    /// Encodes a boolean: its truth value is carried in the length field and
    /// it has no payload.
    pub fn serialize_bool(&mut self, v: bool) -> (r: Result<(), Error>)
        ensures
            r is Ok,
            final(self)@ == old(self)@ + spec_encode_value(Value::Boolean(v)),
    {
        write_value(&mut self.writer, &Value::Boolean(v))
    }

    /// Encodes a byte as an unsigned 16-bit integer.
    pub fn serialize_u8(&mut self, v: u8) -> (r: Result<(), Error>)
        ensures
            r is Ok,
            final(self)@ == old(self)@ + spec_encode_value(Value::Uint16(v as u16)),
    {
        write_value(&mut self.writer, &Value::Uint16(v as u16))
    }

    /// Encodes an unsigned 16-bit integer, leading zero bytes stripped.
    pub fn serialize_u16(&mut self, v: u16) -> (r: Result<(), Error>)
        ensures
            r is Ok,
            final(self)@ == old(self)@ + spec_encode_value(Value::Uint16(v)),
    {
        write_value(&mut self.writer, &Value::Uint16(v))
    }

    /// Encodes an unsigned 32-bit integer, leading zero bytes stripped.
    pub fn serialize_u32(&mut self, v: u32) -> (r: Result<(), Error>)
        ensures
            r is Ok,
            final(self)@ == old(self)@ + spec_encode_value(Value::Uint32(v)),
    {
        write_value(&mut self.writer, &Value::Uint32(v))
    }

    /// Encodes an unsigned 64-bit integer, leading zero bytes stripped.
    pub fn serialize_u64(&mut self, v: u64) -> (r: Result<(), Error>)
        ensures
            r is Ok,
            final(self)@ == old(self)@ + spec_encode_value(Value::Uint64(v)),
    {
        write_value(&mut self.writer, &Value::Uint64(v))
    }

    /// Encodes an unsigned 128-bit integer, leading zero bytes stripped.
    pub fn serialize_u128(&mut self, v: u128) -> (r: Result<(), Error>)
        ensures
            r is Ok,
            final(self)@ == old(self)@ + spec_encode_value(Value::Uint128(v)),
    {
        write_value(&mut self.writer, &Value::Uint128(v))
    }

    /// Encodes a signed 8-bit integer, widened to 32 bits on the wire.
    pub fn serialize_i8(&mut self, v: i8) -> (r: Result<(), Error>)
        ensures
            r is Ok,
            final(self)@ == old(self)@ + spec_encode_value(Value::Int32(v as i32)),
    {
        write_value(&mut self.writer, &Value::Int32(v as i32))
    }

    /// Encodes a signed 16-bit integer, widened to 32 bits on the wire.
    pub fn serialize_i16(&mut self, v: i16) -> (r: Result<(), Error>)
        ensures
            r is Ok,
            final(self)@ == old(self)@ + spec_encode_value(Value::Int32(v as i32)),
    {
        write_value(&mut self.writer, &Value::Int32(v as i32))
    }

    /// Encodes a signed 32-bit integer: always a four-byte two's-complement
    /// big-endian payload.
    pub fn serialize_i32(&mut self, v: i32) -> (r: Result<(), Error>)
        ensures
            r is Ok,
            final(self)@ == old(self)@ + spec_encode_value(Value::Int32(v)),
    {
        write_value(&mut self.writer, &Value::Int32(v))
    }

    /// Encodes a signed 64-bit integer after narrowing it to 32 bits;
    /// values outside that range are rejected rather than truncated.
    pub fn serialize_i64(&mut self, v: i64) -> (r: Result<(), Error>)
        ensures
            i32::MIN <= v <= i32::MAX ==> r is Ok && final(self)@ == old(self)@
                + spec_encode_value(Value::Int32(v as i32)),
            !(i32::MIN <= v <= i32::MAX) ==> r == Err::<(), Error>(Error::IntegerOutOfRange)
                && final(self)@ == old(self)@,
    {
        if v < i32::MIN as i64 || v > i32::MAX as i64 {
            return Err(Error::IntegerOutOfRange);
        }
        write_value(&mut self.writer, &Value::Int32(v as i32))
    }

    /// Encodes a signed 128-bit integer after narrowing it to 32 bits;
    /// values outside that range are rejected rather than truncated.
    pub fn serialize_i128(&mut self, v: i128) -> (r: Result<(), Error>)
        ensures
            i32::MIN <= v <= i32::MAX ==> r is Ok && final(self)@ == old(self)@
                + spec_encode_value(Value::Int32(v as i32)),
            !(i32::MIN <= v <= i32::MAX) ==> r == Err::<(), Error>(Error::IntegerOutOfRange)
                && final(self)@ == old(self)@,
    {
        if v < i32::MIN as i128 || v > i32::MAX as i128 {
            return Err(Error::IntegerOutOfRange);
        }
        write_value(&mut self.writer, &Value::Int32(v as i32))
    }

    /// Encodes a string: the length counts UTF-8 bytes, not characters.
    pub fn serialize_str(&mut self, v: &str) -> (r: Result<(), Error>)
        ensures
            r is Ok <==> spec_str_bytes(v@).len() <= MAX_LENGTH,
            r is Ok ==> final(self)@ == old(self)@ + spec_enc_text(v@),
            r is Err ==> r == Err::<(), Error>(Error::LengthOutOfRange) && final(self)@ == old(
                self,
            )@,
    {
        write_str(&mut self.writer, v)
    }

    /// Encodes a raw byte sequence.
    pub fn serialize_bytes(&mut self, v: &[u8]) -> (r: Result<(), Error>)
        ensures
            r is Ok <==> v@.len() <= MAX_LENGTH,
            r is Ok ==> final(self)@ == old(self)@ + spec_control_bytes(4, v@.len() as int) + v@,
            r is Err ==> r == Err::<(), Error>(Error::LengthOutOfRange) && final(self)@ == old(
                self,
            )@,
    {
        match write_control(&mut self.writer, TypeId::Bytes, v.len()) {
            Ok(()) => {
                self.writer.extend_from_slice(v);
                Ok(())
            },
            Err(e) => Err(e),
        }
    }

    /// Encodes an absent optional value as the boolean false.
    pub fn serialize_none(&mut self) -> (r: Result<(), Error>)
        ensures
            r is Ok,
            final(self)@ == old(self)@ + spec_encode_value(Value::Boolean(false)),
    {
        write_value(&mut self.writer, &Value::Boolean(false))
    }

    /// Encodes a unit-like value as the boolean true.
    pub fn serialize_unit(&mut self) -> (r: Result<(), Error>)
        ensures
            r is Ok,
            final(self)@ == old(self)@ + spec_encode_value(Value::Boolean(true)),
    {
        write_value(&mut self.writer, &Value::Boolean(true))
    }
}

/// What a conformant reader recovers from the front of a control byte
/// sequence: the type code, the payload length, and how many bytes the
/// framing itself took.  Meaningful when the bytes begin with a control
/// sequence this library wrote.
pub open spec fn spec_parse_control(bytes: Seq<u8>) -> (int, int, int) {
    let b0 = bytes[0] as int;
    let prefix = b0 / 32;
    let low = b0 % 32;
    let t = if prefix == 0 {
        7 + bytes[1] as int
    } else {
        prefix
    };
    let ext: int = if prefix == 0 {
        1
    } else {
        0
    };
    if low < 29 {
        (t, low, 1 + ext)
    } else if low == 29 {
        (t, 29 + bytes[1 + ext] as int, 2 + ext)
    } else if low == 30 {
        (t, 285 + 256 * (bytes[1 + ext] as int) + bytes[2 + ext] as int, 3 + ext)
    } else {
        (
            t,
            65821 + 65536 * (bytes[1 + ext] as int) + 256 * (bytes[2 + ext] as int) + bytes[3
                + ext] as int,
            4 + ext,
        )
    }
}

/// The control byte scheme is self-describing: whatever follows them, the
/// control bytes written for a type code and payload length parse back to
/// exactly that type code, that length, and their own byte count.  A reader
/// therefore always knows where the payload starts and ends.
pub proof fn lemma_control_bytes_parse(t: int, s: int, rest: Seq<u8>)
    requires
        2 <= t <= 15,
        0 <= s <= MAX_LENGTH,
    ensures
        spec_parse_control(spec_control_bytes(t, s) + rest) == (t, s, spec_control_bytes(
            t,
            s,
        ).len() as int),
{
    reveal_with_fuel(be_bytes_fixed, 4);
    let cb = spec_control_bytes(t, s);
    let all = cb + rest;
    let first = spec_type_prefix(t);
    if s < 29 {
        assert(all[0] == (first + s) as u8);
        if t <= 7 {
            assert((first + s) / 32 == t && (first + s) % 32 == s);
        } else {
            assert(all[1] == (t - 7) as u8);
        }
    } else if s < 285 {
        assert(all[0] == (first + 29) as u8);
        if t <= 7 {
            assert((first + 29) / 32 == t && (first + 29) % 32 == 29);
            assert(all[1] == (s - 29) as u8);
        } else {
            assert(all[1] == (t - 7) as u8);
            assert(all[2] == (s - 29) as u8);
        }
    } else if s < 65821 {
        let v = (s - 285) as nat;
        assert(be_bytes_fixed(v, 2) =~= seq![((v / 256) % 256) as u8, (v % 256) as u8]);
        assert(v / 256 < 256);
        assert(256 * (v / 256) + v % 256 == v);
        assert(all[0] == (first + 30) as u8);
        if t <= 7 {
            assert((first + 30) / 32 == t && (first + 30) % 32 == 30);
            assert(all[1] == ((v / 256) % 256) as u8);
            assert(all[2] == (v % 256) as u8);
        } else {
            assert(all[1] == (t - 7) as u8);
            assert(all[2] == ((v / 256) % 256) as u8);
            assert(all[3] == (v % 256) as u8);
        }
    } else {
        let v = (s - 65821) as nat;
        assert(be_bytes_fixed(v, 3) =~= seq![
            ((v / 65536) % 256) as u8,
            ((v / 256) % 256) as u8,
            (v % 256) as u8,
        ]);
        assert(v < 0x100_0000);
        assert(v / 65536 < 256);
        assert(65536 * (v / 65536) + 256 * ((v / 256) % 256) + v % 256 == v) by (nonlinear_arith)
            requires
                0 <= v < 0x100_0000,
        ;
        assert(all[0] == (first + 31) as u8);
        if t <= 7 {
            assert((first + 31) / 32 == t && (first + 31) % 32 == 31);
            assert(all[1] == ((v / 65536) % 256) as u8);
            assert(all[2] == ((v / 256) % 256) as u8);
            assert(all[3] == (v % 256) as u8);
        } else {
            assert(all[1] == (t - 7) as u8);
            assert(all[2] == ((v / 65536) % 256) as u8);
            assert(all[3] == ((v / 256) % 256) as u8);
            assert(all[4] == (v % 256) as u8);
        }
    }
}

/// The number a big-endian byte string stands for.
pub open spec fn spec_be_value(s: Seq<u8>) -> nat
    decreases s.len(),
{
    if s.len() == 0 {
        0
    } else {
        (spec_be_value(s.drop_last()) * 256 + s.last()) as nat
    }
}

/// A value stays below two hundred fifty-six to the power of its stripped
/// byte length.
proof fn lemma_uint_len_pow(v: nat)
    ensures
        v < vstd::arithmetic::power::pow(256, spec_uint_len(v)),
    decreases v,
{
    reveal(vstd::arithmetic::power::pow);
    if v == 0 {
    } else {
        lemma_uint_len_pow(v / 256);
        assert(v < 256 * vstd::arithmetic::power::pow(256, spec_uint_len(v / 256)))
            by (nonlinear_arith)
            requires
                v / 256 < vstd::arithmetic::power::pow(256, spec_uint_len(v / 256)),
                v / 256 == (v - v % 256) / 256,
                0 <= v % 256 < 256,
        ;
    }
}

/// Fixed-width big-endian bytes decode to the value they were made from.
proof fn lemma_be_fixed_value(v: nat, n: nat)
    requires
        v < vstd::arithmetic::power::pow(256, n),
    ensures
        spec_be_value(be_bytes_fixed(v, n)) == v,
    decreases n,
{
    reveal(vstd::arithmetic::power::pow);
    if n == 0 {
    } else {
        assert(v / 256 < vstd::arithmetic::power::pow(256, (n - 1) as nat)) by (nonlinear_arith)
            requires
                v < 256 * vstd::arithmetic::power::pow(256, (n - 1) as nat),
        ;
        lemma_be_fixed_value(v / 256, (n - 1) as nat);
        let b = be_bytes_fixed(v, n);
        assert(b.drop_last() =~= be_bytes_fixed(v / 256, (n - 1) as nat));
        assert(b.last() == (v % 256) as u8);
    }
}

/// Integer payloads decode back to the integer that produced them: the
/// stripped big-endian bytes of a value stand for exactly that value, so a
/// reader that recomposes them recovers it.
pub proof fn lemma_be_trimmed_value(v: nat)
    ensures
        spec_be_value(be_bytes_trimmed(v)) == v,
{
    lemma_uint_len_pow(v);
    lemma_be_fixed_value(v, spec_uint_len(v));
}

} // verus!
