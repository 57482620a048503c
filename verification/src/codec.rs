//! The canonical byte encoding of fields.
//!
//! A field is written as one tag byte and a payload. Integers are big-endian
//! and of fixed width; strings and byte strings carry their length in front,
//! so that no encoding is a proper prefix of another.

use vstd::prelude::*;
use vstd::string::*;
use vstd::utf8::*;
use crate::errors::DeserializationError;
use crate::types::{Field, FieldValue};

verus! {

/// 256 to the power `n`.
pub open spec fn pow256(n: nat) -> nat
    decreases n,
{
    if n == 0 {
        1
    } else {
        256 * pow256((n - 1) as nat)
    }
}

/// The `n` low bytes of `x`, most significant first.
pub open spec fn be_bytes(x: nat, n: nat) -> Seq<u8>
    decreases n,
{
    if n == 0 {
        Seq::empty()
    } else {
        be_bytes(x / 256, (n - 1) as nat).push((x % 256) as u8)
    }
}

/// The number that `s` holds, most significant byte first.
pub open spec fn be_value(s: Seq<u8>) -> nat
    decreases s.len(),
{
    if s.len() == 0 {
        0
    } else {
        be_value(s.drop_last()) * 256 + s.last() as nat
    }
}

pub proof fn lemma_pow256_values()
    ensures
        pow256(1) == 0x100,
        pow256(2) == 0x1_0000,
        pow256(4) == 0x1_0000_0000,
        pow256(8) == 0x1_0000_0000_0000_0000,
        pow256(16) == 0x1_0000_0000_0000_0000_0000_0000_0000_0000,
{
    reveal_with_fuel(pow256, 17);
}

pub proof fn lemma_be_bytes_len(x: nat, n: nat)
    ensures
        be_bytes(x, n).len() == n,
    decreases n,
{
    if n > 0 {
        lemma_be_bytes_len(x / 256, (n - 1) as nat);
    }
}

pub proof fn lemma_be_value_bound(s: Seq<u8>)
    ensures
        be_value(s) < pow256(s.len()),
    decreases s.len(),
{
    if s.len() > 0 {
        lemma_be_value_bound(s.drop_last());
    }
}

/// Reading back what was written gives the number again.
pub proof fn lemma_be_value_of_bytes(x: nat, n: nat)
    requires
        x < pow256(n),
    ensures
        be_value(be_bytes(x, n)) == x,
    decreases n,
{
    if n > 0 {
        let rest = be_bytes(x / 256, (n - 1) as nat);
        lemma_be_value_of_bytes(x / 256, (n - 1) as nat);
        lemma_be_bytes_len(x / 256, (n - 1) as nat);
        assert(be_bytes(x, n).drop_last() =~= rest);
    }
}

/// Writing what was read gives the bytes again.
pub proof fn lemma_be_bytes_of_value(s: Seq<u8>)
    ensures
        be_bytes(be_value(s), s.len()) == s,
    decreases s.len(),
{
    if s.len() > 0 {
        lemma_be_bytes_of_value(s.drop_last());
        let x = be_value(s);
        assert(x / 256 == be_value(s.drop_last()));
        assert(x % 256 == s.last() as nat);
        assert(be_bytes(x, s.len()) =~= s);
    } else {
        assert(be_bytes(0, 0) =~= s);
    }
}

/// Appends the `n` low bytes of `x`, most significant first.
pub fn put_be(buf: &mut Vec<u8>, x: u128, n: usize)
    ensures
        final(buf)@ == old(buf)@ + be_bytes(x as nat, n as nat),
    decreases n,
{
    if n > 0 {
        put_be(buf, x / 256, n - 1);
        buf.push((x % 256) as u8);
        assert(buf@ =~= old(buf)@ + be_bytes(x as nat, n as nat));
    } else {
        assert(buf@ =~= old(buf)@ + be_bytes(x as nat, n as nat));
    }
}

/// Reads the `n` bytes of `buf` from `start` on as one number, most
/// significant byte first.
pub fn get_be(buf: &[u8], start: usize, n: usize) -> (x: u128)
    requires
        start + n <= buf.len(),
        n <= 16,
    ensures
        x == be_value(buf@.subrange(start as int, start + n)),
{
    let mut acc: u128 = 0;
    let mut i: usize = 0;
    while i < n
        invariant
            i <= n <= 16,
            start + n <= buf.len(),
            acc == be_value(buf@.subrange(start as int, start + i)),
        decreases n - i,
    {
        proof {
            lemma_pow256_values();
            let s = buf@.subrange(start as int, start + i);
            let t = buf@.subrange(start as int, start + i + 1);
            lemma_be_value_bound(s);
            lemma_be_value_bound(t);
            lemma_pow256_mono((i + 1) as nat, 16);
            assert(t.drop_last() =~= s);
        }
        acc = acc * 256 + buf[start + i] as u128;
        i += 1;
    }
    acc
}

pub proof fn lemma_pow256_mono(a: nat, b: nat)
    requires
        a <= b,
    ensures
        pow256(a) <= pow256(b),
    decreases b,
{
    if a < b {
        lemma_pow256_mono(a, (b - 1) as nat);
    }
}

/// Appends the bytes of `s`.
pub fn put_bytes(buf: &mut Vec<u8>, s: &[u8])
    ensures
        final(buf)@ == old(buf)@ + s@,
{
    buf.extend_from_slice(s);
    assert(buf@ =~= old(buf)@ + s@);
}

/// The bytes of `buf` from `start` to `end`.
pub fn copy_range(buf: &[u8], start: usize, end: usize) -> (res: Vec<u8>)
    requires
        start <= end <= buf.len(),
    ensures
        res@ == buf@.subrange(start as int, end as int),
{
    let mut out: Vec<u8> = Vec::new();
    let mut i: usize = start;
    while i < end
        invariant
            start <= i <= end <= buf.len(),
            out@ == buf@.subrange(start as int, i as int),
        decreases end - i,
    {
        out.push(buf[i]);
        assert(out@ =~= buf@.subrange(start as int, i + 1));
        i += 1;
    }
    out
}

/// Whether the strings and byte strings of `f` are short enough for their
/// length to be written in eight bytes.
pub open spec fn encodable(f: FieldValue) -> bool {
    match f {
        FieldValue::String(s) => encode_utf8(s).len() < pow256(8),
        FieldValue::Json(s) => encode_utf8(s).len() < pow256(8),
        FieldValue::Binary(b) => b.len() < pow256(8),
        _ => true,
    }
}

/// A length in eight bytes, then the bytes.
pub open spec fn with_length(bytes: Seq<u8>) -> Seq<u8> {
    be_bytes(bytes.len(), 8) + bytes
}

/// The encoding of a field: a tag, then the payload.
pub open spec fn encode_field(f: FieldValue) -> Seq<u8> {
    match f {
        FieldValue::Null => seq![0u8],
        FieldValue::Boolean(b) => seq![1u8, if b { 1u8 } else { 0u8 }],
        FieldValue::Int(i) => seq![2u8] + be_bytes(i as u64 as nat, 8),
        FieldValue::UInt(u) => seq![3u8] + be_bytes(u as nat, 8),
        FieldValue::Float(bits) => seq![4u8] + be_bytes(bits as nat, 8),
        FieldValue::String(s) => seq![5u8] + with_length(encode_utf8(s)),
        FieldValue::Binary(b) => seq![6u8] + with_length(b),
        FieldValue::Timestamp(t) => seq![7u8] + be_bytes(t as u64 as nat, 8),
        FieldValue::Decimal(m, s) => seq![8u8] + be_bytes(m as u128 as nat, 16) + be_bytes(
            s as nat,
            4,
        ),
        FieldValue::Date(d) => seq![9u8] + be_bytes(d as u32 as nat, 4),
        FieldValue::Json(s) => seq![10u8] + with_length(encode_utf8(s)),
    }
}

/// The bytes behind a length prefix, where the prefix gives their number.
pub open spec fn decode_with_length(p: Seq<u8>) -> Option<Seq<u8>> {
    if p.len() >= 8 && be_value(p.subrange(0, 8)) == p.len() - 8 {
        Some(p.subrange(8, p.len() as int))
    } else {
        None
    }
}

/// The text behind a length prefix.
pub open spec fn decode_text(p: Seq<u8>) -> Result<Seq<char>, DeserializationError> {
    match decode_with_length(p) {
        None => Err(DeserializationError::BadDataLength),
        Some(bytes) => if valid_utf8(bytes) {
            Ok(decode_utf8(bytes))
        } else {
            Err(DeserializationError::Utf8)
        },
    }
}

/// The field that `bytes` encode, or why they encode none.
pub open spec fn decode_field(bytes: Seq<u8>) -> Result<FieldValue, DeserializationError> {
    if bytes.len() == 0 {
        Err(DeserializationError::EmptyInput)
    } else {
        let tag = bytes[0];
        let p = bytes.subrange(1, bytes.len() as int);
        if tag == 0 {
            if p.len() == 0 {
                Ok(FieldValue::Null)
            } else {
                Err(DeserializationError::BadDataLength)
            }
        } else if tag == 1 {
            if p.len() != 1 {
                Err(DeserializationError::BadDataLength)
            } else if p[0] > 1 {
                Err(DeserializationError::BadValue)
            } else {
                Ok(FieldValue::Boolean(p[0] == 1))
            }
        } else if tag == 2 {
            if p.len() == 8 {
                Ok(FieldValue::Int(be_value(p) as u64 as i64))
            } else {
                Err(DeserializationError::BadDataLength)
            }
        } else if tag == 3 {
            if p.len() == 8 {
                Ok(FieldValue::UInt(be_value(p) as u64))
            } else {
                Err(DeserializationError::BadDataLength)
            }
        } else if tag == 4 {
            if p.len() == 8 {
                Ok(FieldValue::Float(be_value(p) as u64))
            } else {
                Err(DeserializationError::BadDataLength)
            }
        } else if tag == 5 {
            match decode_text(p) {
                Ok(s) => Ok(FieldValue::String(s)),
                Err(e) => Err(e),
            }
        } else if tag == 6 {
            match decode_with_length(p) {
                Some(b) => Ok(FieldValue::Binary(b)),
                None => Err(DeserializationError::BadDataLength),
            }
        } else if tag == 7 {
            if p.len() == 8 {
                Ok(FieldValue::Timestamp(be_value(p) as u64 as i64))
            } else {
                Err(DeserializationError::BadDataLength)
            }
        } else if tag == 8 {
            if p.len() == 20 {
                Ok(
                    FieldValue::Decimal(
                        be_value(p.subrange(0, 16)) as u128 as i128,
                        be_value(p.subrange(16, 20)) as u32,
                    ),
                )
            } else {
                Err(DeserializationError::BadDataLength)
            }
        } else if tag == 9 {
            if p.len() == 4 {
                Ok(FieldValue::Date(be_value(p) as u32 as i32))
            } else {
                Err(DeserializationError::BadDataLength)
            }
        } else if tag == 10 {
            match decode_text(p) {
                Ok(s) => Ok(FieldValue::Json(s)),
                Err(e) => Err(e),
            }
        } else {
            Err(DeserializationError::UnrecognisedFieldType(tag))
        }
    }
}

/// `String::from_utf8`: the bytes as a string where they are UTF-8, and
/// nothing where they are not.
#[verifier::external_body]
fn string_from_utf8(bytes: Vec<u8>) -> (res: Option<String>)
    ensures
        match res {
            Some(s) => valid_utf8(bytes@) && s@ == decode_utf8(bytes@),
            None => !valid_utf8(bytes@),
        },
{
    match String::from_utf8(bytes) {
        Ok(s) => Some(s),
        Err(_) => None,
    }
}

/// Reads a length prefix at the start of `p` and copies the bytes behind it.
fn read_with_length(p: &[u8], start: usize) -> (res: Option<Vec<u8>>)
    requires
        start <= p.len(),
    ensures
        match decode_with_length(p@.subrange(start as int, p@.len() as int)) {
            Some(b) => res is Some && res->Some_0@ == b,
            None => res is None,
        },
{
    let ghost rest = p@.subrange(start as int, p@.len() as int);
    if p.len() - start < 8 {
        return None;
    }
    let n = get_be(p, start, 8);
    assert(rest.subrange(0, 8) =~= p@.subrange(start as int, start + 8));
    if n != (p.len() - start - 8) as u128 {
        return None;
    }
    let out = copy_range(p, start + 8, p.len());
    assert(out@ =~= rest.subrange(8, rest.len() as int));
    Some(out)
}

/// Reads a length prefix at the start of `p` and the text behind it.
fn read_text(p: &[u8], start: usize) -> (res: Result<String, DeserializationError>)
    requires
        start <= p.len(),
    ensures
        match decode_text(p@.subrange(start as int, p@.len() as int)) {
            Ok(s) => res is Ok && res->Ok_0@ == s,
            Err(e) => res == Err::<String, DeserializationError>(e),
        },
{
    match read_with_length(p, start) {
        None => Err(DeserializationError::BadDataLength),
        Some(bytes) => match string_from_utf8(bytes) {
            Some(s) => Ok(s),
            None => Err(DeserializationError::Utf8),
        },
    }
}

impl Field {
    /// The canonical encoding of the field.
    pub fn encode(&self) -> (res: Vec<u8>)
        ensures
            res@ == encode_field(self@),
            encodable(self@),
    {
        proof {
            lemma_pow256_values();
        }
        let mut out: Vec<u8> = Vec::new();
        match self {
            Field::Null => {
                out.push(0);
            },
            Field::Boolean(b) => {
                out.push(1);
                out.push(if *b { 1 } else { 0 });
            },
            Field::Int(i) => {
                out.push(2);
                put_be(&mut out, (*i as u64) as u128, 8);
            },
            Field::UInt(u) => {
                out.push(3);
                put_be(&mut out, *u as u128, 8);
            },
            Field::Float(bits) => {
                out.push(4);
                put_be(&mut out, *bits as u128, 8);
            },
            Field::String(s) => {
                let bytes = s.as_str().as_bytes();
                out.push(5);
                put_be(&mut out, bytes.len() as u128, 8);
                put_bytes(&mut out, bytes);
            },
            Field::Binary(b) => {
                out.push(6);
                put_be(&mut out, b.len() as u128, 8);
                put_bytes(&mut out, b.as_slice());
            },
            Field::Timestamp(t) => {
                out.push(7);
                put_be(&mut out, (*t as u64) as u128, 8);
            },
            Field::Decimal(m, s) => {
                out.push(8);
                put_be(&mut out, *m as u128, 16);
                put_be(&mut out, *s as u128, 4);
            },
            Field::Date(d) => {
                out.push(9);
                put_be(&mut out, (*d as u32) as u128, 4);
            },
            Field::Json(s) => {
                let bytes = s.as_str().as_bytes();
                out.push(10);
                put_be(&mut out, bytes.len() as u128, 8);
                put_bytes(&mut out, bytes);
            },
        }
        assert(out@ =~= encode_field(self@));
        out
    }

    /// The field that `buf` encodes. Fails where `buf` is not the encoding
    /// of a field, and says why.
    pub fn decode(buf: &[u8]) -> (res: Result<Field, DeserializationError>)
        ensures
            match decode_field(buf@) {
                Ok(v) => res is Ok && res->Ok_0@ == v,
                Err(e) => res == Err::<Field, DeserializationError>(e),
            },
    {
        if buf.len() == 0 {
            return Err(DeserializationError::EmptyInput);
        }
        let tag = buf[0];
        let n = buf.len() - 1;
        let ghost p = buf@.subrange(1, buf@.len() as int);
        proof {
            lemma_pow256_values();
            if n <= 16 {
                lemma_be_value_bound(p);
                lemma_pow256_mono(n as nat, 16);
            }
            if n == 20 {
                lemma_be_value_bound(p.subrange(0, 16));
                lemma_be_value_bound(p.subrange(16, 20));
                assert(p.subrange(0, 16) =~= buf@.subrange(1, 17));
                assert(p.subrange(16, 20) =~= buf@.subrange(17, 21));
            }
        }
        if tag == 0 {
            if n == 0 {
                Ok(Field::Null)
            } else {
                Err(DeserializationError::BadDataLength)
            }
        } else if tag == 1 {
            if n != 1 {
                Err(DeserializationError::BadDataLength)
            } else if buf[1] > 1 {
                Err(DeserializationError::BadValue)
            } else {
                Ok(Field::Boolean(buf[1] == 1))
            }
        } else if tag == 2 {
            if n == 8 {
                Ok(Field::Int(get_be(buf, 1, 8) as u64 as i64))
            } else {
                Err(DeserializationError::BadDataLength)
            }
        } else if tag == 3 {
            if n == 8 {
                Ok(Field::UInt(get_be(buf, 1, 8) as u64))
            } else {
                Err(DeserializationError::BadDataLength)
            }
        } else if tag == 4 {
            if n == 8 {
                Ok(Field::Float(get_be(buf, 1, 8) as u64))
            } else {
                Err(DeserializationError::BadDataLength)
            }
        } else if tag == 5 {
            match read_text(buf, 1) {
                Ok(s) => Ok(Field::String(s)),
                Err(e) => Err(e),
            }
        } else if tag == 6 {
            match read_with_length(buf, 1) {
                Some(b) => Ok(Field::Binary(b)),
                None => Err(DeserializationError::BadDataLength),
            }
        } else if tag == 7 {
            if n == 8 {
                Ok(Field::Timestamp(get_be(buf, 1, 8) as u64 as i64))
            } else {
                Err(DeserializationError::BadDataLength)
            }
        } else if tag == 8 {
            if n == 20 {
                let m = get_be(buf, 1, 16);
                let s = get_be(buf, 17, 4);
                Ok(Field::Decimal(m as i128, s as u32))
            } else {
                Err(DeserializationError::BadDataLength)
            }
        } else if tag == 9 {
            if n == 4 {
                Ok(Field::Date(get_be(buf, 1, 4) as u32 as i32))
            } else {
                Err(DeserializationError::BadDataLength)
            }
        } else if tag == 10 {
            match read_text(buf, 1) {
                Ok(s) => Ok(Field::Json(s)),
                Err(e) => Err(e),
            }
        } else {
            Err(DeserializationError::UnrecognisedFieldType(tag))
        }
    }
}

/// What was written with its length in front is read back whole.
pub proof fn lemma_decode_with_length(bytes: Seq<u8>)
    requires
        bytes.len() < pow256(8),
    ensures
        decode_with_length(with_length(bytes)) == Some(bytes),
{
    let p = with_length(bytes);
    lemma_be_bytes_len(bytes.len(), 8);
    lemma_be_value_of_bytes(bytes.len(), 8);
    assert(p.subrange(0, 8) =~= be_bytes(bytes.len(), 8));
    assert(p.subrange(8, p.len() as int) =~= bytes);
}

/// Decoding the encoding of a field gives the field again.
pub proof fn lemma_decode_encode(f: FieldValue)
    requires
        encodable(f),
    ensures
        decode_field(encode_field(f)) == Ok::<FieldValue, DeserializationError>(f),
{
    broadcast use encode_utf8_valid_utf8, encode_utf8_decode_utf8;

    lemma_pow256_values();
    let bytes = encode_field(f);
    let p = bytes.subrange(1, bytes.len() as int);
    match f {
        FieldValue::Null => {},
        FieldValue::Boolean(b) => {},
        FieldValue::Int(i) => {
            lemma_be_bytes_len(i as u64 as nat, 8);
            lemma_be_value_of_bytes(i as u64 as nat, 8);
            assert(p =~= be_bytes(i as u64 as nat, 8));
            assert(i as u64 as i64 == i) by (bit_vector);
        },
        FieldValue::UInt(u) => {
            lemma_be_bytes_len(u as nat, 8);
            lemma_be_value_of_bytes(u as nat, 8);
            assert(p =~= be_bytes(u as nat, 8));
        },
        FieldValue::Float(u) => {
            lemma_be_bytes_len(u as nat, 8);
            lemma_be_value_of_bytes(u as nat, 8);
            assert(p =~= be_bytes(u as nat, 8));
        },
        FieldValue::String(s) => {
            lemma_be_bytes_len(encode_utf8(s).len(), 8);
            lemma_decode_with_length(encode_utf8(s));
            assert(p =~= with_length(encode_utf8(s)));
        },
        FieldValue::Binary(b) => {
            lemma_be_bytes_len(b.len(), 8);
            lemma_decode_with_length(b);
            assert(p =~= with_length(b));
        },
        FieldValue::Timestamp(t) => {
            lemma_be_bytes_len(t as u64 as nat, 8);
            lemma_be_value_of_bytes(t as u64 as nat, 8);
            assert(p =~= be_bytes(t as u64 as nat, 8));
            assert(t as u64 as i64 == t) by (bit_vector);
        },
        FieldValue::Decimal(m, sc) => {
            lemma_be_bytes_len(m as u128 as nat, 16);
            lemma_be_bytes_len(sc as nat, 4);
            lemma_be_value_of_bytes(m as u128 as nat, 16);
            lemma_be_value_of_bytes(sc as nat, 4);
            assert(p.subrange(0, 16) =~= be_bytes(m as u128 as nat, 16));
            assert(p.subrange(16, 20) =~= be_bytes(sc as nat, 4));
            assert(m as u128 as i128 == m) by (bit_vector);
        },
        FieldValue::Date(d) => {
            lemma_be_bytes_len(d as u32 as nat, 4);
            lemma_be_value_of_bytes(d as u32 as nat, 4);
            assert(p =~= be_bytes(d as u32 as nat, 4));
            assert(d as u32 as i32 == d) by (bit_vector);
        },
        FieldValue::Json(s) => {
            lemma_be_bytes_len(encode_utf8(s).len(), 8);
            lemma_decode_with_length(encode_utf8(s));
            assert(p =~= with_length(encode_utf8(s)));
        },
    }
}

/// The encoding of the values of a record: each value's encoding with its
/// length in front, one after the other.
pub open spec fn encode_values(values: Seq<FieldValue>) -> Seq<u8>
    decreases values.len(),
{
    if values.len() == 0 {
        Seq::empty()
    } else {
        with_length(encode_field(values[0])) + encode_values(values.drop_first())
    }
}

/// The values that `bytes` encode, or why they encode none.
pub open spec fn decode_values(bytes: Seq<u8>) -> Result<Seq<FieldValue>, DeserializationError>
    decreases bytes.len(),
{
    if bytes.len() == 0 {
        Ok(Seq::empty())
    } else if bytes.len() < 8 || be_value(bytes.subrange(0, 8)) > bytes.len() - 8 {
        Err(DeserializationError::BadDataLength)
    } else {
        let n = be_value(bytes.subrange(0, 8)) as int;
        match decode_field(bytes.subrange(8, 8 + n)) {
            Err(e) => Err(e),
            Ok(v) => match decode_values(bytes.skip(8 + n)) {
                Err(e) => Err(e),
                Ok(rest) => Ok(seq![v] + rest),
            },
        }
    }
}

/// The encoding of values with one more at the end.
pub proof fn lemma_encode_values_push(values: Seq<FieldValue>, v: FieldValue)
    ensures
        encode_values(values.push(v)) == encode_values(values) + with_length(encode_field(v)),
    decreases values.len(),
{
    if values.len() == 0 {
        assert(values.push(v).drop_first() =~= Seq::<FieldValue>::empty());
        assert(encode_values(values.push(v).drop_first()) =~= Seq::<u8>::empty());
        assert(values.push(v)[0] == v);
        assert(encode_values(values.push(v)) =~= with_length(encode_field(v)) + encode_values(
            values.push(v).drop_first(),
        ));
        assert(encode_values(values.push(v)) =~= encode_values(values) + with_length(
            encode_field(v),
        ));
    } else {
        lemma_encode_values_push(values.drop_first(), v);
        assert(values.push(v).drop_first() =~= values.drop_first().push(v));
        assert(encode_values(values.push(v)) =~= encode_values(values) + with_length(
            encode_field(v),
        ));
    }
}

/// Decoding the encoding of the values of a record gives the values
/// again.
pub proof fn lemma_decode_encode_values(values: Seq<FieldValue>)
    requires
        forall|i: int|
            0 <= i < values.len() ==> encodable(#[trigger] values[i]) && encode_field(
                values[i],
            ).len() < pow256(8),
    ensures
        decode_values(encode_values(values)) == Ok::<Seq<FieldValue>, DeserializationError>(
            values,
        ),
    decreases values.len(),
{
    if values.len() > 0 {
        let first = encode_field(values[0]);
        let rest = encode_values(values.drop_first());
        let bytes = encode_values(values);
        lemma_pow256_values();
        lemma_be_bytes_len(first.len(), 8);
        lemma_be_value_of_bytes(first.len(), 8);
        lemma_decode_encode(values[0]);
        lemma_decode_encode_values(values.drop_first());
        assert(bytes.subrange(0, 8) =~= be_bytes(first.len(), 8));
        assert(bytes.subrange(8, 8 + first.len() as int) =~= first);
        assert(bytes.skip(8 + first.len() as int) =~= rest);
        assert(seq![values[0]] + values.drop_first() =~= values);
        assert(bytes.len() == 8 + first.len() + rest.len());
        assert(be_value(bytes.subrange(0, 8)) == first.len());
        assert(decode_field(bytes.subrange(8, 8 + first.len() as int)) == Ok::<
            FieldValue,
            DeserializationError,
        >(values[0]));
        assert(decode_values(bytes.skip(8 + first.len() as int)) == Ok::<
            Seq<FieldValue>,
            DeserializationError,
        >(values.drop_first()));
    } else {
        assert(values =~= Seq::<FieldValue>::empty());
    }
}

/// Whether the values of a record can be stored: each can be encoded, and
/// the length of its encoding can be written in eight bytes.
pub open spec fn storable_values(values: Seq<FieldValue>) -> bool {
    forall|i: int|
        0 <= i < values.len() ==> encodable(#[trigger] values[i]) && encode_field(values[i]).len()
            < pow256(8)
}

/// The encoding of the values of a record, which can be stored.
pub fn encode_record_values(values: &Vec<Field>) -> (res: Vec<u8>)
    ensures
        res@ == encode_values(crate::types::field_values(values@)),
        storable_values(crate::types::field_values(values@)),
{
    let ghost all = crate::types::field_values(values@);
    let mut out: Vec<u8> = Vec::new();
    let mut i: usize = 0;
    assert(all.take(0) =~= Seq::<FieldValue>::empty());
    while i < values.len()
        invariant
            i <= values.len(),
            all == crate::types::field_values(values@),
            out@ == encode_values(all.take(i as int)),
            forall|j: int|
                0 <= j < i ==> encodable(#[trigger] all[j]) && encode_field(all[j]).len() < pow256(
                    8,
                ),
        decreases values.len() - i,
    {
        let bytes = values[i].encode();
        proof {
            lemma_pow256_values();
            lemma_encode_values_push(all.take(i as int), all[i as int]);
            assert(all.take(i as int).push(all[i as int]) =~= all.take(i + 1));
        }
        put_be(&mut out, bytes.len() as u128, 8);
        put_bytes(&mut out, bytes.as_slice());
        assert(out@ =~= encode_values(all.take(i as int)) + with_length(bytes@));
        i += 1;
    }
    assert(all.take(i as int) =~= all);
    out
}

/// The values that `buf` encodes. Fails where `buf` is not the encoding
/// of the values of a record, and says why.
pub fn decode_record_values(buf: &[u8]) -> (res: Result<Vec<Field>, DeserializationError>)
    ensures
        match decode_values(buf@) {
            Ok(values) => res is Ok && crate::types::field_values(res->Ok_0@) == values,
            Err(e) => res == Err::<Vec<Field>, DeserializationError>(e),
        },
{
    let mut out: Vec<Field> = Vec::new();
    let mut pos: usize = 0;
    assert(buf@.skip(0) =~= buf@);
    assert(crate::types::field_values(out@) + Seq::<FieldValue>::empty()
        =~= crate::types::field_values(out@));
    while pos < buf.len()
        invariant
            pos <= buf.len(),
            decode_values(buf@) == match decode_values(buf@.skip(pos as int)) {
                Ok(rest) => Ok::<Seq<FieldValue>, DeserializationError>(
                    crate::types::field_values(out@) + rest,
                ),
                Err(e) => Err(e),
            },
        decreases buf.len() - pos,
    {
        let ghost rest = buf@.skip(pos as int);
        let ghost before = crate::types::field_values(out@);
        if buf.len() - pos < 8 {
            return Err(DeserializationError::BadDataLength);
        }
        proof {
            lemma_pow256_values();
            lemma_be_value_bound(rest.subrange(0, 8));
            assert(rest.subrange(0, 8) =~= buf@.subrange(pos as int, pos + 8));
        }
        let n = get_be(buf, pos, 8);
        if n > (buf.len() - pos - 8) as u128 {
            return Err(DeserializationError::BadDataLength);
        }
        let n = n as usize;
        assert(rest.subrange(8, 8 + n) =~= buf@.subrange(pos + 8, pos + 8 + n));
        assert(rest.skip(8 + n) =~= buf@.skip(pos + 8 + n));
        let field = match Field::decode(&buf[pos + 8..pos + 8 + n]) {
            Ok(f) => f,
            Err(e) => {
                return Err(e);
            },
        };
        let ghost v = field@;
        out.push(field);
        proof {
            assert(crate::types::field_values(out@) =~= before.push(v));
            match decode_values(buf@.skip(pos + 8 + n)) {
                Ok(tail) => {
                    assert(before + (seq![v] + tail) =~= before.push(v) + tail);
                },
                Err(_) => {},
            }
        }
        pos = pos + 8 + n;
    }
    assert(buf@.skip(pos as int) =~= Seq::<u8>::empty());
    assert(crate::types::field_values(out@) + Seq::<FieldValue>::empty()
        =~= crate::types::field_values(out@));
    Ok(out)
}

/// How many bytes the encoding at the start of `bytes` takes, as its tag
/// and, where it has one, its length prefix say.
pub open spec fn encoded_length(bytes: Seq<u8>) -> int {
    let tag = bytes[0];
    if tag == 0 {
        1
    } else if tag == 1 {
        2
    } else if tag == 8 {
        21
    } else if tag == 9 {
        5
    } else if tag == 5 || tag == 6 || tag == 10 {
        9 + be_value(bytes.subrange(1, 9)) as int
    } else {
        9
    }
}

/// The encoding of a field says how long it is, whatever follows it.
pub proof fn lemma_encoded_length(f: FieldValue, rest: Seq<u8>)
    requires
        encodable(f),
    ensures
        encoded_length(encode_field(f) + rest) == encode_field(f).len(),
        encode_field(f).len() > 0,
{
    lemma_pow256_values();
    let bytes = encode_field(f) + rest;
    match f {
        FieldValue::Int(i) => {
            lemma_be_bytes_len(i as u64 as nat, 8);
        },
        FieldValue::UInt(u) => {
            lemma_be_bytes_len(u as nat, 8);
        },
        FieldValue::Float(u) => {
            lemma_be_bytes_len(u as nat, 8);
        },
        FieldValue::String(s) => {
            lemma_be_bytes_len(encode_utf8(s).len(), 8);
            lemma_be_value_of_bytes(encode_utf8(s).len(), 8);
            assert(bytes.subrange(1, 9) =~= be_bytes(encode_utf8(s).len(), 8));
        },
        FieldValue::Binary(b) => {
            lemma_be_bytes_len(b.len(), 8);
            lemma_be_value_of_bytes(b.len(), 8);
            assert(bytes.subrange(1, 9) =~= be_bytes(b.len(), 8));
        },
        FieldValue::Timestamp(t) => {
            lemma_be_bytes_len(t as u64 as nat, 8);
        },
        FieldValue::Decimal(m, sc) => {
            lemma_be_bytes_len(m as u128 as nat, 16);
            lemma_be_bytes_len(sc as nat, 4);
        },
        FieldValue::Date(d) => {
            lemma_be_bytes_len(d as u32 as nat, 4);
        },
        FieldValue::Json(s) => {
            lemma_be_bytes_len(encode_utf8(s).len(), 8);
            lemma_be_value_of_bytes(encode_utf8(s).len(), 8);
            assert(bytes.subrange(1, 9) =~= be_bytes(encode_utf8(s).len(), 8));
        },
        _ => {},
    }
}

/// No encoding is the start of another: where two encodings with
/// something behind them are the same bytes, the fields are the same, and
/// so is what is behind them.
pub proof fn lemma_encoding_is_prefix_free(
    a: FieldValue,
    rest_a: Seq<u8>,
    b: FieldValue,
    rest_b: Seq<u8>,
)
    requires
        encodable(a),
        encodable(b),
        encode_field(a) + rest_a == encode_field(b) + rest_b,
    ensures
        a == b,
        rest_a == rest_b,
{
    let bytes = encode_field(a) + rest_a;
    lemma_encoded_length(a, rest_a);
    lemma_encoded_length(b, rest_b);
    let n = encoded_length(bytes);
    assert(bytes.subrange(0, n) =~= encode_field(a));
    assert(bytes.subrange(0, n) =~= encode_field(b));
    assert(bytes.skip(n) =~= rest_a);
    assert(bytes.skip(n) =~= rest_b);
    lemma_decode_encode(a);
    lemma_decode_encode(b);
}

/// What was read behind a length prefix is written back with the same
/// prefix.
proof fn lemma_with_length_of_decoded(p: Seq<u8>)
    requires
        decode_with_length(p) is Some,
    ensures
        with_length(decode_with_length(p)->Some_0) == p,
        decode_with_length(p)->Some_0.len() < pow256(8),
{
    let head = p.subrange(0, 8);
    let rest = p.subrange(8, p.len() as int);
    lemma_be_bytes_of_value(head);
    lemma_be_value_bound(head);
    assert(with_length(rest) =~= p);
}

/// The encoding is canonical: bytes that decode to a field are the
/// encoding of that field, and of no other.
pub proof fn lemma_encode_decode(bytes: Seq<u8>)
    requires
        decode_field(bytes) is Ok,
    ensures
        encode_field(decode_field(bytes)->Ok_0) == bytes,
        encodable(decode_field(bytes)->Ok_0),
{
    broadcast use decode_utf8_encode_utf8;

    lemma_pow256_values();
    let tag = bytes[0];
    let p = bytes.subrange(1, bytes.len() as int);
    let f = decode_field(bytes)->Ok_0;
    assert(bytes =~= seq![tag] + p);
    if tag == 0 {
        assert(p =~= Seq::<u8>::empty());
    } else if tag == 1 {
        assert(p =~= seq![p[0]]);
    } else if tag == 2 || tag == 7 {
        lemma_be_bytes_of_value(p);
        lemma_be_value_bound(p);
        let x = be_value(p) as u64;
        assert(x as i64 as u64 == x) by (bit_vector);
    } else if tag == 3 || tag == 4 {
        lemma_be_bytes_of_value(p);
        lemma_be_value_bound(p);
    } else if tag == 5 || tag == 10 {
        lemma_with_length_of_decoded(p);
    } else if tag == 6 {
        lemma_with_length_of_decoded(p);
    } else if tag == 8 {
        let m = p.subrange(0, 16);
        let sc = p.subrange(16, 20);
        lemma_be_bytes_of_value(m);
        lemma_be_value_bound(m);
        lemma_be_bytes_of_value(sc);
        lemma_be_value_bound(sc);
        let x = be_value(m) as u128;
        assert(x as i128 as u128 == x) by (bit_vector);
        assert(m + sc =~= p);
    } else if tag == 9 {
        lemma_be_bytes_of_value(p);
        lemma_be_value_bound(p);
        let x = be_value(p) as u32;
        assert(x as i32 as u32 == x) by (bit_vector);
    }
}

} // verus!
