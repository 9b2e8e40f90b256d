//! The MessagePack encoding of values and records.
//!
//! A record goes on the wire as a four-element array: tag, timestamp,
//! payload map, options map. Every value is encoded in the narrowest form
//! of the family its variant selects: signed integers stay in the signed
//! family, unsigned integers in the unsigned one (the one-byte positive
//! form is shared by both). The specification functions here define the
//! encoding byte by byte; the executable encoder is proved to produce
//! exactly those bytes.

use crate::record::{Value, ValueMap};
use vstd::prelude::*;
use vstd::string::StringSliceAdditionalSpecFns;
use vstd::utf8::encode_utf8;

verus! {

broadcast use crate::record::lemma_valuemap_view_decreases;

/// An encoding failure: a string, array or map too large for the longest
/// MessagePack length prefix.
#[derive(Debug, PartialEq, Eq, Clone, Copy)]
pub enum EncodeError {
    /// A length does not fit in 32 bits.
    TooLarge,
}

/// The unsigned two's-complement image of `i` modulo `m`.
pub open spec fn to_unsigned(i: int, m: int) -> nat
    recommends
        -m <= i < m,
        0 < m,
{
    if i >= 0 {
        i as nat
    } else {
        (i + m) as nat
    }
}

/// The `n` big-endian bytes of `v`.
pub open spec fn be_bytes(v: nat, n: nat) -> Seq<u8>
    decreases n,
{
    if n == 0 {
        Seq::empty()
    } else {
        be_bytes(v / 256, (n - 1) as nat).push((v % 256) as u8)
    }
}

/// The header of a MessagePack string of `n` bytes.
pub open spec fn str_header(n: nat) -> Seq<u8>
    recommends
        n < 0x1_0000_0000,
{
    if n <= 31 {
        seq![(0xa0 + n) as u8]
    } else if n <= 0xff {
        seq![0xd9u8, n as u8]
    } else if n <= 0xffff {
        seq![0xdau8] + be_bytes(n, 2)
    } else {
        seq![0xdbu8] + be_bytes(n, 4)
    }
}

/// The header of a MessagePack array of `n` elements.
pub open spec fn arr_header(n: nat) -> Seq<u8>
    recommends
        n < 0x1_0000_0000,
{
    if n <= 15 {
        seq![(0x90 + n) as u8]
    } else if n <= 0xffff {
        seq![0xdcu8] + be_bytes(n, 2)
    } else {
        seq![0xddu8] + be_bytes(n, 4)
    }
}

/// The header of a MessagePack map of `n` entries.
pub open spec fn map_header(n: nat) -> Seq<u8>
    recommends
        n < 0x1_0000_0000,
{
    if n <= 15 {
        seq![(0x80 + n) as u8]
    } else if n <= 0xffff {
        seq![0xdeu8] + be_bytes(n, 2)
    } else {
        seq![0xdfu8] + be_bytes(n, 4)
    }
}

/// The narrowest unsigned-family encoding of `u`.
pub open spec fn enc_uint(u: u64) -> Seq<u8> {
    if u <= 0x7f {
        seq![u as u8]
    } else if u <= 0xff {
        seq![0xccu8, u as u8]
    } else if u <= 0xffff {
        seq![0xcdu8] + be_bytes(u as nat, 2)
    } else if u <= 0xffff_ffff {
        seq![0xceu8] + be_bytes(u as nat, 4)
    } else {
        seq![0xcfu8] + be_bytes(u as nat, 8)
    }
}

/// The narrowest signed-family encoding of `i`; the one-byte positive
/// form covers `0..=127`, the one-byte negative form `-32..=-1`.
pub open spec fn enc_int(i: i64) -> Seq<u8> {
    if 0 <= i <= 0x7f {
        seq![i as u8]
    } else if -32 <= i < 0 {
        seq![to_unsigned(i as int, 0x100) as u8]
    } else if -0x80 <= i <= 0x7f {
        seq![0xd0u8, to_unsigned(i as int, 0x100) as u8]
    } else if -0x8000 <= i <= 0x7fff {
        seq![0xd1u8] + be_bytes(to_unsigned(i as int, 0x1_0000), 2)
    } else if -0x8000_0000 <= i <= 0x7fff_ffff {
        seq![0xd2u8] + be_bytes(to_unsigned(i as int, 0x1_0000_0000), 4)
    } else {
        seq![0xd3u8] + be_bytes(to_unsigned(i as int, 0x1_0000_0000_0000_0000), 8)
    }
}

/// A string: its header, then its UTF-8 bytes.
pub open spec fn enc_str_bytes(b: Seq<u8>) -> Seq<u8>
    recommends
        b.len() < 0x1_0000_0000,
{
    str_header(b.len()) + b
}

/// The encoding of a value.
pub open spec fn enc_value(v: Value) -> Seq<u8>
    decreases v, 0int,
    via enc_value_dec
{
    match v {
        Value::Bool(b) => if b {
            seq![0xc3u8]
        } else {
            seq![0xc2u8]
        },
        Value::Int(i) => enc_int(i),
        Value::Uint(u) => enc_uint(u),
        Value::Float(bits) => seq![0xcbu8] + be_bytes(bits as nat, 8),
        Value::Str(s) => enc_str_bytes(encode_utf8(s@)),
        Value::Array(a) => arr_header(a@.len() as nat) + enc_list_from(a@, 0),
        Value::Object(m) => map_header(m@.len() as nat) + enc_entries_from(m@, 0),
    }
}

/// The concatenated encodings of the elements of `a` from index `i` on.
pub open spec fn enc_list_from(a: Seq<Value>, i: int) -> Seq<u8>
    decreases a, a.len() - i,
    via enc_list_from_dec
{
    if 0 <= i < a.len() {
        enc_value(a[i]) + enc_list_from(a, i + 1)
    } else {
        Seq::empty()
    }
}

/// The concatenated key-value encodings of the entries of `e` from index
/// `i` on.
pub open spec fn enc_entries_from(e: Seq<(String, Value)>, i: int) -> Seq<u8>
    decreases e, e.len() - i,
    via enc_entries_from_dec
{
    if 0 <= i < e.len() {
        enc_str_bytes(encode_utf8(e[i].0@)) + enc_value(e[i].1) + enc_entries_from(e, i + 1)
    } else {
        Seq::empty()
    }
}

/// Every length in `v` fits its MessagePack length prefix.
pub open spec fn encodable(v: Value) -> bool
    decreases v, 1int,
    via encodable_dec
{
    match v {
        Value::Bool(_) => true,
        Value::Int(_) => true,
        Value::Uint(_) => true,
        Value::Float(_) => true,
        Value::Str(s) => encode_utf8(s@).len() < 0x1_0000_0000,
        Value::Array(a) => a@.len() < 0x1_0000_0000 && (forall|i: int|
            0 <= i < a@.len() ==> encodable(#[trigger] a@[i])),
        Value::Object(m) => m@.len() < 0x1_0000_0000 && entries_encodable(m@),
    }
}

/// Every key fits its length prefix and every value is encodable.
pub open spec fn entries_encodable(e: Seq<(String, Value)>) -> bool
    decreases e, 2int,
    via entries_encodable_dec
{
    forall|i: int| 0 <= i < e.len() ==> entry_encodable(#[trigger] e[i])
}

/// The key fits its length prefix and the value is encodable.
pub open spec fn entry_encodable(kv: (String, Value)) -> bool
    decreases kv, 3int,
{
    encode_utf8(kv.0@).len() < 0x1_0000_0000 && encodable(kv.1)
}

#[via_fn]
proof fn enc_value_dec(v: Value) {
    match v {
        Value::Array(a) => {
            assert(decreases_to!(a => a@));
        },
        Value::Object(m) => {
            assert(decreases_to!(m => m@));
        },
        _ => {},
    }
}

#[via_fn]
proof fn enc_list_from_dec(a: Seq<Value>, i: int) {
    if 0 <= i < a.len() {
        assert(decreases_to!(a => a[i]));
    }
}

#[via_fn]
proof fn enc_entries_from_dec(e: Seq<(String, Value)>, i: int) {
    if 0 <= i < e.len() {
        assert(decreases_to!(e => e[i]));
    }
}

#[via_fn]
proof fn encodable_dec(v: Value) {
    match v {
        Value::Array(a) => {
            assert(decreases_to!(a => a@));
            assert forall|i: int| 0 <= i < a@.len() implies decreases_to!(a@ => a@[i]) by {
                assert(decreases_to!(a@ => a@[i]));
            }
        },
        Value::Object(m) => {
            assert(decreases_to!(m => m@));
        },
        _ => {},
    }
}

#[via_fn]
proof fn entries_encodable_dec(e: Seq<(String, Value)>) {
    assert forall|i: int| 0 <= i < e.len() implies decreases_to!(e => e[i]) by {
        assert(decreases_to!(e => e[i]));
    }
}

/// The key of the options entry that carries the chunk id.
pub open spec fn chunk_key() -> Seq<char> {
    seq!['c', 'h', 'u', 'n', 'k']
}

/// The encoding of a whole record: a four-element array of tag,
/// timestamp, payload map, and an options map with the single entry
/// `"chunk"` mapped to the chunk id.
pub open spec fn enc_record(
    tag: Seq<char>,
    timestamp: i64,
    payload: Seq<(String, Value)>,
    chunk: Seq<char>,
) -> Seq<u8> {
    seq![0x94u8] + enc_str_bytes(encode_utf8(tag)) + enc_int(timestamp) + map_header(
        payload.len(),
    ) + enc_entries_from(payload, 0) + seq![0x81u8] + enc_str_bytes(encode_utf8(chunk_key()))
        + enc_str_bytes(encode_utf8(chunk))
}

/// Every length in the record fits its MessagePack length prefix.
pub open spec fn record_encodable(tag: Seq<char>, payload: Seq<(String, Value)>, chunk: Seq<char>) -> bool {
    &&& encode_utf8(tag).len() < 0x1_0000_0000
    &&& payload.len() < 0x1_0000_0000
    &&& entries_encodable(payload)
    &&& encode_utf8(chunk).len() < 0x1_0000_0000
}

/// Append the `n` big-endian bytes of `v`.
fn push_be(out: &mut Vec<u8>, v: u64, n: usize)
    requires
        n <= 8,
    ensures
        final(out)@ == old(out)@ + be_bytes(v as nat, n as nat),
    decreases n,
{
    if n > 0 {
        push_be(out, v / 256, n - 1);
        out.push((v % 256) as u8);
        proof {
            assert(out@ =~= old(out)@ + be_bytes(v as nat, n as nat));
        }
    } else {
        proof {
            assert(out@ =~= old(out)@ + be_bytes(v as nat, 0));
        }
    }
}

/// Append all bytes of `b`.
fn push_bytes(out: &mut Vec<u8>, b: &[u8])
    ensures
        final(out)@ == old(out)@ + b@,
{
    let n = b.len();
    let mut i: usize = 0;
    while i < n
        invariant
            n == b@.len(),
            i <= n,
            out@ == old(out)@ + b@.subrange(0, i as int),
        decreases n - i,
    {
        out.push(b[i]);
        proof {
            assert(out@ =~= old(out)@ + b@.subrange(0, i + 1));
        }
        i += 1;
    }
    proof {
        assert(b@.subrange(0, n as int) =~= b@);
    }
}

/// Append the narrowest unsigned-family encoding of `u`.
pub fn encode_uint_into(u: u64, out: &mut Vec<u8>)
    ensures
        final(out)@ == old(out)@ + enc_uint(u),
{
    if u <= 0x7f {
        out.push(u as u8);
    } else if u <= 0xff {
        out.push(0xcc);
        out.push(u as u8);
    } else if u <= 0xffff {
        out.push(0xcd);
        push_be(out, u, 2);
    } else if u <= 0xffff_ffff {
        out.push(0xce);
        push_be(out, u, 4);
    } else {
        out.push(0xcf);
        push_be(out, u, 8);
    }
    proof {
        assert(out@ =~= old(out)@ + enc_uint(u));
    }
}

/// Append the narrowest signed-family encoding of `i`.
pub fn encode_int_into(i: i64, out: &mut Vec<u8>)
    ensures
        final(out)@ == old(out)@ + enc_int(i),
{
    if 0 <= i && i <= 0x7f {
        out.push(i as u8);
    } else if -32 <= i && i < 0 {
        out.push((i + 256) as u8);
    } else if -0x80 <= i && i <= 0x7f {
        out.push(0xd0);
        out.push((i + 256) as u8);
    } else if -0x8000 <= i && i <= 0x7fff {
        out.push(0xd1);
        let m: i64 = if i >= 0 {
            i
        } else {
            i + 0x1_0000
        };
        push_be(out, m as u64, 2);
    } else if -0x8000_0000 <= i && i <= 0x7fff_ffff {
        out.push(0xd2);
        let m: i64 = if i >= 0 {
            i
        } else {
            i + 0x1_0000_0000
        };
        push_be(out, m as u64, 4);
    } else {
        out.push(0xd3);
        let w: i128 = if i >= 0 {
            i as i128
        } else {
            (i as i128) + 0x1_0000_0000_0000_0000i128
        };
        push_be(out, w as u64, 8);
    }
    proof {
        assert(out@ =~= old(out)@ + enc_int(i));
    }
}

/// Append the header and UTF-8 bytes of `s`.
pub fn encode_str_into(s: &str, out: &mut Vec<u8>) -> (r: Result<(), EncodeError>)
    ensures
        r is Ok <==> encode_utf8(s@).len() < 0x1_0000_0000,
        r is Ok ==> final(out)@ == old(out)@ + enc_str_bytes(encode_utf8(s@)),
{
    let bs = s.as_bytes();
    let len = bs.len();
    if (len as u64) > 0xffff_ffffu64 {
        return Err(EncodeError::TooLarge);
    }
    if len <= 31 {
        out.push(0xa0 + (len as u8));
    } else if len <= 0xff {
        out.push(0xd9);
        out.push(len as u8);
    } else if len <= 0xffff {
        out.push(0xda);
        push_be(out, len as u64, 2);
    } else {
        out.push(0xdb);
        push_be(out, len as u64, 4);
    }
    push_bytes(out, bs);
    proof {
        assert(out@ =~= old(out)@ + enc_str_bytes(encode_utf8(s@)));
    }
    Ok(())
}

/// Append the encoding of `v`.
pub fn encode_value_into(v: &Value, out: &mut Vec<u8>) -> (r: Result<(), EncodeError>)
    ensures
        r is Ok <==> encodable(*v),
        r is Ok ==> final(out)@ == old(out)@ + enc_value(*v),
    decreases *v, 0int,
{
    match v {
        Value::Bool(b) => {
            out.push(if *b {
                0xc3
            } else {
                0xc2
            });
            proof {
                assert(out@ =~= old(out)@ + enc_value(*v));
            }
            Ok(())
        },
        Value::Int(i) => {
            encode_int_into(*i, out);
            Ok(())
        },
        Value::Uint(u) => {
            encode_uint_into(*u, out);
            Ok(())
        },
        Value::Float(bits) => {
            out.push(0xcb);
            push_be(out, *bits, 8);
            proof {
                assert(out@ =~= old(out)@ + enc_value(*v));
            }
            Ok(())
        },
        Value::Str(s) => {
            let r = encode_str_into(s.as_str(), out);
            r
        },
        Value::Array(a) => {
            let n = a.len();
            if (n as u64) > 0xffff_ffffu64 {
                proof {
                    assert(!encodable(*v));
                }
                return Err(EncodeError::TooLarge);
            }
            if n <= 15 {
                out.push(0x90 + (n as u8));
            } else if n <= 0xffff {
                out.push(0xdc);
                push_be(out, n as u64, 2);
            } else {
                out.push(0xdd);
                push_be(out, n as u64, 4);
            }
            proof {
                assert(out@ =~= old(out)@ + arr_header(a@.len() as nat));
            }
            let ghost headered = out@;
            let mut i: usize = 0;
            while i < n
                invariant
                    *v == Value::Array(*a),
                    n == a@.len(),
                    n < 0x1_0000_0000,
                    i <= n,
                    headered == old(out)@ + arr_header(a@.len() as nat),
                    out@ + enc_list_from(a@, i as int) == headered + enc_list_from(a@, 0),
                    forall|j: int| 0 <= j < i ==> encodable(#[trigger] a@[j]),
                decreases n - i,
            {
                proof {
                    assert(*a == v->Array_0);
                    assert(decreases_to!(*v => v->Array_0));
                    assert(decreases_to!(*a => a@));
                    assert(decreases_to!(a@ => a@[i as int]));
                }
                let ghost before = out@;
                match encode_value_into(&a[i], out) {
                    Ok(()) => {},
                    Err(e) => {
                        proof {
                            assert(!encodable(a@[i as int]));
                            assert(!encodable(*v)) by {
                                if encodable(*v) {
                                    assert(encodable(a@[i as int]));
                                }
                            }
                        }
                        return Err(e);
                    },
                }
                proof {
                    assert(enc_list_from(a@, i as int) == enc_value(a@[i as int]) + enc_list_from(
                        a@,
                        i + 1,
                    ));
                    assert(before + enc_list_from(a@, i as int) == headered + enc_list_from(a@, 0));
                    assert(out@ + enc_list_from(a@, i + 1) =~= headered + enc_list_from(a@, 0));
                }
                i += 1;
            }
            proof {
                assert(enc_list_from(a@, n as int) =~= Seq::<u8>::empty());
                assert(out@ + enc_list_from(a@, n as int) =~= out@);
                assert(out@ =~= headered + enc_list_from(a@, 0));
                assert(encodable(*v));
                assert(out@ =~= old(out)@ + enc_value(*v));
            }
            Ok(())
        },
        Value::Object(m) => {
            proof {
                assert(decreases_to!(m => m@));
            }
            let r = encode_map_into(m, out);
            r
        },
    }
}

/// Append the header and entries of the map `m`.
pub fn encode_map_into(m: &ValueMap, out: &mut Vec<u8>) -> (r: Result<(), EncodeError>)
    ensures
        r is Ok <==> (m@.len() < 0x1_0000_0000 && entries_encodable(m@)),
        r is Ok ==> final(out)@ == old(out)@ + map_header(m@.len() as nat) + enc_entries_from(
            m@,
            0,
        ),
    decreases *m, 1int,
{
    let entries = m.entries();
    let n = entries.len();
    if (n as u64) > 0xffff_ffffu64 {
        return Err(EncodeError::TooLarge);
    }
    if n <= 15 {
        out.push(0x80 + (n as u8));
    } else if n <= 0xffff {
        out.push(0xde);
        push_be(out, n as u64, 2);
    } else {
        out.push(0xdf);
        push_be(out, n as u64, 4);
    }
    proof {
        assert(out@ =~= old(out)@ + map_header(m@.len() as nat));
    }
    let ghost headered = out@;
    let mut i: usize = 0;
    while i < n
        invariant
            n == m@.len(),
            n < 0x1_0000_0000,
            entries@ == m@,
            i <= n,
            headered == old(out)@ + map_header(m@.len() as nat),
            out@ + enc_entries_from(m@, i as int) == headered + enc_entries_from(m@, 0),
            forall|j: int| 0 <= j < i ==> entry_encodable(#[trigger] m@[j]),
        decreases n - i,
    {
        let ghost before = out@;
        match encode_str_into(entries[i].0.as_str(), out) {
            Ok(()) => {},
            Err(e) => {
                proof {
                    assert(!entry_encodable(m@[i as int]));
                    assert(!entries_encodable(m@)) by {
                        if entries_encodable(m@) {
                            assert(entry_encodable(m@[i as int]));
                        }
                    }
                }
                return Err(e);
            },
        }
        proof {
            assert(decreases_to!(*m => m@));
            assert(decreases_to!(m@ => m@[i as int]));
        }
        match encode_value_into(&entries[i].1, out) {
            Ok(()) => {},
            Err(e) => {
                proof {
                    assert(!encodable(m@[i as int].1));
                    assert(!entry_encodable(m@[i as int]));
                    assert(!entries_encodable(m@)) by {
                        if entries_encodable(m@) {
                            assert(entry_encodable(m@[i as int]));
                        }
                    }
                }
                return Err(e);
            },
        }
        proof {
            assert(enc_entries_from(m@, i as int) == enc_str_bytes(encode_utf8(m@[i as int].0@))
                + enc_value(m@[i as int].1) + enc_entries_from(m@, i + 1));
            assert(before + enc_entries_from(m@, i as int) == headered + enc_entries_from(m@, 0));
            assert(out@ + enc_entries_from(m@, i + 1) =~= headered + enc_entries_from(m@, 0));
        }
        i += 1;
    }
    proof {
        assert(enc_entries_from(m@, n as int) =~= Seq::<u8>::empty());
        assert(out@ =~= headered + enc_entries_from(m@, 0));
        assert(out@ =~= old(out)@ + map_header(m@.len() as nat) + enc_entries_from(m@, 0));
    }
    Ok(())
}

/// Encode a whole record to its wire bytes.
pub fn encode_record_bytes(tag: &str, timestamp: i64, payload: &ValueMap, chunk: &str) -> (r:
    Result<Vec<u8>, EncodeError>)
    ensures
        r is Ok <==> record_encodable(tag@, payload@, chunk@),
        r matches Ok(b) ==> b@ == enc_record(tag@, timestamp, payload@, chunk@),
{
    proof {
        reveal_strlit("chunk");
        assert("chunk"@ =~= chunk_key());
        vstd::utf8::is_ascii_chars_encode_utf8(chunk_key());
        assert(encode_utf8(chunk_key()).len() == 5);
    }
    let mut out: Vec<u8> = Vec::new();
    out.push(0x94);
    match encode_str_into(tag, &mut out) {
        Ok(()) => {},
        Err(e) => {
            return Err(e);
        },
    }
    encode_int_into(timestamp, &mut out);
    match encode_map_into(payload, &mut out) {
        Ok(()) => {},
        Err(e) => {
            return Err(e);
        },
    }
    out.push(0x81);
    match encode_str_into("chunk", &mut out) {
        Ok(()) => {},
        Err(e) => {
            proof {
                assert(false);
            }
            return Err(e);
        },
    }
    match encode_str_into(chunk, &mut out) {
        Ok(()) => {},
        Err(e) => {
            return Err(e);
        },
    }
    proof {
        assert(out@ =~= enc_record(tag@, timestamp, payload@, chunk@));
    }
    Ok(out)
}

} // verus!
