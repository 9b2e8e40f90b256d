//! Round-trip: what the aggregator decodes from a canonical encoding,
//! and that re-encoding it reproduces the same bytes.

use crate::dec::{be_val, dec_list, dec_val, from_unsigned, lemma_pow256_values, pair_up, pow256, Dec, WireVal};
use crate::record::Value;
use crate::wire::{
    be_bytes, chunk_key, enc_entries_from, enc_int, enc_list_from, enc_record, enc_str_bytes,
    enc_uint, enc_value, encodable, entry_encodable, map_header, record_encodable, str_header,
    to_unsigned,
};
use vstd::prelude::*;
use vstd::utf8::encode_utf8;

verus! {

broadcast use crate::record::lemma_valuemap_view_decreases;

/// The item the decoder yields for the canonical encoding of `v`: the
/// same value, except that a small non-negative signed integer comes
/// back from the shared one-byte positive form, and a string comes back
/// as its UTF-8 bytes.
pub open spec fn wire_of(v: Value) -> WireVal
    decreases v, 0int, 0int,
    via wire_of_dec
{
    match v {
        Value::Bool(b) => WireVal::WBool(b),
        Value::Int(i) => if 0 <= i <= 0x7f {
            WireVal::WUint(i as u64)
        } else {
            WireVal::WInt(i)
        },
        Value::Uint(u) => WireVal::WUint(u),
        Value::Float(bits) => WireVal::WF64(bits),
        Value::Str(s) => WireVal::WStr(encode_utf8(s@)),
        Value::Array(a) => WireVal::WArr(wire_list(a@, 0)),
        Value::Object(m) => WireVal::WMap(wire_entries(m@, 0)),
    }
}

/// The decoded items for the elements of `a` from index `i` on.
pub open spec fn wire_list(a: Seq<Value>, i: int) -> Seq<WireVal>
    decreases a, a.len() - i, 1int,
    via wire_list_dec
{
    if 0 <= i < a.len() {
        seq![wire_of(a[i])] + wire_list(a, i + 1)
    } else {
        Seq::empty()
    }
}

/// The decoded key-value pairs for the entries of `e` from index `i`
/// on.
pub open spec fn wire_entries(e: Seq<(String, Value)>, i: int) -> Seq<(WireVal, WireVal)>
    decreases e, e.len() - i, 1int,
    via wire_entries_dec
{
    if 0 <= i < e.len() {
        seq![(WireVal::WStr(encode_utf8(e[i].0@)), wire_of(e[i].1))] + wire_entries(e, i + 1)
    } else {
        Seq::empty()
    }
}

/// The flat item sequence a decoder reads for the entries of `e` from
/// index `i` on: key, value, key, value.
pub open spec fn wire_entries_flat(e: Seq<(String, Value)>, i: int) -> Seq<WireVal>
    decreases e, e.len() - i, 2int,
    via wire_entries_flat_dec
{
    if 0 <= i < e.len() {
        seq![WireVal::WStr(encode_utf8(e[i].0@)), wire_of(e[i].1)] + wire_entries_flat(e, i + 1)
    } else {
        Seq::empty()
    }
}

#[via_fn]
proof fn wire_of_dec(v: Value) {
    match v {
        Value::Array(a) => {
            assert(decreases_to!(a => a@));
        },
        Value::Object(m) => {
            assert(decreases_to!(m => m@));
        },
        _ => {},
    }
}

#[via_fn]
proof fn wire_list_dec(a: Seq<Value>, i: int) {
    if 0 <= i < a.len() {
        assert(decreases_to!(a => a[i]));
    }
}

#[via_fn]
proof fn wire_entries_dec(e: Seq<(String, Value)>, i: int) {
    if 0 <= i < e.len() {
        assert(decreases_to!(e => e[i]));
    }
}

#[via_fn]
proof fn wire_entries_flat_dec(e: Seq<(String, Value)>, i: int) {
    if 0 <= i < e.len() {
        assert(decreases_to!(e => e[i]));
    }
}

/// `be_bytes` writes exactly `n` bytes.
pub broadcast proof fn lemma_be_bytes_len(v: nat, n: nat)
    ensures
        (#[trigger] be_bytes(v, n)).len() == n,
    decreases n,
{
    if n > 0 {
        lemma_be_bytes_len(v / 256, (n - 1) as nat);
    }
}

/// `be_val` reads only the first `n` bytes.
proof fn lemma_be_val_prefix(x: Seq<u8>, y: Seq<u8>, n: nat)
    requires
        n <= x.len(),
        n <= y.len(),
        forall|j: int| 0 <= j < n ==> x[j] == y[j],
    ensures
        be_val(x, n) == be_val(y, n),
    decreases n,
{
    if n > 0 {
        lemma_be_val_prefix(x, y, (n - 1) as nat);
    }
}

/// One byte read big-endian is that byte.
proof fn lemma_be_val_one(s: Seq<u8>)
    requires
        s.len() >= 1,
    ensures
        be_val(s, 1) == s[0],
{
    assert(be_val(s, 0) == 0);
}

/// Reading back `n` big-endian bytes of `v` gives `v`.
proof fn lemma_be_roundtrip(v: nat, n: nat, rest: Seq<u8>)
    requires
        v < pow256(n),
    ensures
        be_val(be_bytes(v, n) + rest, n) == v,
    decreases n,
{
    broadcast use lemma_be_bytes_len;

    if n == 0 {
        assert(pow256(0) == 1);
    } else {
        let q = v / 256;
        let r = (v % 256) as u8;
        assert(pow256(n) == 256 * pow256((n - 1) as nat));
        assert(q < pow256((n - 1) as nat)) by {
            if q >= pow256((n - 1) as nat) {
                assert(v >= 256 * pow256((n - 1) as nat)) by (nonlinear_arith)
                    requires
                        v / 256 >= pow256((n - 1) as nat),
                        v >= 0,
                ;
            }
        }
        let x = be_bytes(v, n) + rest;
        assert(be_bytes(v, n) == be_bytes(q, (n - 1) as nat).push(r));
        lemma_be_roundtrip(q, (n - 1) as nat, seq![r] + rest);
        assert(x =~= be_bytes(q, (n - 1) as nat) + (seq![r] + rest));
        lemma_be_val_prefix(x, be_bytes(q, (n - 1) as nat) + (seq![r] + rest), (n - 1) as nat);
        assert(x[n - 1] == r);
        assert(be_val(x, n) == be_val(x, (n - 1) as nat) * 256 + r);
        assert(q * 256 + v % 256 == v);
    }
}

/// Decoding the encoding of a string of `sb` bytes yields those bytes.
proof fn lemma_dec_enc_str(sb: Seq<u8>, rest: Seq<u8>)
    requires
        sb.len() < 0x1_0000_0000,
    ensures
        dec_val(enc_str_bytes(sb) + rest) == Dec::<WireVal>::Got(
            WireVal::WStr(sb),
            enc_str_bytes(sb).len() as int,
        ),
        enc_str_bytes(sb).len() == str_header(sb.len()).len() + sb.len(),
{
    broadcast use lemma_be_bytes_len;

    lemma_pow256_values();
    let b = enc_str_bytes(sb) + rest;
    let n = sb.len();
    if n <= 31 {
        assert(b[0] == (0xa0 + n) as u8);
        assert(b.subrange(1, 1 + n as int) =~= sb);
    } else if n <= 0xff {
        assert(b[0] == 0xd9);
        assert(b[1] == n as u8);
        lemma_be_val_one(b.skip(1));
        assert(be_val(b.skip(1), 1) == n);
        assert(b.subrange(2, 2 + n as int) =~= sb);
    } else if n <= 0xffff {
        assert(b[0] == 0xda);
        assert(b.skip(1) =~= be_bytes(n, 2) + (sb + rest));
        lemma_be_roundtrip(n, 2, sb + rest);
        assert(be_val(b.skip(1), 2) == n);
        assert(b.subrange(3, 3 + n as int) =~= sb);
    } else {
        assert(b[0] == 0xdb);
        assert(b.skip(1) =~= be_bytes(n, 4) + (sb + rest));
        lemma_be_roundtrip(n, 4, sb + rest);
        assert(be_val(b.skip(1), 4) == n);
        assert(b.subrange(5, 5 + n as int) =~= sb);
    }
}

/// Decoding the encoding of an unsigned integer yields it, unsigned.
proof fn lemma_dec_enc_uint(u: u64, rest: Seq<u8>)
    ensures
        dec_val(enc_uint(u) + rest) == Dec::<WireVal>::Got(
            WireVal::WUint(u),
            enc_uint(u).len() as int,
        ),
{
    broadcast use lemma_be_bytes_len;

    lemma_pow256_values();
    let b = enc_uint(u) + rest;
    if u <= 0x7f {
        assert(b[0] == u as u8);
    } else if u <= 0xff {
        assert(b[0] == 0xcc);
        assert(b[1] == u as u8);
        lemma_be_val_one(b.skip(1));
        assert(be_val(b.skip(1), 1) == u);
    } else if u <= 0xffff {
        assert(b[0] == 0xcd);
        assert(b.skip(1) =~= be_bytes(u as nat, 2) + rest);
        lemma_be_roundtrip(u as nat, 2, rest);
    } else if u <= 0xffff_ffff {
        assert(b[0] == 0xce);
        assert(b.skip(1) =~= be_bytes(u as nat, 4) + rest);
        lemma_be_roundtrip(u as nat, 4, rest);
    } else {
        assert(b[0] == 0xcf);
        assert(b.skip(1) =~= be_bytes(u as nat, 8) + rest);
        lemma_be_roundtrip(u as nat, 8, rest);
    }
}

/// Decoding the encoding of a signed integer yields it back, from the
/// unsigned one-byte form when it was small and non-negative.
proof fn lemma_dec_enc_int(i: i64, rest: Seq<u8>)
    ensures
        dec_val(enc_int(i) + rest) == Dec::<WireVal>::Got(
            if 0 <= i <= 0x7f {
                WireVal::WUint(i as u64)
            } else {
                WireVal::WInt(i)
            },
            enc_int(i).len() as int,
        ),
{
    broadcast use lemma_be_bytes_len;

    lemma_pow256_values();
    let b = enc_int(i) + rest;
    if 0 <= i <= 0x7f {
        assert(b[0] == i as u8);
    } else if -32 <= i < 0 {
        assert(b[0] == (i + 256) as u8);
        assert(b[0] >= 0xe0);
    } else if -0x80 <= i <= 0x7f {
        assert(b[0] == 0xd0);
        assert(b[1] == (i + 256) as u8);
        lemma_be_val_one(b.skip(1));
        assert(be_val(b.skip(1), 1) == i + 256);
        assert(from_unsigned((i + 256) as nat, 0x100) == i);
    } else if -0x8000 <= i <= 0x7fff {
        assert(b[0] == 0xd1);
        let u = to_unsigned(i as int, 0x1_0000);
        assert(b.skip(1) =~= be_bytes(u, 2) + rest);
        lemma_be_roundtrip(u, 2, rest);
        assert(from_unsigned(u, 0x1_0000) == i);
    } else if -0x8000_0000 <= i <= 0x7fff_ffff {
        assert(b[0] == 0xd2);
        let u = to_unsigned(i as int, 0x1_0000_0000);
        assert(b.skip(1) =~= be_bytes(u, 4) + rest);
        lemma_be_roundtrip(u, 4, rest);
        assert(from_unsigned(u, 0x1_0000_0000) == i);
    } else {
        assert(b[0] == 0xd3);
        let u = to_unsigned(i as int, 0x1_0000_0000_0000_0000);
        assert(b.skip(1) =~= be_bytes(u, 8) + rest);
        lemma_be_roundtrip(u, 8, rest);
        assert(from_unsigned(u, 0x1_0000_0000_0000_0000) == i);
    }
}

/// An encoding is never empty.
proof fn lemma_enc_value_len_pos(v: Value)
    ensures
        enc_value(v).len() >= 1,
{
    match v {
        Value::Bool(_) => {},
        Value::Int(_) => {},
        Value::Uint(_) => {},
        Value::Float(_) => {},
        Value::Str(_) => {},
        Value::Array(_) => {},
        Value::Object(_) => {},
    }
}

/// Decoding the canonical encoding of `v` followed by anything yields
/// the expected item and consumes exactly the encoding.
#[verifier::rlimit(50)]
pub proof fn lemma_dec_enc_value(v: Value, rest: Seq<u8>)
    requires
        encodable(v),
    ensures
        dec_val(enc_value(v) + rest) == Dec::<WireVal>::Got(
            wire_of(v),
            enc_value(v).len() as int,
        ),
    decreases v, 0int, 0int,
{
    broadcast use lemma_be_bytes_len;

    lemma_pow256_values();
    let b = enc_value(v) + rest;
    match v {
        Value::Bool(x) => {
            assert(b[0] == if x {
                0xc3u8
            } else {
                0xc2u8
            });
        },
        Value::Int(i) => {
            lemma_dec_enc_int(i, rest);
        },
        Value::Uint(u) => {
            lemma_dec_enc_uint(u, rest);
        },
        Value::Float(bits) => {
            assert(b[0] == 0xcb);
            assert(b.skip(1) =~= be_bytes(bits as nat, 8) + rest);
            lemma_be_roundtrip(bits as nat, 8, rest);
        },
        Value::Str(s) => {
            lemma_dec_enc_str(encode_utf8(s@), rest);
        },
        Value::Array(a) => {
            assert(decreases_to!(v => v->Array_0));
            assert(decreases_to!(a => a@));
            let n = a@.len();
            let e_list = enc_list_from(a@, 0);
            lemma_dec_enc_list(a@, 0, rest);
            if n <= 15 {
                assert(b[0] == (0x90 + n) as u8);
                assert(b.skip(1) =~= e_list + rest);
            } else if n <= 0xffff {
                assert(b[0] == 0xdc);
                assert(b.skip(1) =~= be_bytes(n, 2) + (e_list + rest));
                lemma_be_roundtrip(n, 2, e_list + rest);
                assert(b.skip(3) =~= e_list + rest);
            } else {
                assert(b[0] == 0xdd);
                assert(b.skip(1) =~= be_bytes(n, 4) + (e_list + rest));
                lemma_be_roundtrip(n, 4, e_list + rest);
                assert(b.skip(5) =~= e_list + rest);
            }
        },
        Value::Object(m) => {
            assert(decreases_to!(v => v->Object_0));
            assert(decreases_to!(m => m@));
            assert(crate::wire::entries_encodable(m@));
            assert(forall|j: int| 0 <= j < m@.len() ==> entry_encodable(#[trigger] m@[j]));
            lemma_dec_enc_map(m@, rest);
            assert(enc_value(v) + rest =~= map_header(m@.len()) + enc_entries_from(m@, 0) + rest);
        },
    }
}

/// Decoding an encoded map of entries followed by anything yields the
/// expected pairs and consumes exactly the map.
pub proof fn lemma_dec_enc_map(e: Seq<(String, Value)>, rest: Seq<u8>)
    requires
        e.len() < 0x1_0000_0000,
        forall|j: int| 0 <= j < e.len() ==> entry_encodable(#[trigger] e[j]),
    ensures
        dec_val(map_header(e.len()) + enc_entries_from(e, 0) + rest) == Dec::<WireVal>::Got(
            WireVal::WMap(wire_entries(e, 0)),
            (map_header(e.len()) + enc_entries_from(e, 0)).len() as int,
        ),
    decreases e, e.len(), 2int,
{
    broadcast use lemma_be_bytes_len;

    lemma_pow256_values();
    let n = e.len();
    let e_entries = enc_entries_from(e, 0);
    let b = map_header(n) + e_entries + rest;
    lemma_dec_enc_entries(e, 0, rest);
    lemma_wire_entries_flat_pairs(e, 0);
    assert(pair_up(wire_entries_flat(e, 0)) =~= wire_entries(e, 0));
    if n <= 15 {
        assert(b[0] == (0x80 + n) as u8);
        assert(b.skip(1) =~= e_entries + rest);
    } else if n <= 0xffff {
        assert(b[0] == 0xde);
        assert(b.skip(1) =~= be_bytes(n, 2) + (e_entries + rest));
        lemma_be_roundtrip(n, 2, e_entries + rest);
        assert(b.skip(3) =~= e_entries + rest);
    } else {
        assert(b[0] == 0xdf);
        assert(b.skip(1) =~= be_bytes(n, 4) + (e_entries + rest));
        lemma_be_roundtrip(n, 4, e_entries + rest);
        assert(b.skip(5) =~= e_entries + rest);
    }
}

/// Decoding the concatenated encodings of `a[i..]` followed by anything
/// yields the expected items and consumes exactly those encodings.
pub proof fn lemma_dec_enc_list(a: Seq<Value>, i: int, rest: Seq<u8>)
    requires
        0 <= i <= a.len(),
        forall|j: int| i <= j < a.len() ==> encodable(#[trigger] a[j]),
    ensures
        dec_list(enc_list_from(a, i) + rest, (a.len() - i) as nat) == Dec::<Seq<WireVal>>::Got(
            wire_list(a, i),
            enc_list_from(a, i).len() as int,
        ),
    decreases a, a.len() - i, 1int,
{
    if i == a.len() {
        assert(enc_list_from(a, i) + rest =~= rest);
        assert(wire_list(a, i) =~= Seq::<WireVal>::empty());
    } else {
        assert(decreases_to!(a => a[i]));
        let head = enc_value(a[i]);
        let tail = enc_list_from(a, i + 1);
        assert(enc_list_from(a, i) == head + tail);
        let b = enc_list_from(a, i) + rest;
        assert(b =~= head + (tail + rest));
        lemma_dec_enc_value(a[i], tail + rest);
        lemma_enc_value_len_pos(a[i]);
        assert(b.skip(head.len() as int) =~= tail + rest);
        lemma_dec_enc_list(a, i + 1, rest);
        assert(wire_list(a, i) == seq![wire_of(a[i])] + wire_list(a, i + 1));
    }
}

/// Decoding the concatenated key-value encodings of `e[i..]` followed by
/// anything yields the flat item sequence and consumes exactly those
/// encodings.
#[verifier::rlimit(80)]
pub proof fn lemma_dec_enc_entries(e: Seq<(String, Value)>, i: int, rest: Seq<u8>)
    requires
        0 <= i <= e.len(),
        forall|j: int| i <= j < e.len() ==> entry_encodable(#[trigger] e[j]),
    ensures
        dec_list(enc_entries_from(e, i) + rest, (2 * (e.len() - i)) as nat) == Dec::<
            Seq<WireVal>,
        >::Got(wire_entries_flat(e, i), enc_entries_from(e, i).len() as int),
    decreases e, e.len() - i, 1int,
{
    if i == e.len() {
        assert(enc_entries_from(e, i) + rest =~= rest);
        assert(wire_entries_flat(e, i) =~= Seq::<WireVal>::empty());
    } else {
        assert(decreases_to!(e => e[i]));
        assert(entry_encodable(e[i]));
        let kb = encode_utf8(e[i].0@);
        let khead = enc_str_bytes(kb);
        let vhead = enc_value(e[i].1);
        let tail = enc_entries_from(e, i + 1);
        assert(enc_entries_from(e, i) == khead + vhead + tail);
        let b = enc_entries_from(e, i) + rest;
        assert(b =~= khead + (vhead + (tail + rest)));
        lemma_dec_enc_str(kb, vhead + (tail + rest));
        let b2 = b.skip(khead.len() as int);
        assert(b2 =~= vhead + (tail + rest));
        lemma_dec_enc_value(e[i].1, tail + rest);
        lemma_enc_value_len_pos(e[i].1);
        let b3 = b2.skip(vhead.len() as int);
        assert(b3 =~= tail + rest);
        lemma_dec_enc_entries(e, i + 1, rest);
        assert(khead.len() >= 1);
        let m2 = (2 * (e.len() - i) - 1) as nat;
        assert(m2 >= 1);
        assert((m2 - 1) as nat == (2 * (e.len() - (i + 1))) as nat);
        assert(dec_list(b2, m2) == Dec::<Seq<WireVal>>::Got(
            seq![wire_of(e[i].1)] + wire_entries_flat(e, i + 1),
            vhead.len() + tail.len() as int,
        ));
        assert(dec_list(b, (2 * (e.len() - i)) as nat) == Dec::<Seq<WireVal>>::Got(
            seq![WireVal::WStr(kb)] + (seq![wire_of(e[i].1)] + wire_entries_flat(e, i + 1)),
            enc_entries_from(e, i).len() as int,
        ));
        assert(wire_entries_flat(e, i) =~= seq![WireVal::WStr(kb)] + (seq![wire_of(e[i].1)]
            + wire_entries_flat(e, i + 1)));
    }
}

/// Pairing the flat key-value item sequence gives the entry pairs.
proof fn lemma_wire_entries_flat_pairs(e: Seq<(String, Value)>, i: int)
    requires
        0 <= i <= e.len(),
    ensures
        wire_entries_flat(e, i).len() == 2 * (e.len() - i),
        wire_entries(e, i).len() == e.len() - i,
        forall|k: int|
            0 <= k < e.len() - i ==> (#[trigger] wire_entries_flat(e, i)[2 * k]
                == WireVal::WStr(encode_utf8(e[i + k].0@)) && wire_entries_flat(e, i)[2 * k + 1]
                == wire_of(e[i + k].1)),
        forall|k: int|
            0 <= k < e.len() - i ==> #[trigger] wire_entries(e, i)[k] == (
            WireVal::WStr(encode_utf8(e[i + k].0@)),
            wire_of(e[i + k].1),
            ),
    decreases e.len() - i,
{
    if i < e.len() {
        lemma_wire_entries_flat_pairs(e, i + 1);
        assert forall|k: int| 0 <= k < e.len() - i implies (#[trigger] wire_entries_flat(e, i)[2
            * k] == WireVal::WStr(encode_utf8(e[i + k].0@)) && wire_entries_flat(e, i)[2 * k + 1]
            == wire_of(e[i + k].1)) by {
            if k > 0 {
                assert(wire_entries_flat(e, i + 1)[2 * (k - 1)] == WireVal::WStr(
                    encode_utf8(e[i + k].0@),
                ));
                assert(wire_entries_flat(e, i + 1)[2 * (k - 1) + 1] == wire_of(e[i + k].1));
                assert(wire_entries_flat(e, i)[2 * k] == wire_entries_flat(e, i + 1)[2 * k - 2]);
                assert(wire_entries_flat(e, i)[2 * k + 1] == wire_entries_flat(e, i + 1)[2 * k
                    - 1]);
            }
        }
        assert forall|k: int| 0 <= k < e.len() - i implies #[trigger] wire_entries(e, i)[k] == (
        WireVal::WStr(encode_utf8(e[i + k].0@)),
        wire_of(e[i + k].1),
        ) by {
            if k > 0 {
                assert(wire_entries(e, i)[k] == wire_entries(e, i + 1)[k - 1]);
            }
        }
    }
}

/// Re-encoding what the aggregator decodes reproduces the bytes.
pub proof fn lemma_wenc_wire_of(v: Value)
    requires
        encodable(v),
    ensures
        crate::dec::wenc(wire_of(v)) == enc_value(v),
    decreases v, 0int, 0int,
{
    match v {
        Value::Bool(_) => {},
        Value::Int(i) => {
            if 0 <= i <= 0x7f {
                assert(enc_uint(i as u64) =~= enc_int(i));
            }
        },
        Value::Uint(_) => {},
        Value::Float(_) => {},
        Value::Str(_) => {},
        Value::Array(a) => {
            assert(decreases_to!(v => v->Array_0));
            assert(decreases_to!(a => a@));
            lemma_wenc_wire_list(a@, 0);
            assert(wire_list(a@, 0).len() == a@.len()) by {
                lemma_wire_list_len(a@, 0);
            }
        },
        Value::Object(m) => {
            assert(decreases_to!(v => v->Object_0));
            assert(decreases_to!(m => m@));
            assert(crate::wire::entries_encodable(m@));
            assert(forall|j: int| 0 <= j < m@.len() ==> entry_encodable(#[trigger] m@[j]));
            lemma_wenc_wire_entries(m@, 0);
            lemma_wire_entries_flat_pairs(m@, 0);
        },
    }
}

/// The decoded list is as long as the source list.
proof fn lemma_wire_list_len(a: Seq<Value>, i: int)
    requires
        0 <= i <= a.len(),
    ensures
        wire_list(a, i).len() == a.len() - i,
    decreases a.len() - i,
{
    if i < a.len() {
        lemma_wire_list_len(a, i + 1);
    }
}

/// Re-encoding the decoded items of `a[i..]` reproduces their
/// encodings.
proof fn lemma_wenc_wire_list(a: Seq<Value>, i: int)
    requires
        0 <= i <= a.len(),
        forall|j: int| i <= j < a.len() ==> encodable(#[trigger] a[j]),
    ensures
        crate::dec::wenc_list_from(wire_list(a, i), 0) == enc_list_from(a, i),
    decreases a, a.len() - i, 1int,
{
    if i == a.len() {
        assert(crate::dec::wenc_list_from(wire_list(a, i), 0) =~= enc_list_from(a, i));
    } else {
        assert(decreases_to!(a => a[i]));
        lemma_wenc_wire_of(a[i]);
        lemma_wenc_wire_list(a, i + 1);
        let w = wire_list(a, i);
        assert(w == seq![wire_of(a[i])] + wire_list(a, i + 1));
        lemma_wenc_list_prepend(wire_of(a[i]), wire_list(a, i + 1));
    }
}

/// Re-encoding a list with one item in front splits into the item's
/// bytes then the rest.
proof fn lemma_wenc_list_prepend(h: WireVal, t: Seq<WireVal>)
    ensures
        crate::dec::wenc_list_from(seq![h] + t, 0) == crate::dec::wenc(h)
            + crate::dec::wenc_list_from(t, 0),
{
    let s = seq![h] + t;
    assert(s[0] == h);
    lemma_wenc_list_align(s, t, 1, 0);
}

/// Two lists that agree from the given indices on re-encode alike from
/// there.
proof fn lemma_wenc_list_align(s: Seq<WireVal>, t: Seq<WireVal>, i: int, j: int)
    requires
        0 <= i <= s.len(),
        0 <= j <= t.len(),
        s.len() - i == t.len() - j,
        forall|k: int| 0 <= k < s.len() - i ==> #[trigger] s[i + k] == t[j + k],
    ensures
        crate::dec::wenc_list_from(s, i) == crate::dec::wenc_list_from(t, j),
    decreases s.len() - i,
{
    if i < s.len() {
        assert(s[i] == t[j]) by {
            assert(s[i + 0] == t[j + 0]);
        }
        assert forall|k: int| 0 <= k < s.len() - (i + 1) implies #[trigger] s[i + 1 + k] == t[j + 1 + k] by {
            assert(s[i + (k + 1)] == t[j + (k + 1)]);
        }
        lemma_wenc_list_align(s, t, i + 1, j + 1);
    } else {
        assert(crate::dec::wenc_list_from(s, i) =~= crate::dec::wenc_list_from(t, j));
    }
}

/// Re-encoding pairs with one pair in front splits into the pair's
/// bytes then the rest.
proof fn lemma_wenc_entries_prepend(h: (WireVal, WireVal), t: Seq<(WireVal, WireVal)>)
    ensures
        crate::dec::wenc_entries_from(seq![h] + t, 0) == crate::dec::wenc(h.0) + crate::dec::wenc(
            h.1,
        ) + crate::dec::wenc_entries_from(t, 0),
{
    let s = seq![h] + t;
    assert(s[0] == h);
    lemma_wenc_entries_align(s, t, 1, 0);
}

/// Two pair sequences that agree from the given indices on re-encode
/// alike from there.
proof fn lemma_wenc_entries_align(
    s: Seq<(WireVal, WireVal)>,
    t: Seq<(WireVal, WireVal)>,
    i: int,
    j: int,
)
    requires
        0 <= i <= s.len(),
        0 <= j <= t.len(),
        s.len() - i == t.len() - j,
        forall|k: int| 0 <= k < s.len() - i ==> #[trigger] s[i + k] == t[j + k],
    ensures
        crate::dec::wenc_entries_from(s, i) == crate::dec::wenc_entries_from(t, j),
    decreases s.len() - i,
{
    if i < s.len() {
        assert(s[i] == t[j]) by {
            assert(s[i + 0] == t[j + 0]);
        }
        assert forall|k: int| 0 <= k < s.len() - (i + 1) implies #[trigger] s[i + 1 + k] == t[j + 1 + k] by {
            assert(s[i + (k + 1)] == t[j + (k + 1)]);
        }
        lemma_wenc_entries_align(s, t, i + 1, j + 1);
    } else {
        assert(crate::dec::wenc_entries_from(s, i) =~= crate::dec::wenc_entries_from(t, j));
    }
}

/// Re-encoding the decoded pairs of `e[i..]` reproduces their
/// encodings.
proof fn lemma_wenc_wire_entries(e: Seq<(String, Value)>, i: int)
    requires
        0 <= i <= e.len(),
        forall|j: int| i <= j < e.len() ==> entry_encodable(#[trigger] e[j]),
    ensures
        crate::dec::wenc_entries_from(wire_entries(e, i), 0) == enc_entries_from(e, i),
    decreases e, e.len() - i, 1int,
{
    if i == e.len() {
        assert(crate::dec::wenc_entries_from(wire_entries(e, i), 0) =~= enc_entries_from(e, i));
    } else {
        assert(decreases_to!(e => e[i]));
        assert(entry_encodable(e[i]));
        lemma_wenc_wire_of(e[i].1);
        lemma_wenc_wire_entries(e, i + 1);
        let h = (WireVal::WStr(encode_utf8(e[i].0@)), wire_of(e[i].1));
        assert(wire_entries(e, i) == seq![h] + wire_entries(e, i + 1));
        lemma_wenc_entries_prepend(h, wire_entries(e, i + 1));
        assert(enc_entries_from(e, i) =~= crate::dec::wenc(h.0) + crate::dec::wenc(h.1)
            + enc_entries_from(e, i + 1));
    }
}

/// Round trip: decoding the canonical encoding of an encodable value
/// succeeds, consumes the whole encoding, and re-encoding the decoded
/// item reproduces the same bytes. A value sent unsigned is received
/// unsigned.
pub proof fn lemma_round_trip(v: Value)
    requires
        encodable(v),
    ensures
        dec_val(enc_value(v)) == Dec::<WireVal>::Got(wire_of(v), enc_value(v).len() as int),
        crate::dec::wenc(wire_of(v)) == enc_value(v),
        v is Uint ==> wire_of(v) is WUint,
{
    lemma_dec_enc_value(v, Seq::empty());
    assert(enc_value(v) + Seq::<u8>::empty() =~= enc_value(v));
    lemma_wenc_wire_of(v);
}


/// One step of decoding a list: a first item, then the remaining
/// items.
proof fn lemma_dec_list_cons(
    b: Seq<u8>,
    head_len: int,
    w: WireVal,
    tail_items: Seq<WireVal>,
    tail_len: int,
    n: nat,
)
    requires
        n >= 1,
        1 <= head_len <= b.len(),
        dec_val(b) == Dec::<WireVal>::Got(w, head_len),
        dec_list(b.skip(head_len), (n - 1) as nat) == Dec::<Seq<WireVal>>::Got(
            tail_items,
            tail_len,
        ),
    ensures
        dec_list(b, n) == Dec::<Seq<WireVal>>::Got(seq![w] + tail_items, head_len + tail_len),
{
}

/// The options map of a record decodes as a one-entry map: the key
/// `"chunk"`, then the chunk id.
#[verifier::rlimit(60)]
proof fn lemma_options_map_decodes(chunk: Seq<char>)
    requires
        encode_utf8(chunk).len() < 0x1_0000_0000,
    ensures
        ({
            let k = enc_str_bytes(encode_utf8(chunk_key()));
            let vv = enc_str_bytes(encode_utf8(chunk));
            let d = seq![0x81u8] + k + vv;
            dec_val(d) == Dec::<WireVal>::Got(
                WireVal::WMap(
                    seq![
                        (
                            WireVal::WStr(encode_utf8(chunk_key())),
                            WireVal::WStr(encode_utf8(chunk)),
                        ),
                    ],
                ),
                d.len() as int,
            )
        }),
{
    vstd::utf8::is_ascii_chars_encode_utf8(chunk_key());
    assert(encode_utf8(chunk_key()).len() == 5);
    let k = enc_str_bytes(encode_utf8(chunk_key()));
    let vv = enc_str_bytes(encode_utf8(chunk));
    let d = seq![0x81u8] + k + vv;
    let empty = Seq::<u8>::empty();
    let wk = WireVal::WStr(encode_utf8(chunk_key()));
    let wc = WireVal::WStr(encode_utf8(chunk));
    lemma_dec_enc_str(encode_utf8(chunk_key()), vv + empty);
    lemma_dec_enc_str(encode_utf8(chunk), empty);
    assert(d.skip(1) =~= k + (vv + empty));
    crate::dec::lemma_dec_val_bound(d.skip(1));
    assert((k + (vv + empty)).skip(k.len() as int) =~= vv + empty);
    crate::dec::lemma_dec_val_bound(vv + empty);
    assert(dec_list(vv + empty, 1) == Dec::<Seq<WireVal>>::Got(seq![wc], vv.len() as int)) by {
        assert((vv + empty).skip(vv.len() as int) =~= empty);
        assert(dec_list(empty, 0) == Dec::<Seq<WireVal>>::Got(Seq::<WireVal>::empty(), 0));
        assert(seq![wc] + Seq::<WireVal>::empty() =~= seq![wc]);
    }
    assert(dec_list(d.skip(1), 2) == Dec::<Seq<WireVal>>::Got(
        seq![wk, wc],
        k.len() + vv.len() as int,
    )) by {
        assert(seq![wk] + seq![wc] =~= seq![wk, wc]);
    }
    assert(d[0] == 0x81);
    assert(pair_up(seq![wk, wc]) =~= seq![(wk, wc)]);
    assert(d.len() == 1 + k.len() + vv.len());
}

/// The body of a record after its array header decodes as the four
/// items in order: tag, timestamp, payload map, options map.
/// The encoded options map of a record.
pub open spec fn opts_enc(chunk: Seq<char>) -> Seq<u8> {
    seq![0x81u8] + enc_str_bytes(encode_utf8(chunk_key())) + enc_str_bytes(encode_utf8(chunk))
}

/// The decoded options map of a record.
pub open spec fn opts_item(chunk: Seq<char>) -> WireVal {
    WireVal::WMap(
        seq![(WireVal::WStr(encode_utf8(chunk_key())), WireVal::WStr(encode_utf8(chunk)))],
    )
}

/// The options map alone, as a one-item list.
proof fn lemma_record_stage_one(chunk: Seq<char>)
    requires
        encode_utf8(chunk).len() < 0x1_0000_0000,
    ensures
        ({
            let d = opts_enc(chunk);
            dec_list(d, 1) == Dec::<Seq<WireVal>>::Got(seq![opts_item(chunk)], d.len() as int)
        }),
{
    let d = opts_enc(chunk);
    lemma_options_map_decodes(chunk);
    crate::dec::lemma_dec_val_bound(d);
    assert(dec_list(d.skip(d.len() as int), 0) == Dec::<Seq<WireVal>>::Got(
        Seq::<WireVal>::empty(),
        0,
    )) by {
        assert(d.skip(d.len() as int) =~= Seq::<u8>::empty());
    }
    lemma_dec_list_cons(d, d.len() as int, opts_item(chunk), Seq::<WireVal>::empty(), 0, 1);
    assert(seq![opts_item(chunk)] + Seq::<WireVal>::empty() =~= seq![opts_item(chunk)]);
}

/// The payload map and options map, as a two-item list.
#[verifier::rlimit(100)]
proof fn lemma_record_stage_two(payload: Seq<(String, Value)>, chunk: Seq<char>)
    requires
        payload.len() < 0x1_0000_0000,
        crate::wire::entries_encodable(payload),
        encode_utf8(chunk).len() < 0x1_0000_0000,
    ensures
        ({
            let s3 = (map_header(payload.len()) + enc_entries_from(payload, 0)) + opts_enc(chunk);
            dec_list(s3, 2) == Dec::<Seq<WireVal>>::Got(
                seq![WireVal::WMap(wire_entries(payload, 0)), opts_item(chunk)],
                s3.len() as int,
            )
        }),
{
    let c = map_header(payload.len()) + enc_entries_from(payload, 0);
    let d = opts_enc(chunk);
    let s3 = c + d;
    assert(forall|j: int| 0 <= j < payload.len() ==> entry_encodable(#[trigger] payload[j]));
    lemma_dec_enc_map(payload, d);
    lemma_record_stage_one(chunk);
    crate::dec::lemma_dec_val_bound(s3);
    assert(s3.skip(c.len() as int) =~= d);
    lemma_dec_list_cons(
        s3,
        c.len() as int,
        WireVal::WMap(wire_entries(payload, 0)),
        seq![opts_item(chunk)],
        d.len() as int,
        2,
    );
    assert(seq![WireVal::WMap(wire_entries(payload, 0))] + seq![opts_item(chunk)] =~= seq![
        WireVal::WMap(wire_entries(payload, 0)),
        opts_item(chunk),
    ]);
}

/// The timestamp, payload map and options map, as a three-item list.
#[verifier::rlimit(100)]
proof fn lemma_record_stage_three(ts: i64, payload: Seq<(String, Value)>, chunk: Seq<char>)
    requires
        payload.len() < 0x1_0000_0000,
        crate::wire::entries_encodable(payload),
        encode_utf8(chunk).len() < 0x1_0000_0000,
    ensures
        ({
            let s2 = enc_int(ts) + ((map_header(payload.len()) + enc_entries_from(payload, 0))
                + opts_enc(chunk));
            dec_list(s2, 3) == Dec::<Seq<WireVal>>::Got(
                seq![
                    if 0 <= ts <= 0x7f {
                        WireVal::WUint(ts as u64)
                    } else {
                        WireVal::WInt(ts)
                    },
                    WireVal::WMap(wire_entries(payload, 0)),
                    opts_item(chunk),
                ],
                s2.len() as int,
            )
        }),
{
    let bb = enc_int(ts);
    let s3 = (map_header(payload.len()) + enc_entries_from(payload, 0)) + opts_enc(chunk);
    let s2 = bb + s3;
    let w2 = if 0 <= ts <= 0x7f {
        WireVal::WUint(ts as u64)
    } else {
        WireVal::WInt(ts)
    };
    let w3 = WireVal::WMap(wire_entries(payload, 0));
    lemma_dec_enc_int(ts, s3);
    lemma_record_stage_two(payload, chunk);
    crate::dec::lemma_dec_val_bound(s2);
    assert(s2.skip(bb.len() as int) =~= s3);
    assert(dec_val(s2) == Dec::<WireVal>::Got(w2, bb.len() as int));
    assert(dec_list(s2.skip(bb.len() as int), 2) == Dec::<Seq<WireVal>>::Got(
        seq![w3, opts_item(chunk)],
        s3.len() as int,
    ));
    lemma_dec_list_cons(s2, bb.len() as int, w2, seq![w3, opts_item(chunk)], s3.len() as int, 3);
    assert(dec_list(s2, 3) == Dec::<Seq<WireVal>>::Got(
        seq![w2] + seq![w3, opts_item(chunk)],
        bb.len() + s3.len() as int,
    ));
    assert(seq![w2] + seq![w3, opts_item(chunk)] =~= seq![
        if 0 <= ts <= 0x7f {
            WireVal::WUint(ts as u64)
        } else {
            WireVal::WInt(ts)
        },
        WireVal::WMap(wire_entries(payload, 0)),
        opts_item(chunk),
    ]);
    assert(s2.len() == bb.len() + s3.len());
}

/// The body of a record after its array header decodes as the four
/// items in order: tag, timestamp, payload map, options map.
#[verifier::rlimit(100)]
proof fn lemma_record_tail_decodes(
    tag: Seq<char>,
    ts: i64,
    payload: Seq<(String, Value)>,
    chunk: Seq<char>,
)
    requires
        record_encodable(tag, payload, chunk),
    ensures
        ({
            let s1 = enc_str_bytes(encode_utf8(tag)) + (enc_int(ts) + ((map_header(payload.len())
                + enc_entries_from(payload, 0)) + opts_enc(chunk)));
            dec_list(s1, 4) == Dec::<Seq<WireVal>>::Got(
                seq![
                    WireVal::WStr(encode_utf8(tag)),
                    if 0 <= ts <= 0x7f {
                        WireVal::WUint(ts as u64)
                    } else {
                        WireVal::WInt(ts)
                    },
                    WireVal::WMap(wire_entries(payload, 0)),
                    opts_item(chunk),
                ],
                s1.len() as int,
            )
        }),
{
    let a = enc_str_bytes(encode_utf8(tag));
    let s2 = enc_int(ts) + ((map_header(payload.len()) + enc_entries_from(payload, 0))
        + opts_enc(chunk));
    let s1 = a + s2;
    let w1 = WireVal::WStr(encode_utf8(tag));
    let w2 = if 0 <= ts <= 0x7f {
        WireVal::WUint(ts as u64)
    } else {
        WireVal::WInt(ts)
    };
    let w3 = WireVal::WMap(wire_entries(payload, 0));
    lemma_dec_enc_str(encode_utf8(tag), s2);
    lemma_record_stage_three(ts, payload, chunk);
    crate::dec::lemma_dec_val_bound(s1);
    assert(s1.skip(a.len() as int) =~= s2);
    assert(seq![
        if 0 <= ts <= 0x7f {
            WireVal::WUint(ts as u64)
        } else {
            WireVal::WInt(ts)
        },
        WireVal::WMap(wire_entries(payload, 0)),
        opts_item(chunk),
    ] =~= seq![w2, w3, opts_item(chunk)]);
    lemma_dec_list_cons(
        s1,
        a.len() as int,
        w1,
        seq![w2, w3, opts_item(chunk)],
        s2.len() as int,
        4,
    );
    assert(seq![w1] + seq![w2, w3, opts_item(chunk)] =~= seq![
        WireVal::WStr(encode_utf8(tag)),
        if 0 <= ts <= 0x7f {
            WireVal::WUint(ts as u64)
        } else {
            WireVal::WInt(ts)
        },
        WireVal::WMap(wire_entries(payload, 0)),
        opts_item(chunk),
    ]);
}

/// What the aggregator decodes from a whole encoded record: a
/// four-element array holding the tag string, the timestamp, the
/// payload map, and an options map whose single entry maps `"chunk"`
/// to the chunk id.
pub proof fn lemma_record_decodes(
    tag: Seq<char>,
    ts: i64,
    payload: Seq<(String, Value)>,
    chunk: Seq<char>,
)
    requires
        record_encodable(tag, payload, chunk),
    ensures
        ({
            let e = enc_record(tag, ts, payload, chunk);
            dec_val(e) == Dec::<WireVal>::Got(
                WireVal::WArr(
                    seq![
                        WireVal::WStr(encode_utf8(tag)),
                        if 0 <= ts <= 0x7f {
                            WireVal::WUint(ts as u64)
                        } else {
                            WireVal::WInt(ts)
                        },
                        WireVal::WMap(wire_entries(payload, 0)),
                        opts_item(chunk),
                    ],
                ),
                e.len() as int,
            )
        }),
{
    let s1 = enc_str_bytes(encode_utf8(tag)) + (enc_int(ts) + ((map_header(payload.len())
        + enc_entries_from(payload, 0)) + opts_enc(chunk)));
    let e = enc_record(tag, ts, payload, chunk);
    lemma_record_tail_decodes(tag, ts, payload, chunk);
    assert(e =~= seq![0x94u8] + s1);
    assert(e[0] == 0x94);
    assert(e.skip(1) =~= s1);
    assert(e.len() == 1 + s1.len());
}

} // verus!
