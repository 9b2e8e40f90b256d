//! The MessagePack decoder, as the aggregator side sees the bytes.
//!
//! Decoding is three-valued: a prefix of a well-formed item yields
//! "incomplete" (read more bytes), an unsupported or contradictory byte
//! yields "malformed", and otherwise the item and the number of bytes it
//! occupied come back. Strings stay as their raw UTF-8 bytes: nothing in
//! the protocol ever needs them as characters, and the acknowledgement
//! comparison is done on bytes.

use crate::wire::{arr_header, be_bytes, enc_int, enc_str_bytes, enc_uint, map_header};
use vstd::prelude::*;

verus! {

/// A decoded MessagePack item; composite items hold decoded items,
/// strings and binaries hold raw bytes.
pub enum WireVal {
    /// nil
    WNil,
    /// true or false
    WBool(bool),
    /// An integer from the signed families
    WInt(i64),
    /// An integer from the unsigned families, the one-byte positive form
    /// included
    WUint(u64),
    /// A 32-bit float, as its bit pattern
    WF32(u32),
    /// A 64-bit float, as its bit pattern
    WF64(u64),
    /// A string, as its UTF-8 bytes
    WStr(Seq<u8>),
    /// A byte array
    WBin(Seq<u8>),
    /// An array
    WArr(Seq<WireVal>),
    /// A map, as key-value pairs in wire order
    WMap(Seq<(WireVal, WireVal)>),
}

/// The outcome of decoding: more bytes needed, malformed input, or an
/// item together with the count of bytes it occupied.
pub enum Dec<T> {
    /// The input ends before the item does.
    More,
    /// The input cannot begin a supported item.
    Bad,
    /// The item, and how many bytes of the input it took.
    Got(T, int),
}

/// The big-endian value of the first `n` bytes of `b`.
pub open spec fn be_val(b: Seq<u8>, n: nat) -> nat
    recommends
        n <= b.len(),
    decreases n,
{
    if n == 0 {
        0
    } else {
        be_val(b, (n - 1) as nat) * 256 + b[n - 1] as nat
    }
}

/// The signed reading of an unsigned `u` modulo `m`.
pub open spec fn from_unsigned(u: nat, m: int) -> int
    recommends
        0 < m,
        u < m,
{
    if 2 * u >= m {
        u - m
    } else {
        u as int
    }
}

/// Group a flat sequence of `2k` items into `k` key-value pairs.
pub open spec fn pair_up(l: Seq<WireVal>) -> Seq<(WireVal, WireVal)>
    recommends
        l.len() % 2 == 0,
{
    Seq::new(l.len() / 2, |i: int| (l[2 * i], l[2 * i + 1]))
}

/// Decode one item from the front of `b`.
pub open spec fn dec_val(b: Seq<u8>) -> Dec<WireVal>
    decreases b.len(), 0nat, 1nat,
{
    if b.len() == 0 {
        Dec::More
    } else {
        let t = b[0];
        if t <= 0x7f {
            Dec::Got(WireVal::WUint(t as u64), 1)
        } else if t <= 0x8f {
            dec_map_body(b, 1, (t - 0x80) as nat)
        } else if t <= 0x9f {
            dec_arr_body(b, 1, (t - 0x90) as nat)
        } else if t <= 0xbf {
            dec_raw_body(b, 1, (t - 0xa0) as nat, true)
        } else if t == 0xc0 {
            Dec::Got(WireVal::WNil, 1)
        } else if t == 0xc2 {
            Dec::Got(WireVal::WBool(false), 1)
        } else if t == 0xc3 {
            Dec::Got(WireVal::WBool(true), 1)
        } else if t == 0xc4 || t == 0xc5 || t == 0xc6 {
            let w = if t == 0xc4 {
                1nat
            } else if t == 0xc5 {
                2nat
            } else {
                4nat
            };
            if b.len() < 1 + w {
                Dec::More
            } else {
                dec_raw_body(b, 1 + w, be_val(b.skip(1), w), false)
            }
        } else if t == 0xca {
            if b.len() < 5 {
                Dec::More
            } else {
                Dec::Got(WireVal::WF32(#[verifier::truncate] (be_val(b.skip(1), 4) as u32)), 5)
            }
        } else if t == 0xcb {
            if b.len() < 9 {
                Dec::More
            } else {
                Dec::Got(WireVal::WF64(#[verifier::truncate] (be_val(b.skip(1), 8) as u64)), 9)
            }
        } else if 0xcc <= t && t <= 0xcf {
            let w = width_of(t);
            if b.len() < 1 + w {
                Dec::More
            } else {
                Dec::Got(WireVal::WUint(#[verifier::truncate] (be_val(b.skip(1), w) as u64)), 1 + w as int)
            }
        } else if 0xd0 <= t && t <= 0xd3 {
            let w = width_of(t);
            if b.len() < 1 + w {
                Dec::More
            } else {
                Dec::Got(
                    WireVal::WInt(#[verifier::truncate] (from_unsigned(be_val(b.skip(1), w), pow256(w) as int) as i64)),
                    1 + w as int,
                )
            }
        } else if t == 0xd9 || t == 0xda || t == 0xdb {
            let w = if t == 0xd9 {
                1nat
            } else if t == 0xda {
                2nat
            } else {
                4nat
            };
            if b.len() < 1 + w {
                Dec::More
            } else {
                dec_raw_body(b, 1 + w, be_val(b.skip(1), w), true)
            }
        } else if t == 0xdc || t == 0xdd {
            let w = if t == 0xdc {
                2nat
            } else {
                4nat
            };
            if b.len() < 1 + w {
                Dec::More
            } else {
                dec_arr_body(b, 1 + w, be_val(b.skip(1), w))
            }
        } else if t == 0xde || t == 0xdf {
            let w = if t == 0xde {
                2nat
            } else {
                4nat
            };
            if b.len() < 1 + w {
                Dec::More
            } else {
                dec_map_body(b, 1 + w, be_val(b.skip(1), w))
            }
        } else if 0xe0 <= t {
            Dec::Got(WireVal::WInt((t as int - 256) as i64), 1)
        } else {
            Dec::Bad
        }
    }
}

/// The payload width selected by an integer tag byte.
pub open spec fn width_of(t: u8) -> nat {
    if t == 0xcc || t == 0xd0 {
        1
    } else if t == 0xcd || t == 0xd1 {
        2
    } else if t == 0xce || t == 0xd2 {
        4
    } else {
        8
    }
}

/// 256 to the `n`.
pub open spec fn pow256(n: nat) -> nat
    decreases n,
{
    if n == 0 {
        1
    } else {
        256 * pow256((n - 1) as nat)
    }
}

/// The tail of a string or binary item: `len` raw bytes after a header
/// of `hdr` bytes.
pub open spec fn dec_raw_body(b: Seq<u8>, hdr: nat, len: nat, is_str: bool) -> Dec<WireVal> {
    if b.len() < hdr + len {
        Dec::More
    } else {
        let data = b.subrange(hdr as int, (hdr + len) as int);
        if is_str {
            Dec::Got(WireVal::WStr(data), (hdr + len) as int)
        } else {
            Dec::Got(WireVal::WBin(data), (hdr + len) as int)
        }
    }
}

/// The tail of an array item: `n` elements after a header of `hdr`
/// bytes.
pub open spec fn dec_arr_body(b: Seq<u8>, hdr: nat, n: nat) -> Dec<WireVal>
    recommends
        1 <= hdr <= b.len(),
    decreases b.len(), 0nat, 0nat,
{
    if hdr < 1 || b.len() < hdr {
        Dec::Bad
    } else {
        match dec_list(b.skip(hdr as int), n) {
            Dec::More => Dec::More,
            Dec::Bad => Dec::Bad,
            Dec::Got(l, used) => Dec::Got(WireVal::WArr(l), hdr + used),
        }
    }
}

/// The tail of a map item: `n` key-value pairs after a header of `hdr`
/// bytes.
pub open spec fn dec_map_body(b: Seq<u8>, hdr: nat, n: nat) -> Dec<WireVal>
    recommends
        1 <= hdr <= b.len(),
    decreases b.len(), 0nat, 0nat,
{
    if hdr < 1 || b.len() < hdr {
        Dec::Bad
    } else {
        match dec_list(b.skip(hdr as int), 2 * n) {
            Dec::More => Dec::More,
            Dec::Bad => Dec::Bad,
            Dec::Got(l, used) => Dec::Got(WireVal::WMap(pair_up(l)), hdr + used),
        }
    }
}

/// Decode `n` consecutive items from the front of `b`.
pub open spec fn dec_list(b: Seq<u8>, n: nat) -> Dec<Seq<WireVal>>
    decreases b.len(), n, 2nat,
{
    if n == 0 {
        Dec::Got(Seq::empty(), 0)
    } else {
        match dec_val(b) {
            Dec::More => Dec::More,
            Dec::Bad => Dec::Bad,
            Dec::Got(v, used) => {
                if 1 <= used <= b.len() {
                    match dec_list(b.skip(used), (n - 1) as nat) {
                        Dec::More => Dec::More,
                        Dec::Bad => Dec::Bad,
                        Dec::Got(l, used2) => Dec::Got(seq![v] + l, used + used2),
                    }
                } else {
                    Dec::Bad
                }
            },
        }
    }
}

/// The header of a MessagePack byte array of `n` bytes.
pub open spec fn bin_header(n: nat) -> Seq<u8>
    recommends
        n < 0x1_0000_0000,
{
    if n <= 0xff {
        seq![0xc4u8, n as u8]
    } else if n <= 0xffff {
        seq![0xc5u8] + be_bytes(n, 2)
    } else {
        seq![0xc6u8] + be_bytes(n, 4)
    }
}

/// Re-encode a decoded item, each variant in its narrowest form.
pub open spec fn wenc(w: WireVal) -> Seq<u8>
    decreases w, 0int,
    via wenc_dec
{
    match w {
        WireVal::WNil => seq![0xc0u8],
        WireVal::WBool(x) => if x {
            seq![0xc3u8]
        } else {
            seq![0xc2u8]
        },
        WireVal::WInt(i) => enc_int(i),
        WireVal::WUint(u) => enc_uint(u),
        WireVal::WF32(x) => seq![0xcau8] + be_bytes(x as nat, 4),
        WireVal::WF64(x) => seq![0xcbu8] + be_bytes(x as nat, 8),
        WireVal::WStr(s) => enc_str_bytes(s),
        WireVal::WBin(s) => bin_header(s.len()) + s,
        WireVal::WArr(l) => arr_header(l.len()) + wenc_list_from(l, 0),
        WireVal::WMap(e) => map_header(e.len()) + wenc_entries_from(e, 0),
    }
}

/// The concatenated re-encodings of the items of `l` from index `i` on.
pub open spec fn wenc_list_from(l: Seq<WireVal>, i: int) -> Seq<u8>
    decreases l, l.len() - i,
    via wenc_list_from_dec
{
    if 0 <= i < l.len() {
        wenc(l[i]) + wenc_list_from(l, i + 1)
    } else {
        Seq::empty()
    }
}

/// The concatenated key-value re-encodings of the pairs of `e` from
/// index `i` on.
pub open spec fn wenc_entries_from(e: Seq<(WireVal, WireVal)>, i: int) -> Seq<u8>
    decreases e, e.len() - i,
    via wenc_entries_from_dec
{
    if 0 <= i < e.len() {
        wenc(e[i].0) + wenc(e[i].1) + wenc_entries_from(e, i + 1)
    } else {
        Seq::empty()
    }
}

#[via_fn]
proof fn wenc_dec(w: WireVal) {
    match w {
        WireVal::WArr(l) => {
            assert(decreases_to!(w => l));
        },
        WireVal::WMap(e) => {
            assert(decreases_to!(w => e));
        },
        _ => {},
    }
}

#[via_fn]
proof fn wenc_list_from_dec(l: Seq<WireVal>, i: int) {
    if 0 <= i < l.len() {
        assert(decreases_to!(l => l[i]));
    }
}

#[via_fn]
proof fn wenc_entries_from_dec(e: Seq<(WireVal, WireVal)>, i: int) {
    if 0 <= i < e.len() {
        assert(decreases_to!(e => e[i]));
    }
}


/// Small powers of 256, written out.
pub proof fn lemma_pow256_values()
    ensures
        pow256(0) == 1,
        pow256(1) == 0x100,
        pow256(2) == 0x1_0000,
        pow256(4) == 0x1_0000_0000,
        pow256(8) == 0x1_0000_0000_0000_0000,
{
    assert(pow256(0) == 1);
    assert(pow256(1) == 0x100);
    assert(pow256(2) == 0x1_0000);
    assert(pow256(3) == 0x100_0000);
    assert(pow256(4) == 0x1_0000_0000);
    assert(pow256(5) == 0x100_0000_0000);
    assert(pow256(6) == 0x1_0000_0000_0000);
    assert(pow256(7) == 0x100_0000_0000_0000);
    assert(pow256(8) == 0x1_0000_0000_0000_0000);
}

/// Reading `n` bytes big-endian stays below 256 to the `n`.
pub proof fn lemma_be_val_bound(b: Seq<u8>, n: nat)
    requires
        n <= b.len(),
    ensures
        be_val(b, n) < pow256(n),
    decreases n,
{
    if n == 0 {
        assert(pow256(0) == 1);
    } else {
        lemma_be_val_bound(b, (n - 1) as nat);
        assert(pow256(n) == 256 * pow256((n - 1) as nat));
        assert(be_val(b, (n - 1) as nat) * 256 + 255 < 256 * pow256((n - 1) as nat))
            by (nonlinear_arith)
            requires
                be_val(b, (n - 1) as nat) < pow256((n - 1) as nat),
        ;
    }
}

/// A decoded item occupies at least one byte and at most the input.
pub proof fn lemma_dec_val_bound(b: Seq<u8>)
    ensures
        dec_val(b) matches Dec::Got(_, u) ==> 1 <= u <= b.len(),
    decreases b.len(), 0nat, 1nat,
{
    if b.len() > 0 {
        let t = b[0];
        if 0x80 <= t && t <= 0x8f {
            lemma_dec_list_bound(b.skip(1), 2 * ((t - 0x80) as nat));
        } else if 0x90 <= t && t <= 0x9f {
            lemma_dec_list_bound(b.skip(1), (t - 0x90) as nat);
        } else if t == 0xdc || t == 0xdd {
            let w = if t == 0xdc {
                2nat
            } else {
                4nat
            };
            if b.len() >= 1 + w {
                lemma_dec_list_bound(b.skip(1 + w as int), be_val(b.skip(1), w));
            }
        } else if t == 0xde || t == 0xdf {
            let w = if t == 0xde {
                2nat
            } else {
                4nat
            };
            if b.len() >= 1 + w {
                lemma_dec_list_bound(b.skip(1 + w as int), 2 * be_val(b.skip(1), w));
            }
        }
    }
}

/// `n` decoded items occupy at most the input, and are `n` items.
pub proof fn lemma_dec_list_bound(b: Seq<u8>, n: nat)
    ensures
        dec_list(b, n) matches Dec::Got(l, u) ==> 0 <= u <= b.len() && l.len() == n,
    decreases b.len(), n, 2nat,
{
    if n > 0 {
        lemma_dec_val_bound(b);
        match dec_val(b) {
            Dec::Got(v, used) => {
                if 1 <= used <= b.len() {
                    lemma_dec_list_bound(b.skip(used), (n - 1) as nat);
                }
            },
            _ => {},
        }
    }
}

/// If a prefix of the items decodes and the rest decodes after it, the
/// whole list decodes as their concatenation.
pub proof fn lemma_dec_list_append(b: Seq<u8>, k: nat, m: nat)
    ensures
        dec_list(b, k) matches Dec::Got(l1, u1) ==> {
            &&& (dec_list(b.skip(u1), m) matches Dec::Got(l2, u2) ==> dec_list(b, k + m)
                == Dec::<Seq<WireVal>>::Got(l1 + l2, u1 + u2))
            &&& (dec_list(b.skip(u1), m) is More ==> dec_list(b, k + m) is More)
            &&& (dec_list(b.skip(u1), m) is Bad ==> dec_list(b, k + m) is Bad)
        },
    decreases b.len(), k, 2nat,
{
    lemma_dec_list_bound(b, k);
    if k == 0 {
        match dec_list(b, k) {
            Dec::Got(l1, u1) => {
                assert(l1 =~= Seq::<WireVal>::empty());
                assert(u1 == 0);
                assert(b.skip(0) =~= b);
                match dec_list(b, m) {
                    Dec::Got(l2, u2) => {
                        assert(l1 + l2 =~= l2);
                    },
                    _ => {},
                }
            },
            _ => {},
        }
    } else {
        lemma_dec_val_bound(b);
        match dec_val(b) {
            Dec::Got(v, used) => {
                if 1 <= used <= b.len() {
                    lemma_dec_list_append(b.skip(used), (k - 1) as nat, m);
                    lemma_dec_list_bound(b.skip(used), (k - 1) as nat);
                    match dec_list(b.skip(used), (k - 1) as nat) {
                        Dec::Got(lt, ut) => {
                            assert(b.skip(used).skip(ut) =~= b.skip(used + ut));
                            match dec_list(b.skip(used + ut), m) {
                                Dec::Got(l2, u2) => {
                                    assert((seq![v] + lt) + l2 =~= seq![v] + (lt + l2));
                                },
                                _ => {},
                            }
                        },
                        _ => {},
                    }
                }
            },
            _ => {},
        }
    }
}

/// The executable form of a decoded item.
#[derive(Debug, PartialEq)]
pub enum WireValue {
    /// nil
    Nil,
    /// true or false
    Bool(bool),
    /// An integer from the signed families
    Int(i64),
    /// An integer from the unsigned families
    Uint(u64),
    /// A 32-bit float, as its bit pattern
    F32(u32),
    /// A 64-bit float, as its bit pattern
    F64(u64),
    /// A string, as its UTF-8 bytes
    Str(Vec<u8>),
    /// A byte array
    Bin(Vec<u8>),
    /// An array
    Arr(Vec<WireValue>),
    /// A map, as key-value pairs in wire order
    Dict(Vec<(WireValue, WireValue)>),
}

/// The decoded item an executable item stands for.
pub open spec fn wv_view(w: WireValue) -> WireVal
    decreases w, 0int, 0int,
    via wv_view_dec
{
    match w {
        WireValue::Nil => WireVal::WNil,
        WireValue::Bool(x) => WireVal::WBool(x),
        WireValue::Int(i) => WireVal::WInt(i),
        WireValue::Uint(u) => WireVal::WUint(u),
        WireValue::F32(x) => WireVal::WF32(x),
        WireValue::F64(x) => WireVal::WF64(x),
        WireValue::Str(v) => WireVal::WStr(v@),
        WireValue::Bin(v) => WireVal::WBin(v@),
        WireValue::Arr(l) => WireVal::WArr(wv_view_list(l@, 0)),
        WireValue::Dict(e) => WireVal::WMap(wv_view_entries(e@, 0)),
    }
}

/// The decoded items the executable items from index `i` on stand for.
pub open spec fn wv_view_list(l: Seq<WireValue>, i: int) -> Seq<WireVal>
    decreases l, l.len() - i, 1int,
    via wv_view_list_dec
{
    if 0 <= i < l.len() {
        seq![wv_view(l[i])] + wv_view_list(l, i + 1)
    } else {
        Seq::empty()
    }
}

/// The decoded pairs the executable pairs from index `i` on stand for.
pub open spec fn wv_view_entries(e: Seq<(WireValue, WireValue)>, i: int) -> Seq<
    (WireVal, WireVal),
>
    decreases e, e.len() - i, 1int,
    via wv_view_entries_dec
{
    if 0 <= i < e.len() {
        seq![(wv_view(e[i].0), wv_view(e[i].1))] + wv_view_entries(e, i + 1)
    } else {
        Seq::empty()
    }
}

#[via_fn]
proof fn wv_view_dec(w: WireValue) {
    match w {
        WireValue::Arr(l) => {
            assert(decreases_to!(l => l@));
        },
        WireValue::Dict(e) => {
            assert(decreases_to!(e => e@));
        },
        _ => {},
    }
}

#[via_fn]
proof fn wv_view_list_dec(l: Seq<WireValue>, i: int) {
    if 0 <= i < l.len() {
        assert(decreases_to!(l => l[i]));
    }
}

#[via_fn]
proof fn wv_view_entries_dec(e: Seq<(WireValue, WireValue)>, i: int) {
    if 0 <= i < e.len() {
        assert(decreases_to!(e => e[i]));
    }
}

impl View for WireValue {
    type V = WireVal;

    open spec fn view(&self) -> WireVal {
        wv_view(*self)
    }
}

/// The length and elements of a viewed item list.
pub proof fn lemma_wv_view_list_index(l: Seq<WireValue>, i: int)
    requires
        0 <= i <= l.len(),
    ensures
        wv_view_list(l, i).len() == l.len() - i,
        forall|k: int|
            0 <= k < l.len() - i ==> #[trigger] wv_view_list(l, i)[k] == wv_view(l[i + k]),
    decreases l.len() - i,
{
    if i < l.len() {
        lemma_wv_view_list_index(l, i + 1);
        assert forall|k: int| 0 <= k < l.len() - i implies #[trigger] wv_view_list(l, i)[k]
            == wv_view(l[i + k]) by {
            if k > 0 {
                assert(wv_view_list(l, i + 1)[k - 1] == wv_view(l[i + 1 + (k - 1)]));
            }
        }
    }
}

/// The length and elements of a viewed pair list.
pub proof fn lemma_wv_view_entries_index(e: Seq<(WireValue, WireValue)>, i: int)
    requires
        0 <= i <= e.len(),
    ensures
        wv_view_entries(e, i).len() == e.len() - i,
        forall|k: int|
            0 <= k < e.len() - i ==> #[trigger] wv_view_entries(e, i)[k] == (
            wv_view(e[i + k].0),
            wv_view(e[i + k].1),
            ),
    decreases e.len() - i,
{
    if i < e.len() {
        lemma_wv_view_entries_index(e, i + 1);
        assert forall|k: int| 0 <= k < e.len() - i implies #[trigger] wv_view_entries(e, i)[k]
            == (wv_view(e[i + k].0), wv_view(e[i + k].1)) by {
            if k > 0 {
                assert(wv_view_entries(e, i + 1)[k - 1] == (
                    wv_view(e[i + 1 + (k - 1)].0),
                    wv_view(e[i + 1 + (k - 1)].1),
                ));
            }
        }
    }
}

/// Why a decode attempt came back without an item.
#[derive(Debug, PartialEq, Eq, Clone, Copy)]
pub enum DecodeStatus {
    /// The input ends before the item does: read more bytes.
    Incomplete,
    /// The input cannot begin a supported item.
    Malformed,
}

/// Read `w` big-endian bytes at `pos`.
fn read_be(b: &[u8], pos: usize, w: usize) -> (r: u64)
    requires
        pos + w <= b@.len(),
        w <= 8,
    ensures
        r == be_val(b@.skip(pos as int), w as nat),
{
    proof {
        lemma_pow256_values();
    }
    let blen = b.len();
    let mut acc: u64 = 0;
    let mut k: usize = 0;
    while k < w
        invariant
            blen == b@.len(),
            pos + w <= b@.len(),
            w <= 8,
            k <= w,
            acc == be_val(b@.skip(pos as int), k as nat),
            acc < pow256(k as nat),
        decreases w - k,
    {
        proof {
            lemma_be_val_bound(b@.skip(pos as int), k as nat);
            assert(pow256((k + 1) as nat) == 256 * pow256(k as nat));
            lemma_pow256_mono((k + 1) as nat, 8);
            lemma_pow256_values();
            assert(acc * 256 + 255 < 256 * pow256(k as nat)) by (nonlinear_arith)
                requires
                    acc < pow256(k as nat),
            ;
            assert(b@.skip(pos as int)[k as int] == b@[pos + k]);
        }
        acc = acc * 256 + (b[pos + k] as u64);
        k += 1;
    }
    acc
}

/// 256 to a smaller power is no larger.
proof fn lemma_pow256_mono(a: nat, b: nat)
    requires
        a <= b,
    ensures
        pow256(a) <= pow256(b),
    decreases b,
{
    if a < b {
        lemma_pow256_mono(a, (b - 1) as nat);
        assert(pow256(b) == 256 * pow256((b - 1) as nat));
        assert(pow256((b - 1) as nat) >= 1) by {
            lemma_pow256_pos((b - 1) as nat);
        }
    }
}

/// 256 to any power is positive.
proof fn lemma_pow256_pos(n: nat)
    ensures
        pow256(n) >= 1,
    decreases n,
{
    if n > 0 {
        lemma_pow256_pos((n - 1) as nat);
    }
}

/// Copy `n` bytes starting at `pos` into a fresh vector.
fn read_bytes(b: &[u8], pos: usize, n: usize) -> (r: Vec<u8>)
    requires
        pos + n <= b@.len(),
    ensures
        r@ == b@.subrange(pos as int, pos + n),
{
    let blen = b.len();
    let mut out: Vec<u8> = Vec::new();
    let mut k: usize = 0;
    while k < n
        invariant
            blen == b@.len(),
            pos + n <= b@.len(),
            k <= n,
            out@ == b@.subrange(pos as int, pos + k),
        decreases n - k,
    {
        out.push(b[pos + k]);
        proof {
            assert(out@ =~= b@.subrange(pos as int, pos + k + 1));
        }
        k += 1;
    }
    out
}

/// Decode one item starting at `pos`; on success the item and the
/// count of bytes it occupied come back.
#[verifier::rlimit(100)]
pub fn decode_value(b: &[u8], pos: usize) -> (r: Result<(WireValue, usize), DecodeStatus>)
    requires
        pos <= b@.len(),
    ensures
        match r {
            Ok((w, used)) => 1 <= used && pos + used <= b@.len() && dec_val(b@.skip(pos as int))
                == Dec::<WireVal>::Got(w@, used as int),
            Err(DecodeStatus::Incomplete) => dec_val(b@.skip(pos as int)) is More,
            Err(DecodeStatus::Malformed) => dec_val(b@.skip(pos as int)) is Bad,
        },
    decreases b@.len() - pos, 0nat, 1nat,
{
    let ghost s = b@.skip(pos as int);
    proof {
        lemma_pow256_values();
    }
    if pos >= b.len() {
        return Err(DecodeStatus::Incomplete);
    }
    let t = b[pos];
    proof {
        assert(s[0] == t);
    }
    let avail = b.len() - pos;
    if t <= 0x7f {
        Ok((WireValue::Uint(t as u64), 1))
    } else if t <= 0x8f {
        let n = (t - 0x80) as usize;
        decode_map_tail(b, pos, 1, n as u64)
    } else if t <= 0x9f {
        let n = (t - 0x90) as usize;
        decode_arr_tail(b, pos, 1, n as u64)
    } else if t <= 0xbf {
        let len = (t - 0xa0) as usize;
        if avail < 1 + len {
            return Err(DecodeStatus::Incomplete);
        }
        let data = read_bytes(b, pos + 1, len);
        proof {
            assert(data@ =~= s.subrange(1, 1 + len as int));
        }
        Ok((WireValue::Str(data), 1 + len))
    } else if t == 0xc0 {
        Ok((WireValue::Nil, 1))
    } else if t == 0xc2 {
        Ok((WireValue::Bool(false), 1))
    } else if t == 0xc3 {
        Ok((WireValue::Bool(true), 1))
    } else if t == 0xc4 || t == 0xc5 || t == 0xc6 {
        let w: usize = if t == 0xc4 {
            1
        } else if t == 0xc5 {
            2
        } else {
            4
        };
        if avail < 1 + w {
            return Err(DecodeStatus::Incomplete);
        }
        let len64 = read_be(b, pos + 1, w);
        proof {
            assert(b@.skip(pos + 1) =~= s.skip(1));
        }
        if ((avail - 1 - w) as u64) < len64 {
            return Err(DecodeStatus::Incomplete);
        }
        let len = len64 as usize;
        let data = read_bytes(b, pos + 1 + w, len);
        proof {
            assert(data@ =~= s.subrange(1 + w as int, 1 + w as int + len as int));
        }
        Ok((WireValue::Bin(data), 1 + w + len))
    } else if t == 0xca {
        if avail < 5 {
            return Err(DecodeStatus::Incomplete);
        }
        let x = read_be(b, pos + 1, 4);
        proof {
            assert(b@.skip(pos + 1) =~= s.skip(1));
            lemma_be_val_bound(s.skip(1), 4);
        }
        Ok((WireValue::F32(x as u32), 5))
    } else if t == 0xcb {
        if avail < 9 {
            return Err(DecodeStatus::Incomplete);
        }
        let x = read_be(b, pos + 1, 8);
        proof {
            assert(b@.skip(pos + 1) =~= s.skip(1));
        }
        Ok((WireValue::F64(x), 9))
    } else if 0xcc <= t && t <= 0xcf {
        let w: usize = if t == 0xcc {
            1
        } else if t == 0xcd {
            2
        } else if t == 0xce {
            4
        } else {
            8
        };
        if avail < 1 + w {
            return Err(DecodeStatus::Incomplete);
        }
        let u = read_be(b, pos + 1, w);
        proof {
            assert(b@.skip(pos + 1) =~= s.skip(1));
            assert(width_of(t) == w as nat);
        }
        Ok((WireValue::Uint(u), 1 + w))
    } else if 0xd0 <= t && t <= 0xd3 {
        let w: usize = if t == 0xd0 {
            1
        } else if t == 0xd1 {
            2
        } else if t == 0xd2 {
            4
        } else {
            8
        };
        if avail < 1 + w {
            return Err(DecodeStatus::Incomplete);
        }
        let u = read_be(b, pos + 1, w);
        proof {
            assert(b@.skip(pos + 1) =~= s.skip(1));
            assert(width_of(t) == w as nat);
            lemma_be_val_bound(s.skip(1), w as nat);
            lemma_pow256_mono(w as nat, 8);
        }
        let i: i64 = if w == 1 {
            if u >= 0x80 {
                (u as i64) - 0x100
            } else {
                u as i64
            }
        } else if w == 2 {
            if u >= 0x8000 {
                (u as i64) - 0x1_0000
            } else {
                u as i64
            }
        } else if w == 4 {
            if u >= 0x8000_0000 {
                (u as i64) - 0x1_0000_0000
            } else {
                u as i64
            }
        } else {
            if u >= 0x8000_0000_0000_0000 {
                (((u as i128) - 0x1_0000_0000_0000_0000i128) as i64)
            } else {
                u as i64
            }
        };
        proof {
            assert(i as int == from_unsigned(be_val(s.skip(1), w as nat), pow256(w as nat) as int));
        }
        Ok((WireValue::Int(i), 1 + w))
    } else if t == 0xd9 || t == 0xda || t == 0xdb {
        let w: usize = if t == 0xd9 {
            1
        } else if t == 0xda {
            2
        } else {
            4
        };
        if avail < 1 + w {
            return Err(DecodeStatus::Incomplete);
        }
        let len64 = read_be(b, pos + 1, w);
        proof {
            assert(b@.skip(pos + 1) =~= s.skip(1));
        }
        if ((avail - 1 - w) as u64) < len64 {
            return Err(DecodeStatus::Incomplete);
        }
        let len = len64 as usize;
        let data = read_bytes(b, pos + 1 + w, len);
        proof {
            assert(data@ =~= s.subrange(1 + w as int, 1 + w as int + len as int));
        }
        Ok((WireValue::Str(data), 1 + w + len))
    } else if t == 0xdc || t == 0xdd {
        let w: usize = if t == 0xdc {
            2
        } else {
            4
        };
        if avail < 1 + w {
            return Err(DecodeStatus::Incomplete);
        }
        let n64 = read_be(b, pos + 1, w);
        proof {
            assert(b@.skip(pos + 1) =~= s.skip(1));
            lemma_be_val_bound(s.skip(1), w as nat);
            lemma_pow256_mono(w as nat, 4);
        }
        decode_arr_tail(b, pos, 1 + w, n64)
    } else if t == 0xde || t == 0xdf {
        let w: usize = if t == 0xde {
            2
        } else {
            4
        };
        if avail < 1 + w {
            return Err(DecodeStatus::Incomplete);
        }
        let n64 = read_be(b, pos + 1, w);
        proof {
            assert(b@.skip(pos + 1) =~= s.skip(1));
            lemma_be_val_bound(s.skip(1), w as nat);
            lemma_pow256_mono(w as nat, 4);
        }
        decode_map_tail(b, pos, 1 + w, n64)
    } else if t >= 0xe0 {
        Ok((WireValue::Int((t as i64) - 256), 1))
    } else {
        Err(DecodeStatus::Malformed)
    }
}

/// Decode the elements of an array whose header of `hdr` bytes starts
/// at `pos` and announces `n` elements.
fn decode_arr_tail(b: &[u8], pos: usize, hdr: usize, n: u64) -> (r: Result<
    (WireValue, usize),
    DecodeStatus,
>)
    requires
        1 <= hdr,
        pos + hdr <= b@.len(),
    ensures
        match r {
            Ok((w, used)) => 1 <= used && pos + used <= b@.len() && crate::dec::dec_arr_body(
                b@.skip(pos as int),
                hdr as nat,
                n as nat,
            ) == Dec::<WireVal>::Got(w@, used as int),
            Err(DecodeStatus::Incomplete) => crate::dec::dec_arr_body(
                b@.skip(pos as int),
                hdr as nat,
                n as nat,
            ) is More,
            Err(DecodeStatus::Malformed) => crate::dec::dec_arr_body(
                b@.skip(pos as int),
                hdr as nat,
                n as nat,
            ) is Bad,
        },
    decreases b@.len() - pos, 0nat, 0nat,
{
    // the byte length fits a usize, so the offset sums below do too
    let blen = b.len();
    let ghost s = b@.skip(pos as int);
    proof {
        assert(s.skip(hdr as int) =~= b@.skip(pos + hdr));
    }
    match decode_list(b, pos + hdr, n) {
        Ok((elems, used)) => {
            proof {
                lemma_wv_view_list_index(elems@, 0);
            }
            Ok((WireValue::Arr(elems), hdr + used))
        },
        Err(e) => Err(e),
    }
}

/// Decode the entries of a map whose header of `hdr` bytes starts at
/// `pos` and announces `n` entries.
fn decode_map_tail(b: &[u8], pos: usize, hdr: usize, n: u64) -> (r: Result<
    (WireValue, usize),
    DecodeStatus,
>)
    requires
        1 <= hdr,
        pos + hdr <= b@.len(),
        n <= 0xffff_ffff,
    ensures
        match r {
            Ok((w, used)) => 1 <= used && pos + used <= b@.len() && crate::dec::dec_map_body(
                b@.skip(pos as int),
                hdr as nat,
                n as nat,
            ) == Dec::<WireVal>::Got(w@, used as int),
            Err(DecodeStatus::Incomplete) => crate::dec::dec_map_body(
                b@.skip(pos as int),
                hdr as nat,
                n as nat,
            ) is More,
            Err(DecodeStatus::Malformed) => crate::dec::dec_map_body(
                b@.skip(pos as int),
                hdr as nat,
                n as nat,
            ) is Bad,
        },
    decreases b@.len() - pos, 0nat, 0nat,
{
    // the byte length fits a usize, so the offset sums below do too
    let blen = b.len();
    let ghost s = b@.skip(pos as int);
    proof {
        assert(s.skip(hdr as int) =~= b@.skip(pos + hdr));
    }
    match decode_list(b, pos + hdr, 2 * n) {
        Ok((flat, used)) => {
            let ghost orig = flat@;
            let ghost flat_views = wv_view_list(orig, 0);
            proof {
                lemma_wv_view_list_index(orig, 0);
            }
            let mut flat = flat;
            let mut entries: Vec<(WireValue, WireValue)> = Vec::new();
            let mut i: usize = 0;
            let count = (n as usize);
            proof {
                assert(orig.len() == 2 * n);
            }
            while i < count
                invariant
                    orig.len() == 2 * count,
                    i <= count,
                    flat@ == orig.skip(2 * i),
                    entries@.len() == i,
                    forall|k: int|
                        0 <= k < i ==> #[trigger] entries@[k] == (orig[2 * k], orig[2 * k + 1]),
                decreases count - i,
            {
                let ghost before = flat@;
                let a = flat.remove(0);
                let ghost mid = flat@;
                let c = flat.remove(0);
                proof {
                    assert(a == before[0]);
                    assert(mid =~= before.skip(1));
                    assert(c == mid[0]);
                    assert(flat@ =~= before.skip(2));
                    assert(before.skip(2) =~= orig.skip(2 * (i + 1)));
                    assert(a == orig[2 * i]);
                    assert(c == orig[2 * i + 1]);
                }
                entries.push((a, c));
                i += 1;
            }
            proof {
                lemma_wv_view_entries_index(entries@, 0);
                lemma_wv_view_list_index(orig, 0);
                assert(wv_view_entries(entries@, 0) =~= pair_up(flat_views));
            }
            Ok((WireValue::Dict(entries), hdr + used))
        },
        Err(e) => Err(e),
    }
}

/// Decode `n` consecutive items starting at `pos`.
fn decode_list(b: &[u8], pos: usize, n: u64) -> (r: Result<(Vec<WireValue>, usize), DecodeStatus>)
    requires
        pos <= b@.len(),
    ensures
        match r {
            Ok((l, used)) => pos + used <= b@.len() && dec_list(b@.skip(pos as int), n as nat)
                == Dec::<Seq<WireVal>>::Got(wv_view_list(l@, 0), used as int) && l@.len()
                == n as nat,
            Err(DecodeStatus::Incomplete) => dec_list(b@.skip(pos as int), n as nat) is More,
            Err(DecodeStatus::Malformed) => dec_list(b@.skip(pos as int), n as nat) is Bad,
        },
    decreases b@.len() - pos, n, 2nat,
{
    let blen = b.len();
    let ghost s0 = b@.skip(pos as int);
    let mut out: Vec<WireValue> = Vec::new();
    let mut cur: usize = pos;
    let mut i: u64 = 0;
    proof {
        assert(dec_list(s0, 0) == Dec::<Seq<WireVal>>::Got(Seq::<WireVal>::empty(), 0));
        assert(wv_view_list(out@, 0) =~= Seq::<WireVal>::empty());
    }
    while i < n
        invariant
            blen == b@.len(),
            pos <= cur <= b@.len(),
            s0 == b@.skip(pos as int),
            i <= n,
            out@.len() == i as nat,
            dec_list(s0, i as nat) == Dec::<Seq<WireVal>>::Got(
                wv_view_list(out@, 0),
                (cur - pos) as int,
            ),
        decreases n - i,
    {
        let ghost prev_views = wv_view_list(out@, 0);
        match decode_value(b, cur) {
            Ok((w, used)) => {
                proof {
                    assert(b@.skip(cur as int) =~= s0.skip((cur - pos) as int));
                    lemma_dec_list_append(s0, i as nat, 1);
                    lemma_wv_view_list_index(out@, 0);
                    assert(dec_list(s0.skip((cur - pos) as int), 1) == Dec::<
                        Seq<WireVal>,
                    >::Got(seq![w@], used as int)) by {
                        let s1 = s0.skip((cur - pos) as int);
                        assert(dec_val(s1) == Dec::<WireVal>::Got(w@, used as int));
                        assert(s1.skip(used as int) =~= b@.skip(cur + used));
                        assert(dec_list(s1.skip(used as int), 0) == Dec::<Seq<WireVal>>::Got(
                            Seq::<WireVal>::empty(),
                            0,
                        ));
                        assert(seq![w@] + Seq::<WireVal>::empty() =~= seq![w@]);
                    }
                }
                out.push(w);
                proof {
                    lemma_wv_view_list_index(out@, 0);
                    assert(wv_view_list(out@, 0) =~= prev_views + seq![wv_view(out@[i as int])]);
                    assert(prev_views + seq![w@] =~= wv_view_list(out@, 0));
                }
                cur = cur + used;
                i = i + 1;
            },
            Err(e) => {
                proof {
                    assert(b@.skip(cur as int) =~= s0.skip((cur - pos) as int));
                    lemma_dec_list_append(s0, i as nat, (n - i) as nat);
                    assert(dec_val(s0.skip((cur - pos) as int)) is More ==> dec_list(
                        s0.skip((cur - pos) as int),
                        (n - i) as nat,
                    ) is More);
                    assert(dec_val(s0.skip((cur - pos) as int)) is Bad ==> dec_list(
                        s0.skip((cur - pos) as int),
                        (n - i) as nat,
                    ) is Bad);
                }
                return Err(e);
            },
        }
    }
    Ok((out, cur - pos))
}


/// The UTF-8 bytes of the key under which the aggregator acknowledges:
/// `"ack"`.
pub open spec fn ack_key_bytes() -> Seq<u8> {
    seq![0x61u8, 0x63u8, 0x6bu8]
}

/// The value of the first entry keyed `"ack"`, scanning from index
/// `i`.
pub open spec fn find_ack_from(e: Seq<(WireVal, WireVal)>, i: int) -> Option<WireVal>
    decreases e.len() - i,
{
    if 0 <= i < e.len() {
        if e[i].0 == WireVal::WStr(ack_key_bytes()) {
            Some(e[i].1)
        } else {
            find_ack_from(e, i + 1)
        }
    } else {
        None
    }
}

/// What a buffer holds when read as an acknowledgement.
pub enum AckRead {
    /// The buffer ends before the acknowledgement map does.
    NeedMore,
    /// The buffer cannot be an acknowledgement: undecodable, not a map,
    /// no `"ack"` entry, or one that is not a string.
    Malformed,
    /// The chunk id the aggregator confirmed, as its UTF-8 bytes.
    Ack(Seq<u8>),
}

/// Read the front of `b` as an acknowledgement: a MessagePack map with
/// an entry keyed `"ack"` whose value is a string; other entries are
/// ignored.
pub open spec fn spec_read_ack(b: Seq<u8>) -> AckRead {
    match dec_val(b) {
        Dec::More => AckRead::NeedMore,
        Dec::Bad => AckRead::Malformed,
        Dec::Got(w, _) => match w {
            WireVal::WMap(entries) => match find_ack_from(entries, 0) {
                Some(WireVal::WStr(s)) => AckRead::Ack(s),
                _ => AckRead::Malformed,
            },
            _ => AckRead::Malformed,
        },
    }
}

/// The executable reading of an acknowledgement buffer.
#[derive(Debug, PartialEq)]
pub enum AckParse {
    /// Read more bytes and try again.
    NeedMore,
    /// A protocol violation.
    Malformed,
    /// The confirmed chunk id, as its UTF-8 bytes.
    Ack(Vec<u8>),
}

/// Whether `k` is the string item `"ack"`.
fn is_ack_key(k: &WireValue) -> (r: bool)
    ensures
        r == (wv_view(*k) == WireVal::WStr(ack_key_bytes())),
{
    match k {
        WireValue::Str(v) => {
            if v.len() == 3 {
                let ok = v[0] == 0x61 && v[1] == 0x63 && v[2] == 0x6b;
                proof {
                    if ok {
                        assert(v@ =~= ack_key_bytes());
                    } else {
                        if v@ == ack_key_bytes() {
                            assert(v@[0] == 0x61 && v@[1] == 0x63 && v@[2] == 0x6b);
                        }
                    }
                }
                ok
            } else {
                proof {
                    assert(ack_key_bytes().len() == 3);
                }
                false
            }
        },
        _ => false,
    }
}

/// Scanning past entries that are not keyed `"ack"` finds the same
/// entry.
proof fn lemma_find_ack_skip(e: Seq<(WireVal, WireVal)>, i: int, idx: int)
    requires
        0 <= i <= idx <= e.len(),
        forall|j: int| i <= j < idx ==> (#[trigger] e[j]).0 != WireVal::WStr(ack_key_bytes()),
    ensures
        find_ack_from(e, i) == find_ack_from(e, idx),
    decreases idx - i,
{
    if i < idx {
        lemma_find_ack_skip(e, i + 1, idx);
    }
}

/// Read the front of `buf` as an acknowledgement.
pub fn parse_ack(buf: &[u8]) -> (r: AckParse)
    ensures
        match r {
            AckParse::NeedMore => spec_read_ack(buf@) is NeedMore,
            AckParse::Malformed => spec_read_ack(buf@) is Malformed,
            AckParse::Ack(s) => spec_read_ack(buf@) == AckRead::Ack(s@),
        },
{
    proof {
        assert(buf@.skip(0) =~= buf@);
    }
    match decode_value(buf, 0) {
        Err(DecodeStatus::Incomplete) => AckParse::NeedMore,
        Err(DecodeStatus::Malformed) => AckParse::Malformed,
        Ok((w, _used)) => match w {
            WireValue::Dict(entries) => {
                let ghost ve = wv_view_entries(entries@, 0);
                proof {
                    lemma_wv_view_entries_index(entries@, 0);
                }
                let n = entries.len();
                let mut idx: usize = n;
                let mut i: usize = 0;
                while i < n
                    invariant
                        n == entries@.len(),
                        i <= n,
                        ve == wv_view_entries(entries@, 0),
                        ve.len() == n,
                        forall|k: int|
                            0 <= k < n ==> #[trigger] ve[k] == (
                            wv_view(entries@[k].0),
                            wv_view(entries@[k].1),
                            ),
                        idx == n || (idx < i && ve[idx as int].0 == WireVal::WStr(
                            ack_key_bytes(),
                        )),
                        idx == n ==> forall|j: int|
                            0 <= j < i ==> (#[trigger] ve[j]).0 != WireVal::WStr(ack_key_bytes()),
                        idx < n ==> forall|j: int|
                            0 <= j < idx ==> (#[trigger] ve[j]).0 != WireVal::WStr(
                                ack_key_bytes(),
                            ),
                    decreases n - i,
                {
                    if idx == n && is_ack_key(&entries[i].0) {
                        idx = i;
                    }
                    i += 1;
                }
                if idx == n {
                    proof {
                        lemma_find_ack_skip(ve, 0, n as int);
                        assert(find_ack_from(ve, n as int) is None);
                    }
                    AckParse::Malformed
                } else {
                    proof {
                        lemma_find_ack_skip(ve, 0, idx as int);
                        assert(find_ack_from(ve, idx as int) == Some(ve[idx as int].1));
                    }
                    let mut entries = entries;
                    let pair = entries.swap_remove(idx);
                    proof {
                        assert(wv_view(pair.1) == ve[idx as int].1);
                    }
                    match pair.1 {
                        WireValue::Str(sv) => AckParse::Ack(sv),
                        WireValue::Nil => AckParse::Malformed,
                        WireValue::Bool(_) => AckParse::Malformed,
                        WireValue::Int(_) => AckParse::Malformed,
                        WireValue::Uint(_) => AckParse::Malformed,
                        WireValue::F32(_) => AckParse::Malformed,
                        WireValue::F64(_) => AckParse::Malformed,
                        WireValue::Bin(_) => AckParse::Malformed,
                        WireValue::Arr(_) => AckParse::Malformed,
                        WireValue::Dict(_) => AckParse::Malformed,
                    }
                }
            },
            WireValue::Nil => AckParse::Malformed,
            WireValue::Bool(_) => AckParse::Malformed,
            WireValue::Int(_) => AckParse::Malformed,
            WireValue::Uint(_) => AckParse::Malformed,
            WireValue::F32(_) => AckParse::Malformed,
            WireValue::F64(_) => AckParse::Malformed,
            WireValue::Str(_) => AckParse::Malformed,
            WireValue::Bin(_) => AckParse::Malformed,
            WireValue::Arr(_) => AckParse::Malformed,
        },
    }
}

} // verus!
