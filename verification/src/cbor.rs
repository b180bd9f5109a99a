use vstd::prelude::*;

use crate::errors::DgcError;
use crate::value::ClaimValue;
use crate::value::ValModel;
use crate::value::view_of;
use crate::value::views_of;
use crate::value::entry_views_of;

verus! {

broadcast use vstd::std_specs::vec::axiom_vec_index_decreases;

// ---------------------------------------------------------------------------
// The compact binary serialization of a structured value: a type-tagged,
// length-prefixed format. Every item starts with one byte holding a major
// tag in its upper three bits and a small count in its lower five; counts
// of 24 and above follow in 1, 2, 4 or 8 big-endian bytes, always in the
// shortest form that holds them.
// ---------------------------------------------------------------------------

/// `w` big-endian bytes of the number `n`.
pub open spec fn be_bytes(n: int, w: int) -> Seq<u8>
    decreases w,
{
    if w <= 0 {
        Seq::empty()
    } else {
        be_bytes(n / 256, w - 1) + seq![(n % 256) as u8]
    }
}

/// The number held in the big-endian bytes `s`.
pub open spec fn be_val(s: Seq<u8>) -> int
    decreases s.len(),
{
    if s.len() == 0 {
        0
    } else {
        be_val(s.drop_last()) * 256 + s.last()
    }
}

/// 256 to the power `w`.
pub open spec fn pow256(w: int) -> int
    decreases w,
{
    if w <= 0 {
        1
    } else {
        256 * pow256(w - 1)
    }
}

/// The header bytes that open an item of major tag `major` with count `n`.
pub open spec fn head(major: int, n: int) -> Seq<u8>
    recommends
        0 <= major <= 5,
        0 <= n < pow256(8),
{
    if n < 24 {
        seq![(major * 32 + n) as u8]
    } else if n < 256 {
        seq![(major * 32 + 24) as u8] + be_bytes(n, 1)
    } else if n < 65536 {
        seq![(major * 32 + 25) as u8] + be_bytes(n, 2)
    } else if n < 4294967296 {
        seq![(major * 32 + 26) as u8] + be_bytes(n, 4)
    } else {
        seq![(major * 32 + 27) as u8] + be_bytes(n, 8)
    }
}

/// The serialization of the structured value `v`.
pub open spec fn cbor_of(v: ValModel) -> Seq<u8>
    decreases v,
{
    match v {
        ValModel::Null => seq![246u8],
        ValModel::Bool(b) => if b {
            seq![245u8]
        } else {
            seq![244u8]
        },
        ValModel::Int(n) => if n >= 0 {
            head(0, n)
        } else {
            head(1, -1 - n)
        },
        ValModel::Float(bits) => seq![251u8] + be_bytes(bits as int, 8),
        ValModel::Text(t) => head(3, t.len() as int) + t,
        ValModel::Arr(items) => head(4, items.len() as int) + cbor_of_seq(items),
        ValModel::Obj(entries) => head(5, entries.len() as int) + cbor_of_entries(entries),
    }
}

/// The serializations of a sequence of values, in order.
pub open spec fn cbor_of_seq(items: Seq<ValModel>) -> Seq<u8>
    decreases items,
{
    if items.len() == 0 {
        Seq::empty()
    } else {
        cbor_of(items[0]) + cbor_of_seq(items.skip(1))
    }
}

/// The serializations of a sequence of mapping entries, each a text-tagged
/// key followed by the entry's value, in order.
pub open spec fn cbor_of_entries(entries: Seq<(Seq<u8>, ValModel)>) -> Seq<u8>
    decreases entries,
{
    if entries.len() == 0 {
        Seq::empty()
    } else {
        head(3, entries[0].0.len() as int) + entries[0].0 + cbor_of(entries[0].1)
            + cbor_of_entries(entries.skip(1))
    }
}

/// The values expressible in the data model: integers that fit a signed
/// 64-bit word, and texts and containers whose sizes fit the format's
/// 64-bit counts.
pub open spec fn value_wf(v: ValModel) -> bool
    decreases v,
{
    match v {
        ValModel::Null => true,
        ValModel::Bool(_) => true,
        ValModel::Int(n) => i64::MIN <= n <= i64::MAX,
        ValModel::Float(_) => true,
        ValModel::Text(t) => t.len() < pow256(8),
        ValModel::Arr(items) => items.len() < pow256(8) && seq_wf(items),
        ValModel::Obj(entries) => entries.len() < pow256(8) && entries_wf(entries),
    }
}

/// Well-formedness of every value of a sequence.
pub open spec fn seq_wf(items: Seq<ValModel>) -> bool
    decreases items,
{
    if items.len() == 0 {
        true
    } else {
        value_wf(items[0]) && seq_wf(items.skip(1))
    }
}

/// Well-formedness of every entry of a mapping: key length in range and a
/// well-formed value.
pub open spec fn entries_wf(entries: Seq<(Seq<u8>, ValModel)>) -> bool
    decreases entries,
{
    if entries.len() == 0 {
        true
    } else {
        entries[0].0.len() < pow256(8) && value_wf(entries[0].1) && entries_wf(entries.skip(1))
    }
}

// ---------------------------------------------------------------------------
// The decoding function: the exact inverse on well-formed serializations,
// and `None` on every structurally invalid input (bad tag, short input,
// non-minimal count, out-of-range integer).
// ---------------------------------------------------------------------------

/// Parses the header of the item that starts `s`: its major tag, its count,
/// and the number of header bytes consumed.
pub open spec fn dec_head(s: Seq<u8>) -> Option<(int, int, int)> {
    if s.len() < 1 {
        None
    } else {
        let major = s[0] / 32;
        let ai = s[0] % 32;
        if ai < 24 {
            Some((major as int, ai as int, 1))
        } else if ai == 24 {
            if s.len() >= 2 && s[1] >= 24 {
                Some((major as int, s[1] as int, 2))
            } else {
                None
            }
        } else if ai == 25 {
            if s.len() >= 3 && be_val(s.subrange(1, 3)) >= 256 {
                Some((major as int, be_val(s.subrange(1, 3)), 3))
            } else {
                None
            }
        } else if ai == 26 {
            if s.len() >= 5 && be_val(s.subrange(1, 5)) >= 65536 {
                Some((major as int, be_val(s.subrange(1, 5)), 5))
            } else {
                None
            }
        } else if ai == 27 {
            if s.len() >= 9 && be_val(s.subrange(1, 9)) >= 4294967296 {
                Some((major as int, be_val(s.subrange(1, 9)), 9))
            } else {
                None
            }
        } else {
            None
        }
    }
}

/// Parses the first structured value of `s`, returning it with the number
/// of bytes it occupied.
pub open spec fn cbor_dec(s: Seq<u8>) -> Option<(ValModel, int)>
    decreases s.len(), 0int,
{
    if s.len() == 0 {
        None
    } else if s[0] == 244 {
        Some((ValModel::Bool(false), 1))
    } else if s[0] == 245 {
        Some((ValModel::Bool(true), 1))
    } else if s[0] == 246 {
        Some((ValModel::Null, 1))
    } else if s[0] == 251 {
        if s.len() >= 9 {
            Some((ValModel::Float(be_val(s.subrange(1, 9)) as u64), 9))
        } else {
            None
        }
    } else {
        match dec_head(s) {
            None => None,
            Some((major, n, h)) => {
                if major == 0 {
                    if n <= i64::MAX {
                        Some((ValModel::Int(n), h))
                    } else {
                        None
                    }
                } else if major == 1 {
                    if n <= i64::MAX {
                        Some((ValModel::Int(-1 - n), h))
                    } else {
                        None
                    }
                } else if major == 3 {
                    if h + n <= s.len() {
                        Some((ValModel::Text(s.subrange(h, h + n)), h + n))
                    } else {
                        None
                    }
                } else if major == 4 {
                    match cbor_dec_items(s.skip(h), n) {
                        Some((vs, used)) => Some((ValModel::Arr(vs), h + used)),
                        None => None,
                    }
                } else if major == 5 {
                    match cbor_dec_entries(s.skip(h), n) {
                        Some((es, used)) => Some((ValModel::Obj(es), h + used)),
                        None => None,
                    }
                } else {
                    None
                }
            },
        }
    }
}

/// Parses `n` consecutive values from the front of `s`.
pub open spec fn cbor_dec_items(s: Seq<u8>, n: int) -> Option<(Seq<ValModel>, int)>
    decreases s.len(), n + 1,
{
    if n <= 0 {
        Some((Seq::empty(), 0))
    } else {
        match cbor_dec(s) {
            None => None,
            Some((v, used)) => {
                if 1 <= used <= s.len() {
                    match cbor_dec_items(s.skip(used), n - 1) {
                        None => None,
                        Some((vs, used2)) => Some((seq![v] + vs, used + used2)),
                    }
                } else {
                    None
                }
            },
        }
    }
}

/// Parses `n` consecutive key-value entries from the front of `s`.
pub open spec fn cbor_dec_entries(s: Seq<u8>, n: int) -> Option<(Seq<(Seq<u8>, ValModel)>, int)>
    decreases s.len(), n + 1,
{
    if n <= 0 {
        Some((Seq::empty(), 0))
    } else {
        match dec_head(s) {
            Some((major, klen, h)) => {
                if major == 3 && h + klen <= s.len() {
                    let key = s.subrange(h, h + klen);
                    match cbor_dec(s.skip(h + klen)) {
                        None => None,
                        Some((v, used)) => {
                            if 1 <= used <= s.len() - h - klen {
                                match cbor_dec_entries(s.skip(h + klen + used), n - 1) {
                                    None => None,
                                    Some((es, used2)) => Some(
                                        (seq![(key, v)] + es, h + klen + used + used2),
                                    ),
                                }
                            } else {
                                None
                            }
                        },
                    }
                } else {
                    None
                }
            },
            None => None,
        }
    }
}

/// Parses `s` as exactly one structured value with nothing following it.
pub open spec fn cbor_dec_full(s: Seq<u8>) -> Option<ValModel> {
    match cbor_dec(s) {
        Some((v, used)) => if used == s.len() {
            Some(v)
        } else {
            None
        },
        None => None,
    }
}

// ---------------------------------------------------------------------------
// Proofs: decoding is the exact inverse of encoding on well-formed values.
// ---------------------------------------------------------------------------

/// The values of `pow256` at the widths the format uses.
proof fn lemma_pow256_vals()
    ensures
        pow256(0) == 1,
        pow256(1) == 256,
        pow256(2) == 65536,
        pow256(4) == 4294967296,
        pow256(7) == 72057594037927936,
        pow256(8) == 18446744073709551616,
{
    reveal_with_fuel(pow256, 9);
}

/// Big-endian bytes hold exactly the number they were made from.
proof fn lemma_be_round_trip(n: int, w: int)
    requires
        0 <= w,
        0 <= n < pow256(w),
    ensures
        be_bytes(n, w).len() == w,
        be_val(be_bytes(n, w)) == n,
    decreases w,
{
    if w == 0 {
    } else {
        vstd::arithmetic::div_mod::lemma_fundamental_div_mod(n, 256);
        assert(n / 256 < pow256(w - 1)) by {
            if n / 256 >= pow256(w - 1) {
                assert(256 * (n / 256) >= 256 * pow256(w - 1));
            }
        }
        assert(n / 256 >= 0) by {
            if n / 256 < 0 {
                assert(256 * (n / 256) <= -256);
            }
        }
        lemma_be_round_trip(n / 256, w - 1);
        let b = be_bytes(n / 256, w - 1);
        let s = be_bytes(n, w);
        assert(s == b + seq![(n % 256) as u8]);
        assert(s.drop_last() =~= b);
        assert(s.last() == (n % 256) as u8);
        assert(be_val(s) == be_val(b) * 256 + (n % 256));
    }
}

/// Whatever the bytes, the number they hold is bounded by their width.
proof fn lemma_be_val_bound(s: Seq<u8>)
    ensures
        0 <= be_val(s) < pow256(s.len() as int),
    decreases s.len(),
{
    if s.len() == 0 {
    } else {
        lemma_be_val_bound(s.drop_last());
        assert(be_val(s.drop_last()) * 256 <= (pow256(s.len() - 1) - 1) * 256);
    }
}

/// Parsing a header written by `head` yields the tag and count it was
/// written with, and every header byte is below the simple-value tags.
proof fn lemma_dec_head_of_head(major: int, n: int, rest: Seq<u8>)
    requires
        0 <= major <= 5,
        0 <= n < pow256(8),
    ensures
        1 <= head(major, n).len() <= 9,
        head(major, n)[0] <= 191,
        dec_head(head(major, n) + rest) == Some((major, n, head(major, n).len() as int)),
{
    lemma_pow256_vals();
    let hd = head(major, n);
    let s = hd + rest;
    if n < 24 {
        assert(s[0] == major * 32 + n);
        vstd::arithmetic::div_mod::lemma_fundamental_div_mod_converse(
            major * 32 + n, 32, major, n);
    } else if n < 256 {
        assert(s[0] == major * 32 + 24);
        vstd::arithmetic::div_mod::lemma_fundamental_div_mod_converse(
            major * 32 + 24, 32, major, 24);
        lemma_be_round_trip(n, 1);
        assert(be_bytes(n, 1) == be_bytes(n / 256, 0) + seq![(n % 256) as u8]);
        vstd::arithmetic::div_mod::lemma_fundamental_div_mod_converse(n, 256, 0, n);
        assert(s[1] == n);
    } else if n < 65536 {
        assert(s[0] == major * 32 + 25);
        vstd::arithmetic::div_mod::lemma_fundamental_div_mod_converse(
            major * 32 + 25, 32, major, 25);
        lemma_be_round_trip(n, 2);
        assert(s.subrange(1, 3) =~= be_bytes(n, 2));
    } else if n < 4294967296 {
        assert(s[0] == major * 32 + 26);
        vstd::arithmetic::div_mod::lemma_fundamental_div_mod_converse(
            major * 32 + 26, 32, major, 26);
        lemma_be_round_trip(n, 4);
        assert(s.subrange(1, 5) =~= be_bytes(n, 4));
    } else {
        assert(s[0] == major * 32 + 27);
        vstd::arithmetic::div_mod::lemma_fundamental_div_mod_converse(
            major * 32 + 27, 32, major, 27);
        lemma_be_round_trip(n, 8);
        assert(s.subrange(1, 9) =~= be_bytes(n, 8));
    }
}

/// Decoding a serialized well-formed value, whatever follows it, yields
/// that value and consumes exactly its serialization.
#[verifier::rlimit(80)]
pub proof fn lemma_cbor_complete(v: ValModel, rest: Seq<u8>)
    requires
        value_wf(v),
    ensures
        1 <= cbor_of(v).len(),
        cbor_dec(cbor_of(v) + rest) == Some((v, cbor_of(v).len() as int)),
    decreases v,
{
    lemma_pow256_vals();
    let e = cbor_of(v);
    let s = e + rest;
    match v {
        ValModel::Null => {
            assert(s[0] == 246);
        },
        ValModel::Bool(b) => {
            assert(s[0] == if b { 245int } else { 244int });
        },
        ValModel::Int(n) => {
            if n >= 0 {
                lemma_dec_head_of_head(0, n, rest);
                assert(s[0] == (e + rest)[0]);
            } else {
                lemma_dec_head_of_head(1, -1 - n, rest);
            }
        },
        ValModel::Float(bits) => {
            lemma_be_round_trip(bits as int, 8);
            assert(e == seq![251u8] + be_bytes(bits as int, 8));
            assert(s[0] == 251);
            assert(s.len() >= 9);
            assert(s.subrange(1, 9) =~= be_bytes(bits as int, 8));
        },
        ValModel::Text(t) => {
            lemma_dec_head_of_head(3, t.len() as int, t + rest);
            let hd = head(3, t.len() as int);
            assert(e == hd + t);
            assert(s =~= hd + (t + rest));
            let h = hd.len() as int;
            assert(s.subrange(h, h + t.len()) =~= t);
        },
        ValModel::Arr(items) => {
            let hd = head(4, items.len() as int);
            let body = cbor_of_seq(items);
            assert(e == hd + body);
            assert(s =~= hd + (body + rest));
            lemma_dec_head_of_head(4, items.len() as int, body + rest);
            let h = hd.len() as int;
            assert(s.skip(h) =~= body + rest);
            lemma_items_complete(items, rest);
        },
        ValModel::Obj(entries) => {
            let hd = head(5, entries.len() as int);
            let body = cbor_of_entries(entries);
            assert(e == hd + body);
            assert(s =~= hd + (body + rest));
            lemma_dec_head_of_head(5, entries.len() as int, body + rest);
            let h = hd.len() as int;
            assert(s.skip(h) =~= body + rest);
            lemma_entries_complete(entries, rest);
        },
    }
}

/// Decoding `n` serialized values, whatever follows them, yields those
/// values and consumes exactly their serializations.
pub proof fn lemma_items_complete(items: Seq<ValModel>, rest: Seq<u8>)
    requires
        seq_wf(items),
    ensures
        cbor_dec_items(cbor_of_seq(items) + rest, items.len() as int) == Some(
            (items, cbor_of_seq(items).len() as int),
        ),
    decreases items,
{
    let body = cbor_of_seq(items);
    let s = body + rest;
    if items.len() == 0 {
        assert(items =~= Seq::<ValModel>::empty());
    } else {
        let e0 = cbor_of(items[0]);
        let tail = cbor_of_seq(items.skip(1));
        assert(body == e0 + tail);
        assert(s =~= e0 + (tail + rest));
        lemma_cbor_complete(items[0], tail + rest);
        let used = e0.len() as int;
        assert(s.skip(used) =~= tail + rest);
        lemma_items_complete(items.skip(1), rest);
        assert(items.skip(1).len() as int == items.len() as int - 1);
        assert(seq![items[0]] + items.skip(1) =~= items);
    }
}

/// Decoding `n` serialized entries, whatever follows them, yields those
/// entries and consumes exactly their serializations.
#[verifier::rlimit(80)]
pub proof fn lemma_entries_complete(entries: Seq<(Seq<u8>, ValModel)>, rest: Seq<u8>)
    requires
        entries_wf(entries),
    ensures
        cbor_dec_entries(cbor_of_entries(entries) + rest, entries.len() as int) == Some(
            (entries, cbor_of_entries(entries).len() as int),
        ),
    decreases entries,
{
    lemma_pow256_vals();
    let body = cbor_of_entries(entries);
    let s = body + rest;
    if entries.len() == 0 {
        assert(entries =~= Seq::<(Seq<u8>, ValModel)>::empty());
    } else {
        let key = entries[0].0;
        let hd = head(3, key.len() as int);
        let ev = cbor_of(entries[0].1);
        let tail = cbor_of_entries(entries.skip(1));
        assert(body == hd + key + ev + tail);
        assert(s =~= hd + (key + ev + tail + rest));
        lemma_dec_head_of_head(3, key.len() as int, key + ev + tail + rest);
        let h = hd.len() as int;
        let klen = key.len() as int;
        assert(s.subrange(h, h + klen) =~= key);
        assert(s.skip(h + klen) =~= ev + (tail + rest));
        lemma_cbor_complete(entries[0].1, tail + rest);
        let used = ev.len() as int;
        assert(s.len() - h - klen == ev.len() + tail.len() + rest.len());
        assert(s.skip(h + klen + used) =~= tail + rest);
        lemma_entries_complete(entries.skip(1), rest);
        assert(entries.skip(1).len() as int == entries.len() as int - 1);
        assert(seq![(key, entries[0].1)] + entries.skip(1) =~= entries);
    }
}

// ---------------------------------------------------------------------------
// Proofs: whatever decodes is the exact serialization of what it yields.
// ---------------------------------------------------------------------------

/// Bytes are reassembled exactly from the number they hold.
proof fn lemma_be_bytes_of_val(s: Seq<u8>)
    ensures
        be_bytes(be_val(s), s.len() as int) == s,
    decreases s.len(),
{
    if s.len() == 0 {
        assert(be_bytes(be_val(s), 0) =~= s);
    } else {
        lemma_be_bytes_of_val(s.drop_last());
        lemma_be_val_bound(s.drop_last());
        let n = be_val(s);
        vstd::arithmetic::div_mod::lemma_fundamental_div_mod_converse(
            n,
            256,
            be_val(s.drop_last()),
            s.last() as int,
        );
        assert(be_bytes(n, s.len() as int) == be_bytes(n / 256, s.len() - 1) + seq![
            (n % 256) as u8,
        ]);
        assert(be_bytes(n / 256, s.len() - 1) == s.drop_last());
        assert(s.drop_last() + seq![s.last()] =~= s);
    }
}

/// A parsed header re-serializes to exactly the bytes it was parsed from.
proof fn lemma_head_of_dec_head(s: Seq<u8>, major: int, n: int, h: int)
    requires
        dec_head(s) == Some((major, n, h)),
    ensures
        0 <= major <= 7,
        0 <= n < pow256(8),
        1 <= h <= s.len(),
        head(major, n) == s.subrange(0, h),
{
    lemma_pow256_vals();
    let b = s[0];
    let ai = b % 32;
    vstd::arithmetic::div_mod::lemma_fundamental_div_mod(b as int, 32);
    assert(major * 32 + ai == b as int);
    if ai < 24 {
        assert(head(major, n) == seq![(major * 32 + n) as u8]);
        assert(head(major, n) =~= s.subrange(0, 1));
    } else if ai == 24 {
        assert(be_bytes(n, 1) == be_bytes(n / 256, 0) + seq![(n % 256) as u8]);
        assert(be_bytes(n, 1) =~= seq![s[1]]);
        assert(head(major, n) == seq![(major * 32 + 24) as u8] + be_bytes(n, 1));
        assert(seq![(major * 32 + 24) as u8] + be_bytes(n, 1) =~= s.subrange(0, 2));
    } else if ai == 25 {
        lemma_be_val_bound(s.subrange(1, 3));
        lemma_be_bytes_of_val(s.subrange(1, 3));
        assert(seq![(major * 32 + 25) as u8] + be_bytes(n, 2) =~= s.subrange(0, 3));
    } else if ai == 26 {
        lemma_be_val_bound(s.subrange(1, 5));
        lemma_be_bytes_of_val(s.subrange(1, 5));
        assert(seq![(major * 32 + 26) as u8] + be_bytes(n, 4) =~= s.subrange(0, 5));
    } else {
        lemma_be_val_bound(s.subrange(1, 9));
        lemma_be_bytes_of_val(s.subrange(1, 9));
        assert(seq![(major * 32 + 27) as u8] + be_bytes(n, 8) =~= s.subrange(0, 9));
    }
}

/// Soundness of decoding: a decoded value is well-formed and serializes
/// back to exactly the bytes it occupied.
#[verifier::rlimit(100)]
pub proof fn lemma_cbor_sound(s: Seq<u8>, v: ValModel, u: int)
    requires
        cbor_dec(s) == Some((v, u)),
    ensures
        value_wf(v),
        1 <= u <= s.len(),
        cbor_of(v) == s.subrange(0, u),
    decreases s.len(), 0int,
{
    lemma_pow256_vals();
    if s[0] == 244 || s[0] == 245 || s[0] == 246 {
        assert(cbor_of(v) =~= s.subrange(0, 1));
    } else if s[0] == 251 {
        lemma_be_val_bound(s.subrange(1, 9));
        lemma_be_bytes_of_val(s.subrange(1, 9));
        let bits = be_val(s.subrange(1, 9));
        assert(cbor_of(ValModel::Float(bits as u64)) == seq![251u8] + be_bytes(bits, 8));
        assert(seq![251u8] + be_bytes(bits, 8) =~= s.subrange(0, 9));
    } else {
        let (major, n, h) = dec_head(s).unwrap();
        lemma_head_of_dec_head(s, major, n, h);
        if major == 0 {
        } else if major == 1 {
            assert(-1 - (-1 - n) == n);
        } else if major == 3 {
            assert(head(3, n) + s.subrange(h, h + n) =~= s.subrange(0, h + n));
        } else if major == 4 {
            let (vs, used) = cbor_dec_items(s.skip(h), n).unwrap();
            lemma_cbor_items_sound(s.skip(h), n, vs, used);
            assert(head(4, n) + s.skip(h).subrange(0, used) =~= s.subrange(0, h + used));
        } else {
            let (es, used) = cbor_dec_entries(s.skip(h), n).unwrap();
            lemma_cbor_entries_sound(s.skip(h), n, es, used);
            assert(head(5, n) + s.skip(h).subrange(0, used) =~= s.subrange(0, h + used));
        }
    }
}

/// Soundness for sequences of values.
pub proof fn lemma_cbor_items_sound(s: Seq<u8>, n: int, vs: Seq<ValModel>, u: int)
    requires
        cbor_dec_items(s, n) == Some((vs, u)),
    ensures
        seq_wf(vs),
        vs.len() == if n >= 0 { n } else { 0 },
        0 <= u <= s.len(),
        cbor_of_seq(vs) == s.subrange(0, u),
    decreases s.len(), n + 1,
{
    if n <= 0 {
        assert(cbor_of_seq(vs) =~= s.subrange(0, 0));
    } else {
        let (v, u1) = cbor_dec(s).unwrap();
        lemma_cbor_sound(s, v, u1);
        let (vs2, u2) = cbor_dec_items(s.skip(u1), n - 1).unwrap();
        lemma_cbor_items_sound(s.skip(u1), n - 1, vs2, u2);
        assert(vs == seq![v] + vs2);
        assert(vs[0] == v);
        assert(vs.skip(1) =~= vs2);
        assert(cbor_of_seq(vs) == cbor_of(v) + cbor_of_seq(vs2));
        assert(s.subrange(0, u1) + s.skip(u1).subrange(0, u2) =~= s.subrange(0, u1 + u2));
    }
}

/// Soundness for sequences of entries.
#[verifier::rlimit(100)]
pub proof fn lemma_cbor_entries_sound(
    s: Seq<u8>,
    n: int,
    es: Seq<(Seq<u8>, ValModel)>,
    u: int,
)
    requires
        cbor_dec_entries(s, n) == Some((es, u)),
    ensures
        entries_wf(es),
        es.len() == if n >= 0 { n } else { 0 },
        0 <= u <= s.len(),
        cbor_of_entries(es) == s.subrange(0, u),
    decreases s.len(), n + 1,
{
    lemma_pow256_vals();
    if n <= 0 {
        assert(cbor_of_entries(es) =~= s.subrange(0, 0));
    } else {
        let (major, klen, h) = dec_head(s).unwrap();
        lemma_head_of_dec_head(s, major, klen, h);
        let key = s.subrange(h, h + klen);
        let (v, u1) = cbor_dec(s.skip(h + klen)).unwrap();
        lemma_cbor_sound(s.skip(h + klen), v, u1);
        let (es2, u2) = cbor_dec_entries(s.skip(h + klen + u1), n - 1).unwrap();
        lemma_cbor_entries_sound(s.skip(h + klen + u1), n - 1, es2, u2);
        assert(es == seq![(key, v)] + es2);
        assert(es[0] == (key, v));
        assert(es.skip(1) =~= es2);
        assert(cbor_of_entries(es) == head(3, klen) + key + cbor_of(v) + cbor_of_entries(es2));
        assert(s.skip(h + klen).subrange(0, u1) =~= s.subrange(h + klen, h + klen + u1));
        assert(s.skip(h + klen + u1).subrange(0, u2) =~= s.subrange(h + klen + u1, h + klen + u1 + u2));
        assert(head(3, klen) + key + cbor_of(v) + cbor_of_entries(es2) =~= s.subrange(0, h + klen + u1 + u2));
    }
}

// ---------------------------------------------------------------------------
// Every owned claim value is expressible in the data model.
// ---------------------------------------------------------------------------

/// The model of any owned claim value is well-formed.
pub proof fn lemma_claim_wf(v: ClaimValue)
    ensures
        value_wf(view_of(v)),
    decreases v,
{
    broadcast use vstd::std_specs::vec::axiom_spec_len;

    lemma_pow256_vals();
    match v {
        ClaimValue::Text(t) => {
            assert(t@.len() == vstd::std_specs::vec::spec_vec_len(&t));
        },
        ClaimValue::Arr(items) => {
            assert(items@.len() == vstd::std_specs::vec::spec_vec_len(&items));
            crate::value::lemma_views_index(items@);
            lemma_claims_wf(items@);
        },
        ClaimValue::Obj(entries) => {
            assert(entries@.len() == vstd::std_specs::vec::spec_vec_len(&entries));
            crate::value::lemma_entry_views_index(entries@);
            lemma_claim_entries_wf(entries@);
        },
        _ => {},
    }
}

/// The models of a sequence of owned claim values are all well-formed.
proof fn lemma_claims_wf(items: Seq<ClaimValue>)
    ensures
        seq_wf(views_of(items)),
    decreases items,
{
    if items.len() > 0 {
        lemma_claim_wf(items[0]);
        lemma_claims_wf(items.skip(1));
        assert(views_of(items) == seq![view_of(items[0])] + views_of(items.skip(1)));
        assert(views_of(items)[0] == view_of(items[0]));
        assert(views_of(items).skip(1) =~= views_of(items.skip(1)));
    }
}

/// The models of a sequence of owned entries are all well-formed.
proof fn lemma_claim_entries_wf(entries: Seq<(Vec<u8>, ClaimValue)>)
    ensures
        entries_wf(entry_views_of(entries)),
    decreases entries,
{
    broadcast use vstd::std_specs::vec::axiom_spec_len;

    lemma_pow256_vals();
    if entries.len() > 0 {
        lemma_claim_wf(entries[0].1);
        lemma_claim_entries_wf(entries.skip(1));
        let evs = entry_views_of(entries);
        assert(evs == seq![(entries[0].0@, view_of(entries[0].1))] + entry_views_of(
            entries.skip(1),
        ));
        assert(evs[0] == (entries[0].0@, view_of(entries[0].1)));
        assert(entries[0].0@.len() == vstd::std_specs::vec::spec_vec_len(&entries[0].0));
        assert(evs.skip(1) =~= entry_views_of(entries.skip(1)));
    }
}

// ---------------------------------------------------------------------------
// Executable serializer
// ---------------------------------------------------------------------------

/// Appends the `w` big-endian bytes of `n`.
fn push_be(out: &mut Vec<u8>, n: u64, w: u8)
    requires
        w <= 8,
    ensures
        final(out)@ == old(out)@ + be_bytes(n as int, w as int),
    decreases w,
{
    if w == 0 {
        assert(out@ =~= old(out)@ + be_bytes(n as int, 0));
    } else {
        push_be(out, n / 256, w - 1);
        out.push((n % 256) as u8);
        assert(out@ =~= old(out)@ + (be_bytes(n as int / 256, w - 1) + seq![
            (n as int % 256) as u8,
        ]));
    }
}

/// Appends the header of an item with major tag `major` and count `n`.
fn push_head(out: &mut Vec<u8>, major: u8, n: u64)
    requires
        major <= 5,
    ensures
        final(out)@ == old(out)@ + head(major as int, n as int),
{
    if n < 24 {
        out.push(major * 32 + n as u8);
        assert(out@ =~= old(out)@ + head(major as int, n as int));
    } else if n < 256 {
        out.push(major * 32 + 24);
        push_be(out, n, 1);
        assert(out@ =~= old(out)@ + (seq![(major * 32 + 24) as u8] + be_bytes(n as int, 1)));
    } else if n < 65536 {
        out.push(major * 32 + 25);
        push_be(out, n, 2);
        assert(out@ =~= old(out)@ + (seq![(major * 32 + 25) as u8] + be_bytes(n as int, 2)));
    } else if n < 4294967296 {
        out.push(major * 32 + 26);
        push_be(out, n, 4);
        assert(out@ =~= old(out)@ + (seq![(major * 32 + 26) as u8] + be_bytes(n as int, 4)));
    } else {
        out.push(major * 32 + 27);
        push_be(out, n, 8);
        assert(out@ =~= old(out)@ + (seq![(major * 32 + 27) as u8] + be_bytes(n as int, 8)));
    }
}

/// Appends the serialization of `v`.
fn ser_into(v: &ClaimValue, out: &mut Vec<u8>)
    ensures
        final(out)@ == old(out)@ + cbor_of(view_of(*v)),
    decreases *v,
{
    match v {
        ClaimValue::Null => {
            out.push(246);
            assert(out@ =~= old(out)@ + cbor_of(view_of(*v)));
        },
        ClaimValue::Bool(b) => {
            if *b {
                out.push(245);
            } else {
                out.push(244);
            }
            assert(out@ =~= old(out)@ + cbor_of(view_of(*v)));
        },
        ClaimValue::Int(n) => {
            if *n >= 0 {
                push_head(out, 0, *n as u64);
            } else {
                let m: u64 = (-(*n + 1)) as u64;
                assert(m as int == -1 - (*n as int));
                push_head(out, 1, m);
            }
        },
        ClaimValue::Float(bits) => {
            out.push(251);
            push_be(out, *bits, 8);
            assert(out@ =~= old(out)@ + (seq![251u8] + be_bytes(*bits as int, 8)));
        },
        ClaimValue::Text(t) => {
            push_head(out, 3, t.len() as u64);
            let ghost mid = out@;
            let mut k: usize = 0;
            while k < t.len()
                invariant
                    k <= t.len(),
                    out@ == mid + t@.take(k as int),
                decreases t.len() - k,
            {
                out.push(t[k]);
                assert(out@ =~= mid + t@.take(k as int + 1));
                k = k + 1;
            }
            assert(t@.take(t@.len() as int) =~= t@);
        },
        ClaimValue::Arr(items) => {
            push_head(out, 4, items.len() as u64);
            proof {
                crate::value::lemma_views_index(items@);
            }
            ser_items(items, 0, out);
            assert(views_of(items@).skip(0) =~= views_of(items@));
            assert(out@ =~= old(out)@ + (head(4, items@.len() as int) + cbor_of_seq(
                views_of(items@),
            )));
        },
        ClaimValue::Obj(entries) => {
            push_head(out, 5, entries.len() as u64);
            proof {
                crate::value::lemma_entry_views_index(entries@);
            }
            ser_entries(entries, 0, out);
            assert(entry_views_of(entries@).skip(0) =~= entry_views_of(entries@));
            assert(out@ =~= old(out)@ + (head(5, entries@.len() as int) + cbor_of_entries(
                entry_views_of(entries@),
            )));
        },
    }
}

/// Appends the serializations of the values of `items` from position `k` on.
fn ser_items(items: &Vec<ClaimValue>, k: usize, out: &mut Vec<u8>)
    requires
        k <= items@.len(),
    ensures
        final(out)@ == old(out)@ + cbor_of_seq(views_of(items@).skip(k as int)),
    decreases *items, items@.len() - k,
{
    proof {
        crate::value::lemma_views_index(items@);
    }
    let ghost vs = views_of(items@);
    if k == items.len() {
        assert(vs.skip(k as int).len() == 0);
        assert(out@ =~= old(out)@ + cbor_of_seq(vs.skip(k as int)));
    } else {
        ser_into(&items[k], out);
        ser_items(items, k + 1, out);
        proof {
            let rest = vs.skip(k as int);
            assert(rest[0] == vs[k as int]);
            assert(rest.skip(1) =~= vs.skip(k as int + 1));
            assert(cbor_of_seq(rest) == cbor_of(vs[k as int]) + cbor_of_seq(
                vs.skip(k as int + 1),
            ));
            assert(old(out)@ + (cbor_of(vs[k as int]) + cbor_of_seq(vs.skip(k as int + 1)))
                =~= old(out)@ + cbor_of(vs[k as int]) + cbor_of_seq(vs.skip(k as int + 1)));
        }
    }
}

/// Appends the serializations of the entries of `entries` from position
/// `k` on.
fn ser_entries(entries: &Vec<(Vec<u8>, ClaimValue)>, k: usize, out: &mut Vec<u8>)
    requires
        k <= entries@.len(),
    ensures
        final(out)@ == old(out)@ + cbor_of_entries(entry_views_of(entries@).skip(k as int)),
    decreases *entries, entries@.len() - k,
{
    proof {
        crate::value::lemma_entry_views_index(entries@);
    }
    let ghost evs = entry_views_of(entries@);
    if k == entries.len() {
        assert(evs.skip(k as int).len() == 0);
        assert(out@ =~= old(out)@ + cbor_of_entries(evs.skip(k as int)));
    } else {
        let key: &Vec<u8> = &entries[k].0;
        push_head(out, 3, key.len() as u64);
        let ghost mid2 = out@;
        let mut j: usize = 0;
        while j < key.len()
            invariant
                j <= key.len(),
                out@ == mid2 + key@.take(j as int),
            decreases key.len() - j,
        {
            out.push(key[j]);
            assert(out@ =~= mid2 + key@.take(j as int + 1));
            j = j + 1;
        }
        assert(key@.take(key@.len() as int) =~= key@);
        ser_into(&entries[k].1, out);
        let ghost before_rest = out@;
        ser_entries(entries, k + 1, out);
        proof {
            let rest = evs.skip(k as int);
            assert(rest[0] == evs[k as int]);
            assert(rest.skip(1) =~= evs.skip(k as int + 1));
            assert(evs[k as int] == (entries@[k as int].0@, view_of(entries@[k as int].1)));
            assert(cbor_of_entries(rest) == head(3, rest[0].0.len() as int) + rest[0].0 + cbor_of(
                rest[0].1,
            ) + cbor_of_entries(rest.skip(1)));
            assert(before_rest =~= old(out)@ + (head(3, key@.len() as int) + key@ + cbor_of(
                view_of(entries@[k as int].1),
            )));
            assert(out@ =~= old(out)@ + cbor_of_entries(rest));
        }
    }
}

// ---------------------------------------------------------------------------
// Executable deserializer
// ---------------------------------------------------------------------------

/// `pow256` is positive.
proof fn lemma_pow256_pos(w: int)
    ensures
        pow256(w) >= 1,
    decreases w,
{
    if w > 0 {
        lemma_pow256_pos(w - 1);
    }
}

/// `pow256` grows with its argument.
proof fn lemma_pow256_increases(a: int, b: int)
    requires
        0 <= a <= b,
    ensures
        pow256(a) <= pow256(b),
    decreases b,
{
    if a < b {
        lemma_pow256_increases(a, b - 1);
        lemma_pow256_pos(b - 1);
    }
}

/// Reads `w` big-endian bytes starting at `i`.
fn read_be(s: &[u8], i: usize, w: usize) -> (r: u64)
    requires
        w <= 8,
        i + w <= s@.len(),
    ensures
        r as int == be_val(s@.subrange(i as int, i as int + w as int)),
{
    let slen: usize = s.len();
    let mut acc: u64 = 0;
    let mut j: usize = 0;
    proof {
        assert(s@.subrange(i as int, i as int) =~= Seq::<u8>::empty());
    }
    while j < w
        invariant
            j <= w <= 8,
            slen == s@.len(),
            i + w <= slen,
            acc as int == be_val(s@.subrange(i as int, i as int + j as int)),
            (acc as int) < pow256(j as int),
        decreases w - j,
    {
        proof {
            lemma_pow256_vals();
            lemma_pow256_increases(j as int + 1, 8);
            let part = s@.subrange(i as int, i as int + j as int + 1);
            assert(part.drop_last() =~= s@.subrange(i as int, i as int + j as int));
            assert(part.last() == s@[i as int + j as int]);
            assert(acc as int * 256 <= (pow256(j as int) - 1) * 256);
        }
        acc = acc * 256 + (s[i + j] as u64);
        j = j + 1;
    }
    acc
}

/// Parses the header of the item at position `i`: major tag, count, and
/// header width.
fn de_head(s: &[u8], i: usize) -> (r: Option<(u8, u64, usize)>)
    requires
        i <= s@.len(),
    ensures
        match r {
            Some((m, n, h)) => dec_head(s@.skip(i as int)) == Some(
                (m as int, n as int, h as int),
            ) && 1 <= h <= 9 && i + h <= s@.len() && m == s@[i as int] / 32,
            None => dec_head(s@.skip(i as int)) is None,
        },
{
    let ghost t = s@.skip(i as int);
    if s.len() - i < 1 {
        return None;
    }
    proof {
        assert(t[0] == s@[i as int]);
    }
    let b = s[i];
    let m = b / 32;
    let ai = b % 32;
    if ai < 24 {
        Some((m, ai as u64, 1))
    } else if ai == 24 {
        if s.len() - i < 2 {
            return None;
        }
        let n = s[i + 1];
        proof {
            assert(t[1] == s@[i as int + 1]);
        }
        if n < 24 {
            return None;
        }
        Some((m, n as u64, 2))
    } else if ai == 25 {
        if s.len() - i < 3 {
            return None;
        }
        let n = read_be(s, i + 1, 2);
        proof {
            assert(t.subrange(1, 3) =~= s@.subrange(i as int + 1, i as int + 3));
        }
        if n < 256 {
            return None;
        }
        Some((m, n, 3))
    } else if ai == 26 {
        if s.len() - i < 5 {
            return None;
        }
        let n = read_be(s, i + 1, 4);
        proof {
            assert(t.subrange(1, 5) =~= s@.subrange(i as int + 1, i as int + 5));
        }
        if n < 65536 {
            return None;
        }
        Some((m, n, 5))
    } else if ai == 27 {
        if s.len() - i < 9 {
            return None;
        }
        let n = read_be(s, i + 1, 8);
        proof {
            assert(t.subrange(1, 9) =~= s@.subrange(i as int + 1, i as int + 9));
        }
        if n < 4294967296 {
            return None;
        }
        Some((m, n, 9))
    } else {
        None
    }
}

/// Copies `len` bytes starting at `start` into a fresh vector.
fn read_bytes(s: &[u8], start: usize, len: usize) -> (r: Vec<u8>)
    requires
        start + len <= s@.len(),
    ensures
        r@ == s@.subrange(start as int, start as int + len as int),
{
    let slen: usize = s.len();
    let mut out: Vec<u8> = Vec::new();
    let mut k: usize = 0;
    proof {
        assert(out@ =~= s@.subrange(start as int, start as int));
    }
    while k < len
        invariant
            k <= len,
            start + len <= slen,
            slen == s@.len(),
            out@ == s@.subrange(start as int, start as int + k as int),
        decreases len - k,
    {
        out.push(s[start + k]);
        proof {
            assert(out@ =~= s@.subrange(start as int, start as int + k as int + 1));
        }
        k = k + 1;
    }
    out
}

/// Prepends already-parsed values and already-consumed bytes to the result
/// of parsing the remaining values.
spec fn items_prepend(vs: Seq<ValModel>, used: int, r: Option<(Seq<ValModel>, int)>) -> Option<
    (Seq<ValModel>, int),
> {
    match r {
        Some(p) => Some((vs + p.0, used + p.1)),
        None => None,
    }
}

/// Prepends already-parsed entries and already-consumed bytes to the result
/// of parsing the remaining entries.
spec fn entries_prepend(
    es: Seq<(Seq<u8>, ValModel)>,
    used: int,
    r: Option<(Seq<(Seq<u8>, ValModel)>, int)>,
) -> Option<(Seq<(Seq<u8>, ValModel)>, int)> {
    match r {
        Some(p) => Some((es + p.0, used + p.1)),
        None => None,
    }
}

/// Parses the structured value that starts at position `i`, returning it
/// with the position just past it.
#[verifier::rlimit(100)]
fn de_at(s: &[u8], i: usize) -> (r: Result<(ClaimValue, usize), DgcError>)
    requires
        i <= s@.len(),
    ensures
        match r {
            Ok((v, j)) => i < j <= s@.len() && cbor_dec(s@.skip(i as int)) == Some(
                (v@, j - i),
            ),
            Err(e) => cbor_dec(s@.skip(i as int)) is None && e == DgcError::MalformedInput,
        },
    decreases s@.len() - i, 0int,
{
    let ghost t = s@.skip(i as int);
    if s.len() - i < 1 {
        return Err(DgcError::MalformedInput);
    }
    proof {
        assert(t[0] == s@[i as int]);
    }
    let b = s[i];
    if b == 244 {
        return Ok((ClaimValue::Bool(false), i + 1));
    }
    if b == 245 {
        return Ok((ClaimValue::Bool(true), i + 1));
    }
    if b == 246 {
        return Ok((ClaimValue::Null, i + 1));
    }
    if b == 251 {
        if s.len() - i < 9 {
            return Err(DgcError::MalformedInput);
        }
        let bits = read_be(s, i + 1, 8);
        proof {
            assert(t.subrange(1, 9) =~= s@.subrange(i as int + 1, i as int + 9));
            lemma_be_val_bound(t.subrange(1, 9));
            lemma_pow256_vals();
        }
        return Ok((ClaimValue::Float(bits), i + 9));
    }
    let (m, n, h) = match de_head(s, i) {
        Some(p) => p,
        None => {
            return Err(DgcError::MalformedInput);
        },
    };
    if m == 0 {
        if n <= i64::MAX as u64 {
            Ok((ClaimValue::Int(n as i64), i + h))
        } else {
            Err(DgcError::MalformedInput)
        }
    } else if m == 1 {
        if n <= i64::MAX as u64 {
            let val: i64 = -(n as i64) - 1;
            assert(val as int == -1 - (n as int));
            Ok((ClaimValue::Int(val), i + h))
        } else {
            Err(DgcError::MalformedInput)
        }
    } else if m == 3 {
        if n <= (s.len() - i - h) as u64 {
            let nlen = n as usize;
            let start = i + h;
            let text = read_bytes(s, start, nlen);
            proof {
                assert(t.subrange(h as int, h as int + n as int) =~= s@.subrange(
                    start as int,
                    start as int + n as int,
                ));
            }
            Ok((ClaimValue::Text(text), start + nlen))
        } else {
            Err(DgcError::MalformedInput)
        }
    } else if m == 4 {
        match de_items(s, i + h, n) {
            Ok((items, end)) => {
                proof {
                    assert(t.skip(h as int) =~= s@.skip(i as int + h as int));
                    assert(cbor_dec(t) == Some(
                        (ValModel::Arr(views_of(items@)), h + (end - (i + h))),
                    ));
                }
                Ok((ClaimValue::Arr(items), end))
            },
            Err(e) => {
                proof {
                    assert(t.skip(h as int) =~= s@.skip(i as int + h as int));
                }
                Err(e)
            },
        }
    } else if m == 5 {
        match de_entries(s, i + h, n) {
            Ok((entries, end)) => {
                proof {
                    assert(t.skip(h as int) =~= s@.skip(i as int + h as int));
                    assert(cbor_dec(t) == Some(
                        (ValModel::Obj(entry_views_of(entries@)), h + (end - (i + h))),
                    ));
                }
                Ok((ClaimValue::Obj(entries), end))
            },
            Err(e) => {
                proof {
                    assert(t.skip(h as int) =~= s@.skip(i as int + h as int));
                }
                Err(e)
            },
        }
    } else {
        Err(DgcError::MalformedInput)
    }
}


/// Parses `n` consecutive structured values starting at `pos`, returning
/// them with the position just past the last.
#[verifier::rlimit(100)]
#[verifier::loop_isolation(false)]
fn de_items(s: &[u8], pos: usize, n: u64) -> (r: Result<(Vec<ClaimValue>, usize), DgcError>)
    requires
        pos <= s@.len(),
    ensures
        match r {
            Ok((items, end)) => pos <= end <= s@.len() && cbor_dec_items(
                s@.skip(pos as int),
                n as int,
            ) == Some((views_of(items@), end - pos)),
            Err(e) => cbor_dec_items(s@.skip(pos as int), n as int) is None && e
                == DgcError::MalformedInput,
        },
    decreases s@.len() - pos, 1int,
{
    let mut items: Vec<ClaimValue> = Vec::new();
    let mut cur: usize = pos;
    let mut j: u64 = 0;
    proof {
        assert(views_of(items@) =~= Seq::<ValModel>::empty());
        match cbor_dec_items(s@.skip(pos as int), n as int) {
            Some(p) => {
                assert(Seq::<ValModel>::empty() + p.0 =~= p.0);
            },
            None => {},
        }
    }
    while j < n
        invariant
            pos <= cur <= s@.len(),
            j <= n,
            cbor_dec_items(s@.skip(pos as int), n as int) == items_prepend(
                views_of(items@),
                cur - pos,
                cbor_dec_items(s@.skip(cur as int), n as int - j as int),
            ),
        decreases n - j,
    {
        let (v, nxt) = match de_at(s, cur) {
            Ok(p) => p,
            Err(_) => {
                return Err(DgcError::MalformedInput);
            },
        };
        proof {
            crate::value::lemma_views_snoc(items@, v);
            let used = nxt - cur;
            let inner = cbor_dec_items(s@.skip(nxt as int), n as int - j as int - 1);
            assert(s@.skip(cur as int).skip(used) =~= s@.skip(nxt as int));
            assert(s@.skip(cur as int).len() == s@.len() - cur);
            assert(cbor_dec_items(s@.skip(cur as int), n as int - j as int) == items_prepend(
                seq![v@],
                used,
                inner,
            ));
            match inner {
                Some(p) => {
                    assert((views_of(items@) + seq![v@]) + p.0 =~= views_of(items@) + (seq![v@]
                        + p.0));
                },
                None => {},
            }
        }
        items.push(v);
        cur = nxt;
        j = j + 1;
    }
    proof {
        assert(s@.skip(cur as int).len() == s@.len() - cur);
        assert(cbor_dec_items(s@.skip(cur as int), 0) == Some((Seq::<ValModel>::empty(), 0int)));
        let vs = views_of(items@);
        assert(vs + Seq::<ValModel>::empty() =~= vs);
    }
    Ok((items, cur))
}

/// Parses `n` consecutive key-value entries starting at `pos`, returning
/// them with the position just past the last.
#[verifier::rlimit(100)]
#[verifier::loop_isolation(false)]
fn de_entries(s: &[u8], pos: usize, n: u64) -> (r: Result<
    (Vec<(Vec<u8>, ClaimValue)>, usize),
    DgcError,
>)
    requires
        pos <= s@.len(),
    ensures
        match r {
            Ok((entries, end)) => pos <= end <= s@.len() && cbor_dec_entries(
                s@.skip(pos as int),
                n as int,
            ) == Some((entry_views_of(entries@), end - pos)),
            Err(e) => cbor_dec_entries(s@.skip(pos as int), n as int) is None && e
                == DgcError::MalformedInput,
        },
    decreases s@.len() - pos, 1int,
{
    let mut entries: Vec<(Vec<u8>, ClaimValue)> = Vec::new();
    let mut cur: usize = pos;
    let mut j: u64 = 0;
    proof {
        assert(entry_views_of(entries@) =~= Seq::<(Seq<u8>, ValModel)>::empty());
        match cbor_dec_entries(s@.skip(pos as int), n as int) {
            Some(p) => {
                assert(Seq::<(Seq<u8>, ValModel)>::empty() + p.0 =~= p.0);
            },
            None => {},
        }
    }
    while j < n
        invariant
            pos <= cur <= s@.len(),
            j <= n,
            cbor_dec_entries(s@.skip(pos as int), n as int) == entries_prepend(
                entry_views_of(entries@),
                cur - pos,
                cbor_dec_entries(s@.skip(cur as int), n as int - j as int),
            ),
        decreases n - j,
    {
        let (m2, klen, h2) = match de_head(s, cur) {
            Some(p) => p,
            None => {
                return Err(DgcError::MalformedInput);
            },
        };
        if m2 != 3 {
            return Err(DgcError::MalformedInput);
        }
        if klen > (s.len() - cur - h2) as u64 {
            proof {
                assert(s@.skip(cur as int).len() == s@.len() - cur);
            }
            return Err(DgcError::MalformedInput);
        }
        let kstart = cur + h2;
        let klen_u = klen as usize;
        let key = read_bytes(s, kstart, klen_u);
        let (v, nxt) = match de_at(s, kstart + klen_u) {
            Ok(p) => p,
            Err(_) => {
                proof {
                    let tc = s@.skip(cur as int);
                    assert(tc.subrange(h2 as int, h2 as int + klen as int) =~= s@.subrange(
                        kstart as int,
                        kstart as int + klen as int,
                    ));
                    assert(tc.skip(h2 as int + klen as int) =~= s@.skip(
                        kstart as int + klen as int,
                    ));
                }
                return Err(DgcError::MalformedInput);
            },
        };
        proof {
            let tc = s@.skip(cur as int);
            assert(tc.len() == s@.len() - cur);
            assert(tc.subrange(h2 as int, h2 as int + klen as int) =~= s@.subrange(
                kstart as int,
                kstart as int + klen as int,
            ));
            assert(tc.skip(h2 as int + klen as int) =~= s@.skip(kstart as int + klen as int));
            crate::value::lemma_entry_views_snoc(entries@, (key, v));
            let used = nxt - (kstart + klen_u);
            let consumed = h2 + klen + used;
            let inner = cbor_dec_entries(s@.skip(nxt as int), n as int - j as int - 1);
            assert(tc.skip(h2 as int + klen as int + used) =~= s@.skip(nxt as int));
            assert(cbor_dec_entries(s@.skip(cur as int), n as int - j as int) == entries_prepend(
                seq![(key@, v@)],
                consumed as int,
                inner,
            ));
            match inner {
                Some(p) => {
                    assert((entry_views_of(entries@) + seq![(key@, v@)]) + p.0 =~= entry_views_of(
                        entries@,
                    ) + (seq![(key@, v@)] + p.0));
                },
                None => {},
            }
        }
        entries.push((key, v));
        cur = nxt;
        j = j + 1;
    }
    proof {
        assert(s@.skip(cur as int).len() == s@.len() - cur);
        assert(cbor_dec_entries(s@.skip(cur as int), 0) == Some(
            (Seq::<(Seq<u8>, ValModel)>::empty(), 0int),
        ));
        let es = entry_views_of(entries@);
        assert(es + Seq::<(Seq<u8>, ValModel)>::empty() =~= es);
    }
    Ok((entries, cur))
}

/// Deserializes a compact binary form back to the structured value it
/// serializes; rejects anything else as malformed.
pub fn deserialize(bytes: &[u8]) -> (r: Result<ClaimValue, DgcError>)
    ensures
        match r {
            Ok(v) => cbor_dec_full(bytes@) == Some(v@),
            Err(e) => cbor_dec_full(bytes@) is None && e == DgcError::MalformedInput,
        },
{
    proof {
        assert(bytes@.skip(0) =~= bytes@);
    }
    match de_at(bytes, 0) {
        Ok((v, j)) => {
            if j == bytes.len() {
                Ok(v)
            } else {
                Err(DgcError::MalformedInput)
            }
        },
        Err(e) => Err(e),
    }
}

/// Serializes a structured value to its compact binary form.
pub fn serialize(v: &ClaimValue) -> (r: Vec<u8>)
    ensures
        r@ == cbor_of(v@),
{
    let mut out: Vec<u8> = Vec::new();
    ser_into(v, &mut out);
    assert(out@ =~= cbor_of(view_of(*v)));
    out
}

} // verus!
