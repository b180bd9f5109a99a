use vstd::prelude::*;

use crate::errors::DgcError;

verus! {

// ---------------------------------------------------------------------------
// The restricted 45-symbol alphabet: digits, upper-case letters, and the nine
// punctuation marks space $ % * + - . / : (in that order of digit values).
// ---------------------------------------------------------------------------

/// The symbol (an ASCII byte) that stands for the digit `d` of the base-45
/// positional encoding, for `0 <= d < 45`.
pub open spec fn b45_sym(d: int) -> u8
    recommends
        0 <= d < 45,
{
    if d < 10 {
        (48 + d) as u8  // '0' ..= '9'
    } else if d < 36 {
        (55 + d) as u8  // 'A' ..= 'Z'
    } else if d == 36 {
        32u8  // ' '
    } else if d == 37 {
        36u8  // '$'
    } else if d == 38 {
        37u8  // '%'
    } else if d == 39 {
        42u8  // '*'
    } else if d == 40 {
        43u8  // '+'
    } else if d == 41 {
        45u8  // '-'
    } else if d == 42 {
        46u8  // '.'
    } else if d == 43 {
        47u8  // '/'
    } else {
        58u8  // ':'
    }
}

/// The digit value of the ASCII byte `c`, or a negative number when `c` is
/// not one of the 45 alphabet symbols.
pub open spec fn b45_val(c: u8) -> int {
    if 48 <= c && c <= 57 {
        c - 48
    } else if 65 <= c && c <= 90 {
        c - 55
    } else if c == 32 {
        36
    } else if c == 36 {
        37
    } else if c == 37 {
        38
    } else if c == 42 {
        39
    } else if c == 43 {
        40
    } else if c == 45 {
        41
    } else if c == 46 {
        42
    } else if c == 47 {
        43
    } else if c == 58 {
        44
    } else {
        -1
    }
}

/// Symbol and digit value are mutually inverse on the alphabet.
pub proof fn lemma_sym_val(d: int)
    requires
        0 <= d < 45,
    ensures
        b45_val(b45_sym(d)) == d,
        32 <= b45_sym(d) <= 90,
{
}

// ---------------------------------------------------------------------------
// The encoding: 2-byte chunks become 3 symbols (value = c0 + 45*c1 + 2025*c2
// for the chunk's big-endian 16-bit value), a final odd byte becomes exactly
// 2 symbols.
// ---------------------------------------------------------------------------

/// The text (as ASCII bytes) that encodes the byte sequence `s`.
pub open spec fn b45_encode(s: Seq<u8>) -> Seq<u8>
    decreases s.len(),
{
    if s.len() == 0 {
        Seq::empty()
    } else if s.len() == 1 {
        let n = s[0] as int;
        seq![b45_sym(n % 45), b45_sym(n / 45)]
    } else {
        let n = s[0] * 256 + s[1];
        seq![b45_sym(n % 45), b45_sym((n / 45) % 45), b45_sym(n / 2025)] + b45_encode(s.skip(2))
    }
}

/// The bytes that the text `t` (as ASCII bytes) decodes to: groups of 3
/// symbols yield 2 bytes, a final group of 2 symbols yields 1 byte. `None`
/// when a symbol is outside the alphabet, the grouping is invalid (length
/// mod 3 equal to 1), or a group's value exceeds the range of its size.
pub open spec fn b45_decode(t: Seq<u8>) -> Option<Seq<u8>>
    decreases t.len(),
{
    if t.len() == 0 {
        Some(Seq::empty())
    } else if t.len() == 1 {
        None
    } else if t.len() == 2 {
        let n = b45_val(t[0]) + 45 * b45_val(t[1]);
        if b45_val(t[0]) >= 0 && b45_val(t[1]) >= 0 && n < 256 {
            Some(seq![n as u8])
        } else {
            None
        }
    } else {
        let n = b45_val(t[0]) + 45 * b45_val(t[1]) + 2025 * b45_val(t[2]);
        if b45_val(t[0]) >= 0 && b45_val(t[1]) >= 0 && b45_val(t[2]) >= 0 && n < 65536 {
            match b45_decode(t.skip(3)) {
                Some(r) => Some(seq![(n / 256) as u8, (n % 256) as u8] + r),
                None => None,
            }
        } else {
            None
        }
    }
}

/// A 16-bit value is reassembled exactly from its three base-45 digits.
proof fn lemma_digits_of_16bit(n: int)
    requires
        0 <= n < 65536,
    ensures
        0 <= n % 45 < 45,
        0 <= (n / 45) % 45 < 45,
        0 <= n / 2025 < 45,
        n % 45 + 45 * ((n / 45) % 45) + 2025 * (n / 2025) == n,
{
    vstd::arithmetic::div_mod::lemma_fundamental_div_mod(n, 45);
    vstd::arithmetic::div_mod::lemma_fundamental_div_mod(n / 45, 45);
    vstd::arithmetic::div_mod::lemma_div_denominator(n, 45, 45);
    assert(n / 45 < 1457) by {
        vstd::arithmetic::div_mod::lemma_fundamental_div_mod(n, 45);
    }
    assert(n / 2025 < 45) by {
        vstd::arithmetic::div_mod::lemma_fundamental_div_mod(n, 2025);
    }
}

/// An 8-bit value is reassembled exactly from its two base-45 digits.
proof fn lemma_digits_of_8bit(n: int)
    requires
        0 <= n < 256,
    ensures
        0 <= n % 45 < 45,
        0 <= n / 45 < 45,
        n % 45 + 45 * (n / 45) == n,
{
    vstd::arithmetic::div_mod::lemma_fundamental_div_mod(n, 45);
}

/// Decoding inverts encoding: every byte sequence round-trips through the
/// text codec.
pub proof fn lemma_b45_round_trip(s: Seq<u8>)
    ensures
        b45_decode(b45_encode(s)) == Some(s),
    decreases s.len(),
{
    if s.len() == 0 {
        assert(b45_encode(s).len() == 0);
        assert(b45_decode(b45_encode(s)) == Some(Seq::<u8>::empty()));
        assert(s =~= Seq::<u8>::empty());
    } else if s.len() == 1 {
        let n = s[0] as int;
        lemma_digits_of_8bit(n);
        lemma_sym_val(n % 45);
        lemma_sym_val(n / 45);
        let t = b45_encode(s);
        assert(t.len() == 2);
        assert(b45_val(t[0]) == n % 45);
        assert(b45_val(t[1]) == n / 45);
        assert(b45_decode(t) == Some(seq![n as u8]));
        assert(seq![n as u8] =~= s);
    } else {
        let n = s[0] * 256 + s[1];
        lemma_digits_of_16bit(n);
        lemma_sym_val(n % 45);
        lemma_sym_val((n / 45) % 45);
        lemma_sym_val(n / 2025);
        lemma_b45_round_trip(s.skip(2));
        let t = b45_encode(s);
        assert(t.skip(3) =~= b45_encode(s.skip(2)));
        assert(b45_val(t[0]) == n % 45);
        assert(b45_val(t[1]) == (n / 45) % 45);
        assert(b45_val(t[2]) == n / 2025);
        assert(b45_val(t[0]) + 45 * b45_val(t[1]) + 2025 * b45_val(t[2]) == n);
        vstd::arithmetic::div_mod::lemma_fundamental_div_mod_converse(
            n,
            256,
            s[0] as int,
            s[1] as int,
        );
        assert(b45_decode(t) == Some(seq![(n / 256) as u8, (n % 256) as u8] + s.skip(2)));
        assert(seq![(n / 256) as u8, (n % 256) as u8] + s.skip(2) =~= s);
    }
}

/// Every byte of an encoding is an alphabet symbol, hence printable ASCII.
pub proof fn lemma_b45_encode_ascii(s: Seq<u8>)
    ensures
        forall|i: int|
            0 <= i < b45_encode(s).len() ==> 32 <= #[trigger] b45_encode(s)[i] <= 90,
    decreases s.len(),
{
    if s.len() == 0 {
    } else if s.len() == 1 {
        let n = s[0] as int;
        lemma_digits_of_8bit(n);
        lemma_sym_val(n % 45);
        lemma_sym_val(n / 45);
    } else {
        let n = s[0] * 256 + s[1];
        lemma_digits_of_16bit(n);
        lemma_sym_val(n % 45);
        lemma_sym_val((n / 45) % 45);
        lemma_sym_val(n / 2025);
        lemma_b45_encode_ascii(s.skip(2));
        assert forall|i: int| 0 <= i < b45_encode(s).len() implies 32 <= #[trigger] b45_encode(
            s,
        )[i] <= 90 by {
            if i >= 3 {
                assert(b45_encode(s)[i] == b45_encode(s.skip(2))[i - 3]);
            }
        }
    }
}

/// Text that uses a symbol outside the alphabet, or whose length leaves a
/// remainder of 1 modulo 3, never decodes.
pub proof fn lemma_alphabet_closure(t: Seq<u8>)
    requires
        t.len() % 3 == 1 || exists|i: int| 0 <= i < t.len() && b45_val(#[trigger] t[i]) < 0,
    ensures
        b45_decode(t) is None,
    decreases t.len(),
{
    if t.len() == 0 {
        assert(false);
    } else if t.len() == 1 {
    } else if t.len() == 2 {
        assert(exists|i: int| 0 <= i < t.len() && b45_val(#[trigger] t[i]) < 0);
    } else {
        if b45_val(t[0]) >= 0 && b45_val(t[1]) >= 0 && b45_val(t[2]) >= 0 {
            if t.len() % 3 == 1 {
                assert(t.skip(3).len() % 3 == 1);
            } else {
                let i = choose|i: int| 0 <= i < t.len() && b45_val(#[trigger] t[i]) < 0;
                assert(i >= 3);
                assert(b45_val(t.skip(3)[i - 3]) < 0);
            }
            lemma_alphabet_closure(t.skip(3));
        }
    }
}

/// Splitting a byte sequence at an even position splits its encoding.
proof fn lemma_b45_encode_split(s: Seq<u8>, k: int)
    requires
        0 <= 2 * k <= s.len(),
    ensures
        b45_encode(s) == b45_encode(s.take(2 * k)) + b45_encode(s.skip(2 * k)),
    decreases k,
{
    if k <= 0 {
        assert(s.take(0) =~= Seq::<u8>::empty());
        assert(s.skip(0) =~= s);
        assert(b45_encode(s.take(0)) + b45_encode(s) =~= b45_encode(s));
    } else {
        lemma_b45_encode_split(s.skip(2), k - 1);
        assert(s.skip(2).take(2 * k - 2) =~= s.take(2 * k).skip(2));
        assert(s.skip(2).skip(2 * k - 2) =~= s.skip(2 * k));
        let head = seq![
            b45_sym((s[0] * 256 + s[1]) % 45),
            b45_sym(((s[0] * 256 + s[1]) / 45) % 45),
            b45_sym((s[0] * 256 + s[1]) / 2025),
        ];
        assert(b45_encode(s) == head + b45_encode(s.skip(2)));
        assert(b45_encode(s.take(2 * k)) == head + b45_encode(s.take(2 * k).skip(2)));
        let mid = b45_encode(s.take(2 * k).skip(2));
        let tail = b45_encode(s.skip(2 * k));
        assert(head + (mid + tail) =~= (head + mid) + tail);
    }
}

/// One 2-byte chunk extends the encoding by its three symbols.
proof fn lemma_b45_encode_step(s: Seq<u8>, i: int)
    requires
        0 <= i,
        i % 2 == 0,
        i + 2 <= s.len(),
    ensures
        b45_encode(s.take(i + 2)) == b45_encode(s.take(i)) + seq![
            b45_sym((s[i] * 256 + s[i + 1]) % 45),
            b45_sym(((s[i] * 256 + s[i + 1]) / 45) % 45),
            b45_sym((s[i] * 256 + s[i + 1]) / 2025),
        ],
{
    lemma_b45_encode_split(s.take(i + 2), i / 2);
    assert(s.take(i + 2).take(i) =~= s.take(i));
    let pair = s.take(i + 2).skip(i);
    assert(pair =~= seq![s[i], s[i + 1]]);
    assert(pair.len() == 2);
    assert(pair[0] * 256 + pair[1] == s[i] * 256 + s[i + 1]);
    assert(pair.skip(2) =~= Seq::<u8>::empty());
    assert(b45_encode(pair.skip(2)) == Seq::<u8>::empty());
    let n = s[i] * 256 + s[i + 1];
    let digits = seq![b45_sym(n % 45), b45_sym((n / 45) % 45), b45_sym(n / 2025)];
    assert(b45_encode(pair) == digits + b45_encode(pair.skip(2)));
    assert(b45_encode(pair) =~= digits);
}

// ---------------------------------------------------------------------------
// Executable codec
// ---------------------------------------------------------------------------

/// The alphabet symbol for the digit `d`.
fn sym_of(d: u8) -> (r: u8)
    requires
        d < 45,
    ensures
        r == b45_sym(d as int),
{
    if d < 10 {
        48 + d
    } else if d < 36 {
        55 + d
    } else if d == 36 {
        32
    } else if d == 37 {
        36
    } else if d == 38 {
        37
    } else if d == 39 {
        42
    } else if d == 40 {
        43
    } else if d == 41 {
        45
    } else if d == 42 {
        46
    } else if d == 43 {
        47
    } else {
        58
    }
}

/// The digit value of the symbol `c`, or `None` when `c` is outside the
/// alphabet.
fn val_of(c: u8) -> (r: Option<u8>)
    ensures
        match r {
            Some(d) => d < 45 && b45_val(c) == d as int,
            None => b45_val(c) < 0,
        },
{
    if 48 <= c && c <= 57 {
        Some(c - 48)
    } else if 65 <= c && c <= 90 {
        Some(c - 55)
    } else if c == 32 {
        Some(36)
    } else if c == 36 {
        Some(37)
    } else if c == 37 {
        Some(38)
    } else if c == 42 {
        Some(39)
    } else if c == 43 {
        Some(40)
    } else if c == 45 {
        Some(41)
    } else if c == 46 {
        Some(42)
    } else if c == 47 {
        Some(43)
    } else if c == 58 {
        Some(44)
    } else {
        None
    }
}

/// Encodes arbitrary bytes as text over the 45-symbol alphabet.
#[verifier::rlimit(100)]
pub fn base45_encode(data: &[u8]) -> (r: Vec<u8>)
    ensures
        r@ == b45_encode(data@),
{
    let mut out: Vec<u8> = Vec::new();
    let mut i: usize = 0;
    while data.len() - i >= 2
        invariant
            i <= data.len(),
            i % 2 == 0,
            out@ == b45_encode(data@.take(i as int)),
        decreases data.len() - i,
    {
        let n: u32 = (data[i] as u32) * 256 + (data[i + 1] as u32);
        proof {
            lemma_digits_of_16bit(n as int);
            lemma_b45_encode_step(data@, i as int);
        }
        out.push(sym_of((n % 45) as u8));
        out.push(sym_of(((n / 45) % 45) as u8));
        out.push(sym_of((n / 2025) as u8));
        i = i + 2;
        assert(out@ =~= b45_encode(data@.take(i as int)));
    }
    proof {
        lemma_b45_encode_split(data@, (i as int) / 2);
        assert(data@.take(data@.len() as int) =~= data@);
    }
    if i < data.len() {
        let n: u8 = data[i];
        proof {
            lemma_digits_of_8bit(n as int);
            assert(data@.skip(i as int) =~= seq![data@[i as int]]);
        }
        out.push(sym_of(n % 45));
        out.push(sym_of(n / 45));
        assert(out@ =~= b45_encode(data@.take(i as int)) + b45_encode(data@.skip(i as int)));
    } else {
        assert(data@.take(i as int) =~= data@);
        assert(b45_encode(data@.skip(i as int)) =~= Seq::<u8>::empty());
        assert(out@ =~= b45_encode(data@.take(i as int)) + b45_encode(data@.skip(i as int)));
    }
    out
}

/// `None` results stay `None` under prepending already-decoded bytes.
spec fn opt_prepend(pre: Seq<u8>, r: Option<Seq<u8>>) -> Option<Seq<u8>> {
    match r {
        Some(s) => Some(pre + s),
        None => None,
    }
}

/// Decodes text over the 45-symbol alphabet back to bytes; rejects exactly
/// the texts that the decoding function rejects.
pub fn base45_decode(text: &[u8]) -> (r: Result<Vec<u8>, DgcError>)
    ensures
        match r {
            Ok(out) => b45_decode(text@) == Some(out@),
            Err(e) => b45_decode(text@) is None && e == DgcError::Encoding,
        },
{
    let mut out: Vec<u8> = Vec::new();
    let mut i: usize = 0;
    proof {
        assert(text@.skip(0) =~= text@);
        assert(opt_prepend(out@, b45_decode(text@)) == b45_decode(text@)) by {
            match b45_decode(text@) {
                Some(s) => {
                    assert(out@ + s =~= s);
                },
                None => {},
            }
        }
    }
    while text.len() - i >= 3
        invariant
            i <= text.len(),
            b45_decode(text@) == opt_prepend(out@, b45_decode(text@.skip(i as int))),
        decreases text.len() - i,
    {
        let ghost rest = text@.skip(i as int);
        proof {
            assert(rest[0] == text@[i as int]);
            assert(rest[1] == text@[i as int + 1]);
            assert(rest[2] == text@[i as int + 2]);
        }
        let v0 = match val_of(text[i]) {
            Some(d) => d,
            None => {
                return Err(DgcError::Encoding);
            },
        };
        let v1 = match val_of(text[i + 1]) {
            Some(d) => d,
            None => {
                return Err(DgcError::Encoding);
            },
        };
        let v2 = match val_of(text[i + 2]) {
            Some(d) => d,
            None => {
                return Err(DgcError::Encoding);
            },
        };
        let n: u32 = v0 as u32 + 45 * (v1 as u32) + 2025 * (v2 as u32);
        if n >= 65536 {
            return Err(DgcError::Encoding);
        }
        proof {
            assert(rest.skip(3) =~= text@.skip(i as int + 3));
            let two = seq![(n as int / 256) as u8, (n as int % 256) as u8];
            assert(b45_decode(rest) == opt_prepend(two, b45_decode(text@.skip(i as int + 3))));
            match b45_decode(text@.skip(i as int + 3)) {
                Some(s) => {
                    assert(out@ + (two + s) =~= (out@ + two) + s);
                },
                None => {},
            }
        }
        out.push((n / 256) as u8);
        out.push((n % 256) as u8);
        i = i + 3;
    }
    let rem = text.len() - i;
    if rem == 0 {
        proof {
            assert(text@.skip(i as int) =~= Seq::<u8>::empty());
            assert(b45_decode(text@.skip(i as int)) == Some(Seq::<u8>::empty()));
            assert(out@ + Seq::<u8>::empty() =~= out@);
        }
        Ok(out)
    } else if rem == 1 {
        proof {
            assert(text@.skip(i as int).len() == 1);
        }
        Err(DgcError::Encoding)
    } else {
        let ghost rest = text@.skip(i as int);
        proof {
            assert(rest.len() == 2);
            assert(rest[0] == text@[i as int]);
            assert(rest[1] == text@[i as int + 1]);
        }
        let v0 = match val_of(text[i]) {
            Some(d) => d,
            None => {
                return Err(DgcError::Encoding);
            },
        };
        let v1 = match val_of(text[i + 1]) {
            Some(d) => d,
            None => {
                return Err(DgcError::Encoding);
            },
        };
        let n: u32 = v0 as u32 + 45 * (v1 as u32);
        if n >= 256 {
            return Err(DgcError::Encoding);
        }
        proof {
            assert(b45_decode(rest) == Some(seq![(n as int) as u8]));
            assert(out@ + seq![(n as int) as u8] =~= out@.push(n as u8));
        }
        out.push(n as u8);
        Ok(out)
    }
}

} // verus!
