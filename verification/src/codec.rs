//! Textual codec for embedding vectors.
//!
//! A vector component is carried as the 64-bit pattern of the number the
//! embedding service produced; the codec writes each component as exactly 16
//! lowercase hexadecimal digits, most significant first, and parses the same
//! form back. The encoding is canonical, so a stored vector decodes to
//! exactly the components it was written from.
//!
//! This is also the one persisted form the library reads: a table whose
//! vector cells carry any other textual encoding of the numbers — a JSON
//! array, say — is rejected as malformed on load rather than guessed at.

use vstd::prelude::*;

use crate::errors::Error;

verus! {

/// Sixteen to the power `k`.
pub open spec fn pow16(k: nat) -> nat
    decreases k,
{
    if k == 0 {
        1
    } else {
        16 * pow16((k - 1) as nat)
    }
}

/// The lowercase hexadecimal digit for a value below sixteen.
pub open spec fn hex_char(d: nat) -> u8 {
    if d < 10 {
        (48 + d) as u8
    } else {
        (87 + d) as u8
    }
}

/// Whether `c` is a lowercase hexadecimal digit.
pub open spec fn is_hex(c: u8) -> bool {
    (48 <= c <= 57) || (97 <= c <= 102)
}

/// The value of a lowercase hexadecimal digit.
pub open spec fn hex_val(c: u8) -> nat {
    if 48 <= c <= 57 {
        (c - 48) as nat
    } else if 97 <= c <= 102 {
        (c - 87) as nat
    } else {
        0
    }
}

/// The last `k` hexadecimal digits of `x`, most significant first.
pub open spec fn elem_digits(x: nat, k: nat) -> Seq<u8>
    decreases k,
{
    if k == 0 {
        Seq::empty()
    } else {
        elem_digits(x / 16, (k - 1) as nat) + seq![hex_char(x % 16)]
    }
}

/// The number a digit string denotes.
pub open spec fn parse_digits(s: Seq<u8>) -> nat
    decreases s.len(),
{
    if s.len() == 0 {
        0
    } else {
        parse_digits(s.drop_last()) * 16 + hex_val(s.last())
    }
}

/// The canonical encoding of a vector: sixteen digits per component.
pub open spec fn encode_spec(v: Seq<u64>) -> Seq<u8>
    decreases v.len(),
{
    if v.len() == 0 {
        Seq::empty()
    } else {
        elem_digits(v[0] as nat, 16) + encode_spec(v.skip(1))
    }
}

/// A byte string is a well-formed stored vector when it consists of whole
/// sixteen-digit groups of lowercase hexadecimal digits.
pub open spec fn valid_encoding(s: Seq<u8>) -> bool {
    s.len() % 16 == 0 && forall|i: int| 0 <= i < s.len() ==> is_hex(#[trigger] s[i])
}

/// The vector a well-formed byte string denotes, component by component.
pub open spec fn decode_spec(s: Seq<u8>) -> Seq<u64>
    decreases s.len(),
{
    if s.len() < 16 {
        Seq::empty()
    } else {
        seq![(parse_digits(s.take(16)) % pow16(16)) as u64] + decode_spec(s.skip(16))
    }
}

proof fn lemma_pow16_16()
    ensures
        pow16(16) == 0x10000000000000000,
{
    reveal_with_fuel(pow16, 17);
}

proof fn lemma_hex_char_val(d: nat)
    requires
        d < 16,
    ensures
        is_hex(hex_char(d)),
        hex_val(hex_char(d)) == d,
{
}

proof fn lemma_elem_digits_len(x: nat, k: nat)
    ensures
        elem_digits(x, k).len() == k,
        forall|i: int| 0 <= i < k ==> is_hex(#[trigger] elem_digits(x, k)[i]),
    decreases k,
{
    if k == 0 {
    } else {
        lemma_elem_digits_len(x / 16, (k - 1) as nat);
        assert forall|i: int| 0 <= i < k implies is_hex(#[trigger] elem_digits(x, k)[i]) by {
            if i < k - 1 {
                assert(elem_digits(x, k)[i] == elem_digits(x / 16, (k - 1) as nat)[i]);
            } else {
                lemma_hex_char_val(x % 16);
            }
        }
    }
}

/// Writing `x`'s digits and reading them back gives `x` modulo the digit
/// range.
proof fn lemma_parse_elem(x: nat, k: nat)
    ensures
        parse_digits(elem_digits(x, k)) == x % pow16(k),
    decreases k,
{
    if k == 0 {
        assert(x % 1 == 0) by (nonlinear_arith);
    } else {
        lemma_parse_elem(x / 16, (k - 1) as nat);
        lemma_pow16_pos((k - 1) as nat);
        let s = elem_digits(x, k);
        assert(s.drop_last() =~= elem_digits(x / 16, (k - 1) as nat));
        lemma_hex_char_val(x % 16);
        assert(parse_digits(s) == ((x / 16) % pow16((k - 1) as nat)) * 16 + x % 16);
        assert(pow16(k) == 16 * pow16((k - 1) as nat));
        vstd::arithmetic::div_mod::lemma_mod_breakdown(
            x as int,
            16,
            pow16((k - 1) as nat) as int,
        );
        assert(x as int % (16 * pow16((k - 1) as nat) as int) == 16 * ((x as int / 16) % (pow16(
            (k - 1) as nat,
        ) as int)) + x as int % 16);
    }
}

proof fn lemma_pow16_pos(k: nat)
    ensures
        pow16(k) >= 1,
    decreases k,
{
    if k == 0 {
    } else {
        lemma_pow16_pos((k - 1) as nat);
    }
}

/// A digit string denotes a number below the range of its digit count.
proof fn lemma_parse_bound(s: Seq<u8>)
    ensures
        parse_digits(s) < pow16(s.len()),
    decreases s.len(),
{
    if s.len() == 0 {
    } else {
        lemma_parse_bound(s.drop_last());
        let p = parse_digits(s.drop_last());
        assert(hex_val(s.last()) < 16);
        assert(p < pow16((s.len() - 1) as nat));
        assert(p * 16 + hex_val(s.last()) < 16 * pow16((s.len() - 1) as nat)) by (nonlinear_arith)
            requires
                p < pow16((s.len() - 1) as nat),
                hex_val(s.last()) < 16,
        ;
    }
}

/// Round trip: decoding the encoding of any vector yields that vector, of
/// the same length, and the encoding is always well formed.
pub proof fn lemma_codec_round_trip(v: Seq<u64>)
    ensures
        valid_encoding(encode_spec(v)),
        decode_spec(encode_spec(v)) == v,
        encode_spec(v).len() == 16 * v.len(),
    decreases v.len(),
{
    lemma_pow16_16();
    if v.len() == 0 {
        assert(decode_spec(encode_spec(v)) =~= v);
    } else {
        lemma_codec_round_trip(v.skip(1));
        let s = encode_spec(v);
        let head = elem_digits(v[0] as nat, 16);
        lemma_elem_digits_len(v[0] as nat, 16);
        assert(s.len() == 16 + encode_spec(v.skip(1)).len());
        assert(s.len() % 16 == 0);
        assert forall|i: int| 0 <= i < s.len() implies is_hex(#[trigger] s[i]) by {
            if i < 16 {
                assert(s[i] == head[i]);
            } else {
                assert(s[i] == encode_spec(v.skip(1))[i - 16]);
            }
        }
        assert(s.take(16) =~= head);
        assert(s.skip(16) =~= encode_spec(v.skip(1)));
        lemma_parse_elem(v[0] as nat, 16);
        assert(v[0] as nat % pow16(16) == v[0] as nat) by {
            assert((v[0] as nat) < pow16(16));
            assert(v[0] as nat % pow16(16) == v[0] as nat) by (nonlinear_arith)
                requires
                    (v[0] as nat) < pow16(16),
            ;
        }
        lemma_parse_bound(s.take(16));
        assert(parse_digits(s.take(16)) % pow16(16) == v[0] as nat);
        assert(decode_spec(s) =~= v);
    }
}

fn hex_char_exec(d: u64) -> (r: u8)
    requires
        d < 16,
    ensures
        r == hex_char(d as nat),
{
    if d < 10 {
        (48 + d) as u8
    } else {
        (87 + d) as u8
    }
}

fn push_elem_digits(out: &mut Vec<u8>, x: u64, k: usize)
    ensures
        final(out)@ == old(out)@ + elem_digits(x as nat, k as nat),
    decreases k,
{
    if k == 0 {
        proof {
            assert(out@ =~= old(out)@ + elem_digits(x as nat, 0));
        }
    } else {
        push_elem_digits(out, x / 16, k - 1);
        out.push(hex_char_exec(x % 16));
        proof {
            assert((x / 16) as nat == (x as nat) / 16);
            assert((x % 16) as nat == (x as nat) % 16);
            assert(out@ =~= old(out)@ + elem_digits(x as nat, k as nat));
        }
    }
}

fn encode_from(v: &Vec<u64>, i: usize) -> (r: Vec<u8>)
    requires
        i <= v@.len(),
    ensures
        r@ == encode_spec(v@.skip(i as int)),
    decreases v@.len() - i,
{
    if i == v.len() {
        let r: Vec<u8> = Vec::new();
        proof {
            assert(r@ =~= encode_spec(v@.skip(i as int)));
        }
        r
    } else {
        let mut r: Vec<u8> = Vec::new();
        push_elem_digits(&mut r, v[i], 16);
        let rest = encode_from(v, i + 1);
        crate::bytes::append_bytes(&mut r, &rest);
        proof {
            assert(v@.skip(i as int)[0] == v@[i as int]);
            assert(v@.skip(i as int).skip(1) =~= v@.skip(i + 1));
            assert(r@ =~= encode_spec(v@.skip(i as int)));
        }
        r
    }
}

/// Serializes a vector's components to their canonical textual encoding.
pub fn encode_vector(v: &Vec<u64>) -> (r: Vec<u8>)
    ensures
        r@ == encode_spec(v@),
        valid_encoding(r@),
{
    let r = encode_from(v, 0);
    proof {
        assert(v@.skip(0) =~= v@);
        lemma_codec_round_trip(v@);
    }
    r
}

fn is_hex_exec(c: u8) -> (r: bool)
    ensures
        r == is_hex(c),
{
    (48 <= c && c <= 57) || (97 <= c && c <= 102)
}

fn hex_val_exec(c: u8) -> (r: u8)
    requires
        is_hex(c),
    ensures
        r as nat == hex_val(c),
        r < 16,
{
    if c <= 57 {
        c - 48
    } else {
        c - 87
    }
}

fn decode_from(s: &Vec<u8>, i: usize) -> (r: Vec<u64>)
    requires
        valid_encoding(s@),
        i <= s@.len(),
        i % 16 == 0,
    ensures
        r@ == decode_spec(s@.skip(i as int)),
        r@.len() == (s@.len() - i) / 16,
    decreases s@.len() - i,
{
    if i == s.len() {
        let r: Vec<u64> = Vec::new();
        proof {
            assert(r@ =~= decode_spec(s@.skip(i as int)));
        }
        r
    } else {
        proof {
            assert(s@.len() % 16 == 0);
            assert(s@.len() - i >= 16) by (nonlinear_arith)
                requires
                    s@.len() % 16 == 0,
                    i % 16 == 0,
                    i < s@.len(),
                    i >= 0,
            ;
        }
        let ghost chunk = s@.skip(i as int).take(16);
        let mut acc: u64 = 0;
        let mut j: usize = 0;
        proof {
            lemma_pow16_16();
            assert(acc as nat == parse_digits(chunk.take(0)));
            lemma_pow16_pos(0);
        }
        while j < 16
            invariant
                j <= 16,
                i + 16 <= s@.len(),
                valid_encoding(s@),
                i % 16 == 0,
                chunk == s@.skip(i as int).take(16),
                acc as nat == parse_digits(chunk.take(j as int)),
                (acc as nat) < pow16(j as nat),
                pow16(16) == 0x10000000000000000,
            decreases 16 - j,
        {
            proof {
                lemma_pow16_mono(j as nat, 16);
                assert((acc as nat) * 16 + 15 < pow16((j + 1) as nat)) by (nonlinear_arith)
                    requires
                        (acc as nat) < pow16(j as nat),
                        pow16((j + 1) as nat) == 16 * pow16(j as nat),
                ;
                lemma_pow16_mono((j + 1) as nat, 16);
                assert(chunk[j as int] == s@[i + j]);
                assert(is_hex(s@[i + j]));
            }
            let d = hex_val_exec(s[i + j]);
            let new_acc = acc * 16 + (d as u64);
            proof {
                assert(chunk.take(j + 1).drop_last() =~= chunk.take(j as int));
                assert(chunk.take(j + 1).last() == chunk[j as int]);
            }
            acc = new_acc;
            j = j + 1;
        }
        let rest = decode_from(s, i + 16);
        let mut r: Vec<u64> = Vec::new();
        r.push(acc);
        let mut rest_m = rest;
        r.append(&mut rest_m);
        proof {
            assert(chunk.take(16) =~= chunk);
            assert(acc as nat == parse_digits(chunk));
            assert((acc as nat) % pow16(16) == acc as nat) by (nonlinear_arith)
                requires
                    (acc as nat) < pow16(16),
            ;
            assert(s@.skip(i as int).skip(16) =~= s@.skip(i + 16));
            assert(r@ =~= decode_spec(s@.skip(i as int)));
        }
        r
    }
}

proof fn lemma_pow16_mono(a: nat, b: nat)
    requires
        a <= b,
    ensures
        pow16(a) <= pow16(b),
    decreases b,
{
    if a == b {
    } else {
        lemma_pow16_mono(a, (b - 1) as nat);
        lemma_pow16_pos((b - 1) as nat);
    }
}

/// Parses a stored vector encoding; a malformed encoding (a length that is
/// not a whole number of sixteen-digit groups, or a byte that is not a
/// lowercase hexadecimal digit) is rejected, and a well-formed one yields
/// exactly the vector it denotes.
pub fn decode_vector(s: &Vec<u8>) -> (r: Result<Vec<u64>, Error>)
    ensures
        r is Err <==> !valid_encoding(s@),
        r is Err ==> r == Result::<Vec<u64>, Error>::Err(Error::MalformedEncoding),
        r matches Ok(v) ==> v@ == decode_spec(s@) && v@.len() == s@.len() / 16,
{
    if s.len() % 16 != 0 {
        return Err(Error::MalformedEncoding);
    }
    let mut i: usize = 0;
    while i < s.len()
        invariant
            i <= s@.len(),
            forall|k: int| 0 <= k < i ==> is_hex(#[trigger] s@[k]),
        decreases s@.len() - i,
    {
        if !is_hex_exec(s[i]) {
            return Err(Error::MalformedEncoding);
        }
        i = i + 1;
    }
    let r = decode_from(s, 0);
    proof {
        assert(s@.skip(0) =~= s@);
    }
    Ok(r)
}

} // verus!
