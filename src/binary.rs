//! Binary-digit strings: the IEEE-754 layout of a double written out as
//! `'0'`/`'1'` characters, and random bytes written the same way.
use vstd::arithmetic::div_mod::lemma_div_denominator;
use vstd::arithmetic::power2::{
    lemma2_to64, lemma_pow2_pos, lemma_pow2_strictly_increases, lemma_pow2_unfold, pow2,
};
use vstd::bits::lemma_u64_shr_is_div;
use vstd::prelude::*;

use crate::error::{Error, ErrorKind};

verus! {

/// The character that writes one binary digit.
pub open spec fn bit_char(b: bool) -> char {
    if b {
        '1'
    } else {
        '0'
    }
}

/// The low `width` binary digits of `v`, most significant first.
pub open spec fn binary_digits(v: nat, width: nat) -> Seq<char>
    decreases width,
{
    if width == 0 {
        seq![]
    } else {
        binary_digits(v / 2, (width - 1) as nat).push(bit_char(v % 2 == 1))
    }
}

/// Whether every character of `s` is a binary digit.
pub open spec fn is_binary(s: Seq<char>) -> bool {
    forall|i: int| 0 <= i < s.len() ==> #[trigger] s[i] == '0' || s[i] == '1'
}

/// The number that the binary digits `s` write, most significant first.
pub open spec fn binary_value(s: Seq<char>) -> nat
    decreases s.len(),
{
    if s.len() == 0 {
        0
    } else {
        2 * binary_value(s.drop_last()) + (if s.last() == '1' {
            1nat
        } else {
            0nat
        })
    }
}

/// Eight binary digits per byte, in order.
pub open spec fn bytes_binary(bytes: Seq<u8>) -> Seq<char>
    decreases bytes.len(),
{
    if bytes.len() == 0 {
        seq![]
    } else {
        bytes_binary(bytes.drop_last()) + binary_digits(bytes.last() as nat, 8)
    }
}

proof fn lemma_digits_index(v: nat, width: nat, i: nat)
    requires
        i < width,
    ensures
        binary_digits(v, width).len() == width,
        binary_digits(v, width)[i as int] == bit_char((v / pow2((width - 1 - i) as nat)) % 2 == 1),
    decreases width,
{
    lemma_digits_len(v, width);
    if i == width - 1 {
        lemma2_to64();
        lemma_digits_len(v / 2, (width - 1) as nat);
        assert((width - 1 - i) as nat == 0);
        assert(v / 1 == v);
    } else {
        lemma_digits_index(v / 2, (width - 1) as nat, i);
        let p = (width - 2 - i) as nat;
        lemma_pow2_unfold((p + 1) as nat);
        lemma_pow2_pos(p);
        lemma_div_denominator(v as int, 2, pow2(p) as int);
        assert(binary_digits(v, width)[i as int] == binary_digits(v / 2, (width - 1) as nat)[i as int]);
        assert((width - 1 - i) as nat == p + 1);
        assert(v / pow2((width - 1 - i) as nat) == (v / 2) / pow2(p));
    }
}

proof fn lemma_digits_len(v: nat, width: nat)
    ensures
        binary_digits(v, width).len() == width,
    decreases width,
{
    if width > 0 {
        lemma_digits_len(v / 2, (width - 1) as nat);
    }
}

/// The digits of a number below `2^width` are binary and read back as the number.
pub proof fn lemma_digits_value(v: nat, width: nat)
    requires
        v < pow2(width),
    ensures
        is_binary(binary_digits(v, width)),
        binary_value(binary_digits(v, width)) == v,
    decreases width,
{
    if width == 0 {
        lemma2_to64();
    } else {
        lemma_pow2_unfold(width);
        lemma_digits_value(v / 2, (width - 1) as nat);
        let d = binary_digits(v, width);
        assert(d.drop_last() =~= binary_digits(v / 2, (width - 1) as nat));
    }
}

proof fn lemma_value_bound(s: Seq<char>)
    ensures
        binary_value(s) < pow2(s.len() as nat),
    decreases s.len(),
{
    if s.len() == 0 {
        lemma2_to64();
    } else {
        lemma_value_bound(s.drop_last());
        lemma_pow2_unfold(s.len() as nat);
    }
}

/// Writes the low `width` binary digits of `v`, most significant first.
pub fn to_binary_string(v: u64, width: usize) -> (r: String)
    requires
        width <= 64,
    ensures
        r@ == binary_digits(v as nat, width as nat),
{
    let mut r = String::new();
    let mut i: usize = 0;
    proof {
        reveal_strlit("0");
        reveal_strlit("1");
        lemma_digits_len(v as nat, width as nat);
    }
    while i < width
        invariant
            i <= width <= 64,
            r@ == binary_digits(v as nat, width as nat).subrange(0, i as int),
            binary_digits(v as nat, width as nat).len() == width,
        decreases width - i,
    {
        let shift: u64 = (width - 1 - i) as u64;
        let bit = (v >> shift) & 1u64 == 1u64;
        proof {
            reveal_strlit("0");
            reveal_strlit("1");
            lemma_u64_shr_is_div(v, shift);
            lemma_digits_index(v as nat, width as nat, i as nat);
            let q = v >> shift;
            assert(q & 1u64 == q % 2) by (bit_vector);
        }
        if bit {
            r.append("1");
        } else {
            r.append("0");
        }
        i = i + 1;
        assert(r@ =~= binary_digits(v as nat, width as nat).subrange(0, i as int));
    }
    assert(r@ =~= binary_digits(v as nat, width as nat));
    r
}

/// Writes the 64-bit IEEE-754 layout of a double: the sign bit, the 11
/// exponent bits, then the 52 mantissa bits.
pub fn f64_to_binary(bits: u64) -> (r: String)
    ensures
        r@ == binary_digits(bits as nat, 64),
        r@.len() == 64,
{
    proof {
        lemma_digits_len(bits as nat, 64);
    }
    to_binary_string(bits, 64)
}

/// Reads a 64-character string of binary digits back as the bits of a double.
///
/// Any other string gives `InvalidParameter`.
pub fn binary_to_f64(binary_string: &str) -> (r: Result<u64, Error>)
    ensures
        r is Ok <==> binary_string@.len() == 64 && is_binary(binary_string@),
        r is Ok ==> r->Ok_0 as nat == binary_value(binary_string@),
        r is Err ==> r->Err_0.kind == ErrorKind::InvalidParameter,
{
    let n = binary_string.unicode_len();
    if n != 64 {
        return Err(Error::new(ErrorKind::InvalidParameter, "binary string must have 64 digits"));
    }
    let mut acc: u64 = 0;
    let mut i: usize = 0;
    proof {
        lemma2_to64();
        lemma_pow2_unfold(64);
        assert(binary_string@.subrange(0, 0) =~= Seq::<char>::empty());
    }
    while i < 64
        invariant
            i <= 64,
            binary_string@.len() == 64,
            acc as nat == binary_value(binary_string@.subrange(0, i as int)),
            is_binary(binary_string@.subrange(0, i as int)),
            pow2(63) == 0x8000_0000_0000_0000,
        decreases 64 - i,
    {
        let c = binary_string.get_char(i);
        proof {
            lemma_value_bound(binary_string@.subrange(0, i as int));
            if i < 63 {
                lemma_pow2_strictly_increases(i as nat, 63);
            }
            assert(binary_string@.subrange(0, i + 1).drop_last() =~= binary_string@.subrange(
                0,
                i as int,
            ));
        }
        if c == '0' {
            acc = acc * 2;
        } else if c == '1' {
            acc = acc * 2 + 1;
        } else {
            assert(!is_binary(binary_string@)) by {
                assert(binary_string@[i as int] == c);
            }
            return Err(Error::new(ErrorKind::InvalidParameter, "binary string holds a non-binary digit"));
        }
        i = i + 1;
    }
    assert(binary_string@.subrange(0, 64) =~= binary_string@);
    Ok(acc)
}

/// Writing a double's bits out and reading them back gives the same bits.
pub proof fn lemma_binary_round_trip(bits: u64)
    ensures
        binary_digits(bits as nat, 64).len() == 64,
        is_binary(binary_digits(bits as nat, 64)),
        binary_value(binary_digits(bits as nat, 64)) == bits,
{
    lemma2_to64();
    lemma_pow2_unfold(64);
    lemma_digits_len(bits as nat, 64);
    lemma_digits_value(bits as nat, 64);
}

/// Splits a binary layout into its sign (1 digit), exponent (11 digits) and
/// mantissa (the rest).
pub fn split_ieee_into_components(binary_string: String) -> (r: (String, String, String))
    requires
        binary_string@.len() >= 12,
    ensures
        r.0@ == binary_string@.subrange(0, 1),
        r.1@ == binary_string@.subrange(1, 12),
        r.2@ == binary_string@.subrange(12, binary_string@.len() as int),
{
    let s = binary_string.as_str();
    let n = s.unicode_len();
    (
        s.substring_char(0, 1).to_owned(),
        s.substring_char(1, 12).to_owned(),
        s.substring_char(12, n).to_owned(),
    )
}

/// Joins a sign, an exponent and a mantissa written in binary into one layout.
pub fn combine_components_into_ieee(components: (String, String, String)) -> (r: String)
    ensures
        r@ == components.0@ + components.1@ + components.2@,
{
    let (sign, exponent, mantissa) = components;
    sign.concat(exponent.as_str()).concat(mantissa.as_str())
}

/// Splitting a layout and joining the parts gives the layout back.
pub proof fn lemma_split_combine(s: Seq<char>)
    requires
        s.len() >= 12,
    ensures
        s.subrange(0, 1) + s.subrange(1, 12) + s.subrange(12, s.len() as int) == s,
{
    assert(s.subrange(0, 1) + s.subrange(1, 12) + s.subrange(12, s.len() as int) =~= s);
}

/// Writes each byte as eight binary digits, most significant first, in order.
pub fn bytes_to_binary(bytes: &Vec<u8>) -> (r: String)
    ensures
        r@ == bytes_binary(bytes@),
{
    let mut r = String::new();
    let mut i: usize = 0;
    assert(bytes@.subrange(0, 0) =~= Seq::<u8>::empty());
    while i < bytes.len()
        invariant
            i <= bytes@.len(),
            r@ == bytes_binary(bytes@.subrange(0, i as int)),
        decreases bytes@.len() - i,
    {
        let digits = to_binary_string(bytes[i] as u64, 8);
        r.append(digits.as_str());
        proof {
            assert(bytes@.subrange(0, i + 1).drop_last() =~= bytes@.subrange(0, i as int));
        }
        i = i + 1;
    }
    assert(bytes@.subrange(0, bytes@.len() as int) =~= bytes@);
    r
}

} // verus!
