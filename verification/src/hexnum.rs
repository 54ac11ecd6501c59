//! Hexadecimal numerals as byte strings: parsing header tokens (index offset,
//! key fragments) and emitting the fixed-width fields of a rebuilt header.
use vstd::prelude::*;

verus! {

/// Whether a byte is an ASCII hexadecimal digit (either case).
pub open spec fn spec_is_hex_digit(b: u8) -> bool {
    (48 <= b <= 57) || (97 <= b <= 102) || (65 <= b <= 70)
}

/// Numeric value of an ASCII hexadecimal digit.
pub open spec fn spec_hex_digit_val(b: u8) -> u8
    recommends
        spec_is_hex_digit(b),
{
    if 48 <= b <= 57 {
        (b - 48) as u8
    } else if 97 <= b <= 102 {
        (b - 87) as u8
    } else {
        (b - 55) as u8
    }
}

/// A well-formed hexadecimal numeral: non-empty and made of digits only.
pub open spec fn spec_is_hex_numeral(s: Seq<u8>) -> bool {
    s.len() > 0 && forall|i: int| 0 <= i < s.len() ==> spec_is_hex_digit(#[trigger] s[i])
}

/// The unbounded value of a big-endian hexadecimal numeral.
pub open spec fn spec_hex_value(s: Seq<u8>) -> nat
    decreases s.len(),
{
    if s.len() == 0 {
        0
    } else {
        spec_hex_value(s.drop_last()) * 16 + spec_hex_digit_val(s.last()) as nat
    }
}

/// The ASCII character (lowercase) for a single hexadecimal digit value.
pub open spec fn spec_hex_digit_char(d: u8) -> u8
    recommends
        d < 16,
{
    if d < 10 {
        (48 + d) as u8
    } else {
        (87 + d) as u8
    }
}

/// `n` hexadecimal digits (lowercase, big-endian, zero-padded) encoding
/// `v % 16^n`.
pub open spec fn spec_hex_bytes(v: nat, n: nat) -> Seq<u8>
    decreases n,
{
    if n == 0 {
        Seq::<u8>::empty()
    } else {
        spec_hex_bytes(v / 16, (n - 1) as nat).push(spec_hex_digit_char((v % 16) as u8))
    }
}

/// 16 to the power `n`.
pub open spec fn spec_pow16(n: nat) -> nat
    decreases n,
{
    if n == 0 {
        1
    } else {
        16 * spec_pow16((n - 1) as nat)
    }
}

fn is_hex_digit(b: u8) -> (r: bool)
    ensures
        r == spec_is_hex_digit(b),
{
    (48 <= b && b <= 57) || (97 <= b && b <= 102) || (65 <= b && b <= 70)
}

fn hex_digit_val(b: u8) -> (r: u8)
    requires
        spec_is_hex_digit(b),
    ensures
        r == spec_hex_digit_val(b),
        r < 16,
{
    if 48 <= b && b <= 57 {
        b - 48
    } else if 97 <= b && b <= 102 {
        b - 87
    } else {
        b - 55
    }
}

/// The value of a numeral grows (weakly) as digits are appended.
proof fn lemma_hex_value_prefix_le(s: Seq<u8>, i: int)
    requires
        0 <= i <= s.len(),
    ensures
        spec_hex_value(s.subrange(0, i)) <= spec_hex_value(s),
    decreases s.len() - i,
{
    if i < s.len() {
        let t = s.subrange(0, i + 1);
        assert(t.drop_last() =~= s.subrange(0, i));
        let p = spec_hex_value(s.subrange(0, i));
        assert(spec_hex_value(t) == p * 16 + spec_hex_digit_val(s[i]));
        assert(p <= p * 16) by (nonlinear_arith);
        lemma_hex_value_prefix_le(s, i + 1);
    } else {
        assert(s.subrange(0, i) =~= s);
    }
}

/// Parse a hexadecimal numeral into a 64-bit value. Returns `None` exactly
/// when the token is empty, holds a non-digit, or encodes a value that does
/// not fit in 64 bits.
pub fn parse_hex_u64(s: &[u8]) -> (r: Option<u64>)
    ensures
        match r {
            Some(v) => spec_is_hex_numeral(s@) && spec_hex_value(s@) == v,
            None => !spec_is_hex_numeral(s@) || spec_hex_value(s@) > u64::MAX,
        },
{
    if s.len() == 0 {
        return None;
    }
    let mut value: u64 = 0;
    let mut i: usize = 0;
    while i < s.len()
        invariant
            0 <= i <= s@.len(),
            forall|j: int| 0 <= j < i ==> spec_is_hex_digit(#[trigger] s@[j]),
            value == spec_hex_value(s@.subrange(0, i as int)),
        decreases s@.len() - i,
    {
        let b = s[i];
        if !is_hex_digit(b) {
            return None;
        }
        let d = hex_digit_val(b);
        if value > (u64::MAX - d as u64) / 16 {
            proof {
                let p = spec_hex_value(s@.subrange(0, i as int));
                let t = s@.subrange(0, i + 1);
                assert(t.drop_last() =~= s@.subrange(0, i as int));
                assert(p > (u64::MAX - d) / 16 ==> p * 16 + d > u64::MAX) by (nonlinear_arith);
                lemma_hex_value_prefix_le(s@, i + 1);
            }
            return None;
        }
        proof {
            let p = spec_hex_value(s@.subrange(0, i as int));
            assert(p <= (u64::MAX - d) / 16 ==> p * 16 + d <= u64::MAX) by (nonlinear_arith);
            let t = s@.subrange(0, i + 1);
            assert(t.drop_last() =~= s@.subrange(0, i as int));
        }
        value = value * 16 + d as u64;
        i = i + 1;
    }
    proof {
        assert(s@.subrange(0, i as int) =~= s@);
    }
    Some(value)
}

/// Parse a hexadecimal numeral into a 32-bit value, as a key fragment is
/// read. Returns `None` exactly when the token is malformed or the value
/// does not fit in 32 bits.
pub fn parse_hex_u32(s: &[u8]) -> (r: Option<u32>)
    ensures
        match r {
            Some(v) => spec_is_hex_numeral(s@) && spec_hex_value(s@) == v,
            None => !spec_is_hex_numeral(s@) || spec_hex_value(s@) > u32::MAX,
        },
{
    match parse_hex_u64(s) {
        Some(v) => {
            if v <= 0xffff_ffff {
                Some(v as u32)
            } else {
                None
            }
        },
        None => None,
    }
}

/// Peeling the most significant digit off a fixed-width encoding.
proof fn lemma_hex_bytes_unfold_front(v: nat, n: nat)
    requires
        n > 0,
    ensures
        spec_hex_bytes(v, n) == seq![
            spec_hex_digit_char(((v / spec_pow16((n - 1) as nat)) % 16) as u8),
        ] + spec_hex_bytes(v, (n - 1) as nat),
    decreases n,
{
    if n == 1 {
        assert(spec_pow16(0) == 1);
        assert(v / 1 == v);
        assert(spec_hex_bytes(v / 16, 0) =~= Seq::<u8>::empty());
        assert(spec_hex_bytes(v, 0) =~= Seq::<u8>::empty());
        assert(spec_hex_bytes(v, 1) =~= seq![spec_hex_digit_char((v % 16) as u8)] + spec_hex_bytes(
            v,
            0,
        ));
    } else {
        lemma_hex_bytes_unfold_front(v / 16, (n - 1) as nat);
        assert((v / 16) / spec_pow16((n - 2) as nat) == v / spec_pow16((n - 1) as nat)) by {
            lemma_pow16_pos((n - 2) as nat);
            vstd::arithmetic::div_mod::lemma_div_denominator(
                v as int,
                16,
                spec_pow16((n - 2) as nat) as int,
            );
        }
        assert(spec_hex_bytes(v, n) =~= seq![
            spec_hex_digit_char(((v / spec_pow16((n - 1) as nat)) % 16) as u8),
        ] + spec_hex_bytes(v, (n - 1) as nat));
    }
}

proof fn lemma_pow16_pos(n: nat)
    ensures
        spec_pow16(n) >= 1,
    decreases n,
{
    if n > 0 {
        lemma_pow16_pos((n - 1) as nat);
    }
}

/// Emit `v` as exactly `n` lowercase hexadecimal digits, big-endian,
/// zero-padded; the digits encode `v % 16^n`.
pub fn format_hex(v: u64, n: usize) -> (r: Vec<u8>)
    ensures
        r@ == spec_hex_bytes(v as nat, n as nat),
        r@.len() == n,
{
    let mut out: Vec<u8> = Vec::new();
    let mut cur: u64 = v;
    let mut k: usize = 0;
    proof {
        assert(spec_hex_bytes(v as nat, 0) =~= Seq::<u8>::empty());
        assert(spec_pow16(0) == 1);
    }
    while k < n
        invariant
            0 <= k <= n,
            out@ == spec_hex_bytes(v as nat, k as nat),
            out@.len() == k,
            cur as nat == (v as nat) / spec_pow16(k as nat),
        decreases n - k,
    {
        let d = (cur % 16) as u8;
        let c = if d < 10 {
            48 + d
        } else {
            87 + d
        };
        proof {
            lemma_hex_bytes_unfold_front(v as nat, (k + 1) as nat);
            assert((v as nat) / spec_pow16(k as nat) / 16 == (v as nat) / spec_pow16(
                (k + 1) as nat,
            )) by {
                lemma_pow16_pos(k as nat);
                vstd::arithmetic::div_mod::lemma_div_denominator(
                    v as int,
                    spec_pow16(k as nat) as int,
                    16,
                );
            }
        }
        out.insert(0, c);
        proof {
            assert(out@ =~= seq![c] + spec_hex_bytes(v as nat, k as nat));
        }
        cur = cur / 16;
        k = k + 1;
    }
    out
}

/// The emitted digits of any value form a well-formed lowercase numeral.
pub proof fn lemma_hex_bytes_wf(v: nat, n: nat)
    ensures
        n > 0 ==> spec_is_hex_numeral(spec_hex_bytes(v, n)),
        spec_hex_bytes(v, n).len() == n,
    decreases n,
{
    if n > 0 {
        lemma_hex_bytes_wf(v / 16, (n - 1) as nat);
        let s = spec_hex_bytes(v, n);
        assert forall|i: int| 0 <= i < s.len() implies spec_is_hex_digit(#[trigger] s[i]) by {
            if i < n - 1 {
                assert(s[i] == spec_hex_bytes(v / 16, (n - 1) as nat)[i]);
            }
        }
    }
}

/// Parsing the fixed-width encoding of a value recovers the value, as long
/// as it fits in the width: formatting and parsing round-trip.
pub proof fn lemma_hex_roundtrip(v: nat, n: nat)
    requires
        v < spec_pow16(n),
    ensures
        spec_hex_value(spec_hex_bytes(v, n)) == v,
{
    lemma_hex_value_of_bytes(v, n);
    vstd::arithmetic::div_mod::lemma_small_mod(v, spec_pow16(n));
}

/// The digits of `spec_hex_bytes(v, n)` encode `v % 16^n`.
proof fn lemma_hex_value_of_bytes(v: nat, n: nat)
    ensures
        spec_hex_value(spec_hex_bytes(v, n)) == v % spec_pow16(n),
    decreases n,
{
    if n == 0 {
        assert(spec_pow16(0) == 1);
        assert(v % 1 == 0) by (nonlinear_arith);
    } else {
        lemma_hex_value_of_bytes(v / 16, (n - 1) as nat);
        let s = spec_hex_bytes(v, n);
        let d = (v % 16) as u8;
        assert(s.drop_last() =~= spec_hex_bytes(v / 16, (n - 1) as nat));
        assert(spec_hex_digit_val(spec_hex_digit_char(d)) == d);
        assert(spec_hex_value(s) == ((v / 16) % spec_pow16((n - 1) as nat)) * 16 + v % 16);
        assert(((v / 16) % spec_pow16((n - 1) as nat)) * 16 + v % 16 == v % (16 * spec_pow16(
            (n - 1) as nat,
        ))) by {
            lemma_pow16_pos((n - 1) as nat);
            vstd::arithmetic::div_mod::lemma_mod_breakdown(
                v as int,
                16,
                spec_pow16((n - 1) as nat) as int,
            );
        }
    }
}

} // verus!
