use vstd::prelude::*;

use vstd::arithmetic::div_mod::{lemma_fundamental_div_mod, lemma_small_mod};
use vstd::arithmetic::power2::{
    lemma2_to64, lemma2_to64_rest, lemma_pow2_adds, lemma_pow2_strictly_increases, pow2,
};

use crate::error::CodecError;

verus! {

/// The longest variable-length encoding a 64-bit value ever needs: ten
/// bytes of seven value bits each.
pub const MAX_VARINT_BYTES: usize = 10;

/// Bytes of the minimal variable-length encoding of `n`: seven value bits
/// per byte, least-significant group first, continuation bit (the high bit)
/// set on every byte but the last.
pub open spec fn spec_varint_encode(n: nat) -> Seq<u8>
    decreases n,
{
    if n < 0x80 {
        seq![n as u8]
    } else {
        seq![(0x80 + n % 0x80) as u8] + spec_varint_encode(n / 0x80)
    }
}

/// Value carried by the varint payload `s`: the low seven bits of each
/// byte, least-significant group first.
pub open spec fn spec_varint_value(s: Seq<u8>) -> nat
    decreases s.len(),
{
    if s.len() == 0 {
        0
    } else {
        (s[0] % 0x80) as nat + 0x80 * spec_varint_value(s.drop_first())
    }
}

/// Byte count of the varint at the head of `s`, if a terminating byte
/// (high bit clear) arrives within the first `max` bytes.
pub open spec fn spec_varint_scan(s: Seq<u8>, max: nat) -> Option<nat>
    decreases max,
{
    if max == 0 || s.len() == 0 {
        None
    } else if s[0] < 0x80 {
        Some(1)
    } else {
        match spec_varint_scan(s.drop_first(), (max - 1) as nat) {
            Some(k) => Some((k + 1) as nat),
            None => None,
        }
    }
}

/// Result of decoding a varint from the head of `s`: the value (truncated
/// to 64 bits) and the bytes consumed, or nothing when the varint is
/// unterminated or longer than ten bytes.
pub open spec fn spec_varint_decode(s: Seq<u8>) -> Option<(u64, nat)> {
    match spec_varint_scan(s, MAX_VARINT_BYTES as nat) {
        Some(k) => Some(
            (((spec_varint_value(s.take(k as int)) % 0x10000000000000000) as u64), k),
        ),
        None => None,
    }
}

proof fn lemma_scan_finds(s: Seq<u8>, max: nat, k: int)
    requires
        0 <= k < s.len(),
        k < max,
        s[k] < 0x80,
        forall|j: int| 0 <= j < k ==> s[j] >= 0x80,
    ensures
        spec_varint_scan(s, max) == Some((k + 1) as nat),
    decreases k,
{
    if k > 0 {
        lemma_scan_finds(s.drop_first(), (max - 1) as nat, k - 1);
    }
}

proof fn lemma_scan_none(s: Seq<u8>, max: nat)
    requires
        forall|j: int| 0 <= j < s.len() && j < max ==> s[j] >= 0x80,
    ensures
        spec_varint_scan(s, max) == None::<nat>,
    decreases max,
{
    if max > 0 && s.len() > 0 {
        lemma_scan_none(s.drop_first(), (max - 1) as nat);
    }
}

/// A decoded varint consumes at least one byte, at most ten, and no more
/// than the input holds.
pub proof fn lemma_varint_decode_len(s: Seq<u8>)
    ensures
        spec_varint_decode(s) matches Some(p) ==> 1 <= p.1 <= MAX_VARINT_BYTES && p.1 <= s.len(),
{
    lemma_scan_le(s, MAX_VARINT_BYTES as nat);
}

proof fn lemma_scan_le(s: Seq<u8>, max: nat)
    ensures
        spec_varint_scan(s, max) matches Some(k) ==> 1 <= k <= max && k <= s.len(),
    decreases max,
{
    if max > 0 && s.len() > 0 && s[0] >= 0x80 {
        lemma_scan_le(s.drop_first(), (max - 1) as nat);
    }
}

proof fn lemma_varint_value_bound(s: Seq<u8>)
    ensures
        spec_varint_value(s) < pow2(7 * s.len()),
    decreases s.len(),
{
    if s.len() == 0 {
        lemma2_to64();
    } else {
        lemma_varint_value_bound(s.drop_first());
        lemma_pow2_adds(7, 7 * (s.len() - 1) as nat);
        lemma2_to64();
    }
}

/// The minimal encoding is non-empty, sets the continuation bit on every
/// byte but the last, clears it on the last, and carries exactly `n`.
proof fn lemma_varint_encode_wf(n: nat)
    ensures
        ({
            let s = spec_varint_encode(n);
            &&& 1 <= s.len()
            &&& s[s.len() - 1] < 0x80
            &&& forall|j: int| 0 <= j < s.len() - 1 ==> s[j] >= 0x80
            &&& spec_varint_value(s) == n
        }),
    decreases n,
{
    if n < 0x80 {
        let s = spec_varint_encode(n);
        assert(s == seq![n as u8]);
        assert(s.drop_first().len() == 0);
        assert(spec_varint_value(s.drop_first()) == 0);
        assert(spec_varint_value(s) == (s[0] % 0x80) as nat);
    } else {
        lemma_varint_encode_wf(n / 0x80);
        let s = spec_varint_encode(n);
        let rest = spec_varint_encode(n / 0x80);
        assert(s == seq![(0x80 + n % 0x80) as u8] + rest);
        assert(s.drop_first() =~= rest);
        assert(s[0] == (0x80 + n % 0x80) as u8);
        assert(0 <= n % 0x80 < 0x80);
        assert((s[0] % 0x80) as nat == n % 0x80);
        assert(forall|j: int| 0 <= j < s.len() - 1 ==> s[j] >= 0x80) by {
            assert(forall|j: int| 1 <= j < s.len() ==> s[j] == rest[j - 1]);
        }
        assert(s[s.len() - 1] == rest[rest.len() - 1]);
        lemma_fundamental_div_mod(n as int, 0x80);
        assert(spec_varint_value(s) == (s[0] % 0x80) as nat + 0x80 * spec_varint_value(rest));
    }
}

proof fn lemma_varint_encode_len(n: nat, k: nat)
    requires
        1 <= k,
        n < pow2(7 * k),
    ensures
        spec_varint_encode(n).len() <= k,
    decreases k,
{
    if n >= 0x80 {
        lemma2_to64();
        assert(k != 1);
        lemma_pow2_adds(7, 7 * (k - 1) as nat);
        assert(n / 0x80 < pow2(7 * (k - 1) as nat)) by (nonlinear_arith)
            requires
                n < 0x80 * pow2(7 * (k - 1) as nat),
                pow2(7 * (k - 1) as nat) > 0,
        ;
        lemma_varint_encode_len(n / 0x80, (k - 1) as nat);
    }
}

/// Decoding a buffer that begins with the encoding of `n` yields `n` back
/// and consumes exactly the encoding, whatever follows it.
pub proof fn lemma_varint_decode_of_encode(n: u64, rest: Seq<u8>)
    ensures
        spec_varint_decode(spec_varint_encode(n as nat) + rest) == Some(
            (n, spec_varint_encode(n as nat).len()),
        ),
{
    let s = spec_varint_encode(n as nat);
    let full = s + rest;
    lemma_varint_encode_wf(n as nat);
    lemma2_to64();
    lemma_pow2_strictly_increases(64, 70);
    lemma_varint_encode_len(n as nat, 10);
    assert(forall|j: int| 0 <= j < s.len() ==> full[j] == s[j]);
    lemma_scan_finds(full, 10, s.len() - 1);
    assert(full.take(s.len() as int) =~= s);
    lemma_small_mod(n as nat, 0x10000000000000000);
}

/// Varint round trip: decoding an encoding yields the encoded value back
/// and consumes exactly the encoding's length.
pub proof fn lemma_varint_round_trip(n: u64)
    ensures
        spec_varint_decode(spec_varint_encode(n as nat)) == Some(
            (n, spec_varint_encode(n as nat).len()),
        ),
{
    lemma_varint_decode_of_encode(n, Seq::<u8>::empty());
    assert(spec_varint_encode(n as nat) + Seq::<u8>::empty() =~= spec_varint_encode(n as nat));
}

/// Encodes `i` in the minimal variable-length form: seven value bits per
/// byte, least-significant group first, high bit set on every byte but the
/// last.
pub fn encode_u64(i: u64) -> (r: Vec<u8>)
    ensures
        r@ == spec_varint_encode(i as nat),
{
    let mut result: Vec<u8> = Vec::new();
    let mut m: u64 = i;
    loop
        invariant_except_break
            spec_varint_encode(i as nat) == result@ + spec_varint_encode(m as nat),
        ensures
            result@ == spec_varint_encode(i as nat),
        decreases m,
    {
        if m < 0x80 {
            let ghost pre = result@;
            result.push(m as u8);
            proof {
                assert(spec_varint_encode(m as nat) == seq![m as u8]);
                assert(result@ =~= pre + spec_varint_encode(m as nat));
            }
            break ;
        }
        let ghost pre = result@;
        let ghost m0 = m as nat;
        result.push((0x80 + (m % 0x80)) as u8);
        m = m / 0x80;
        proof {
            assert(spec_varint_encode(m0) == seq![(0x80 + m0 % 0x80) as u8] + spec_varint_encode(
                m as nat,
            ));
            assert(result@ + spec_varint_encode(m as nat) =~= pre + spec_varint_encode(m0));
        }
    }
    result
}

/// Decodes a varint from the head of `code`, returning the value and the
/// bytes consumed; reports `MalformedVarint` when the input ends before a
/// terminating byte or the varint spans more than ten bytes.
pub fn decode_u64(code: &[u8]) -> (r: Result<(u64, usize), CodecError>)
    ensures
        match spec_varint_decode(code@) {
            Some((n, len)) => r == Ok::<(u64, usize), CodecError>((n, len as usize)),
            None => r == Err::<(u64, usize), CodecError>(CodecError::MalformedVarint),
        },
        r matches Ok(p) ==> 1 <= p.1 <= MAX_VARINT_BYTES && p.1 <= code@.len(),
{
    let n_bytes = code.len();
    let mut k: usize = 0;
    loop
        invariant_except_break
            k <= 10,
            k <= n_bytes,
        invariant
            n_bytes == code@.len(),
            forall|j: int| 0 <= j < k ==> code@[j] >= 0x80,
        ensures
            k < n_bytes,
            k < 10,
            code@[k as int] < 0x80,
        decreases 10 - k,
    {
        if k >= n_bytes || k >= 10 {
            proof {
                lemma_scan_none(code@, 10);
            }
            return Err(CodecError::MalformedVarint);
        }
        if code[k] < 0x80 {
            break ;
        }
        k = k + 1;
    }
    proof {
        lemma_scan_finds(code@, 10, k as int);
    }
    let mut value: u128 = 0;
    let mut j: usize = k + 1;
    while 0 < j
        invariant
            j <= k + 1,
            k < code@.len(),
            k < 10,
            value as nat == spec_varint_value(code@.subrange(j as int, k as int + 1)),
        decreases j,
    {
        j = j - 1;
        let b = code[j];
        proof {
            let tail = code@.subrange(j as int + 1, k as int + 1);
            lemma_varint_value_bound(tail);
            assert(tail.len() == k - j);
            if 7 * (k - j) < 63 {
                lemma_pow2_strictly_increases((7 * (k - j)) as nat, 63);
            }
            lemma2_to64();
            lemma2_to64_rest();
            assert(value < pow2(63));
            assert(value < 0x8000000000000000);
            assert(code@.subrange(j as int, k as int + 1).drop_first() =~= tail);
            assert(b & 0x7f == b % 0x80) by (bit_vector);
        }
        value = (b & 0x7f) as u128 + 0x80 * value;
        proof {
            let cur = code@.subrange(j as int, k as int + 1);
            assert(cur[0] == b);
            assert(spec_varint_value(cur) == (b % 0x80) as nat + 0x80 * spec_varint_value(
                cur.drop_first(),
            ));
        }
    }
    proof {
        assert(code@.subrange(0, k as int + 1) =~= code@.take(k as int + 1));
        assert(spec_varint_scan(code@, MAX_VARINT_BYTES as nat) == Some((k + 1) as nat));
    }
    let out: u64 = (value % 0x10000000000000000u128) as u64;
    proof {
        assert(out as nat == (value as nat) % 0x10000000000000000);
        assert(spec_varint_decode(code@) == Some((out, (k + 1) as nat)));
    }
    Ok((out, k + 1))
}

} // verus!
