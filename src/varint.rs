use vstd::prelude::*;

verus! {

/// The longest variable-length integer, in bytes, that the library reads.
pub const MAX_VARINT_BYTES: usize = 9;

pub open spec fn pow128(n: nat) -> nat
    decreases n,
{
    if n == 0 {
        1
    } else {
        128 * pow128((n - 1) as nat)
    }
}

pub open spec fn pow256(n: nat) -> nat
    decreases n,
{
    if n == 0 {
        1
    } else {
        256 * pow256((n - 1) as nat)
    }
}

pub proof fn lemma_pow128_mono(a: nat, b: nat)
    requires
        a <= b,
    ensures
        1 <= pow128(a) <= pow128(b),
    decreases b,
{
    if b > 0 && a < b {
        lemma_pow128_mono(a, (b - 1) as nat);
    } else if b > 0 {
        lemma_pow128_mono(0, (b - 1) as nat);
    }
}

pub proof fn lemma_pow256_mono(a: nat, b: nat)
    requires
        a <= b,
    ensures
        1 <= pow256(a) <= pow256(b),
    decreases b,
{
    if b > 0 && a < b {
        lemma_pow256_mono(a, (b - 1) as nat);
    } else if b > 0 {
        lemma_pow256_mono(0, (b - 1) as nat);
    }
}

pub proof fn lemma_pow_values()
    ensures
        pow128(8) == 0x100_0000_0000_0000,
        pow256(7) == 0x100_0000_0000_0000,
        pow256(8) == 0x1_0000_0000_0000_0000,
{
    reveal_with_fuel(pow128, 9);
    reveal_with_fuel(pow256, 9);
}

/// Little-endian base-128 digits: byte `j` contributes its low seven bits
/// times `128^j`; the high bit is the continuation flag.
pub open spec fn le_base128(s: Seq<u8>) -> nat
    decreases s.len(),
{
    if s.len() == 0 {
        0
    } else {
        le_base128(s.drop_last()) + (s.last() % 128) as nat * pow128((s.len() - 1) as nat)
    }
}

/// The first `n` bytes of `s` all carry the continuation flag.
pub open spec fn continues(s: Seq<u8>, n: int) -> bool {
    forall|j: int| 0 <= j < n ==> s[j] >= 128
}

/// A varint occupies exactly the first `n` bytes of `s`.
pub open spec fn varint_ends_at(s: Seq<u8>, n: int) -> bool {
    1 <= n <= s.len() && continues(s, n - 1) && s[n - 1] < 128
}

/// Big-endian base-128 digits where every continuation adds one before the
/// shift: `v = ((v + 1) << 7) | low7(next)`.
pub open spec fn offset_value(s: Seq<u8>) -> nat
    decreases s.len(),
{
    if s.len() <= 1 {
        if s.len() == 1 {
            (s[0] % 128) as nat
        } else {
            0
        }
    } else {
        (offset_value(s.drop_last()) + 1) * 128 + (s.last() % 128) as nat
    }
}

/// Number of set bits among the low `bits` bits of `m`.
pub open spec fn mask_count(m: nat, bits: nat) -> nat
    decreases bits,
{
    if bits == 0 {
        0
    } else {
        m % 2 + mask_count(m / 2, (bits - 1) as nat)
    }
}

/// The integer whose byte `k` is taken, in order, from `s` for each set bit
/// `k` among the low `bits` bits of `m`, and is zero for each clear bit.
pub open spec fn masked_value(s: Seq<u8>, m: nat, bits: nat) -> nat
    decreases bits,
{
    if bits == 0 {
        0
    } else if m % 2 == 1 {
        s[0] as nat + 256 * masked_value(s.drop_first(), m / 2, (bits - 1) as nat)
    } else {
        256 * masked_value(s, m / 2, (bits - 1) as nat)
    }
}

} // verus!

verus! {

/// A size varint at the front of `s`, no longer than the library accepts:
/// its value and its length in bytes.
pub open spec fn parse_varint(s: Seq<u8>) -> Option<(nat, nat)> {
    if exists|n: int| 1 <= n <= MAX_VARINT_BYTES && varint_ends_at(s, n) {
        let n = choose|n: int| 1 <= n <= MAX_VARINT_BYTES && varint_ends_at(s, n);
        Some((le_base128(s.take(n)), n as nat))
    } else {
        None
    }
}

pub proof fn lemma_varint_end_unique(s: Seq<u8>, a: int, b: int)
    requires
        varint_ends_at(s, a),
        varint_ends_at(s, b),
    ensures
        a == b,
{
    if a < b {
        assert(s[a - 1] >= 128);
    } else if b < a {
        assert(s[b - 1] >= 128);
    }
}

} // verus!

verus! {

/// An offset varint at the front of `s`, no longer than the library
/// accepts: its value and its length in bytes.
pub open spec fn parse_offset_varint(s: Seq<u8>) -> Option<(nat, nat)> {
    if exists|n: int| 1 <= n <= MAX_VARINT_BYTES && varint_ends_at(s, n) {
        let n = choose|n: int| 1 <= n <= MAX_VARINT_BYTES && varint_ends_at(s, n);
        Some((offset_value(s.take(n)), n as nat))
    } else {
        None
    }
}

/// An offset varint of `n` bytes is below `2 * 128^n`.
pub proof fn lemma_offset_value_bound(s: Seq<u8>)
    requires
        s.len() >= 1,
    ensures
        offset_value(s) + 3 <= 2 * pow128(s.len()),
    decreases s.len(),
{
    if s.len() > 1 {
        lemma_offset_value_bound(s.drop_last());
    } else {
        assert(pow128(1) == 128 * pow128(0));
    }
}

} // verus!

verus! {

/// Whether every byte of `s` from index `from` on carries the continuation
/// flag.
pub fn continues_from(s: &[u8], from: usize) -> (r: bool)
    requires
        from <= s@.len(),
        continues(s@, from as int),
    ensures
        r == continues(s@, s@.len() as int),
{
    let mut j = from;
    while j < s.len()
        invariant
            from <= j <= s@.len(),
            continues(s@, j as int),
        decreases s@.len() - j,
    {
        if s[j] < 128 {
            return false;
        }
        j += 1;
    }
    true
}

} // verus!
