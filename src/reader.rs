use vstd::prelude::*;
use vstd::slice::slice_subrange;

use crate::error::GitError;
use crate::varint::{
    continues, continues_from, le_base128, lemma_pow128_mono, lemma_pow256_mono, lemma_pow_values,
    lemma_varint_end_unique, mask_count, masked_value, parse_varint, pow128, pow256,
    varint_ends_at, MAX_VARINT_BYTES,
};

verus! {

/// A read cursor over a borrowed byte buffer; reads only move it forward.
#[derive(Clone, Copy)]
pub struct Reader<'a> {
    stream: &'a [u8],
}

impl<'a> View for Reader<'a> {
    type V = Seq<u8>;

    /// The bytes that are still to be read.
    closed spec fn view(&self) -> Seq<u8> {
        self.stream@
    }
}

impl<'a> Reader<'a> {
    pub fn new(stream: &'a [u8]) -> (r: Self)
        ensures
            r@ == stream@,
    {
        Reader { stream }
    }

    /// Takes one byte.
    pub fn pop(&mut self) -> (r: Result<u8, GitError>)
        ensures
            old(self)@.len() > 0 ==> r == Ok::<u8, GitError>(old(self)@[0]) && final(self)@
                == old(self)@.drop_first(),
            old(self)@.len() == 0 ==> r == Err::<u8, GitError>(GitError::Exhausted) && final(self)@ == old(self)@,
    {
        if self.stream.len() == 0 {
            return Err(GitError::Exhausted);
        }
        let out = self.stream[0];
        self.stream = slice_subrange(self.stream, 1, self.stream.len());
        Ok(out)
    }

    /// Takes exactly `n` bytes.
    pub fn popn(&mut self, n: usize) -> (r: Result<&'a [u8], GitError>)
        ensures
            n <= old(self)@.len() ==> r is Ok && r->Ok_0@ == old(self)@.take(n as int) && final(self)@ == old(self)@.skip(n as int),
            n > old(self)@.len() ==> r is Err && r->Err_0 == GitError::Exhausted && final(self)@
                == old(self)@,
    {
        if n > self.stream.len() {
            return Err(GitError::Exhausted);
        }
        let out = slice_subrange(self.stream, 0, n);
        self.stream = slice_subrange(self.stream, n, self.stream.len());
        Ok(out)
    }

    /// Takes everything that is left.
    pub fn pop_all(&mut self) -> (r: &'a [u8])
        ensures
            r@ == old(self)@,
            final(self)@.len() == 0,
    {
        let out = self.stream;
        self.stream = slice_subrange(self.stream, self.stream.len(), self.stream.len());
        out
    }

    /// Takes the longest prefix whose bytes all satisfy `pred`.
    pub fn pop_while<F: Fn(u8) -> bool>(&mut self, pred: F) -> (r: &'a [u8])
        requires
            forall|b: u8| pred.requires((b,)),
        ensures
            r@ + final(self)@ == old(self)@,
            forall|i: int| 0 <= i < r@.len() ==> pred.ensures((r@[i],), true),
            final(self)@.len() > 0 ==> pred.ensures((final(self)@[0],), false),
    {
        let mut len: usize = 0;
        let mut stopped = false;
        while !stopped && len < self.stream.len()
            invariant
                len <= self.stream@.len(),
                forall|b: u8| pred.requires((b,)),
                forall|i: int| 0 <= i < len ==> pred.ensures((self.stream@[i],), true),
                stopped ==> len < self.stream@.len() && pred.ensures((self.stream@[len as int],), false),
            decreases self.stream@.len() - len + if stopped { 0int } else { 1int },
        {
            if pred(self.stream[len]) {
                len += 1;
            } else {
                stopped = true;
            }
        }
        let out = slice_subrange(self.stream, 0, len);
        self.stream = slice_subrange(self.stream, len, self.stream.len());
        assert(out@ + self.stream@ =~= old(self).stream@);
        out
    }

    /// Reads a little-endian base-128 varint: the size fields of a delta.
    pub fn pop_varint(&mut self) -> (r: Result<u64, GitError>)
        ensures
            match parse_varint(old(self)@) {
                Some((v, n)) => r == Ok::<u64, GitError>(v as u64) && final(self)@ == old(
                    self,
                )@.skip(n as int) && v < 0x8000_0000_0000_0000,
                None => r is Err && final(self)@ == old(self)@ && (r->Err_0 == GitError::Exhausted
                    || r->Err_0 == GitError::VarintOverflow) && (r->Err_0 == GitError::Exhausted
                    <==> continues(old(self)@, old(self)@.len() as int)),
            },
    {
        let ghost s = self.stream@;
        let mut i: usize = 0;
        let mut value: u64 = 0;
        let mut mult: u64 = 1;
        proof {
            lemma_pow_values();
        }
        loop
            invariant
                s == self.stream@,
                self.stream@ == old(self)@,
                i <= MAX_VARINT_BYTES,
                i <= s.len(),
                continues(s, i as int),
                value as nat == le_base128(s.take(i as int)),
                mult as nat == pow128(i as nat),
                value < mult,
                pow128(8) == 0x100_0000_0000_0000,
            decreases MAX_VARINT_BYTES - i,
        {
            if i == MAX_VARINT_BYTES {
                proof {
                    assert forall|n: int| 1 <= n <= MAX_VARINT_BYTES implies !varint_ends_at(s, n) by {
                        assert(s[n - 1] >= 128);
                    }
                }
                if continues_from(self.stream, i) {
                    return Err(GitError::Exhausted);
                }
                return Err(GitError::VarintOverflow);
            }
            if i == self.stream.len() {
                proof {
                    assert forall|n: int| 1 <= n <= MAX_VARINT_BYTES implies !varint_ends_at(s, n) by {
                        if n <= s.len() {
                            assert(s[n - 1] >= 128);
                        }
                    }
                }
                return Err(GitError::Exhausted);
            }
            let b = self.stream[i];
            proof {
                lemma_pow128_mono(i as nat, 8);
                assert(s.take(i + 1).drop_last() =~= s.take(i as int));
                assert(s.take(i + 1).last() == b);
                assert((b % 128) as nat * mult <= 127 * mult) by (nonlinear_arith)
                    requires
                        b % 128 <= 127,
                ;
            }
            value = value + ((b % 128) as u64) * mult;
            i += 1;
            if b < 128 {
                proof {
                    assert(varint_ends_at(s, i as int));
                    let n = choose|n: int| 1 <= n <= MAX_VARINT_BYTES && varint_ends_at(s, n);
                    lemma_varint_end_unique(s, n, i as int);
                    lemma_pow128_mono(i as nat, 9);
                    reveal_with_fuel(pow128, 10);
                }
                self.stream = slice_subrange(self.stream, i, self.stream.len());
                return Ok(value);
            }
            mult = mult * 128;
        }
    }

    /// Reads one byte for each set bit of `mask`, lowest bit first, and puts
    /// the byte read for bit `k` at byte position `k` of the result.
    pub fn pop_bit_masked_int(&mut self, mask: u8) -> (r: Result<u64, GitError>)
        ensures
            old(self)@.len() >= mask_count(mask as nat, 8) ==> r is Ok && r->Ok_0
                == masked_value(old(self)@, mask as nat, 8) && final(self)@ == old(self)@.skip(
                mask_count(mask as nat, 8) as int,
            ),
            old(self)@.len() < mask_count(mask as nat, 8) ==> r is Err && r->Err_0
                == GitError::Exhausted && final(self)@ == old(self)@,
    {
        let ghost s = self.stream@;
        let mut i: usize = 0;
        let mut k: usize = 0;
        let mut m: u8 = mask;
        let mut out: u128 = 0;
        let mut mult: u128 = 1;
        proof {
            lemma_pow_values();
            assert(s.skip(0) =~= s);
        }
        while k < 8
            invariant
                s == self.stream@,
                self.stream@ == old(self)@,
                k <= 8,
                i <= s.len(),
                i + mask_count(m as nat, (8 - k) as nat) == mask_count(mask as nat, 8),
                masked_value(s, mask as nat, 8) == out + mult * masked_value(
                    s.skip(i as int),
                    m as nat,
                    (8 - k) as nat,
                ),
                mult as nat == pow256(k as nat),
                out < mult,
                pow256(7) == 0x100_0000_0000_0000,
            decreases 8 - k,
        {
            proof {
                lemma_pow256_mono(k as nat, 7);
            }
            let ghost rest = s.skip(i as int);
            if m % 2 == 1 {
                proof {
                    assert(mask_count(m as nat, (8 - k) as nat) >= 1);
                }
                if i == self.stream.len() {
                    return Err(GitError::Exhausted);
                }
                let b = self.stream[i];
                proof {
                    assert(rest.drop_first() =~= s.skip(i + 1));
                    let mv = masked_value(rest.drop_first(), (m / 2) as nat, (7 - k) as nat);
                    assert(mult * (b as nat + 256 * mv) == mult * b + (mult * 256) * mv)
                        by (nonlinear_arith);
                    assert((b as nat) * mult <= 255 * mult) by (nonlinear_arith)
                        requires
                            b <= 255,
                    ;
                }
                out = out + (b as u128) * mult;
                i += 1;
            } else {
                proof {
                    let mv = masked_value(rest, (m / 2) as nat, (7 - k) as nat);
                    assert(mult * (256 * mv) == (mult * 256) * mv) by (nonlinear_arith);
                }
            }
            m = m / 2;
            mult = mult * 256;
            k += 1;
        }
        proof {
            lemma_pow_values();
            assert(k == 8);
            assert(mask_count(m as nat, 0) == 0);
            assert(masked_value(s.skip(i as int), m as nat, 0) == 0);
            assert(out == masked_value(s, mask as nat, 8));
            assert(out < 0x1_0000_0000_0000_0000);
        }
        self.stream = slice_subrange(self.stream, i, self.stream.len());
        Ok(out as u64)
    }

    /// Number of bytes still to be read.
    pub fn len(&self) -> (r: usize)
        ensures
            r == self@.len(),
    {
        self.stream.len()
    }

    pub fn is_empty(&self) -> (r: bool)
        ensures
            r == (self@.len() == 0),
    {
        self.stream.len() == 0
    }
}

} // verus!
