use vstd::prelude::*;

use crate::error::GitError;
use crate::reader::Reader;
use crate::varint::{mask_count, masked_value, parse_varint};

verus! {

/// Copy size used when a copy instruction carries no size byte.
pub const DEFAULT_COPY_SIZE: u64 = 0x10000;

/// The output of a delta's instruction stream `s` applied to `base`, or
/// `None` when the stream is invalid: a zero leading byte, a truncated
/// instruction, or a copy outside the base.
pub open spec fn run_delta(base: Seq<u8>, s: Seq<u8>) -> Option<Seq<u8>>
    decreases s.len(),
{
    if s.len() == 0 {
        Some(Seq::empty())
    } else {
        let op = s[0];
        let rest = s.drop_first();
        if op >= 128 {
            let om = (op % 16) as nat;
            let sm = ((op / 16) % 8) as nat;
            let no = mask_count(om, 8);
            let ns = mask_count(sm, 8);
            if no + ns > rest.len() {
                None
            } else {
                let off = masked_value(rest, om, 8);
                let raw = masked_value(rest.skip(no as int), sm, 8);
                let size = if sm == 0 {
                    DEFAULT_COPY_SIZE as nat
                } else {
                    raw
                };
                if off + size > base.len() {
                    None
                } else {
                    match run_delta(base, rest.skip((no + ns) as int)) {
                        Some(t) => Some(base.subrange(off as int, (off + size) as int) + t),
                        None => None,
                    }
                }
            }
        } else if op == 0 {
            None
        } else if op as nat > rest.len() {
            None
        } else {
            match run_delta(base, rest.skip(op as int)) {
                Some(t) => Some(rest.take(op as int) + t),
                None => None,
            }
        }
    }
}

/// What applying `delta` to `base` gives: two size varints (the base length
/// and the result length) followed by instructions.
pub open spec fn delta_result(base: Seq<u8>, delta: Seq<u8>) -> Result<Seq<u8>, GitError> {
    match parse_varint(delta) {
        None => Err(GitError::MalformedDelta),
        Some((base_len, n1)) => match parse_varint(delta.skip(n1 as int)) {
            None => Err(GitError::MalformedDelta),
            Some((target_len, n2)) => if base_len != base.len() {
                Err(GitError::DeltaLengthMismatch)
            } else {
                match run_delta(base, delta.skip((n1 + n2) as int)) {
                    None => Err(GitError::MalformedDelta),
                    Some(out) => if out.len() == target_len {
                        Ok(out)
                    } else {
                        Err(GitError::DeltaLengthMismatch)
                    },
                }
            },
        },
    }
}

/// Appends `src` to `out`.
pub fn append_bytes(out: &mut Vec<u8>, src: &[u8])
    ensures
        final(out)@ == old(out)@ + src@,
{
    let mut i: usize = 0;
    while i < src.len()
        invariant
            i <= src@.len(),
            out@ == old(out)@ + src@.take(i as int),
        decreases src@.len() - i,
    {
        out.push(src[i]);
        i += 1;
        assert(src@.take(i as int) =~= src@.take(i - 1) + seq![src@[i - 1]]);
    }
    assert(src@.take(i as int) =~= src@);
}

/// Rebuilds a payload from the base it was delta-encoded against.
#[verifier::spinoff_prover]
pub fn apply_delta(base: &[u8], delta: &[u8]) -> (r: Result<Vec<u8>, GitError>)
    ensures
        match delta_result(base@, delta@) {
            Ok(out) => r is Ok && r->Ok_0@ == out,
            Err(e) => r is Err && r->Err_0 == e,
        },
{
    let mut rd = Reader::new(delta);
    let base_len = match rd.pop_varint() {
        Ok(v) => v,
        Err(_) => return Err(GitError::MalformedDelta),
    };
    let ghost d1 = rd@;
    let target_len = match rd.pop_varint() {
        Ok(v) => v,
        Err(_) => return Err(GitError::MalformedDelta),
    };
    proof {
        let (bl, n1) = parse_varint(delta@)->Some_0;
        let (tl, n2) = parse_varint(d1)->Some_0;
        assert(d1 == delta@.skip(n1 as int));
        assert(rd@ =~= delta@.skip((n1 + n2) as int));
    }
    if base_len != base.len() as u64 {
        return Err(GitError::DeltaLengthMismatch);
    }
    let ghost instrs = rd@;
    proof {
        let (bl, n1) = parse_varint(delta@)->Some_0;
        let (tl, n2) = parse_varint(d1)->Some_0;
        assert(instrs == delta@.skip((n1 + n2) as int));
    }
    let mut out: Vec<u8> = Vec::new();
    while !rd.is_empty()
        invariant
            match run_delta(base@, instrs) {
                None => delta_result(base@, delta@) == Err::<Seq<u8>, GitError>(
                    GitError::MalformedDelta,
                ),
                Some(o) => delta_result(base@, delta@) == if o.len() == target_len as nat {
                    Ok::<Seq<u8>, GitError>(o)
                } else {
                    Err(GitError::DeltaLengthMismatch)
                },
            },
            match run_delta(base@, rd@) {
                Some(t) => run_delta(base@, instrs) == Some(out@ + t),
                None => run_delta(base@, instrs) is None,
            },
        decreases rd@.len(),
    {
        let ghost s = rd@;
        let op = match rd.pop() {
            Ok(b) => b,
            Err(_) => return Err(GitError::MalformedDelta),
        };
        let ghost rest = rd@;
        if op >= 128 {
            let off = match rd.pop_bit_masked_int(op % 16) {
                Ok(v) => v,
                Err(_) => {
                    proof {
                        assert(s[0] == op && s.drop_first() == rest);
                        assert(run_delta(base@, s) is None);
                    }
                    return Err(GitError::MalformedDelta);
                },
            };
            let ghost rest2 = rd@;
            let raw = match rd.pop_bit_masked_int((op / 16) % 8) {
                Ok(v) => v,
                Err(_) => {
                    proof {
                        assert(rest2 =~= rest.skip(mask_count((op % 16) as nat, 8) as int));
                        assert(s[0] == op && s.drop_first() == rest);
                        assert(run_delta(base@, s) is None);
                    }
                    return Err(GitError::MalformedDelta);
                },
            };
            let size: u64 = if (op / 16) % 8 == 0 {
                DEFAULT_COPY_SIZE
            } else {
                raw
            };
            proof {
                let no = mask_count((op % 16) as nat, 8);
                let ns = mask_count(((op / 16) % 8) as nat, 8);
                assert(rest2 =~= rest.skip(no as int));
                assert(rd@ =~= rest.skip((no + ns) as int));
            }
            if off as u128 + size as u128 > base.len() as u128 {
                proof {
                    assert(s[0] == op && s.drop_first() == rest);
                    assert(run_delta(base@, s) is None);
                }
                return Err(GitError::MalformedDelta);
            }
            let chunk = vstd::slice::slice_subrange(base, off as usize, (off + size) as usize);
            proof {
                assert(out@ + chunk@ + run_delta(base@, rd@).unwrap_or(Seq::empty()) =~= out@ + (
                chunk@ + run_delta(base@, rd@).unwrap_or(Seq::empty())));
            }
            append_bytes(&mut out, chunk);
        } else {
            if op == 0 {
                proof {
                    assert(s[0] == op);
                    assert(run_delta(base@, s) is None);
                }
                return Err(GitError::MalformedDelta);
            }
            let lit = match rd.popn(op as usize) {
                Ok(b) => b,
                Err(_) => {
                    proof {
                        assert(s[0] == op && s.drop_first() == rest);
                        assert(run_delta(base@, s) is None);
                    }
                    return Err(GitError::MalformedDelta);
                },
            };
            proof {
                assert(out@ + lit@ + run_delta(base@, rd@).unwrap_or(Seq::empty()) =~= out@ + (lit@
                    + run_delta(base@, rd@).unwrap_or(Seq::empty())));
            }
            append_bytes(&mut out, lit);
        }
    }
    proof {
        assert(out@ + Seq::<u8>::empty() =~= out@);
        assert(run_delta(base@, rd@) == Some(Seq::<u8>::empty()));
        assert(run_delta(base@, instrs) == Some(out@));
    }
    if out.len() as u64 != target_len {
        return Err(GitError::DeltaLengthMismatch);
    }
    Ok(out)
}

} // verus!
