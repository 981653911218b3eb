use vstd::prelude::*;

use crate::delta::append_bytes;
use crate::error::GitError;
use crate::hex::{
    ascii_chars, digit_value, hex_ascii, hex_digit, hex_to_bytes, is_lower_hex, string_from_ascii,
};
use crate::reader::Reader;
use vstd::string::StringSliceAdditionalSpecFns;

verus! {

/// The four lowercase hex digits of `n < 65536`.
pub open spec fn hex4(n: nat) -> Seq<u8> {
    seq![hex_digit(n / 4096 % 16), hex_digit(n / 256 % 16), hex_digit(n / 16 % 16), hex_digit(n % 16)]
}

/// The value of four hex digits, if they are all lowercase hex digits.
pub open spec fn hex4_value(s: Seq<u8>) -> Option<nat> {
    match (digit_value(s[0]), digit_value(s[1]), digit_value(s[2]), digit_value(s[3])) {
        (Some(a), Some(b), Some(c), Some(d)) => Some(((a * 16 + b) * 16 + c) * 16 + d),
        _ => None,
    }
}

/// A pkt-line: the length prefix (which counts itself) and the payload.
pub open spec fn pkt_line_spec(payload: Seq<u8>) -> Seq<u8> {
    hex4(payload.len() + 4) + payload
}

/// The pkt-line at the front of `s`: its payload (`None` for a flush
/// marker) and how many bytes it takes.
pub open spec fn next_pkt(s: Seq<u8>) -> Result<(Option<Seq<u8>>, nat), GitError> {
    if s.len() < 4 {
        Err(GitError::MalformedPktLine)
    } else {
        match hex4_value(s.take(4)) {
            None => Err(GitError::MalformedPktLine),
            Some(len) => if len == 0 {
                Ok((None, 4))
            } else if len < 4 || len > s.len() {
                Err(GitError::MalformedPktLine)
            } else {
                Ok((Some(s.subrange(4, len as int)), len))
            },
        }
    }
}

/// `NAK\n`, the server's answer to the negotiation, which it sends as a
/// plain pkt-line before the sideband stream.
pub open spec fn nak() -> Seq<u8> {
    seq![78u8, 65u8, 75u8, 10u8]
}

/// A failure while reading a sideband response: a library error, or the
/// message of a fatal error reported by the remote.
pub enum StreamError {
    Fail(GitError),
    Remote(Seq<u8>),
}

/// The error value that stands for `se`.
pub open spec fn is_stream_error(e: GitError, se: StreamError) -> bool {
    match se {
        StreamError::Fail(g) => e == g,
        StreamError::Remote(m) => e is RemoteError && e->RemoteError_0@ == m,
    }
}

/// The pack bytes carried by a sideband response: channel-1 payloads in
/// order, up to a flush marker or the end; channel 2 is progress text and
/// is skipped; channel 3 is a fatal error from the remote.
pub open spec fn demux(s: Seq<u8>) -> Result<Seq<u8>, StreamError>
    decreases s.len(),
{
    if s.len() == 0 {
        Ok(Seq::empty())
    } else {
        match next_pkt(s) {
            Err(e) => Err(StreamError::Fail(e)),
            Ok((None, _)) => Ok(Seq::empty()),
            Ok((Some(p), n)) => if n == 0 || n > s.len() {
                Err(StreamError::Fail(GitError::MalformedPktLine))
            } else if p.len() == 0 {
                Err(StreamError::Fail(GitError::MalformedPktLine))
            } else if p[0] == 2 {
                demux(s.skip(n as int))
            } else if p[0] == 1 {
                match demux(s.skip(n as int)) {
                    Ok(rest) => Ok(p.drop_first() + rest),
                    Err(e) => Err(e),
                }
            } else if p[0] == 3 {
                Err(StreamError::Remote(p.drop_first()))
            } else {
                Err(StreamError::Fail(GitError::UnknownSidebandChannel))
            },
        }
    }
}

/// The `k`-th pkt-line of `s` that is not a flush marker.
pub open spec fn content_line(s: Seq<u8>, k: nat) -> Result<Seq<u8>, GitError>
    decreases s.len(),
{
    if s.len() == 0 {
        Err(GitError::MalformedPktLine)
    } else {
        match next_pkt(s) {
            Err(e) => Err(e),
            Ok((line, n)) => if n == 0 || n > s.len() {
                Err(GitError::MalformedPktLine)
            } else {
                match line {
                    None => content_line(s.skip(n as int), k),
                    Some(p) => if k == 0 {
                        Ok(p)
                    } else {
                        content_line(s.skip(n as int), (k - 1) as nat)
                    },
                }
            },
        }
    }
}

/// The head id named in a ref advertisement: the first 40 bytes, as hex, of
/// the line after the service header.
pub open spec fn advertised_head(s: Seq<u8>) -> Result<Seq<u8>, GitError> {
    match content_line(s, 1) {
        Err(e) => Err(e),
        Ok(line) => if line.len() >= 40 && is_lower_hex(line.take(40)) {
            Ok(line.take(40))
        } else {
            Err(GitError::MalformedPktLine)
        },
    }
}

pub open spec fn word_want() -> Seq<u8> {
    seq![119u8, 97u8, 110u8, 116u8, 32u8]
}

/// The capabilities asked for, with the line's final newline.
pub open spec fn capabilities() -> Seq<u8> {
    seq![32u8, 109u8, 117u8, 108u8, 116u8, 105u8, 95u8, 97u8, 99u8, 107u8, 95u8, 100u8, 101u8, 116u8, 97u8, 105u8, 108u8, 101u8, 100u8, 32u8, 116u8, 104u8, 105u8, 110u8, 45u8, 112u8, 97u8, 99u8, 107u8, 32u8, 115u8, 105u8, 100u8, 101u8, 45u8, 98u8, 97u8, 110u8, 100u8, 45u8, 54u8, 52u8, 107u8, 32u8, 111u8, 102u8, 115u8, 45u8, 100u8, 101u8, 108u8, 116u8, 97u8, 10u8]
}

/// A flush marker and then the `done` line.
pub open spec fn flush_done() -> Seq<u8> {
    seq![48u8, 48u8, 48u8, 48u8, 48u8, 48u8, 48u8, 57u8, 100u8, 111u8, 110u8, 101u8, 10u8]
}

/// The negotiation request for the commit `head`: one `want` line, a flush,
/// and `done`.
pub open spec fn want_request_spec(head: Seq<u8>) -> Seq<u8> {
    pkt_line_spec(word_want() + hex_ascii(head) + capabilities()) + flush_done()
}

fn digit4(n: u16) -> (r: Vec<u8>)
    ensures
        r@ == hex4(n as nat),
{
    let mut out: Vec<u8> = Vec::new();
    let ds: [u16; 4] = [n / 4096 % 16, n / 256 % 16, n / 16 % 16, n % 16];
    let mut i: usize = 0;
    while i < 4
        invariant
            i <= 4,
            ds@ == seq![n / 4096 % 16, n / 256 % 16, n / 16 % 16, n % 16],
            out@ == hex4(n as nat).take(i as int),
        decreases 4 - i,
    {
        let d = ds[i] as u8;
        let c = if d < 10 { 48 + d } else { 87 + d };
        out.push(c);
        i += 1;
        assert(out@ =~= hex4(n as nat).take(i as int));
    }
    assert(hex4(n as nat).take(4) =~= hex4(n as nat));
    out
}

/// Frames `payload` as one pkt-line.
pub fn pkt_line(payload: &[u8]) -> (r: Vec<u8>)
    requires
        payload@.len() + 4 <= 0xffff,
    ensures
        r@ == pkt_line_spec(payload@),
{
    let mut out = digit4((payload.len() + 4) as u16);
    append_bytes(&mut out, payload);
    out
}

/// Relies on `String::push_str`: appends a string slice.
#[verifier::external_body]
fn push_str(s: &mut String, t: &str)
    ensures
        final(s)@ == old(s)@ + t@,
{
    s.push_str(t);
}

/// Prefixes `s` with its pkt-line length: four lowercase hex digits giving
/// the byte length of `s` plus the four digits themselves.
pub fn hex_len_prefixed_string(s: &str) -> (r: String)
    requires
        s.spec_bytes().len() + 4 <= 0xffff,
    ensures
        r@ == ascii_chars(hex4(s.spec_bytes().len() + 4)) + s@,
{
    let prefix = digit4((s.len() + 4) as u16);
    let mut out = string_from_ascii(prefix.as_slice());
    push_str(&mut out, s);
    out
}

fn read_pkt<'a>(rd: &mut Reader<'a>) -> (r: Result<Option<&'a [u8]>, GitError>)
    ensures
        match next_pkt(old(rd)@) {
            Ok((line, n)) => r is Ok && final(rd)@ == old(rd)@.skip(n as int) && n >= 4 && n
                <= old(rd)@.len() && match line {
                None => r->Ok_0 is None,
                Some(p) => r->Ok_0 is Some && r->Ok_0->Some_0@ == p,
            },
            Err(e) => r is Err && r->Err_0 == e,
        },
{
    let ghost s = rd@;
    let head = match rd.popn(4) {
        Ok(h) => h,
        Err(_) => return Err(GitError::MalformedPktLine),
    };
    assert(head@ =~= s.take(4));
    let mut len: usize = 0;
    let mut i: usize = 0;
    while i < 4
        invariant
            i <= 4,
            s == old(rd)@,
            rd@ == s.skip(4),
            s.len() >= 4,
            head@ == s.take(4),
            head@.len() == 4,
            forall|j: int| 0 <= j < i ==> (#[trigger] digit_value(head@[j])) is Some,
            len as nat == hex4_prefix_value(head@, i as nat),
            len < pow16(i as nat),
        decreases 4 - i,
    {
        let c = head[i];
        let d: usize = if 48 <= c && c <= 57 {
            (c - 48) as usize
        } else if 97 <= c && c <= 102 {
            (c - 87) as usize
        } else {
            assert(digit_value(head@[i as int]) is None);
            assert(hex4_value(s.take(4)) is None);
            return Err(GitError::MalformedPktLine);
        };
        proof {
            assert(digit_value(c) == Some(d as nat));
            assert(len * 16 + d < 16 * pow16(i as nat)) by (nonlinear_arith)
                requires
                    len < pow16(i as nat),
                    d < 16,
            ;
            reveal_with_fuel(pow16, 5);
            lemma_pow16_mono(i as nat + 1, 4);
        }
        len = len * 16 + d;
        i += 1;
    }
    proof {
        reveal_with_fuel(hex4_prefix_value, 5);
        assert(hex4_prefix_value(head@, 4) == hex4_value(head@)->Some_0);
    }
    if len == 0 {
        return Ok(None);
    }
    if len < 4 || len - 4 > rd.len() {
        return Err(GitError::MalformedPktLine);
    }
    let p = match rd.popn(len - 4) {
        Ok(p) => p,
        Err(_) => return Err(GitError::MalformedPktLine),
    };
    assert(p@ =~= s.subrange(4, len as int));
    assert(rd@ =~= s.skip(len as int));
    Ok(Some(p))
}

pub proof fn lemma_pow16_mono(a: nat, b: nat)
    requires
        a <= b,
    ensures
        pow16(a) <= pow16(b),
    decreases b,
{
    if a < b {
        lemma_pow16_mono(a, (b - 1) as nat);
    }
}

pub open spec fn pow16(n: nat) -> nat
    decreases n,
{
    if n == 0 {
        1
    } else {
        16 * pow16((n - 1) as nat)
    }
}

/// The value of the first `i` hex digits of `s`.
pub open spec fn hex4_prefix_value(s: Seq<u8>, i: nat) -> nat
    decreases i,
{
    if i == 0 {
        0
    } else {
        hex4_prefix_value(s, (i - 1) as nat) * 16 + digit_value(s[i - 1]).unwrap_or(0)
    }
}

/// Takes off the leading `NAK` pkt-line (`0008NAK\n`) of an upload-pack
/// response, if it has one; what is left is the sideband stream.
pub fn skip_nak(buf: &[u8]) -> (r: &[u8])
    ensures
        buf@.len() >= 8 && buf@.take(8) == pkt_line_spec(nak()) ==> r@ == buf@.skip(8),
        !(buf@.len() >= 8 && buf@.take(8) == pkt_line_spec(nak())) ==> r@ == buf@,
{
    let line: [u8; 8] = [48u8, 48u8, 48u8, 56u8, 78u8, 65u8, 75u8, 10u8];
    assert(line@ =~= pkt_line_spec(nak()));
    if buf.len() < 8 {
        return buf;
    }
    let head = vstd::slice::slice_subrange(buf, 0, 8);
    assert(head@ =~= buf@.take(8));
    if crate::pack::bytes_eq(head, &line) {
        vstd::slice::slice_subrange(buf, 8, buf.len())
    } else {
        buf
    }
}

/// Collects the pack stream from a sideband response.
pub fn parse_git_upload_pack_response(buf: &[u8]) -> (r: Result<Vec<u8>, GitError>)
    ensures
        match demux(buf@) {
            Ok(pack) => r is Ok && r->Ok_0@ == pack,
            Err(se) => r is Err && is_stream_error(r->Err_0, se),
        },
{
    let mut rd = Reader::new(buf);
    let mut pack: Vec<u8> = Vec::new();
    while !rd.is_empty()
        invariant
            match demux(rd@) {
                Ok(rest) => demux(buf@) == Ok::<Seq<u8>, StreamError>(pack@ + rest),
                Err(se) => demux(buf@) == Err::<Seq<u8>, StreamError>(se),
            },
        decreases rd@.len(),
    {
        let ghost s = rd@;
        let line = match read_pkt(&mut rd) {
            Ok(l) => l,
            Err(e) => return Err(e),
        };
        let p = match line {
            Some(p) => p,
            None => {
                assert(pack@ + Seq::<u8>::empty() =~= pack@);
                return Ok(pack);
            },
        };
        if p.len() == 0 {
            return Err(GitError::MalformedPktLine);
        }
        if p[0] == 2 {
        } else if p[0] == 1 {
            let data = vstd::slice::slice_subrange(p, 1, p.len());
            assert(data@ =~= p@.drop_first());
            proof {
                if let Ok(rest) = demux(rd@) {
                    assert(pack@ + (data@ + rest) =~= pack@ + data@ + rest);
                }
            }
            append_bytes(&mut pack, data);
        } else if p[0] == 3 {
            let msg = vstd::slice::slice_to_vec(vstd::slice::slice_subrange(p, 1, p.len()));
            assert(msg@ =~= p@.drop_first());
            return Err(GitError::RemoteError(msg));
        } else {
            return Err(GitError::UnknownSidebandChannel);
        }
    }
    assert(pack@ + Seq::<u8>::empty() =~= pack@);
    Ok(pack)
}

/// The head commit id named by a ref advertisement.
pub fn head_from_advertisement(body: &[u8]) -> (r: Result<crate::object::Hash, GitError>)
    ensures
        match advertised_head(body@) {
            Ok(hex) => r is Ok && hex_ascii(r->Ok_0@) == hex,
            Err(e) => r is Err && r->Err_0 == e,
        },
{
    let mut rd = Reader::new(body);
    let mut k: usize = 1;
    loop
        invariant
            k <= 1,
            content_line(body@, 1) == content_line(rd@, k as nat),
        decreases rd@.len(),
    {
        if rd.is_empty() {
            return Err(GitError::MalformedPktLine);
        }
        let line = match read_pkt(&mut rd) {
            Ok(l) => l,
            Err(e) => return Err(e),
        };
        match line {
            None => {},
            Some(p) => {
                if k == 0 {
                    if p.len() < 40 {
                        return Err(GitError::MalformedPktLine);
                    }
                    let hex = vstd::slice::slice_subrange(p, 0, 40);
                    assert(hex@ =~= p@.take(40));
                    let bytes = match hex_to_bytes(hex) {
                        Some(b) => b,
                        None => return Err(GitError::MalformedPktLine),
                    };
                    proof {
                        crate::hex::lemma_hex_round_trip(bytes@, bytes@);
                        crate::hex::lemma_hex_len(bytes@);
                    }
                    return match crate::object::Hash::from_bytes(bytes.as_slice()) {
                        Some(h) => Ok(h),
                        None => Err(GitError::MalformedPktLine),
                    };
                }
                k = k - 1;
            },
        }
    }
}

/// The request body that asks for the commit `head` and everything it
/// reaches, with the capabilities this client uses.
pub fn want_request(head: &crate::object::Hash) -> (r: Vec<u8>)
    ensures
        r@ == want_request_spec(head@),
{
    let want = vec![119u8, 97u8, 110u8, 116u8, 32u8];
    assert(want@ =~= word_want());
    let caps = vec![32u8, 109u8, 117u8, 108u8, 116u8, 105u8, 95u8, 97u8, 99u8, 107u8, 95u8, 100u8, 101u8, 116u8, 97u8, 105u8, 108u8, 101u8, 100u8, 32u8, 116u8, 104u8, 105u8, 110u8, 45u8, 112u8, 97u8, 99u8, 107u8, 32u8, 115u8, 105u8, 100u8, 101u8, 45u8, 98u8, 97u8, 110u8, 100u8, 45u8, 54u8, 52u8, 107u8, 32u8, 111u8, 102u8, 115u8, 45u8, 100u8, 101u8, 108u8, 116u8, 97u8, 10u8];
    assert(caps@ =~= capabilities());
    let tail = vec![48u8, 48u8, 48u8, 48u8, 48u8, 48u8, 48u8, 57u8, 100u8, 111u8, 110u8, 101u8, 10u8];
    assert(tail@ =~= flush_done());
    let mut line: Vec<u8> = Vec::new();
    append_bytes(&mut line, want.as_slice());
    let hex = head.hex_bytes();
    append_bytes(&mut line, hex.as_slice());
    append_bytes(&mut line, caps.as_slice());
    let mut out = pkt_line(line.as_slice());
    append_bytes(&mut out, tail.as_slice());
    out
}

} // verus!
