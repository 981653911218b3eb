use vstd::prelude::*;

verus! {

/// The lowercase hex digit for `n < 16`, as an ASCII byte.
pub open spec fn hex_digit(n: nat) -> u8 {
    if n < 10 {
        (48 + n) as u8
    } else {
        (87 + n) as u8
    }
}

/// The value of a lowercase hex digit, if `c` is one.
pub open spec fn digit_value(c: u8) -> Option<nat> {
    if 48 <= c <= 57 {
        Some((c - 48) as nat)
    } else if 97 <= c <= 102 {
        Some((c - 87) as nat)
    } else {
        None
    }
}

/// Two lowercase hex digits per byte, most significant first.
pub open spec fn hex_ascii(b: Seq<u8>) -> Seq<u8>
    decreases b.len(),
{
    if b.len() == 0 {
        Seq::empty()
    } else {
        hex_ascii(b.drop_last()) + seq![hex_digit(b.last() as nat / 16), hex_digit(b.last() as nat % 16)]
    }
}

/// Two lowercase hex digits per byte, with one space between bytes.
pub open spec fn spaced_hex_ascii(b: Seq<u8>) -> Seq<u8>
    decreases b.len(),
{
    if b.len() <= 1 {
        hex_ascii(b)
    } else {
        spaced_hex_ascii(b.drop_last()) + seq![32u8, hex_digit(b.last() as nat / 16), hex_digit(b.last() as nat % 16)]
    }
}

/// An even number of lowercase hex digits.
pub open spec fn is_lower_hex(h: Seq<u8>) -> bool {
    h.len() % 2 == 0 && forall|i: int| 0 <= i < h.len() ==> (#[trigger] digit_value(h[i])) is Some
}

/// ASCII bytes read as characters.
pub open spec fn ascii_chars(s: Seq<u8>) -> Seq<char> {
    s.map_values(|c: u8| c as char)
}

/// Relies on `String::push`: appends one character.
#[verifier::external_body]
pub(crate) fn push_char(s: &mut String, c: char)
    ensures
        final(s)@ == old(s)@.push(c),
{
    s.push(c);
}

/// A string whose characters are the bytes of `b`.
pub fn string_from_ascii(b: &[u8]) -> (r: String)
    ensures
        r@ == ascii_chars(b@),
{
    let mut s = String::new();
    let mut i: usize = 0;
    while i < b.len()
        invariant
            i <= b@.len(),
            s@ == ascii_chars(b@.take(i as int)),
        decreases b@.len() - i,
    {
        push_char(&mut s, b[i] as char);
        i += 1;
        assert(ascii_chars(b@.take(i as int)) =~= ascii_chars(b@.take(i - 1)).push(b@[i - 1] as char));
    }
    assert(b@.take(i as int) =~= b@);
    s
}

fn digit(n: u8) -> (r: u8)
    requires
        n < 16,
    ensures
        r == hex_digit(n as nat),
{
    if n < 10 {
        48 + n
    } else {
        87 + n
    }
}

/// Lowercase hex digits of `bytes`, as ASCII bytes.
pub fn hex_of(bytes: &[u8]) -> (r: Vec<u8>)
    ensures
        r@ == hex_ascii(bytes@),
{
    let mut out: Vec<u8> = Vec::new();
    let mut i: usize = 0;
    while i < bytes.len()
        invariant
            i <= bytes@.len(),
            out@ == hex_ascii(bytes@.take(i as int)),
        decreases bytes@.len() - i,
    {
        let b = bytes[i];
        out.push(digit(b / 16));
        out.push(digit(b % 16));
        i += 1;
        assert(bytes@.take(i as int).drop_last() =~= bytes@.take(i - 1));
        assert(out@ =~= hex_ascii(bytes@.take(i as int)));
    }
    assert(bytes@.take(i as int) =~= bytes@);
    out
}

/// Lowercase hex digits of `bytes`, two per byte.
pub fn bytes_to_string(bytes: &[u8]) -> (r: String)
    ensures
        r@ == ascii_chars(hex_ascii(bytes@)),
{
    let h = hex_of(bytes);
    string_from_ascii(h.as_slice())
}

/// Lowercase hex digits of `bytes`, two per byte, bytes separated by spaces.
pub fn debug_byte_str(bytes: &[u8]) -> (r: String)
    ensures
        r@ == ascii_chars(spaced_hex_ascii(bytes@)),
{
    let mut out: Vec<u8> = Vec::new();
    let mut i: usize = 0;
    while i < bytes.len()
        invariant
            i <= bytes@.len(),
            out@ == spaced_hex_ascii(bytes@.take(i as int)),
        decreases bytes@.len() - i,
    {
        let b = bytes[i];
        if i > 0 {
            out.push(32u8);
        }
        out.push(digit(b / 16));
        out.push(digit(b % 16));
        i += 1;
        assert(bytes@.take(i as int).drop_last() =~= bytes@.take(i - 1));
        if i == 1 {
            assert(bytes@.take(0) =~= Seq::<u8>::empty());
            assert(hex_ascii(bytes@.take(1).drop_last()) =~= Seq::<u8>::empty());
        }
        assert(out@ =~= spaced_hex_ascii(bytes@.take(i as int)));
    }
    assert(bytes@.take(i as int) =~= bytes@);
    string_from_ascii(out.as_slice())
}

fn digit_val(c: u8) -> (r: Option<u8>)
    ensures
        match digit_value(c) {
            Some(v) => r == Some(v as u8),
            None => r is None,
        },
{
    if 48 <= c && c <= 57 {
        Some(c - 48)
    } else if 97 <= c && c <= 102 {
        Some(c - 87)
    } else {
        None
    }
}

/// The bytes that a string of lowercase hex digits spells.
pub fn hex_to_bytes(hex: &[u8]) -> (r: Option<Vec<u8>>)
    ensures
        r is Some <==> is_lower_hex(hex@),
        r matches Some(v) ==> hex_ascii(v@) == hex@,
{
    if hex.len() % 2 != 0 {
        return None;
    }
    let mut out: Vec<u8> = Vec::new();
    let mut i: usize = 0;
    while i < hex.len() / 2
        invariant
            hex@.len() % 2 == 0,
            i <= hex@.len() / 2,
            out@.len() == i,
            hex_ascii(out@) == hex@.take(2 * i),
            forall|j: int| 0 <= j < 2 * i ==> (#[trigger] digit_value(hex@[j])) is Some,
        decreases hex@.len() / 2 - i,
    {
        let hi = match digit_val(hex[2 * i]) {
            Some(v) => v,
            None => return None,
        };
        let lo = match digit_val(hex[2 * i + 1]) {
            Some(v) => v,
            None => return None,
        };
        let b = hi * 16 + lo;
        let ghost old_out = out@;
        out.push(b);
        proof {
            assert(out@.drop_last() =~= old_out);
            assert(hex_digit(b as nat / 16) == hex@[2 * i]);
            assert(hex_digit(b as nat % 16) == hex@[2 * i + 1]);
            assert(hex@.take(2 * (i + 1)) =~= hex@.take(2 * i) + seq![hex@[2 * i], hex@[2 * i + 1]]);
        }
        i += 1;
    }
    assert(hex@.take(2 * i) =~= hex@);
    Some(out)
}

} // verus!

verus! {

pub proof fn lemma_hex_digit(n: nat)
    requires
        n < 16,
    ensures
        digit_value(hex_digit(n)) == Some(n),
{
}

/// Hex encoding spells only lowercase digits, two per byte, and no two byte
/// strings spell the same digits: decoding the digits gives the bytes back.
pub proof fn lemma_hex_round_trip(b: Seq<u8>, c: Seq<u8>)
    ensures
        is_lower_hex(hex_ascii(b)),
        hex_ascii(c) == hex_ascii(b) ==> c == b,
    decreases b.len(),
{
    if b.len() > 0 {
        lemma_hex_round_trip(b.drop_last(), c.drop_last());
        let h = hex_ascii(b);
        let h0 = hex_ascii(b.drop_last());
        lemma_hex_digit(b.last() as nat / 16);
        lemma_hex_digit(b.last() as nat % 16);
        assert forall|i: int| 0 <= i < h.len() implies (#[trigger] digit_value(h[i])) is Some by {
            if i < h0.len() {
                assert(h[i] == h0[i]);
            }
        }
        if hex_ascii(c) == hex_ascii(b) {
            lemma_hex_len(b);
            lemma_hex_len(c);
            if c.len() > 0 {
                let hc = hex_ascii(c);
                let hc0 = hex_ascii(c.drop_last());
                lemma_hex_len(c.drop_last());
                lemma_hex_len(b.drop_last());
                assert(hc0 =~= hc.take(hc.len() - 2));
                assert(h0 =~= h.take(h.len() - 2));
                lemma_hex_digit(c.last() as nat / 16);
                lemma_hex_digit(c.last() as nat % 16);
                assert(hc[hc.len() - 2] == h[h.len() - 2]);
                assert(hc[hc.len() - 1] == h[h.len() - 1]);
                assert(c.last() == b.last());
                assert(c =~= c.drop_last().push(c.last()));
                assert(b =~= b.drop_last().push(b.last()));
            }
        }
    } else if hex_ascii(c) == hex_ascii(b) {
        lemma_hex_len(c);
    }
}

pub proof fn lemma_hex_len(b: Seq<u8>)
    ensures
        hex_ascii(b).len() == 2 * b.len(),
    decreases b.len(),
{
    if b.len() > 0 {
        lemma_hex_len(b.drop_last());
    }
}

} // verus!
