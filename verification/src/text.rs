//! Text building blocks: UTF-8 decoding, strings from characters, and the
//! textual forms of IP addresses.
use vstd::prelude::*;
use vstd::utf8::*;

verus! {

/// The decimal digit `d` (0 to 9) as a character.
pub open spec fn digit_char(d: int) -> char {
    (48 + d) as char
}

/// The lowercase hexadecimal digit `d` (0 to 15) as a character.
pub open spec fn hex_digit_char(d: int) -> char {
    if d < 10 {
        (48 + d) as char
    } else {
        (87 + d) as char
    }
}

/// The decimal text of a byte, without leading zeros.
pub open spec fn decimal_u8(v: u8) -> Seq<char> {
    if v >= 100 {
        seq![digit_char((v / 100) as int), digit_char(((v / 10) % 10) as int), digit_char((v % 10) as int)]
    } else if v >= 10 {
        seq![digit_char((v / 10) as int), digit_char((v % 10) as int)]
    } else {
        seq![digit_char(v as int)]
    }
}

/// The lowercase hexadecimal text of a number, without leading zeros.
pub open spec fn hex_text(v: nat) -> Seq<char>
    decreases v,
{
    if v < 16 {
        seq![hex_digit_char(v as int)]
    } else {
        hex_text(v / 16) + seq![hex_digit_char((v % 16) as int)]
    }
}

/// The dotted-decimal text of an IPv4 address, `a.b.c.d`.
pub open spec fn ipv4_text(a: u8, b: u8, c: u8, d: u8) -> Seq<char> {
    decimal_u8(a) + seq!['.'] + decimal_u8(b) + seq!['.'] + decimal_u8(c) + seq!['.'] + decimal_u8(
        d,
    )
}

/// The eight 16-bit segments of a sixteen-byte IPv6 address.
pub open spec fn segments(o: Seq<u8>) -> Seq<nat> {
    Seq::new(8, |i: int| (o[2 * i] * 256 + o[2 * i + 1]) as nat)
}

/// An IPv4-mapped address: five zero segments, then `ffff`.
pub open spec fn is_ipv4_mapped(s: Seq<nat>) -> bool {
    s[0] == 0 && s[1] == 0 && s[2] == 0 && s[3] == 0 && s[4] == 0 && s[5] == 0xffff
}

/// The first longest run of zero segments from `i` on, as `(start, len)`;
/// `cur` is the run in progress and `best` the longest run seen before `i`.
pub open spec fn zero_run(s: Seq<nat>, i: int, cur: (int, int), best: (int, int)) -> (int, int)
    decreases s.len() - i,
{
    if i >= s.len() {
        best
    } else if s[i] == 0 {
        let c = if cur.1 == 0 {
            (i, 1)
        } else {
            (cur.0, cur.1 + 1)
        };
        let b = if c.1 > best.1 {
            c
        } else {
            best
        };
        zero_run(s, i + 1, c, b)
    } else {
        zero_run(s, i + 1, (0, 0), best)
    }
}

/// Segments in hexadecimal, separated by colons.
pub open spec fn colon_hex(s: Seq<nat>) -> Seq<char>
    decreases s.len(),
{
    if s.len() == 0 {
        Seq::empty()
    } else if s.len() == 1 {
        hex_text(s[0])
    } else {
        colon_hex(s.drop_last()) + seq![':'] + hex_text(s.last())
    }
}

/// The text of an IPv6 address as the standard library displays it
/// (RFC 5952): IPv4-mapped addresses as `::ffff:a.b.c.d`, otherwise the
/// segments in lowercase hexadecimal with the first longest run of two or
/// more zero segments shortened to `::`.
pub open spec fn ipv6_text(o: Seq<u8>) -> Seq<char> {
    let s = segments(o);
    if is_ipv4_mapped(s) {
        seq![':', ':', 'f', 'f', 'f', 'f', ':'] + ipv4_text(o[12], o[13], o[14], o[15])
    } else {
        let run = zero_run(s, 0, (0, 0), (0, 0));
        if run.1 > 1 {
            colon_hex(s.subrange(0, run.0)) + seq![':', ':'] + colon_hex(
                s.subrange(run.0 + run.1, 8),
            )
        } else {
            colon_hex(s)
        }
    }
}

/// `std::str::from_utf8`: the text that bytes which are valid UTF-8
/// encode, whose UTF-8 encoding is exactly those bytes; `None` when the
/// bytes are not valid UTF-8.
#[verifier::external_body]
pub(crate) fn utf8_str(bytes: &[u8]) -> (r: Option<&str>)
    ensures
        r is Some <==> valid_utf8(bytes@),
        r matches Some(s) ==> encode_utf8(s@) == bytes@,
{
    match std::str::from_utf8(bytes) {
        Ok(text) => Some(text),
        Err(_) => None,
    }
}

/// `String::from_iter` over characters: the string made of exactly those
/// characters, in order.
#[verifier::external_body]
pub(crate) fn string_from_chars(chars: &Vec<char>) -> (r: String)
    ensures
        r@ == chars@,
{
    chars.iter().collect::<String>()
}

/// Appends the decimal text of `v`.
pub fn push_decimal(out: &mut Vec<char>, v: u8)
    ensures
        final(out)@ == old(out)@ + decimal_u8(v),
{
    if v >= 100 {
        out.push(digit(v / 100));
        out.push(digit((v / 10) % 10));
        out.push(digit(v % 10));
    } else if v >= 10 {
        out.push(digit(v / 10));
        out.push(digit(v % 10));
    } else {
        out.push(digit(v));
    }
    assert(out@ =~= old(out)@ + decimal_u8(v));
}

/// The decimal digit `d` as a character.
fn digit(d: u8) -> (c: char)
    requires
        d < 10,
    ensures
        c == digit_char(d as int),
{
    let digits = ['0', '1', '2', '3', '4', '5', '6', '7', '8', '9'];
    let c = digits[d as usize];
    assert(c == digit_char(d as int)) by {
        assert(digits@ =~= seq!['0', '1', '2', '3', '4', '5', '6', '7', '8', '9']);
    }
    c
}

/// The hexadecimal digit `d` as a lowercase character.
fn hex_digit(d: u16) -> (c: char)
    requires
        d < 16,
    ensures
        c == hex_digit_char(d as int),
{
    let digits = ['0', '1', '2', '3', '4', '5', '6', '7', '8', '9', 'a', 'b', 'c', 'd', 'e', 'f'];
    let c = digits[d as usize];
    assert(c == hex_digit_char(d as int)) by {
        assert(digits@ =~= seq![
            '0', '1', '2', '3', '4', '5', '6', '7', '8', '9', 'a', 'b', 'c', 'd', 'e', 'f',
        ]);
    }
    c
}

/// Appends the hexadecimal text of `v`.
pub fn push_hex(out: &mut Vec<char>, v: u16)
    ensures
        final(out)@ == old(out)@ + hex_text(v as nat),
    decreases v,
{
    if v >= 16 {
        push_hex(out, v / 16);
    }
    out.push(hex_digit(v % 16));
    assert(out@ =~= old(out)@ + hex_text(v as nat));
}

/// Appends the dotted-decimal text of an IPv4 address.
pub fn push_ipv4(out: &mut Vec<char>, a: u8, b: u8, c: u8, d: u8)
    ensures
        final(out)@ == old(out)@ + ipv4_text(a, b, c, d),
{
    push_decimal(out, a);
    out.push('.');
    push_decimal(out, b);
    out.push('.');
    push_decimal(out, c);
    out.push('.');
    push_decimal(out, d);
    assert(out@ =~= old(out)@ + ipv4_text(a, b, c, d));
}

/// The dotted-decimal text of the IPv4 address `a.b.c.d`.
pub fn ipv4_to_string(a: u8, b: u8, c: u8, d: u8) -> (r: String)
    ensures
        r@ == ipv4_text(a, b, c, d),
{
    let mut out: Vec<char> = Vec::new();
    push_ipv4(&mut out, a, b, c, d);
    assert(out@ =~= ipv4_text(a, b, c, d));
    string_from_chars(&out)
}

/// Appends `segs[from..to]` in hexadecimal, separated by colons.
fn push_colon_hex(out: &mut Vec<char>, segs: &Vec<u16>, from: usize, to: usize)
    requires
        from <= to <= segs@.len(),
    ensures
        final(out)@ == old(out)@ + colon_hex(
            segs@.subrange(from as int, to as int).map_values(|v: u16| v as nat),
        ),
{
    let ghost base = old(out)@;
    let mut k = from;
    while k < to
        invariant
            from <= k <= to,
            to <= segs@.len(),
            out@ == base + colon_hex(
                segs@.subrange(from as int, k as int).map_values(|v: u16| v as nat),
            ),
        decreases to - k,
    {
        let ghost before = segs@.subrange(from as int, k as int).map_values(|v: u16| v as nat);
        let ghost after = segs@.subrange(from as int, k + 1).map_values(|v: u16| v as nat);
        assert(after.drop_last() =~= before);
        assert(after.last() == segs@[k as int] as nat);
        if k > from {
            out.push(':');
        }
        push_hex(out, segs[k]);
        proof {
            if k > from {
                assert(out@ =~= base + colon_hex(after));
            } else {
                assert(after.len() == 1);
                assert(out@ =~= base + colon_hex(after));
            }
        }
        k = k + 1;
    }
}

/// The text of the sixteen-octet IPv6 address as the standard library
/// displays it.
pub fn ipv6_to_string(octets: &[u8]) -> (r: String)
    requires
        octets@.len() == 16,
    ensures
        r@ == ipv6_text(octets@),
{
    let ghost o = octets@;
    let mut segs: Vec<u16> = Vec::new();
    let mut i: usize = 0;
    while i < 8
        invariant
            i <= 8,
            octets@ == o,
            o.len() == 16,
            segs@.len() == i,
            forall|j: int| 0 <= j < i ==> segs@[j] as nat == segments(o)[j],
        decreases 8 - i,
    {
        segs.push((octets[2 * i] as u16) * 256 + (octets[2 * i + 1] as u16));
        i = i + 1;
    }
    let ghost s = segments(o);
    assert(segs@.map_values(|v: u16| v as nat) =~= s);
    let mut out: Vec<char> = Vec::new();
    if segs[0] == 0 && segs[1] == 0 && segs[2] == 0 && segs[3] == 0 && segs[4] == 0 && segs[5]
        == 0xffff {
        out.push(':');
        out.push(':');
        out.push('f');
        out.push('f');
        out.push('f');
        out.push('f');
        out.push(':');
        push_ipv4(&mut out, octets[12], octets[13], octets[14], octets[15]);
        assert(out@ =~= ipv6_text(o));
        return string_from_chars(&out);
    }
    // Find the first longest run of zero segments.
    let mut cur_start: usize = 0;
    let mut cur_len: usize = 0;
    let mut best_start: usize = 0;
    let mut best_len: usize = 0;
    let mut k: usize = 0;
    while k < 8
        invariant
            k <= 8,
            segs@.map_values(|v: u16| v as nat) == s,
            s.len() == 8,
            cur_start + cur_len <= k,
            best_start + best_len <= 8,
            zero_run(s, 0, (0, 0), (0, 0)) == zero_run(
                s,
                k as int,
                (cur_start as int, cur_len as int),
                (best_start as int, best_len as int),
            ),
        decreases 8 - k,
    {
        assert(s[k as int] == segs@[k as int] as nat);
        if segs[k] == 0 {
            if cur_len == 0 {
                cur_start = k;
                cur_len = 1;
            } else {
                cur_len = cur_len + 1;
            }
            if cur_len > best_len {
                best_start = cur_start;
                best_len = cur_len;
            }
        } else {
            cur_start = 0;
            cur_len = 0;
        }
        k = k + 1;
    }
    if best_len > 1 {
        push_colon_hex(&mut out, &segs, 0, best_start);
        out.push(':');
        out.push(':');
        push_colon_hex(&mut out, &segs, best_start + best_len, 8);
        proof {
            assert(segs@.subrange(0, best_start as int).map_values(|v: u16| v as nat) =~= s.subrange(
                0,
                best_start as int,
            ));
            assert(segs@.subrange((best_start + best_len) as int, 8).map_values(|v: u16| v as nat)
                =~= s.subrange((best_start + best_len) as int, 8));
        }
    } else {
        push_colon_hex(&mut out, &segs, 0, 8);
        assert(segs@.subrange(0, 8) =~= segs@);
    }
    assert(out@ =~= ipv6_text(o));
    string_from_chars(&out)
}

/// Appends the characters of `s`.
pub fn push_str(out: &mut Vec<char>, s: &str)
    ensures
        final(out)@ == old(out)@ + s@,
{
    broadcast use vstd::string::axiom_spec_iter;

    let ghost start = out@;
    for c in it: s.chars()
        invariant
            it.seq() == s@,
            out@ == start + s@.take(it.index() as int),
    {
        proof {
            assert(s@.take(it.index() + 1) =~= s@.take(it.index() as int).push(c));
        }
        out.push(c);
    }
    assert(s@.take(s@.len() as int) =~= s@);
}

/// Whether `s` starts with `prefix`.
pub fn starts_with(s: &str, prefix: &str) -> (r: bool)
    ensures
        r == prefix@.is_prefix_of(s@),
{
    let mut a: Vec<char> = Vec::new();
    push_str(&mut a, s);
    let mut b: Vec<char> = Vec::new();
    push_str(&mut b, prefix);
    assert(a@ =~= s@);
    assert(b@ =~= prefix@);
    if b.len() > a.len() {
        return false;
    }
    let mut i: usize = 0;
    while i < b.len()
        invariant
            i <= b@.len(),
            b@.len() <= a@.len(),
            a@ == s@,
            b@ == prefix@,
            forall|k: int| 0 <= k < i ==> a@[k] == b@[k],
        decreases b@.len() - i,
    {
        if a[i] != b[i] {
            assert(s@.subrange(0, prefix@.len() as int)[i as int] != prefix@[i as int]);
            return false;
        }
        i = i + 1;
    }
    assert(prefix@ =~= s@.subrange(0, prefix@.len() as int));
    true
}

/// The concatenation of two strings.
pub fn concat(a: &str, b: &str) -> (r: String)
    ensures
        r@ == a@ + b@,
{
    let mut out: Vec<char> = Vec::new();
    push_str(&mut out, a);
    push_str(&mut out, b);
    assert(out@ =~= a@ + b@);
    string_from_chars(&out)
}

/// The decimal text of a number, without leading zeros.
pub open spec fn decimal_text(v: nat) -> Seq<char>
    decreases v,
{
    if v < 10 {
        seq![digit_char(v as int)]
    } else {
        decimal_text(v / 10) + seq![digit_char((v % 10) as int)]
    }
}

/// Appends the decimal text of `v`.
pub fn push_u64(out: &mut Vec<char>, v: u64)
    ensures
        final(out)@ == old(out)@ + decimal_text(v as nat),
    decreases v,
{
    if v >= 10 {
        push_u64(out, v / 10);
    }
    out.push(digit((v % 10) as u8));
    proof {
        if v >= 10 {
            assert(decimal_text(v as nat) == decimal_text((v / 10) as nat) + seq![digit_char((v % 10) as int)]);
        }
    }
    assert(final(out)@ =~= old(out)@ + decimal_text(v as nat));
}

} // verus!
