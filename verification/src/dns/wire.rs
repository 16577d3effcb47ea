//! DNS wire-format codec (RFC 1035).
//!
//! [`encode_query`] turns a [`DnsQuery`] into a wire DNS question, and
//! [`parse_response`] turns an upstream DNS answer back into typed addresses
//! and a typed outcome.
use vstd::prelude::*;
use vstd::utf8::*;

use super::{DnsOutcome, DnsQuery, DnsRecordType};
use crate::text::{
    ipv4_text, ipv4_to_string, ipv6_text, ipv6_to_string, utf8_str,
};

verus! {

broadcast use vstd::seq_lib::group_seq_properties;

/// DNS class code for the Internet class.
pub const CLASS_IN: u16 = 1;

/// The recursion-desired header flag.
pub const FLAG_RD: u16 = 0x0100;

/// The truncation header flag.
pub const FLAG_TC: u16 = 0x0200;

/// Byte length of the fixed DNS message header.
pub const HEADER_LEN: usize = 12;

/// DNS response code: no error.
pub const RCODE_NOERROR: u8 = 0;

/// DNS response code: the name does not exist.
pub const RCODE_NXDOMAIN: u8 = 3;

/// DNS response code: the query was refused.
pub const RCODE_REFUSED: u8 = 5;

/// DNS response code: server failure.
pub const RCODE_SERVFAIL: u8 = 2;

/// DNS resource record type code for A.
pub const TYPE_A: u16 = 1;

/// DNS resource record type code for AAAA.
pub const TYPE_AAAA: u16 = 28;

/// DNS resource record type code for CNAME.
pub const TYPE_CNAME: u16 = 5;

/// The label separator of a textual name.
pub const DOT: u8 = 0x2e;

/// Errors produced by the wire codec.
#[derive(Debug, Clone, Copy, PartialEq, Eq, Structural)]
pub enum WireError {
    /// The message is shorter than its header, a record, or a length field.
    Short,
    /// A name label exceeds 63 bytes, or the encoded name exceeds 255.
    NameTooLong,
    /// A name contains an empty label or unsupported label type.
    Malformed,
    /// Name decompression exceeded the pointer-hopping guard.
    CompressionLoop,
}

impl WireError {
    /// The human-readable description of the error.
    pub fn message(&self) -> (r: &'static str)
        ensures
            r@ == wire_error_text(*self),
    {
        match self {
            WireError::Short => "DNS message is shorter than expected",
            WireError::NameTooLong => "DNS name label or name is too long",
            WireError::Malformed => "malformed DNS name",
            WireError::CompressionLoop => "DNS name compression pointer loop",
        }
    }
}

/// The description of each wire error.
pub open spec fn wire_error_text(e: WireError) -> Seq<char> {
    match e {
        WireError::Short => "DNS message is shorter than expected"@,
        WireError::NameTooLong => "DNS name label or name is too long"@,
        WireError::Malformed => "malformed DNS name"@,
        WireError::CompressionLoop => "DNS name compression pointer loop"@,
    }
}

/// A parsed upstream DNS response, ready to be mapped to a
/// [`crate::dns::DnsResponse`].
#[derive(Debug, Clone, PartialEq)]
pub struct ParsedResponse {
    /// The transaction id echoed by the resolver (used for correlation).
    pub txid: u16,
    /// The typed outcome derived from the header.
    pub outcome: DnsOutcome,
    /// A/AAAA addresses carried by the answer section.
    pub addresses: Vec<String>,
}

/// The IANA RR TYPE code of a record type.
pub open spec fn record_code(t: DnsRecordType) -> u16 {
    match t {
        DnsRecordType::A => TYPE_A,
        DnsRecordType::Cname => TYPE_CNAME,
        DnsRecordType::Aaaa => TYPE_AAAA,
    }
}

impl DnsRecordType {
    /// Maps a record type to its IANA RR TYPE code.
    pub fn as_wire(self) -> (r: u16)
        ensures
            r == record_code(self),
    {
        match self {
            DnsRecordType::A => TYPE_A,
            DnsRecordType::Cname => TYPE_CNAME,
            DnsRecordType::Aaaa => TYPE_AAAA,
        }
    }
}

// ---------------------------------------------------------------------------
// Names on the wire.
// ---------------------------------------------------------------------------
/// The bytes with every trailing dot removed.
pub open spec fn trim_dots(b: Seq<u8>) -> Seq<u8>
    decreases b.len(),
{
    if b.len() > 0 && b.last() == DOT {
        trim_dots(b.drop_last())
    } else {
        b
    }
}

/// The pieces between the dots of `t`, as `str::split('.')` yields them:
/// always at least one piece, empty pieces included.
pub open spec fn split_dots(t: Seq<u8>) -> Seq<Seq<u8>>
    decreases t.len(),
{
    if t.len() == 0 {
        seq![Seq::empty()]
    } else {
        let s = split_dots(t.drop_last());
        if t.last() == DOT {
            s.push(Seq::empty())
        } else {
            s.update(s.len() - 1, s.last().push(t.last()))
        }
    }
}

/// What is wrong with a single label, if anything.
pub open spec fn label_error(l: Seq<u8>) -> Option<WireError> {
    if l.len() == 0 {
        Some(WireError::Malformed)
    } else if l.len() > 63 {
        Some(WireError::NameTooLong)
    } else {
        None
    }
}

/// The error of the first faulty label, if any.
pub open spec fn first_label_error(ls: Seq<Seq<u8>>) -> Option<WireError>
    decreases ls.len(),
{
    if ls.len() == 0 {
        None
    } else {
        match first_label_error(ls.drop_last()) {
            Some(e) => Some(e),
            None => label_error(ls.last()),
        }
    }
}

/// Length-prefixed labels, one after the other.
pub open spec fn labels_wire(ls: Seq<Seq<u8>>) -> Seq<u8>
    decreases ls.len(),
{
    if ls.len() == 0 {
        Seq::empty()
    } else {
        labels_wire(ls.drop_last()) + seq![ls.last().len() as u8] + ls.last()
    }
}

/// The wire encoding of a textual name given by its UTF-8 bytes: trailing
/// dots are ignored, an empty name is the root (a single zero byte), every
/// label must be 1 to 63 bytes long, and the labels with their length
/// prefixes must stay under 255 bytes before the zero terminator.
pub open spec fn name_wire(b: Seq<u8>) -> Result<Seq<u8>, WireError> {
    let t = trim_dots(b);
    if t.len() == 0 {
        Ok(seq![0u8])
    } else {
        let ls = split_dots(t);
        match first_label_error(ls) {
            Some(e) => Err(e),
            None => if labels_wire(ls).len() >= 255 {
                Err(WireError::NameTooLong)
            } else {
                Ok(labels_wire(ls).push(0))
            },
        }
    }
}

/// The big-endian bytes of a 16-bit value.
pub open spec fn be16(v: u16) -> Seq<u8> {
    seq![(v / 256) as u8, (v % 256) as u8]
}

/// The 16-bit value of two big-endian bytes.
pub open spec fn from_be(hi: u8, lo: u8) -> u16 {
    (hi * 256 + lo) as u16
}

/// The header of a query with id `txid`: recursion desired, one question,
/// no answer, authority or additional records.
pub open spec fn query_header(txid: u16) -> Seq<u8> {
    be16(txid) + be16(FLAG_RD) + be16(1) + seq![0u8, 0, 0, 0, 0, 0]
}

/// The complete wire query for a typed query.
pub open spec fn query_wire(q: DnsQuery, txid: u16) -> Result<Seq<u8>, WireError> {
    match name_wire(encode_utf8(q.name@)) {
        Err(e) => Err(e),
        Ok(name) => Ok(query_header(txid) + name + be16(record_code(q.record_type)) + be16(
            CLASS_IN,
        )),
    }
}

proof fn lemma_split_nonempty(t: Seq<u8>)
    ensures
        split_dots(t).len() >= 1,
    decreases t.len(),
{
    if t.len() > 0 {
        lemma_split_nonempty(t.drop_last());
    }
}

/// The labels before the last one never change as more bytes follow.
proof fn lemma_split_prefix_stable(t: Seq<u8>, i: int, j: int)
    requires
        0 <= i <= j <= t.len(),
    ensures
        split_dots(t.subrange(0, i)).len() <= split_dots(t.subrange(0, j)).len(),
        split_dots(t.subrange(0, i)).drop_last() == split_dots(t.subrange(0, j)).subrange(
            0,
            split_dots(t.subrange(0, i)).len() - 1,
        ),
    decreases j - i,
{
    lemma_split_nonempty(t.subrange(0, i));
    lemma_split_nonempty(t.subrange(0, j));
    if i < j {
        lemma_split_prefix_stable(t, i, j - 1);
        let a = split_dots(t.subrange(0, i));
        let s = split_dots(t.subrange(0, j - 1));
        lemma_split_nonempty(t.subrange(0, j - 1));
        assert(t.subrange(0, j).drop_last() =~= t.subrange(0, j - 1));
        let sj = split_dots(t.subrange(0, j));
        if t[j - 1] == DOT {
            assert(sj == s.push(Seq::empty()));
        } else {
            assert(sj == s.update(s.len() - 1, s.last().push(t[j - 1])));
        }
        assert(a.drop_last() =~= sj.subrange(0, a.len() - 1));
    } else {
        assert(split_dots(t.subrange(0, i)).drop_last() =~= split_dots(t.subrange(0, j)).subrange(
            0,
            split_dots(t.subrange(0, i)).len() - 1,
        ));
    }
}

proof fn lemma_first_error_prefix(a: Seq<Seq<u8>>, b: Seq<Seq<u8>>)
    requires
        first_label_error(a) is Some,
    ensures
        first_label_error(a + b) == first_label_error(a),
    decreases b.len(),
{
    if b.len() > 0 {
        lemma_first_error_prefix(a, b.drop_last());
        assert((a + b).drop_last() =~= a + b.drop_last());
    } else {
        assert(a + b =~= a);
    }
}

proof fn lemma_first_error_of_prefix(ls: Seq<Seq<u8>>, k: int)
    requires
        0 <= k <= ls.len(),
        first_label_error(ls.subrange(0, k)) is Some,
    ensures
        first_label_error(ls) == first_label_error(ls.subrange(0, k)),
{
    lemma_first_error_prefix(ls.subrange(0, k), ls.subrange(k, ls.len() as int));
    assert(ls.subrange(0, k) + ls.subrange(k, ls.len() as int) =~= ls);
}

/// Appends `src[start..end]` to `out`.
fn append_range(out: &mut Vec<u8>, src: &[u8], start: usize, end: usize)
    requires
        start <= end <= src@.len(),
    ensures
        final(out)@ == old(out)@ + src@.subrange(start as int, end as int),
{
    let mut k = start;
    while k < end
        invariant
            start <= k <= end,
            end <= src@.len(),
            out@ == old(out)@ + src@.subrange(start as int, k as int),
        decreases end - k,
    {
        out.push(src[k]);
        assert(src@.subrange(start as int, k + 1) =~= src@.subrange(start as int, k as int).push(
            src@[k as int],
        ));
        k = k + 1;
    }
}

/// Encodes a domain name as a sequence of length-prefixed labels followed
/// by a zero terminator, appended to `out`.
fn encode_name(name: &str, out: &mut Vec<u8>) -> (r: Result<(), WireError>)
    ensures
        match name_wire(encode_utf8(name@)) {
            Ok(w) => r is Ok && final(out)@ == old(out)@ + w,
            Err(e) => r == Err::<(), WireError>(e),
        },
{
    let bytes = name.as_bytes();
    let ghost b = bytes@;
    assert(b == encode_utf8(name@));
    let mut e = bytes.len();
    assert(b.subrange(0, e as int) =~= b);
    while e > 0 && bytes[e - 1] == DOT
        invariant
            e <= b.len(),
            bytes@ == b,
            trim_dots(b) == trim_dots(b.subrange(0, e as int)),
        decreases e,
    {
        assert(b.subrange(0, e as int).drop_last() =~= b.subrange(0, e - 1));
        e = e - 1;
    }
    let ghost t = b.subrange(0, e as int);
    assert(trim_dots(t) == t);
    if e == 0 {
        out.push(0);
        assert(seq![0u8] =~= Seq::<u8>::empty().push(0));
        return Ok(());
    }
    let ghost init = out@;
    let ghost mut done: Seq<Seq<u8>> = Seq::empty();
    let mut start: usize = 0;
    let mut i: usize = 0;
    assert(t.subrange(0, 0) =~= Seq::<u8>::empty());
    assert(split_dots(t.subrange(0, 0)) =~= done.push(t.subrange(0, 0)));
    while i < e
        invariant
            bytes@ == b,
            t == b.subrange(0, e as int),
            e <= b.len(),
            start <= i <= e,
            split_dots(t.subrange(0, i as int)) == done.push(t.subrange(start as int, i as int)),
            first_label_error(done) is None,
            out@ == init + labels_wire(done),
            labels_wire(done).len() == start,
            init == old(out)@,
            trim_dots(b) == t,
            b == encode_utf8(name@),
        decreases e - i,
    {
        let ghost prev = t.subrange(0, i as int);
        assert(t.subrange(0, i + 1).drop_last() =~= prev);
        assert(t.subrange(0, i + 1).last() == t[i as int]);
        if bytes[i] == DOT {
            let len = i - start;
            let ghost label = t.subrange(start as int, i as int);
            proof {
                assert(split_dots(t.subrange(0, i + 1)) == done.push(label).push(Seq::empty()));
                lemma_split_prefix_stable(t, i + 1, e as int);
                assert(t.subrange(0, e as int) =~= t);
                assert(split_dots(t).subrange(0, done.len() + 1 as int) =~= done.push(label));
                assert(done.push(label).drop_last() =~= done);
            }
            if len == 0 {
                proof {
                    assert(done.push(label).last() == label);
                    assert(first_label_error(done.push(label)) == Some(WireError::Malformed));
                    lemma_first_error_of_prefix(split_dots(t), done.len() + 1 as int);
                    assert(trim_dots(b) == t);
                }
                return Err(WireError::Malformed);
            }
            if len > 63 {
                proof {
                    assert(done.push(label).last() == label);
                    assert(first_label_error(done.push(label)) == Some(WireError::NameTooLong));
                    lemma_first_error_of_prefix(split_dots(t), done.len() + 1 as int);
                    assert(trim_dots(b) == t);
                }
                return Err(WireError::NameTooLong);
            }
            out.push(len as u8);
            append_range(out, bytes, start, i);
            proof {
                assert(done.push(label).last() == label);
                assert(labels_wire(done.push(label)) =~= labels_wire(done) + seq![label.len() as u8]
                    + label);
                done = done.push(label);
                assert(t.subrange(i + 1, i + 1) =~= Seq::<u8>::empty());
            }
            start = i + 1;
        } else {
            proof {
                let lbl = t.subrange(start as int, i as int);
                assert(t.subrange(start as int, i + 1) =~= lbl.push(t[i as int]));
                assert(done.push(lbl).update(done.len() as int, lbl.push(t[i as int])) =~= done.push(
                    lbl.push(t[i as int]),
                ));
            }
        }
        i = i + 1;
    }
    let len = e - start;
    let ghost label = t.subrange(start as int, e as int);
    proof {
        assert(t.subrange(0, e as int) =~= t);
        assert(split_dots(t) == done.push(label));
        assert(done.push(label).drop_last() =~= done);
        assert(done.push(label).last() == label);
    }
    if len == 0 {
        return Err(WireError::Malformed);
    }
    if len > 63 {
        return Err(WireError::NameTooLong);
    }
    proof {
        assert(labels_wire(done.push(label)) =~= labels_wire(done) + seq![label.len() as u8]
            + label);
    }
    if e >= 254 {
        return Err(WireError::NameTooLong);
    }
    out.push(len as u8);
    append_range(out, bytes, start, e);
    out.push(0);
    proof {
        assert(out@ =~= old(out)@ + labels_wire(done.push(label)).push(0));
    }
    Ok(())
}

/// Encodes a [`DnsQuery`] into a complete wire DNS query message: the
/// recursion-desired flag, a single question, and no other records.
pub fn encode_query(query: &DnsQuery, txid: u16) -> (r: Result<Vec<u8>, WireError>)
    ensures
        match query_wire(*query, txid) {
            Ok(w) => r matches Ok(v) && v@ == w,
            Err(e) => r == Err::<Vec<u8>, WireError>(e),
        },
{
    let mut out: Vec<u8> = Vec::new();
    out.push((txid / 256) as u8);
    out.push((txid % 256) as u8);
    out.push((FLAG_RD / 256) as u8);
    out.push((FLAG_RD % 256) as u8);
    out.push(0);
    out.push(1);
    out.push(0);
    out.push(0);
    out.push(0);
    out.push(0);
    out.push(0);
    out.push(0);
    assert(out@ =~= query_header(txid));
    let ghost header = out@;
    match encode_name(query.name.as_str(), &mut out) {
        Ok(()) => {},
        Err(e) => return Err(e),
    }
    let ghost with_name = out@;
    let code = query.record_type.as_wire();
    out.push((code / 256) as u8);
    out.push((code % 256) as u8);
    out.push((CLASS_IN / 256) as u8);
    out.push((CLASS_IN % 256) as u8);
    assert(out@ =~= with_name + be16(code) + be16(CLASS_IN));
    Ok(out)
}

// ---------------------------------------------------------------------------
// Responses on the wire.
// ---------------------------------------------------------------------------
/// The 4-bit response code of the flags field.
pub open spec fn rcode_of(flags: u16) -> u8 {
    (flags & 0x000f) as u8
}

/// The typed outcome the header flags announce.
pub open spec fn outcome_of(flags: u16) -> DnsOutcome {
    if flags & FLAG_TC != 0 {
        DnsOutcome::Truncated
    } else {
        let code = rcode_of(flags);
        if code == RCODE_NOERROR {
            DnsOutcome::Success
        } else if code == RCODE_SERVFAIL {
            DnsOutcome::ServFail
        } else if code == RCODE_NXDOMAIN {
            DnsOutcome::NxDomain
        } else if code == RCODE_REFUSED {
            DnsOutcome::Refused
        } else {
            DnsOutcome::Upstream
        }
    }
}

/// Walks an encoded name from `pos`, following compression pointers.
/// `labels` are the labels read so far; `end` is the position just past the
/// name's encoding at its first place, fixed by the first pointer followed (or by
/// the terminator when no pointer is). After more than 32 pointer hops the
/// walk gives up with [`WireError::CompressionLoop`].
pub open spec fn name_walk(
    b: Seq<u8>,
    pos: int,
    jumped: bool,
    jumps: nat,
    labels: Seq<Seq<u8>>,
    end: int,
) -> Result<(Seq<Seq<u8>>, int), WireError>
    decreases 33 - jumps, b.len() - pos,
{
    if jumps > 32 {
        Err(WireError::CompressionLoop)
    } else if !(0 <= pos < b.len()) {
        Err(WireError::Short)
    } else {
        let length = b[pos];
        if length == 0 {
            Ok((labels, if jumped { end } else { pos + 1 }))
        } else if length >= 0xc0 {
            if pos + 1 >= b.len() {
                Err(WireError::Short)
            } else {
                let pointer = (length & 0x3f) * 256 + b[pos + 1];
                let end2 = if jumped { end } else { pos + 2 };
                if jumps + 1 > 32 {
                    Err(WireError::CompressionLoop)
                } else {
                    name_walk(b, pointer, true, jumps + 1, labels, end2)
                }
            }
        } else if length >= 0x40 {
            Err(WireError::Malformed)
        } else {
            let start = pos + 1;
            let stop = start + length;
            if stop > b.len() {
                Err(WireError::Short)
            } else if !valid_utf8(b.subrange(start, stop)) {
                Err(WireError::Malformed)
            } else {
                name_walk(b, stop, jumped, jumps, labels.push(b.subrange(start, stop)), end)
            }
        }
    }
}

/// The labels of a decoded name joined with dots.
pub open spec fn join_dots(ls: Seq<Seq<u8>>) -> Seq<u8>
    decreases ls.len(),
{
    if ls.len() == 0 {
        Seq::empty()
    } else if ls.len() == 1 {
        ls[0]
    } else {
        join_dots(ls.drop_last()) + seq![DOT] + ls.last()
    }
}

/// The name that starts at `start`: its labels and the position just past
/// its encoding.
pub open spec fn name_at(b: Seq<u8>, start: int) -> Result<(Seq<Seq<u8>>, int), WireError> {
    name_walk(b, start, false, 0, Seq::empty(), start)
}

/// Skips `n` questions from `pos`: a name, then type and class.
pub open spec fn skip_questions(b: Seq<u8>, pos: int, n: nat) -> Result<int, WireError>
    decreases n,
{
    if n == 0 {
        Ok(pos)
    } else {
        match name_at(b, pos) {
            Err(e) => Err(e),
            Ok((_labels, end)) => if end + 4 > b.len() {
                Err(WireError::Short)
            } else {
                skip_questions(b, end + 4, (n - 1) as nat)
            },
        }
    }
}

/// The address an answer record with type `rtype` carries in `rdata`, if it
/// is an A record with four bytes or an AAAA record with sixteen.
pub open spec fn answer_address(rtype: u16, rdata: Seq<u8>) -> Option<Seq<char>> {
    if rtype == TYPE_A && rdata.len() == 4 {
        Some(ipv4_text(rdata[0], rdata[1], rdata[2], rdata[3]))
    } else if rtype == TYPE_AAAA && rdata.len() == 16 {
        Some(ipv6_text(rdata))
    } else {
        None
    }
}

/// Reads `n` answer records from `pos`, appending their addresses to `acc`.
pub open spec fn read_answers(b: Seq<u8>, pos: int, n: nat, acc: Seq<Seq<char>>) -> Result<
    Seq<Seq<char>>,
    WireError,
>
    decreases n,
{
    if n == 0 {
        Ok(acc)
    } else {
        match name_at(b, pos) {
            Err(e) => Err(e),
            Ok((_labels, end)) => if end + 10 > b.len() {
                Err(WireError::Short)
            } else {
                let p = end + 10;
                let rtype = from_be(b[p - 10], b[p - 9]);
                let rdlength = from_be(b[p - 2], b[p - 1]);
                if p + rdlength > b.len() {
                    Err(WireError::Short)
                } else {
                    let acc2 = match answer_address(rtype, b.subrange(p, p + rdlength)) {
                        Some(a) => acc.push(a),
                        None => acc,
                    };
                    read_answers(b, p + rdlength, (n - 1) as nat, acc2)
                }
            },
        }
    }
}

/// A whole response: id, outcome and addresses.
pub open spec fn response_spec(b: Seq<u8>) -> Result<(u16, DnsOutcome, Seq<Seq<char>>), WireError> {
    if b.len() < 12 {
        Err(WireError::Short)
    } else {
        let txid = from_be(b[0], b[1]);
        let flags = from_be(b[2], b[3]);
        let qdcount = from_be(b[4], b[5]);
        let ancount = from_be(b[6], b[7]);
        match skip_questions(b, 12, qdcount as nat) {
            Err(e) => Err(e),
            Ok(p) => match read_answers(b, p, ancount as nat, Seq::empty()) {
                Err(e) => Err(e),
                Ok(addresses) => Ok((txid, outcome_of(flags), addresses)),
            },
        }
    }
}

/// The views of a vector of strings.
pub open spec fn string_views(v: Seq<String>) -> Seq<Seq<char>> {
    v.map_values(|s: String| s@)
}

/// Parses an upstream DNS response message.
pub fn parse_response(bytes: &[u8]) -> (r: Result<ParsedResponse, WireError>)
    ensures
        match response_spec(bytes@) {
            Ok((txid, outcome, addresses)) => r matches Ok(p) && p.txid == txid && p.outcome
                == outcome && string_views(p.addresses@) == addresses,
            Err(e) => r matches Err(x) && x == e,
        },
{
    let ghost b = bytes@;
    let n = bytes.len();
    if n < HEADER_LEN {
        return Err(WireError::Short);
    }
    let txid = (bytes[0] as u16) * 256 + (bytes[1] as u16);
    let flags = (bytes[2] as u16) * 256 + (bytes[3] as u16);
    let qdcount = (bytes[4] as u16) * 256 + (bytes[5] as u16);
    let ancount = (bytes[6] as u16) * 256 + (bytes[7] as u16);
    let outcome = if flags & FLAG_TC != 0 {
        DnsOutcome::Truncated
    } else {
        let code = rcode(flags);
        if code == RCODE_NOERROR {
            DnsOutcome::Success
        } else if code == RCODE_SERVFAIL {
            DnsOutcome::ServFail
        } else if code == RCODE_NXDOMAIN {
            DnsOutcome::NxDomain
        } else if code == RCODE_REFUSED {
            DnsOutcome::Refused
        } else {
            DnsOutcome::Upstream
        }
    };
    assert(outcome == outcome_of(from_be(b[2], b[3])));
    let mut pos: usize = HEADER_LEN;
    let mut q: u16 = 0;
    while q < qdcount
        invariant
            bytes@ == b,
            n == b.len(),
            b.len() >= 12,
            q <= qdcount,
            qdcount == from_be(b[4], b[5]),
            skip_questions(b, 12, qdcount as nat) == skip_questions(
                b,
                pos as int,
                (qdcount - q) as nat,
            ),
        decreases qdcount - q,
    {
        let (_name, end) = match parse_name(bytes, pos) {
            Ok(found) => found,
            Err(e) => return Err(e),
        };
        let next = match end.checked_add(4) {
            Some(next) => next,
            None => return Err(WireError::Short),
        };
        if next > bytes.len() {
            return Err(WireError::Short);
        }
        pos = next;
        q = q + 1;
    }
    let ghost qend = pos as int;
    assert(skip_questions(b, 12, qdcount as nat) == Ok::<int, WireError>(qend));
    let mut addresses: Vec<String> = Vec::new();
    let mut a: u16 = 0;
    assert(string_views(addresses@) =~= Seq::<Seq<char>>::empty());
    while a < ancount
        invariant
            bytes@ == b,
            n == b.len(),
            b.len() >= 12,
            a <= ancount,
            ancount == from_be(b[6], b[7]),
            qdcount == from_be(b[4], b[5]),
            skip_questions(b, 12, qdcount as nat) == Ok::<int, WireError>(qend),
            read_answers(b, pos as int, (ancount - a) as nat, string_views(addresses@))
                == read_answers(b, qend, ancount as nat, Seq::empty()),
        decreases ancount - a,
    {
        let (_name, end) = match parse_name(bytes, pos) {
            Ok(found) => found,
            Err(e) => return Err(e),
        };
        let p = match require(bytes, end, 10) {
            Ok(p) => p,
            Err(e) => return Err(e),
        };
        let rtype = (bytes[p - 10] as u16) * 256 + (bytes[p - 9] as u16);
        let rdlength = (bytes[p - 2] as u16) * 256 + (bytes[p - 1] as u16);
        let rdata_end = match p.checked_add(rdlength as usize) {
            Some(rdata_end) => rdata_end,
            None => return Err(WireError::Short),
        };
        if rdata_end > bytes.len() {
            return Err(WireError::Short);
        }
        let ghost before = string_views(addresses@);
        if rtype == TYPE_A && rdlength == 4 {
            let text = ipv4_to_string(bytes[p], bytes[p + 1], bytes[p + 2], bytes[p + 3]);
            addresses.push(text);
        } else if rtype == TYPE_AAAA && rdlength == 16 {
            let text = ipv6_to_string(&bytes[p..rdata_end]);
            addresses.push(text);
        }
        proof {
            let rdata = b.subrange(p as int, rdata_end as int);
            match answer_address(rtype, rdata) {
                Some(t) => {
                    assert(string_views(addresses@) =~= before.push(t));
                },
                None => {
                    assert(string_views(addresses@) =~= before);
                },
            }
        }
        pos = rdata_end;
        a = a + 1;
    }
    Ok(ParsedResponse { txid, outcome, addresses })
}

/// Decodes a domain name, following compression pointers.
///
/// Returns the decoded name and the position just past the name's encoding
/// at `start` (past the pointer itself when a compression pointer is
/// followed).
fn parse_name(bytes: &[u8], start: usize) -> (r: Result<(String, usize), WireError>)
    ensures
        match name_at(bytes@, start as int) {
            Ok((labels, end)) => r matches Ok((name, e)) && e == end && encode_utf8(name@)
                == join_dots(labels),
            Err(err) => r matches Err(x) && x == err,
        },
{
    let ghost b = bytes@;
    let mut joined: Vec<u8> = Vec::new();
    let ghost mut labels: Seq<Seq<u8>> = Seq::empty();
    let mut pos = start;
    let mut end = start;
    let mut jumped = false;
    let mut jumps: usize = 0;
    let mut have_label = false;
    proof {
        assert(valid_utf8(Seq::<u8>::empty()));
    }
    loop
        invariant
            bytes@ == b,
            jumps <= 32,
            name_at(b, start as int) == name_walk(b, pos as int, jumped, jumps as nat, labels, end as int),
            joined@ == join_dots(labels),
            valid_utf8(joined@),
            have_label == (labels.len() > 0),
        decreases 33 - jumps, b.len() - pos,
    {
        if pos >= bytes.len() {
            return Err(WireError::Short);
        }
        let length = bytes[pos];
        if length == 0 {
            if !jumped {
                end = pos + 1;
            }
            return match utf8_str(joined.as_slice()) {
                Some(name) => Ok((name.to_owned(), end)),
                None => Err(WireError::Malformed),
            };
        } else if length >= 0xc0 {
            if pos + 1 >= bytes.len() {
                return Err(WireError::Short);
            }
            let next = bytes[pos + 1];
            let pointer = ((length & 0x3f) as usize) * 256 + (next as usize);
            if !jumped {
                end = pos + 2;
            }
            pos = pointer;
            jumped = true;
            jumps = jumps + 1;
            if jumps > 32 {
                return Err(WireError::CompressionLoop);
            }
        } else if length >= 0x40 {
            return Err(WireError::Malformed);
        } else {
            let label_len = length as usize;
            let label_start = pos + 1;
            let label_end = match require(bytes, label_start, label_len) {
                Ok(label_end) => label_end,
                Err(e) => return Err(e),
            };
            let label = &bytes[label_start..label_end];
            match utf8_str(label) {
                Some(_text) => {},
                None => return Err(WireError::Malformed),
            }
            let ghost lbl = label@;
            let ghost old_joined = joined@;
            if have_label {
                joined.push(DOT);
            }
            append_range(&mut joined, bytes, label_start, label_end);
            proof {
                let nl = labels.push(lbl);
                assert(nl.drop_last() =~= labels);
                assert(nl.last() == lbl);
                if labels.len() > 0 {
                    assert(joined@ =~= old_joined + seq![DOT] + lbl);
                    lemma_dot_valid_utf8();
                    vstd::utf8::valid_utf8_concat(old_joined, seq![DOT]);
                    vstd::utf8::valid_utf8_concat(old_joined + seq![DOT], lbl);
                } else {
                    assert(joined@ =~= lbl);
                    assert(nl[0] == lbl);
                }
                labels = nl;
            }
            have_label = true;
            pos = label_end;
        }
    }
}

proof fn lemma_dot_valid_utf8()
    ensures
        valid_utf8(seq![DOT]),
{
    let d = seq![DOT];
    let dot: u8 = DOT;
    assert((dot & 0x7f) as u32 == 0x2e) by (bit_vector)
        requires
            dot == 0x2e,
    ;
    assert(d[0] == DOT);
    assert(is_leading_byte_width_1(d[0]));
    assert(decode_first_codepoint(d) == 0x2e);
    assert(length_of_first_codepoint(d) == 1);
    assert(not_surrogate(decode_first_codepoint(d)));
    assert(not_overlong_encoding(decode_first_codepoint(d), length_of_first_codepoint(d)));
    assert(valid_leading_and_continuation_bytes_first_codepoint(d));
    assert(valid_first_scalar(d));
    assert(pop_first_scalar(d) =~= Seq::<u8>::empty());
    assert(valid_utf8(Seq::<u8>::empty()));
    assert(valid_utf8(pop_first_scalar(d)));
}

/// Extracts the 4-bit response code from the flags field.
fn rcode(flags: u16) -> (r: u8)
    ensures
        r == rcode_of(flags),
{
    (flags & 0x000f) as u8
}

/// Ensures `len` more bytes are available at `pos`, returning the advanced
/// position.
fn require(bytes: &[u8], pos: usize, len: usize) -> (r: Result<usize, WireError>)
    ensures
        pos + len <= bytes@.len() ==> r == Ok::<usize, WireError>((pos + len) as usize),
        pos + len > bytes@.len() ==> r == Err::<usize, WireError>(WireError::Short),
{
    let n = bytes.len();
    let end = match pos.checked_add(len) {
        Some(end) => end,
        None => return Err(WireError::Short),
    };
    if end > n {
        return Err(WireError::Short);
    }
    Ok(end)
}

/// The addresses read after `acc`, with nothing before them.
pub open spec fn after_prefix(
    acc: Seq<Seq<char>>,
    r: Result<Seq<Seq<char>>, WireError>,
) -> Result<Seq<Seq<char>>, WireError> {
    match r {
        Ok(rest) => Ok(acc + rest),
        Err(e) => Err(e),
    }
}

/// Reading answers keeps what was read before: reading `n` answers after
/// the addresses `acc` gives `acc` followed by exactly what reading them
/// from scratch gives (or the same error), so each answer's address is
/// appended after all earlier ones and none is dropped or replaced.
pub proof fn lemma_read_answers_keeps_earlier(b: Seq<u8>, pos: int, n: nat, acc: Seq<Seq<char>>)
    ensures
        read_answers(b, pos, n, acc) == after_prefix(acc, read_answers(b, pos, n, Seq::empty())),
    decreases n,
{
    if n == 0 {
        assert(acc + Seq::<Seq<char>>::empty() =~= acc);
    } else {
        match name_at(b, pos) {
            Err(e) => {},
            Ok((_labels, end)) => if end + 10 <= b.len() {
                let p = end + 10;
                let rtype = from_be(b[p - 10], b[p - 9]);
                let rdlength = from_be(b[p - 2], b[p - 1]);
                if p + rdlength <= b.len() {
                    let next = p + rdlength;
                    let m = (n - 1) as nat;
                    lemma_read_answers_keeps_earlier(b, next, m, Seq::empty());
                    match answer_address(rtype, b.subrange(p, p + rdlength)) {
                        Some(a) => {
                            lemma_read_answers_keeps_earlier(b, next, m, acc.push(a));
                            lemma_read_answers_keeps_earlier(b, next, m, seq![a]);
                            match read_answers(b, next, m, Seq::empty()) {
                                Ok(rest) => {
                                    assert(acc.push(a) + rest =~= acc + (seq![a] + rest));
                                    assert(Seq::<Seq<char>>::empty().push(a) =~= seq![a]);
                                },
                                Err(_) => {
                                    assert(Seq::<Seq<char>>::empty().push(a) =~= seq![a]);
                                },
                            }
                        },
                        None => {
                            lemma_read_answers_keeps_earlier(b, next, m, acc);
                        },
                    }
                }
            },
        }
    }
}

/// Reading `n` answers adds at most one address per answer, after the
/// addresses already read.
pub proof fn lemma_read_answers_bounded(b: Seq<u8>, pos: int, n: nat, acc: Seq<Seq<char>>)
    ensures
        read_answers(b, pos, n, acc) matches Ok(r) ==> acc.is_prefix_of(r) && r.len() <= acc.len() + n,
    decreases n,
{
    if n > 0 {
        match name_at(b, pos) {
            Err(e) => {},
            Ok((_labels, end)) => if end + 10 <= b.len() {
                let p = end + 10;
                let rtype = from_be(b[p - 10], b[p - 9]);
                let rdlength = from_be(b[p - 2], b[p - 1]);
                if p + rdlength <= b.len() {
                    let acc2 = match answer_address(rtype, b.subrange(p, p + rdlength)) {
                        Some(a) => acc.push(a),
                        None => acc,
                    };
                    lemma_read_answers_bounded(b, p + rdlength, (n - 1) as nat, acc2);
                    if read_answers(b, pos, n, acc) is Ok {
                        let r = read_answers(b, pos, n, acc)->Ok_0;
                        assert(acc =~= r.subrange(0, acc.len() as int)) by {
                            assert forall|k: int| 0 <= k < acc.len() implies acc[k] == r[k] by {
                                assert(acc2[k] == acc[k]);
                                assert(acc2 =~= r.subrange(0, acc2.len() as int));
                                assert(r.subrange(0, acc2.len() as int)[k] == r[k]);
                            }
                        }
                    }
                }
            },
        }
    }
}

} // verus!
