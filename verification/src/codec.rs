//! The wire codec: one message envelope per UDP datagram.
//!
//! Every number rides little-endian; characters ride as their Unicode scalar
//! values in four bytes, so any text round-trips exactly. Encoding never
//! fails for a well-formed message (`encodable`); decoding accepts exactly
//! what `parse_msg` names, and `lemma_codec_roundtrip` proves that the
//! encoding of any well-formed message decodes back to it.

use vstd::prelude::*;
use vstd::bytes::*;
use vstd::slice::slice_index_get;
use vstd::slice::slice_subrange;
use vstd::string::StrSliceExecFns;
use vstd::utf8::char_is_scalar;
use vstd::utf8::char_u32_cast;
use vstd::utf8::is_scalar;
use crate::endpoint::Endpoint;
use crate::message::Message;
use crate::message::MessageType;
use crate::message::MessageV;
use crate::message::pairs_view;

verus! {

/// A datagram that is not a strict encoding of any message.
#[derive(Clone, Copy, PartialEq, Eq, Structural, Debug)]
pub struct DecodeError;

/// The kind tag of each message type.
pub open spec fn kind_byte(t: MessageType) -> u8 {
    match t {
        MessageType::Chat => 0,
        MessageType::Discovery => 1,
        MessageType::Heartbeat => 2,
        MessageType::PeerList => 3,
    }
}

/// The message type of a kind tag, if the tag is one.
pub open spec fn byte_kind(k: u8) -> Option<MessageType> {
    if k == 0 {
        Some(MessageType::Chat)
    } else if k == 1 {
        Some(MessageType::Discovery)
    } else if k == 2 {
        Some(MessageType::Heartbeat)
    } else if k == 3 {
        Some(MessageType::PeerList)
    } else {
        None
    }
}

/// The bytes of the characters of `s` from position `i` on: each character
/// as its scalar value, four bytes little-endian.
pub open spec fn char_bytes_from(s: Seq<char>, i: int) -> Seq<u8>
    decreases s.len() - i,
{
    if i < 0 || i >= s.len() {
        Seq::empty()
    } else {
        spec_u32_to_le_bytes(s[i] as u32) + char_bytes_from(s, i + 1)
    }
}

/// The bytes of a string: its character count as two bytes, then its
/// characters.
pub open spec fn string_bytes(s: Seq<char>) -> Seq<u8> {
    spec_u16_to_le_bytes(s.len() as u16) + char_bytes_from(s, 0)
}

/// The bytes of an endpoint: the four IP octets, then the port.
pub open spec fn endpoint_bytes(e: Endpoint) -> Seq<u8> {
    seq![e.ip0, e.ip1, e.ip2, e.ip3] + spec_u16_to_le_bytes(e.port)
}

/// The bytes of an optional endpoint: a presence flag, then the endpoint.
pub open spec fn opt_endpoint_bytes(oe: Option<Endpoint>) -> Seq<u8> {
    match oe {
        None => seq![0u8],
        Some(e) => seq![1u8] + endpoint_bytes(e),
    }
}

/// The bytes of the gossip pairs from position `i` on: each a string and an
/// endpoint.
pub open spec fn pairs_bytes_from(ps: Seq<(Seq<char>, Endpoint)>, i: int) -> Seq<u8>
    decreases ps.len() - i,
{
    if i < 0 || i >= ps.len() {
        Seq::empty()
    } else {
        string_bytes(ps[i].0) + endpoint_bytes(ps[i].1) + pairs_bytes_from(ps, i + 1)
    }
}

/// The bytes of an optional gossip list: a presence flag, the pair count as
/// two bytes, then the pairs.
pub open spec fn peers_bytes(op: Option<Seq<(Seq<char>, Endpoint)>>) -> Seq<u8> {
    match op {
        None => seq![0u8],
        Some(ps) => seq![1u8] + spec_u16_to_le_bytes(ps.len() as u16) + pairs_bytes_from(ps, 0),
    }
}

/// The encoding of a whole message.
pub open spec fn msg_bytes(v: MessageV) -> Seq<u8> {
    seq![kind_byte(v.msg_type)] + string_bytes(v.sender) + string_bytes(v.content) + string_bytes(
        v.message_id,
    ) + spec_u64_to_le_bytes(v.timestamp as u64) + opt_endpoint_bytes(v.sender_addr) + peers_bytes(
        v.known_peers,
    )
}

/// Whether a message fits the wire format: every length fits the two-byte
/// counters. Every message the library builds satisfies this for any
/// realistic membership size.
pub open spec fn encodable(v: MessageV) -> bool {
    &&& v.sender.len() <= 65535
    &&& v.content.len() <= 65535
    &&& v.message_id.len() <= 65535
    &&& match v.known_peers {
        None => true,
        Some(ps) => ps.len() <= 65535 && forall|i: int|
            0 <= i < ps.len() ==> (#[trigger] ps[i]).0.len() <= 65535,
    }
}

/// Appends two little-endian bytes.
fn push_u16(out: &mut Vec<u8>, x: u16)
    ensures
        final(out)@ == old(out)@ + spec_u16_to_le_bytes(x),
{
    let mut b = u16_to_le_bytes(x);
    out.append(&mut b);
}

/// Appends eight little-endian bytes.
fn push_u64(out: &mut Vec<u8>, x: u64)
    ensures
        final(out)@ == old(out)@ + spec_u64_to_le_bytes(x),
{
    let mut b = u64_to_le_bytes(x);
    out.append(&mut b);
}

/// Appends the bytes of every character of `s`.
fn push_chars(out: &mut Vec<u8>, s: &str)
    ensures
        final(out)@ == old(out)@ + char_bytes_from(s@, 0),
{
    let n = s.unicode_len();
    let mut i: usize = 0;
    proof {
        assert(out@ + char_bytes_from(s@, 0) =~= old(out)@ + char_bytes_from(s@, 0));
    }
    while i < n
        invariant
            0 <= i <= n,
            n == s@.len(),
            out@ + char_bytes_from(s@, i as int) == old(out)@ + char_bytes_from(s@, 0),
        decreases n - i,
    {
        let c = s.get_char(i);
        let mut b = u32_to_le_bytes(c as u32);
        let ghost prev = out@;
        out.append(&mut b);
        proof {
            assert(out@ + char_bytes_from(s@, i as int + 1) =~= prev + char_bytes_from(
                s@,
                i as int,
            ));
        }
        i = i + 1;
    }
    proof {
        assert(char_bytes_from(s@, n as int) =~= Seq::<u8>::empty());
        assert(out@ =~= out@ + char_bytes_from(s@, n as int));
    }
}

/// Appends the bytes of a string: count, then characters.
fn push_string(out: &mut Vec<u8>, s: &str)
    requires
        s@.len() <= 65535,
    ensures
        final(out)@ == old(out)@ + string_bytes(s@),
{
    let n = s.unicode_len();
    push_u16(out, n as u16);
    push_chars(out, s);
    proof {
        assert(out@ =~= old(out)@ + string_bytes(s@));
    }
}

/// Appends the bytes of an endpoint.
fn push_endpoint(out: &mut Vec<u8>, e: &Endpoint)
    ensures
        final(out)@ == old(out)@ + endpoint_bytes(*e),
{
    out.push(e.ip0);
    out.push(e.ip1);
    out.push(e.ip2);
    out.push(e.ip3);
    push_u16(out, e.port);
    proof {
        assert(out@ =~= old(out)@ + endpoint_bytes(*e));
    }
}

/// Encodes a message into one datagram. Encoding a well-formed message
/// never fails: the result is exactly the bytes `msg_bytes` names.
pub fn encode(m: &Message) -> (r: Vec<u8>)
    requires
        encodable(m@),
    ensures
        r@ == msg_bytes(m@),
{
    let mut out: Vec<u8> = Vec::new();
    let tag: u8 = match m.msg_type {
        MessageType::Chat => 0,
        MessageType::Discovery => 1,
        MessageType::Heartbeat => 2,
        MessageType::PeerList => 3,
    };
    out.push(tag);
    push_string(&mut out, m.sender.as_str());
    push_string(&mut out, m.content.as_str());
    push_string(&mut out, m.message_id.as_str());
    push_u64(&mut out, m.timestamp as u64);
    match &m.sender_addr {
        None => {
            out.push(0u8);
        },
        Some(e) => {
            out.push(1u8);
            push_endpoint(&mut out, e);
        },
    }
    match &m.known_peers {
        None => {
            out.push(0u8);
            proof {
                assert(out@ =~= msg_bytes(m@));
            }
        },
        Some(ps) => {
            out.push(1u8);
            let n = ps.len();
            push_u16(&mut out, n as u16);
            let ghost gps = pairs_view(ps@);
            let ghost base = out@;
            let mut i: usize = 0;
            proof {
                assert(out@ + pairs_bytes_from(gps, 0) =~= base + pairs_bytes_from(gps, 0));
            }
            while i < n
                invariant
                    0 <= i <= n,
                    n == ps@.len(),
                    gps == pairs_view(ps@),
                    gps.len() == n,
                    forall|k: int| 0 <= k < n ==> (#[trigger] gps[k]).0.len() <= 65535,
                    out@ + pairs_bytes_from(gps, i as int) == base + pairs_bytes_from(gps, 0),
                decreases n - i,
            {
                proof {
                    assert(gps[i as int] == (ps@[i as int].0@, ps@[i as int].1));
                }
                let ghost prev = out@;
                push_string(&mut out, ps[i].0.as_str());
                push_endpoint(&mut out, &ps[i].1);
                proof {
                    assert(out@ + pairs_bytes_from(gps, i as int + 1) =~= prev + pairs_bytes_from(
                        gps,
                        i as int,
                    ));
                }
                i = i + 1;
            }
            proof {
                assert(pairs_bytes_from(gps, n as int) =~= Seq::<u8>::empty());
                assert(out@ =~= out@ + pairs_bytes_from(gps, n as int));
                assert(out@ =~= msg_bytes(m@));
            }
        },
    }
    out
}

/// Reads one byte at `i`.
pub open spec fn parse_u8(b: Seq<u8>, i: int) -> Option<(u8, int)> {
    if 0 <= i && i + 1 <= b.len() {
        Some((b[i], i + 1))
    } else {
        None
    }
}

/// Reads two little-endian bytes at `i`.
pub open spec fn parse_u16(b: Seq<u8>, i: int) -> Option<(u16, int)> {
    if 0 <= i && i + 2 <= b.len() {
        Some((spec_u16_from_le_bytes(b.subrange(i, i + 2)), i + 2))
    } else {
        None
    }
}

/// Reads eight little-endian bytes at `i`.
pub open spec fn parse_u64(b: Seq<u8>, i: int) -> Option<(u64, int)> {
    if 0 <= i && i + 8 <= b.len() {
        Some((spec_u64_from_le_bytes(b.subrange(i, i + 8)), i + 8))
    } else {
        None
    }
}

/// Reads `n` characters at `i`, each a four-byte scalar value; refuses a
/// value that is no Unicode scalar.
pub open spec fn parse_chars(b: Seq<u8>, i: int, n: int) -> Option<(Seq<char>, int)>
    decreases n,
{
    if n <= 0 {
        Some((Seq::empty(), i))
    } else if 0 <= i && i + 4 <= b.len() {
        let u = spec_u32_from_le_bytes(b.subrange(i, i + 4));
        if is_scalar(u) {
            match parse_chars(b, i + 4, n - 1) {
                Some((s, j)) => Some((seq![u as char] + s, j)),
                None => None,
            }
        } else {
            None
        }
    } else {
        None
    }
}

/// Reads a string at `i`: its character count, then its characters.
pub open spec fn parse_string(b: Seq<u8>, i: int) -> Option<(Seq<char>, int)> {
    match parse_u16(b, i) {
        Some((n, j)) => parse_chars(b, j, n as int),
        None => None,
    }
}

/// Reads an endpoint at `i`: four IP octets, then the port.
pub open spec fn parse_endpoint_b(b: Seq<u8>, i: int) -> Option<(Endpoint, int)> {
    if 0 <= i && i + 6 <= b.len() {
        Some(
            (
                Endpoint {
                    ip0: b[i],
                    ip1: b[i + 1],
                    ip2: b[i + 2],
                    ip3: b[i + 3],
                    port: spec_u16_from_le_bytes(b.subrange(i + 4, i + 6)),
                },
                i + 6,
            ),
        )
    } else {
        None
    }
}

/// Reads an optional endpoint at `i`: the flag byte must be 0 or 1.
pub open spec fn parse_opt_endpoint(b: Seq<u8>, i: int) -> Option<(Option<Endpoint>, int)> {
    match parse_u8(b, i) {
        Some((f, j)) => if f == 0 {
            Some((None, j))
        } else if f == 1 {
            match parse_endpoint_b(b, j) {
                Some((e, k)) => Some((Some(e), k)),
                None => None,
            }
        } else {
            None
        },
        None => None,
    }
}

/// Reads `n` gossip pairs at `i`.
pub open spec fn parse_pairs(b: Seq<u8>, i: int, n: int) -> Option<
    (Seq<(Seq<char>, Endpoint)>, int),
>
    decreases n,
{
    if n <= 0 {
        Some((Seq::empty(), i))
    } else {
        match parse_string(b, i) {
            Some((s, j)) => match parse_endpoint_b(b, j) {
                Some((e, k)) => match parse_pairs(b, k, n - 1) {
                    Some((ps, l)) => Some((seq![(s, e)] + ps, l)),
                    None => None,
                },
                None => None,
            },
            None => None,
        }
    }
}

/// Reads an optional gossip list at `i`: the flag byte must be 0 or 1.
pub open spec fn parse_peers(b: Seq<u8>, i: int) -> Option<
    (Option<Seq<(Seq<char>, Endpoint)>>, int),
> {
    match parse_u8(b, i) {
        Some((f, j)) => if f == 0 {
            Some((None, j))
        } else if f == 1 {
            match parse_u16(b, j) {
                Some((n, k)) => match parse_pairs(b, k, n as int) {
                    Some((ps, l)) => Some((Some(ps), l)),
                    None => None,
                },
                None => None,
            }
        } else {
            None
        },
        None => None,
    }
}

/// The parse of a whole datagram: every field in order, and nothing
/// trailing.
pub open spec fn parse_msg(b: Seq<u8>) -> Option<MessageV> {
    match parse_u8(b, 0) {
        Some((k, i0)) => match byte_kind(k) {
            Some(t) => match parse_string(b, i0) {
                Some((sender, i1)) => match parse_string(b, i1) {
                    Some((content, i2)) => match parse_string(b, i2) {
                        Some((message_id, i3)) => match parse_u64(b, i3) {
                            Some((ts, i4)) => match parse_opt_endpoint(b, i4) {
                                Some((oe, i5)) => match parse_peers(b, i5) {
                                    Some((op, i6)) => if i6 == b.len() {
                                        Some(
                                            MessageV {
                                                sender,
                                                content,
                                                message_id,
                                                timestamp: ts as i64,
                                                msg_type: t,
                                                sender_addr: oe,
                                                known_peers: op,
                                            },
                                        )
                                    } else {
                                        None
                                    },
                                    None => None,
                                },
                                None => None,
                            },
                            None => None,
                        },
                        None => None,
                    },
                    None => None,
                },
                None => None,
            },
            None => None,
        },
        None => None,
    }
}

/// The character bytes of `s` from `k` on take four bytes per character.
pub proof fn lemma_char_bytes_len(s: Seq<char>, k: int)
    requires
        0 <= k <= s.len(),
    ensures
        char_bytes_from(s, k).len() == 4 * (s.len() - k),
    decreases s.len() - k,
{
    if k < s.len() {
        lemma_char_bytes_len(s, k + 1);
        lemma_auto_spec_u32_to_from_le_bytes();
    }
}

/// Parsing the character bytes of `s` from `k` on yields those characters.
pub proof fn lemma_parse_chars_rt(b: Seq<u8>, i: int, s: Seq<char>, k: int)
    requires
        0 <= k <= s.len(),
        0 <= i,
        i + 4 * (s.len() - k) <= b.len(),
        b.subrange(i, i + 4 * (s.len() - k)) == char_bytes_from(s, k),
    ensures
        parse_chars(b, i, s.len() - k) == Some((s.skip(k), i + 4 * (s.len() - k))),
    decreases s.len() - k,
{
    let n = s.len() as int;
    if k == n {
        assert(s.skip(k) =~= Seq::<char>::empty());
    } else {
        lemma_auto_spec_u32_to_from_le_bytes();
        lemma_char_bytes_len(s, k + 1);
        let cb = spec_u32_to_le_bytes(s[k] as u32);
        assert(cb.len() == 4);
        assert(b.subrange(i, i + 4) =~= char_bytes_from(s, k).subrange(0, 4));
        assert(char_bytes_from(s, k).subrange(0, 4) =~= cb);
        let u = spec_u32_from_le_bytes(b.subrange(i, i + 4));
        assert(u == s[k] as u32);
        char_is_scalar(s[k]);
        char_u32_cast(s[k], u);
        assert(b.subrange(i + 4, i + 4 + 4 * (n - k - 1)) =~= char_bytes_from(s, k).subrange(
            4,
            char_bytes_from(s, k).len() as int,
        ));
        assert(char_bytes_from(s, k).subrange(4, char_bytes_from(s, k).len() as int)
            =~= char_bytes_from(s, k + 1)) by {
            lemma_char_bytes_len(s, k);
        }
        lemma_parse_chars_rt(b, i + 4, s, k + 1);
        assert(seq![u as char] + s.skip(k + 1) =~= s.skip(k));
    }
}

/// Parsing the bytes of a string yields that string.
pub proof fn lemma_parse_string_rt(b: Seq<u8>, i: int, s: Seq<char>)
    requires
        s.len() <= 65535,
        0 <= i,
        i + 2 + 4 * s.len() <= b.len(),
        b.subrange(i, i + 2 + 4 * s.len()) == string_bytes(s),
    ensures
        parse_string(b, i) == Some((s, i + 2 + 4 * s.len())),
{
    lemma_auto_spec_u16_to_from_le_bytes();
    lemma_char_bytes_len(s, 0);
    let hb = spec_u16_to_le_bytes(s.len() as u16);
    assert(hb.len() == 2);
    assert(b.subrange(i, i + 2) =~= string_bytes(s).subrange(0, 2));
    assert(string_bytes(s).subrange(0, 2) =~= hb);
    assert(parse_u16(b, i) == Some((s.len() as u16, i + 2)));
    assert(b.subrange(i + 2, i + 2 + 4 * s.len()) =~= string_bytes(s).subrange(
        2,
        string_bytes(s).len() as int,
    ));
    assert(string_bytes(s).subrange(2, string_bytes(s).len() as int) =~= char_bytes_from(s, 0));
    lemma_parse_chars_rt(b, i + 2, s, 0);
    assert(s.skip(0) =~= s);
}

/// Parsing the bytes of an endpoint yields that endpoint.
pub proof fn lemma_parse_endpoint_rt(b: Seq<u8>, i: int, e: Endpoint)
    requires
        0 <= i,
        i + 6 <= b.len(),
        b.subrange(i, i + 6) == endpoint_bytes(e),
    ensures
        parse_endpoint_b(b, i) == Some((e, i + 6)),
{
    lemma_auto_spec_u16_to_from_le_bytes();
    let pb = spec_u16_to_le_bytes(e.port);
    assert(pb.len() == 2);
    assert(b[i] == endpoint_bytes(e)[0]);
    assert(b[i + 1] == endpoint_bytes(e)[1]);
    assert(b[i + 2] == endpoint_bytes(e)[2]);
    assert(b[i + 3] == endpoint_bytes(e)[3]);
    assert(b.subrange(i + 4, i + 6) =~= endpoint_bytes(e).subrange(4, 6));
    assert(endpoint_bytes(e).subrange(4, 6) =~= pb);
}

/// Parsing the bytes of the gossip pairs from `k` on yields those pairs.
pub proof fn lemma_parse_pairs_rt(b: Seq<u8>, i: int, ps: Seq<(Seq<char>, Endpoint)>, k: int)
    requires
        0 <= k <= ps.len(),
        forall|m: int| 0 <= m < ps.len() ==> (#[trigger] ps[m]).0.len() <= 65535,
        0 <= i,
        i + pairs_bytes_from(ps, k).len() <= b.len(),
        b.subrange(i, i + pairs_bytes_from(ps, k).len()) == pairs_bytes_from(ps, k),
    ensures
        parse_pairs(b, i, ps.len() - k) == Some((ps.skip(k), i + pairs_bytes_from(ps, k).len())),
    decreases ps.len() - k,
{
    let n = ps.len() as int;
    if k == n {
        assert(ps.skip(k) =~= Seq::<(Seq<char>, Endpoint)>::empty());
        assert(pairs_bytes_from(ps, k).len() == 0);
    } else {
        let name = ps[k].0;
        let ep = ps[k].1;
        lemma_char_bytes_len(name, 0);
        lemma_auto_spec_u16_to_from_le_bytes();
        let sb = string_bytes(name);
        let eb = endpoint_bytes(ep);
        let rb = pairs_bytes_from(ps, k + 1);
        assert(sb.len() == 2 + 4 * name.len());
        assert(eb.len() == 6);
        assert(pairs_bytes_from(ps, k) =~= sb + eb + rb);
        let l1 = sb.len() as int;
        let l2 = l1 + 6;
        let total = pairs_bytes_from(ps, k).len() as int;
        assert(total == l2 + rb.len());
        assert(b.subrange(i, i + l1) =~= pairs_bytes_from(ps, k).subrange(0, l1));
        assert(pairs_bytes_from(ps, k).subrange(0, l1) =~= sb);
        lemma_parse_string_rt(b, i, name);
        assert(b.subrange(i + l1, i + l2) =~= pairs_bytes_from(ps, k).subrange(l1, l2));
        assert(pairs_bytes_from(ps, k).subrange(l1, l2) =~= eb);
        lemma_parse_endpoint_rt(b, i + l1, ep);
        assert(b.subrange(i + l2, i + total) =~= pairs_bytes_from(ps, k).subrange(l2, total));
        assert(pairs_bytes_from(ps, k).subrange(l2, total) =~= rb);
        lemma_parse_pairs_rt(b, i + l2, ps, k + 1);
        assert(seq![(name, ep)] + ps.skip(k + 1) =~= ps.skip(k));
    }
}

/// The codec round trip: the encoding of any well-formed message parses
/// back to exactly that message. Together with the contracts of `encode`
/// and `decode`, decoding an encoded message always succeeds and returns
/// the message unchanged.
#[verifier::rlimit(100)]
pub proof fn lemma_codec_roundtrip(v: MessageV)
    requires
        encodable(v),
    ensures
        parse_msg(msg_bytes(v)) == Some(v),
{
    let b = msg_bytes(v);
    lemma_auto_spec_u16_to_from_le_bytes();
    lemma_auto_spec_u64_to_from_le_bytes();
    lemma_char_bytes_len(v.sender, 0);
    lemma_char_bytes_len(v.content, 0);
    lemma_char_bytes_len(v.message_id, 0);
    let s1 = string_bytes(v.sender);
    let s2 = string_bytes(v.content);
    let s3 = string_bytes(v.message_id);
    let tb = spec_u64_to_le_bytes(v.timestamp as u64);
    let ob = opt_endpoint_bytes(v.sender_addr);
    let kb = peers_bytes(v.known_peers);
    assert(tb.len() == 8);
    let o1 = 1 + s1.len() as int;
    let o2 = o1 + s2.len() as int;
    let o3 = o2 + s3.len() as int;
    let o4 = o3 + 8;
    let o5 = o4 + ob.len() as int;
    let o6 = o5 + kb.len() as int;
    assert(b.len() == o6);
    assert(b[0] == kind_byte(v.msg_type));
    assert(byte_kind(kind_byte(v.msg_type)) == Some(v.msg_type));
    assert(b.subrange(1, o1) =~= s1);
    lemma_parse_string_rt(b, 1, v.sender);
    assert(b.subrange(o1, o2) =~= s2);
    lemma_parse_string_rt(b, o1, v.content);
    assert(b.subrange(o2, o3) =~= s3);
    lemma_parse_string_rt(b, o2, v.message_id);
    assert(b.subrange(o3, o4) =~= tb);
    assert(parse_u64(b, o3) == Some((v.timestamp as u64, o4)));
    let ts = v.timestamp;
    assert((ts as u64) as i64 == ts) by (bit_vector);
    assert(b.subrange(o4, o5) =~= ob);
    match v.sender_addr {
        None => {
            assert(b[o4] == 0u8);
            assert(parse_opt_endpoint(b, o4) == Some((None::<Endpoint>, o5)));
        },
        Some(e) => {
            assert(b[o4] == 1u8);
            assert(b.subrange(o4 + 1, o4 + 7) =~= endpoint_bytes(e));
            lemma_parse_endpoint_rt(b, o4 + 1, e);
            assert(parse_opt_endpoint(b, o4) == Some((Some(e), o5)));
        },
    }
    assert(b.subrange(o5, o6) =~= kb);
    match v.known_peers {
        None => {
            assert(b[o5] == 0u8);
            assert(parse_peers(b, o5) == Some((None::<Seq<(Seq<char>, Endpoint)>>, o6)));
        },
        Some(ps) => {
            assert(b[o5] == 1u8);
            let cb = spec_u16_to_le_bytes(ps.len() as u16);
            assert(cb.len() == 2);
            assert(b.subrange(o5 + 1, o5 + 3) =~= kb.subrange(1, 3));
            assert(kb.subrange(1, 3) =~= cb);
            assert(parse_u16(b, o5 + 1) == Some((ps.len() as u16, o5 + 3)));
            let pb = pairs_bytes_from(ps, 0);
            assert(b.subrange(o5 + 3, o6) =~= kb.subrange(3, kb.len() as int));
            assert(kb.subrange(3, kb.len() as int) =~= pb);
            lemma_parse_pairs_rt(b, o5 + 3, ps, 0);
            assert(ps.skip(0) =~= ps);
            assert(parse_peers(b, o5) == Some((Some(ps), o6)));
        },
    }
}

/// Relies on char::from_u32 of std: yields the character of a Unicode
/// scalar value, and refuses exactly the values that are no scalar (the
/// surrogates and the values above the last code point).
pub assume_specification[ char::from_u32 ](u: u32) -> (r: Option<char>)
    ensures
        r is Some <==> is_scalar(u),
        r matches Some(c) ==> c as u32 == u,
;

/// Reads two little-endian bytes at `i` of the slice.
fn read_u16(b: &[u8], i: usize) -> (r: Option<(u16, usize)>)
    ensures
        r matches Some((x, j)) ==> parse_u16(b@, i as int) == Some((x, j as int)) && i < j
            <= b@.len(),
        r is None ==> parse_u16(b@, i as int) is None,
{
    let n = b.len();
    if n >= 2 && i <= n - 2 {
        let sub = slice_subrange(b, i, i + 2);
        let x = u16_from_le_bytes(sub);
        Some((x, i + 2))
    } else {
        None
    }
}

/// Reads eight little-endian bytes at `i` of the slice.
fn read_u64(b: &[u8], i: usize) -> (r: Option<(u64, usize)>)
    ensures
        r matches Some((x, j)) ==> parse_u64(b@, i as int) == Some((x, j as int)) && i < j
            <= b@.len(),
        r is None ==> parse_u64(b@, i as int) is None,
{
    let n = b.len();
    if n >= 8 && i <= n - 8 {
        let sub = slice_subrange(b, i, i + 8);
        let x = u64_from_le_bytes(sub);
        Some((x, i + 8))
    } else {
        None
    }
}

/// Reads `n` characters at `i` of the slice.
fn read_chars(b: &[u8], i: usize, n: u16) -> (r: Option<(String, usize)>)
    requires
        i <= b@.len(),
    ensures
        r matches Some((s, j)) ==> (match parse_chars(b@, i as int, n as int) {
            Some((t, k)) => s@ == t && j as int == k && i <= j <= b@.len(),
            None => false,
        }),
        r is None ==> parse_chars(b@, i as int, n as int) is None,
{
    let mut acc = String::new();
    let mut cur = i;
    let mut left = n;
    let len = b.len();
    proof {
        if parse_chars(b@, i as int, n as int) is Some {
            let (t, k) = parse_chars(b@, i as int, n as int)->0;
            assert(acc@ + t =~= t);
        }
    }
    while left > 0
        invariant
            i <= cur <= len,
            len == b@.len(),
            left <= n,
            parse_chars(b@, i as int, n as int) == (match parse_chars(
                b@,
                cur as int,
                left as int,
            ) {
                Some((t, k)) => Some((acc@ + t, k)),
                None => None::<(Seq<char>, int)>,
            }),
        decreases left,
    {
        if len < 4 || cur > len - 4 {
            proof {
                assert(parse_chars(b@, cur as int, left as int) is None);
            }
            return None;
        }
        let sub = slice_subrange(b, cur, cur + 4);
        let u = u32_from_le_bytes(sub);
        let c = match char::from_u32(u) {
            Some(c) => c,
            None => {
                proof {
                    assert(!is_scalar(u));
                    assert(parse_chars(b@, cur as int, left as int) is None);
                }
                return None;
            },
        };
        proof {
            char_u32_cast(c, u);
        }
        let ghost prev = acc@;
        acc.push(c);
        proof {
            let tail = parse_chars(b@, cur as int + 4, left as int - 1);
            assert(parse_chars(b@, cur as int, left as int) == (match tail {
                Some((s2, j2)) => Some((seq![u as char] + s2, j2)),
                None => None::<(Seq<char>, int)>,
            }));
            if tail is Some {
                let (s2, j2) = tail->0;
                assert(prev + (seq![u as char] + s2) =~= acc@ + s2);
            }
        }
        cur = cur + 4;
        left = left - 1;
    }
    proof {
        assert(parse_chars(b@, cur as int, 0) == Some((Seq::<char>::empty(), cur as int)));
        assert(acc@ + Seq::<char>::empty() =~= acc@);
    }
    Some((acc, cur))
}

/// Reads a string at `i` of the slice.
fn read_string(b: &[u8], i: usize) -> (r: Option<(String, usize)>)
    ensures
        r matches Some((s, j)) ==> (match parse_string(b@, i as int) {
            Some((t, k)) => s@ == t && j as int == k && i <= j <= b@.len(),
            None => false,
        }),
        r is None ==> parse_string(b@, i as int) is None,
{
    match read_u16(b, i) {
        Some((n, j)) => read_chars(b, j, n),
        None => None,
    }
}

/// Reads an endpoint at `i` of the slice.
fn read_endpoint(b: &[u8], i: usize) -> (r: Option<(Endpoint, usize)>)
    ensures
        r matches Some((e, j)) ==> parse_endpoint_b(b@, i as int) == Some((e, j as int)) && i < j
            <= b@.len(),
        r is None ==> parse_endpoint_b(b@, i as int) is None,
{
    let n = b.len();
    if n >= 6 && i <= n - 6 {
        let ip0 = *slice_index_get(b, i);
        let ip1 = *slice_index_get(b, i + 1);
        let ip2 = *slice_index_get(b, i + 2);
        let ip3 = *slice_index_get(b, i + 3);
        let sub = slice_subrange(b, i + 4, i + 6);
        let port = u16_from_le_bytes(sub);
        Some((Endpoint { ip0, ip1, ip2, ip3, port }, i + 6))
    } else {
        None
    }
}

/// Decodes one datagram. The result is `Ok` exactly when the bytes are a
/// strict encoding — `parse_msg` names the message — and the decoded
/// message is that one; anything else is refused as `DecodeError`.
pub fn decode(b: &[u8]) -> (r: Result<Message, DecodeError>)
    ensures
        r matches Ok(m) ==> parse_msg(b@) == Some(m@),
        r is Err <==> parse_msg(b@) is None,
{
    let len = b.len();
    if len < 1 {
        return Err(DecodeError);
    }
    let tag = *slice_index_get(b, 0);
    let msg_type = if tag == 0 {
        MessageType::Chat
    } else if tag == 1 {
        MessageType::Discovery
    } else if tag == 2 {
        MessageType::Heartbeat
    } else if tag == 3 {
        MessageType::PeerList
    } else {
        return Err(DecodeError);
    };
    let (sender, i1) = match read_string(b, 1) {
        Some(p) => p,
        None => {
            return Err(DecodeError);
        },
    };
    let (content, i2) = match read_string(b, i1) {
        Some(p) => p,
        None => {
            return Err(DecodeError);
        },
    };
    let (message_id, i3) = match read_string(b, i2) {
        Some(p) => p,
        None => {
            return Err(DecodeError);
        },
    };
    let (ts, i4) = match read_u64(b, i3) {
        Some(p) => p,
        None => {
            return Err(DecodeError);
        },
    };
    if i4 >= len {
        return Err(DecodeError);
    }
    let flag_addr = *slice_index_get(b, i4);
    let (sender_addr, i5) = if flag_addr == 0 {
        (None, i4 + 1)
    } else if flag_addr == 1 {
        match read_endpoint(b, i4 + 1) {
            Some((e, j)) => (Some(e), j),
            None => {
                return Err(DecodeError);
            },
        }
    } else {
        return Err(DecodeError);
    };
    if i5 >= len {
        return Err(DecodeError);
    }
    let flag_peers = *slice_index_get(b, i5);
    let (known_peers, i6) = if flag_peers == 0 {
        (None, i5 + 1)
    } else if flag_peers == 1 {
        let (count, j) = match read_u16(b, i5 + 1) {
            Some(p) => p,
            None => {
                return Err(DecodeError);
            },
        };
        let mut pairs: Vec<(String, Endpoint)> = Vec::new();
        let mut cur = j;
        let mut left = count;
        proof {
            assert(pairs_view(pairs@) =~= Seq::<(Seq<char>, Endpoint)>::empty());
            if parse_pairs(b@, j as int, count as int) is Some {
                let (t, k) = parse_pairs(b@, j as int, count as int)->0;
                assert(pairs_view(pairs@) + t =~= t);
            }
        }
        while left > 0
            invariant
                j <= cur <= len,
                len == b@.len(),
                left <= count,
                parse_pairs(b@, j as int, count as int) is None ==> parse_msg(b@) is None,
                parse_pairs(b@, j as int, count as int) == (match parse_pairs(
                    b@,
                    cur as int,
                    left as int,
                ) {
                    Some((t, k)) => Some((pairs_view(pairs@) + t, k)),
                    None => None::<(Seq<(Seq<char>, Endpoint)>, int)>,
                }),
            decreases left,
        {
            let (s, k1) = match read_string(b, cur) {
                Some(p) => p,
                None => {
                    proof {
                        assert(parse_pairs(b@, cur as int, left as int) is None);
                    }
                    return Err(DecodeError);
                },
            };
            let (e, k2) = match read_endpoint(b, k1) {
                Some(p) => p,
                None => {
                    proof {
                        assert(parse_pairs(b@, cur as int, left as int) is None);
                    }
                    return Err(DecodeError);
                },
            };
            let ghost prevp = pairs_view(pairs@);
            let ghost sv = s@;
            pairs.push((s, e));
            proof {
                assert(pairs_view(pairs@) =~= prevp.push((sv, e)));
                let tail = parse_pairs(b@, k2 as int, left as int - 1);
                if tail is Some {
                    let (t2, l2) = tail->0;
                    assert(prevp + (seq![(sv, e)] + t2) =~= pairs_view(pairs@) + t2);
                }
            }
            cur = k2;
            left = left - 1;
        }
        proof {
            assert(parse_pairs(b@, cur as int, 0) == Some(
                (Seq::<(Seq<char>, Endpoint)>::empty(), cur as int),
            ));
            assert(pairs_view(pairs@) + Seq::<(Seq<char>, Endpoint)>::empty() =~= pairs_view(
                pairs@,
            ));
        }
        (Some(pairs), cur)
    } else {
        return Err(DecodeError);
    };
    if i6 != len {
        return Err(DecodeError);
    }
    let m = Message {
        sender,
        content,
        message_id,
        timestamp: #[verifier::truncate] (ts as i64),
        msg_type,
        sender_addr,
        known_peers,
    };
    Ok(m)
}

/// A Unicode scalar value cast to `char` carries its value back.
pub proof fn lemma_scalar_char_cast(u: u32)
    requires
        is_scalar(u),
    ensures
        (u as char) as u32 == u,
{
}

/// Prepending one character shifts the byte rendering by one position.
pub proof fn lemma_char_bytes_cons(c: char, s: Seq<char>, i: int)
    requires
        i >= 0,
    ensures
        char_bytes_from(seq![c] + s, i + 1) == char_bytes_from(s, i),
    decreases s.len() - i,
{
    let t = seq![c] + s;
    if i < s.len() {
        assert(t[i + 1] == s[i]);
        lemma_char_bytes_cons(c, s, i + 1);
    }
}

/// Prepending one pair shifts the byte rendering by one position.
pub proof fn lemma_pairs_bytes_cons(p: (Seq<char>, Endpoint), ps: Seq<(Seq<char>, Endpoint)>, i: int)
    requires
        i >= 0,
    ensures
        pairs_bytes_from(seq![p] + ps, i + 1) == pairs_bytes_from(ps, i),
    decreases ps.len() - i,
{
    let t = seq![p] + ps;
    if i < ps.len() {
        assert(t[i + 1] == ps[i]);
        lemma_pairs_bytes_cons(p, ps, i + 1);
    }
}

/// What `parse_chars` accepts is exactly the byte rendering of what it
/// returns: `n` characters covering four bytes each.
pub proof fn lemma_parse_chars_sound(b: Seq<u8>, i: int, n: int)
    ensures
        parse_chars(b, i, n) matches Some((s, j)) ==> s.len() == (if n >= 0 {
            n
        } else {
            0
        }) && j == i + 4 * s.len() && (n > 0 ==> 0 <= i && j <= b.len()) && (0 <= i <= b.len()
            ==> char_bytes_from(s, 0) == b.subrange(i, j)),
    decreases n,
{
    let r = parse_chars(b, i, n);
    if r is Some {
        let (s, j) = r->0;
        if n <= 0 {
            assert(s =~= Seq::<char>::empty());
            if 0 <= i <= b.len() {
                assert(char_bytes_from(s, 0) =~= b.subrange(i, i));
            }
        } else {
            lemma_auto_spec_u32_to_from_le_bytes();
            let u = spec_u32_from_le_bytes(b.subrange(i, i + 4));
            let (s2, j2) = parse_chars(b, i + 4, n - 1)->0;
            lemma_parse_chars_sound(b, i + 4, n - 1);
            assert(s == seq![u as char] + s2);
            assert(s.len() == n);
            lemma_scalar_char_cast(u);
            assert(s[0] == u as char);
            lemma_char_bytes_cons(u as char, s2, 0);
            assert(char_bytes_from(s, 0) == spec_u32_to_le_bytes(s[0] as u32) + char_bytes_from(
                s,
                1,
            ));
            assert(spec_u32_to_le_bytes(s[0] as u32) == b.subrange(i, i + 4));
            if n == 1 {
                assert(char_bytes_from(s2, 0) =~= Seq::<u8>::empty());
                assert(char_bytes_from(s, 0) =~= b.subrange(i, j));
            } else {
                assert(char_bytes_from(s2, 0) == b.subrange(i + 4, j2));
                assert(char_bytes_from(s, 0) =~= b.subrange(i, j));
            }
        }
    }
}

/// What `parse_string` accepts is exactly the byte rendering of the string
/// it returns.
pub proof fn lemma_parse_string_sound(b: Seq<u8>, i: int)
    ensures
        parse_string(b, i) matches Some((s, j)) ==> s.len() <= 65535 && 0 <= i && i + 2 <= j
            <= b.len() && j == i + 2 + 4 * s.len() && b.subrange(i, j) == string_bytes(s),
{
    let r = parse_string(b, i);
    if r is Some {
        let (s, j) = r->0;
        lemma_auto_spec_u16_to_from_le_bytes();
        let n = spec_u16_from_le_bytes(b.subrange(i, i + 2));
        lemma_parse_chars_sound(b, i + 2, n as int);
        assert(s.len() == n as int);
        assert(spec_u16_to_le_bytes(s.len() as u16) == b.subrange(i, i + 2));
        if n == 0 {
            assert(char_bytes_from(s, 0) =~= Seq::<u8>::empty());
        }
        assert(char_bytes_from(s, 0) == b.subrange(i + 2, j));
        assert(string_bytes(s) =~= b.subrange(i, j));
    }
}

/// What `parse_endpoint_b` accepts is exactly the byte rendering of the
/// endpoint it returns.
pub proof fn lemma_parse_endpoint_sound(b: Seq<u8>, i: int)
    ensures
        parse_endpoint_b(b, i) matches Some((e, j)) ==> 0 <= i && j == i + 6 <= b.len()
            && b.subrange(i, j) == endpoint_bytes(e),
{
    let r = parse_endpoint_b(b, i);
    if r is Some {
        let (e, j) = r->0;
        lemma_auto_spec_u16_to_from_le_bytes();
        assert(spec_u16_to_le_bytes(e.port) == b.subrange(i + 4, i + 6));
        assert(endpoint_bytes(e) =~= b.subrange(i, i + 6));
    }
}

/// What `parse_pairs` accepts is exactly the byte rendering of the pairs it
/// returns, every name within the counter's range.
pub proof fn lemma_parse_pairs_sound(b: Seq<u8>, i: int, n: int)
    ensures
        parse_pairs(b, i, n) matches Some((ps, j)) ==> ps.len() == (if n >= 0 {
            n
        } else {
            0
        }) && (n > 0 ==> 0 <= i && i <= j <= b.len()) && (n <= 0 ==> j == i) && (0 <= i <= b.len()
            ==> b.subrange(i, j) == pairs_bytes_from(ps, 0)) && (forall|k: int|
            0 <= k < ps.len() ==> (#[trigger] ps[k]).0.len() <= 65535),
    decreases n,
{
    let r = parse_pairs(b, i, n);
    if r is Some {
        let (ps, j) = r->0;
        if n <= 0 {
            assert(ps =~= Seq::<(Seq<char>, Endpoint)>::empty());
            if 0 <= i <= b.len() {
                assert(pairs_bytes_from(ps, 0) =~= b.subrange(i, i));
            }
        } else {
            let (s, j1) = parse_string(b, i)->0;
            let (e, j2) = parse_endpoint_b(b, j1)->0;
            let (ps2, j3) = parse_pairs(b, j2, n - 1)->0;
            lemma_parse_string_sound(b, i);
            lemma_parse_endpoint_sound(b, j1);
            lemma_parse_pairs_sound(b, j2, n - 1);
            assert(ps == seq![(s, e)] + ps2);
            assert(ps[0] == (s, e));
            lemma_pairs_bytes_cons((s, e), ps2, 0);
            assert(pairs_bytes_from(ps, 0) == string_bytes(ps[0].0) + endpoint_bytes(ps[0].1)
                + pairs_bytes_from(ps, 1));
            if n == 1 {
                assert(pairs_bytes_from(ps2, 0) =~= Seq::<u8>::empty());
            }
            assert(pairs_bytes_from(ps2, 0) == b.subrange(j2, j));
            assert(pairs_bytes_from(ps, 0) =~= b.subrange(i, j));
            assert forall|k: int| 0 <= k < ps.len() implies (#[trigger] ps[k]).0.len()
                <= 65535 by {
                if k > 0 {
                    assert(ps[k] == ps2[k - 1]);
                }
            }
        }
    }
}

/// The parser is sound: a datagram it accepts is exactly the encoding of
/// the message it returns. With `lemma_codec_roundtrip`, `parse_msg` and
/// `msg_bytes` are the two directions of one bijection between well-formed
/// messages and their datagrams.
#[verifier::rlimit(100)]
pub proof fn lemma_parse_msg_sound(b: Seq<u8>)
    ensures
        parse_msg(b) matches Some(v) ==> encodable(v) && msg_bytes(v) == b,
{
    let r = parse_msg(b);
    if r is Some {
        let v = r->0;
        lemma_auto_spec_u64_to_from_le_bytes();
        let k = b[0];
        let t = byte_kind(k)->0;
        assert(kind_byte(t) == k);
        let (sender, i1) = parse_string(b, 1)->0;
        let (content, i2) = parse_string(b, i1)->0;
        let (message_id, i3) = parse_string(b, i2)->0;
        let (ts, i4) = parse_u64(b, i3)->0;
        let (oe, i5) = parse_opt_endpoint(b, i4)->0;
        let (op, i6) = parse_peers(b, i5)->0;
        lemma_parse_string_sound(b, 1);
        lemma_parse_string_sound(b, i1);
        lemma_parse_string_sound(b, i2);
        assert(ts == spec_u64_from_le_bytes(b.subrange(i3, i4)));
        assert(spec_u64_to_le_bytes((ts as i64) as u64) == b.subrange(i3, i4)) by {
            assert(((ts as i64) as u64) == ts) by (bit_vector);
            assert(spec_u64_to_le_bytes(ts) == b.subrange(i3, i4));
        }
        let ob = opt_endpoint_bytes(oe);
        assert(ob == b.subrange(i4, i5)) by {
            let f = b[i4];
            if f == 0 {
                assert(ob =~= b.subrange(i4, i4 + 1));
            } else {
                let (e, j) = parse_endpoint_b(b, i4 + 1)->0;
                lemma_parse_endpoint_sound(b, i4 + 1);
                assert(ob =~= b.subrange(i4, i5));
            }
        }
        let kb = peers_bytes(op);
        assert(kb == b.subrange(i5, i6) && (match op {
            Some(ps) => ps.len() <= 65535 && (forall|k2: int|
                0 <= k2 < ps.len() ==> (#[trigger] ps[k2]).0.len() <= 65535),
            None => true,
        })) by {
            lemma_auto_spec_u16_to_from_le_bytes();
            let f = b[i5];
            if f == 0 {
                assert(kb =~= b.subrange(i5, i5 + 1));
            } else {
                let (cnt, j1) = parse_u16(b, i5 + 1)->0;
                let (ps, j2) = parse_pairs(b, j1, cnt as int)->0;
                lemma_parse_pairs_sound(b, j1, cnt as int);
                assert(spec_u16_to_le_bytes(ps.len() as u16) == b.subrange(i5 + 1, j1));
                if cnt == 0 {
                    assert(pairs_bytes_from(ps, 0) =~= Seq::<u8>::empty());
                }
                assert(pairs_bytes_from(ps, 0) == b.subrange(j1, i6));
                assert(kb =~= b.subrange(i5, i6));
            }
        }
        assert(msg_bytes(v) =~= b);
    }
}

} // verus!