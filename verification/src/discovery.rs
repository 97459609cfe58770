//! The discovery exchange: bootstrap broadcasts, the reply to a discovery
//! probe, and the transitive peer-list walk.

use vstd::prelude::*;
use vstd::string::StrSliceExecFns;
use vstd::string::StringExecFns;
use crate::endpoint::Endpoint;
use crate::endpoint::dec_digits;
use crate::endpoint::push_decimal;
use crate::message::Message;
use crate::message::MessageType;
use crate::message::peer_list_chars;
use crate::peer_list::PeerList;
use crate::peer_list::RecordV;
use crate::peer_list::effective_name;
use crate::peer_list::has_addr;
use crate::peer_list::has_key;
use crate::peer_list::is_anon;
use crate::peer_list::looks_like_address;
use crate::peer_list::same_key;
use crate::peer_list::tombstoned_within;
use crate::peer_list::upsert_post;
use crate::heartbeats::REMOVED_PEER_GRACE_PERIOD;
use crate::heartbeats::addrs_of;

verus! {

/// The well-known bootstrap port every node tries to listen on.
pub const DEFAULT_RECV_INIT_PORT: u16 = 9487;

/// Seconds between periodic discovery broadcasts.
pub const DEFAULT_BROADCAST_INTERVAL_SEC: u64 = 900;

/// Where a datagram is to go: the LAN broadcast address at a port, or one
/// peer's endpoint.
#[derive(PartialEq, Eq, Structural, Clone, Copy, Debug)]
pub enum Dest {
    Broadcast(u16),
    Peer(Endpoint),
}

/// One planned transmission: a destination and the message for it.
pub struct Outbound {
    pub dest: Dest,
    pub msg: Message,
}

/// Builds one discovery round: the probe message, and where to broadcast it
/// — the well-known bootstrap port, and the node's own receive port when
/// that differs (for peers that lost the race for the bootstrap port).
pub fn send_discovery_message(username: &str, local_addr: Endpoint) -> (r: (Message, Vec<Dest>))
    ensures
        r.0.msg_type == MessageType::Discovery,
        r.0.sender@ == username@,
        r.0.sender_addr == Some(local_addr),
        local_addr.port == DEFAULT_RECV_INIT_PORT ==> r.1@ == seq![
            Dest::Broadcast(DEFAULT_RECV_INIT_PORT),
        ],
        local_addr.port != DEFAULT_RECV_INIT_PORT ==> r.1@ == seq![
            Dest::Broadcast(DEFAULT_RECV_INIT_PORT),
            Dest::Broadcast(local_addr.port),
        ],
{
    let msg = Message::new_discovery(String::from_str(username), local_addr);
    let mut dests: Vec<Dest> = Vec::new();
    dests.push(Dest::Broadcast(DEFAULT_RECV_INIT_PORT));
    if local_addr.port != DEFAULT_RECV_INIT_PORT {
        dests.push(Dest::Broadcast(local_addr.port));
        proof {
            assert(dests@ =~= seq![
                Dest::Broadcast(DEFAULT_RECV_INIT_PORT),
                Dest::Broadcast(local_addr.port),
            ]);
        }
    } else {
        proof {
            assert(dests@ =~= seq![Dest::Broadcast(DEFAULT_RECV_INIT_PORT)]);
        }
    }
    (msg, dests)
}

/// Handles a discovery probe heard on the bootstrap listener: records the
/// sender, and replies to it with our own probe followed by our whole peer
/// list — every known endpoint, ourselves included.
pub fn handle_discovery_message(
    msg: &Message,
    peer_list: &mut PeerList,
    username: &str,
    local_addr: Endpoint,
    now: u64,
) -> (r: (bool, Vec<Outbound>))
    requires
        old(peer_list).wf(),
    ensures
        final(peer_list).wf(),
        final(peer_list).tombstones() == old(peer_list).tombstones(),
        msg.sender_addr is None ==> final(peer_list).records() == old(peer_list).records()
            && r.1@.len() == 0 && !r.0,
        msg.sender_addr matches Some(sa) ==> {
            &&& upsert_post(old(peer_list).records(), final(peer_list).records(), sa, msg.sender@, now)
            &&& r.0 == !has_addr(old(peer_list).records(), sa)
            &&& r.1@.len() == 2
            &&& r.1@[0].dest == Dest::Peer(sa)
            &&& r.1@[0].msg.msg_type == MessageType::Discovery
            &&& r.1@[0].msg.sender@ == username@
            &&& r.1@[0].msg.sender_addr == Some(local_addr)
            &&& r.1@[1].dest == Dest::Peer(sa)
            &&& r.1@[1].msg.msg_type == MessageType::PeerList
            &&& r.1@[1].msg.sender@ == username@
            &&& r.1@[1].msg.sender_addr == Some(local_addr)
            &&& r.1@[1].msg.content@ == peer_list_chars(
                if addrs_of(final(peer_list).records()).contains(local_addr) {
                    addrs_of(final(peer_list).records())
                } else {
                    addrs_of(final(peer_list).records()).push(local_addr)
                },
            )
        },
{
    let mut replies: Vec<Outbound> = Vec::new();
    let sa = match &msg.sender_addr {
        Some(sa) => *sa,
        None => {
            return (false, replies);
        },
    };
    let is_new = peer_list.find_username_by_addr(&sa).is_none();
    peer_list.add_or_update_peer(sa, msg.sender.clone(), now);
    let response = Message::new_discovery(String::from_str(username), local_addr);
    replies.push(Outbound { dest: Dest::Peer(sa), msg: response });
    let peers = peer_list.get_peers();
    let ghost base = addrs_of(peer_list.records());
    let mut peer_addrs: Vec<Endpoint> = Vec::new();
    let mut has_self = false;
    let n = peers.len();
    let mut i: usize = 0;
    proof {
        assert(peer_addrs@ =~= base.subrange(0, 0));
    }
    while i < n
        invariant
            0 <= i <= n,
            n == peers@.len(),
            crate::peer_list::views_of(peers@) == peer_list.records(),
            base == addrs_of(peer_list.records()),
            peer_addrs@ == base.subrange(0, i as int),
            has_self == exists|m: int| 0 <= m < i && base[m] == local_addr,
        decreases n - i,
    {
        proof {
            assert(peer_list.records()[i as int] == peers@[i as int]@);
            assert(base[i as int] == peers@[i as int]@.addr);
        }
        let a = peers[i].addr;
        if a == local_addr {
            has_self = true;
        }
        peer_addrs.push(a);
        proof {
            assert(peer_addrs@ =~= base.subrange(0, i as int + 1));
        }
        i = i + 1;
    }
    proof {
        assert(base.subrange(0, n as int) =~= base);
        assert(has_self == base.contains(local_addr));
    }
    if !has_self {
        peer_addrs.push(local_addr);
        proof {
            assert(peer_addrs@ =~= base.push(local_addr));
        }
    }
    let peer_list_msg = Message::new_peer_list(String::from_str(username), peer_addrs, local_addr);
    replies.push(Outbound { dest: Dest::Peer(sa), msg: peer_list_msg });
    (is_new, replies)
}

/// The placeholder name a peer learned only by hearsay is stored under,
/// until a direct exchange reveals its real name: it is bound to the
/// endpoint, and usable as a display name.
pub open spec fn temp_name_chars(e: Endpoint) -> Seq<char> {
    "peer@"@ + dec_digits(e.ip0 as nat) + seq!['.'] + dec_digits(e.ip1 as nat) + seq!['.']
        + dec_digits(e.ip2 as nat) + seq!['.'] + dec_digits(e.ip3 as nat) + seq!['-'] + dec_digits(
        e.port as nat,
    )
}

/// The placeholder name contains no colon and is not an anonymous label.
pub proof fn lemma_temp_name_usable(e: Endpoint)
    ensures
        !looks_like_address(temp_name_chars(e)),
        !is_anon(temp_name_chars(e)),
{
    let t = temp_name_chars(e);
    reveal_strlit("peer@");
    reveal_strlit("anonymous@");
    crate::endpoint::lemma_dec_digits_shape(e.ip0 as nat);
    crate::endpoint::lemma_dec_digits_shape(e.ip1 as nat);
    crate::endpoint::lemma_dec_digits_shape(e.ip2 as nat);
    crate::endpoint::lemma_dec_digits_shape(e.ip3 as nat);
    crate::endpoint::lemma_dec_digits_shape(e.port as nat);
    assert(t.len() > 0);
    if t.contains(':') {
        let w = choose|w: int| 0 <= w < t.len() && t[w] == ':';
        let p = "peer@"@;
        let d0 = dec_digits(e.ip0 as nat);
        let d1 = dec_digits(e.ip1 as nat);
        let d2 = dec_digits(e.ip2 as nat);
        let d3 = dec_digits(e.ip3 as nat);
        let dp = dec_digits(e.port as nat);
        let o0 = p.len() as int;
        let o1 = o0 + d0.len() + 1;
        let o2 = o1 + d1.len() + 1;
        let o3 = o2 + d2.len() + 1;
        let o4 = o3 + d3.len() + 1;
        assert(t.len() == o4 + dp.len());
        if w < o0 {
            assert(t[w] == p[w]);
        } else if w < o1 - 1 {
            assert(t[w] == d0[w - o0]);
            assert(crate::endpoint::is_digit(t[w]));
        } else if w == o1 - 1 {
            assert(t[w] == '.');
        } else if w < o2 - 1 {
            assert(t[w] == d1[w - o1]);
            assert(crate::endpoint::is_digit(t[w]));
        } else if w == o2 - 1 {
            assert(t[w] == '.');
        } else if w < o3 - 1 {
            assert(t[w] == d2[w - o2]);
            assert(crate::endpoint::is_digit(t[w]));
        } else if w == o3 - 1 {
            assert(t[w] == '.');
        } else if w < o4 - 1 {
            assert(t[w] == d3[w - o3]);
            assert(crate::endpoint::is_digit(t[w]));
        } else if w == o4 - 1 {
            assert(t[w] == '-');
        } else {
            assert(t[w] == dp[w - o4]);
            assert(crate::endpoint::is_digit(t[w]));
        }
    }
    if is_anon(t) {
        assert(t.subrange(0, "anonymous@"@.len() as int)[0] == t[0]);
        assert(t[0] == "peer@"@[0]);
    }
}

/// Builds the placeholder name for `e`.
fn temp_name_for(e: &Endpoint) -> (r: String)
    ensures
        r@ == temp_name_chars(*e),
{
    let mut s = String::from_str("peer@");
    push_decimal(&mut s, e.ip0 as u32);
    s.push('.');
    push_decimal(&mut s, e.ip1 as u32);
    s.push('.');
    push_decimal(&mut s, e.ip2 as u32);
    s.push('.');
    push_decimal(&mut s, e.ip3 as u32);
    s.push('-');
    push_decimal(&mut s, e.port as u32);
    proof {
        assert(s@ =~= temp_name_chars(*e));
    }
    s
}

/// A maximal comma-free stretch of `s`: bounded by commas or the ends of
/// the text. The peer-list content decomposes into exactly these segments.
pub open spec fn is_segment(s: Seq<char>, a: int, b: int) -> bool {
    &&& 0 <= a <= b <= s.len()
    &&& (a == 0 || s[a - 1] == ',')
    &&& (b == s.len() || s[b] == ',')
    &&& forall|m: int| a <= m < b ==> s[m] != ','
}

/// Whether the segment `[a, b)` of a peer-list content has been dealt with
/// against the directory `recs`: it is no endpoint at all, or it is our own
/// endpoint, under a tombstone's grace window, or present in the directory.
pub open spec fn segment_admitted(
    s: Seq<char>,
    a: int,
    b: int,
    tombs: Seq<(Endpoint, u64)>,
    local: Endpoint,
    now: int,
    recs: Seq<RecordV>,
) -> bool {
    match crate::endpoint::parse_endpoint_chars(s.subrange(a, b)) {
        Some(ep) => ep == local || tombstoned_within(
            tombs,
            ep,
            REMOVED_PEER_GRACE_PERIOD as int,
            now,
        ) || has_addr(recs, ep),
        None => true,
    }
}

/// Handles a received peer list: every listed endpoint that is not
/// ourselves, not already known, and not under a tombstone's grace window
/// is recorded provisionally under a placeholder name, and a discovery
/// probe is planned to it — so membership floods transitively. Gossip
/// touches no existing record, and afterwards every listed endpoint is
/// accounted for: ours, tombstoned, or in the directory. Returns the new
/// endpoints and the planned probes.
pub fn handle_peer_list_message(
    msg: &Message,
    peer_list: &mut PeerList,
    username: &str,
    local_addr: Endpoint,
    now: u64,
) -> (r: (Vec<Endpoint>, Vec<Outbound>))
    requires
        old(peer_list).wf(),
    ensures
        final(peer_list).wf(),
        final(peer_list).tombstones() == old(peer_list).tombstones(),
        old(peer_list).records().len() <= final(peer_list).records().len(),
        forall|i: int|
            0 <= i < old(peer_list).records().len() ==> #[trigger] final(peer_list).records()[i]
                == old(peer_list).records()[i],
        forall|k: int|
            old(peer_list).records().len() <= k < final(peer_list).records().len() ==> {
                let rec = #[trigger] final(peer_list).records()[k];
                &&& rec.last_seen == now
                &&& rec.addr != local_addr
                &&& !has_addr(old(peer_list).records(), rec.addr)
                &&& !tombstoned_within(
                    old(peer_list).tombstones(),
                    rec.addr,
                    REMOVED_PEER_GRACE_PERIOD as int,
                    now as int,
                )
                &&& rec.username == temp_name_chars(rec.addr)
            },
        r.0@.len() == final(peer_list).records().len() - old(peer_list).records().len(),
        forall|k: int|
            0 <= k < r.0@.len() ==> #[trigger] r.0@[k] == final(peer_list).records()[old(
                peer_list,
            ).records().len() + k].addr,
        r.1@.len() == r.0@.len(),
        forall|k: int|
            0 <= k < r.1@.len() ==> (#[trigger] r.1@[k]).dest == Dest::Peer(r.0@[k])
                && r.1@[k].msg.msg_type == MessageType::Discovery && r.1@[k].msg.sender@
                == username@ && r.1@[k].msg.sender_addr == Some(local_addr),
        forall|a: int, b: int|
            #[trigger] is_segment(msg.content@, a, b) ==> segment_admitted(
                msg.content@,
                a,
                b,
                old(peer_list).tombstones(),
                local_addr,
                now as int,
                final(peer_list).records(),
            ),
{
    let ghost pre = old(peer_list).records();
    let mut new_peers: Vec<Endpoint> = Vec::new();
    let mut sends: Vec<Outbound> = Vec::new();
    let content = msg.content.as_str();
    let ghost sv = msg.content@;
    let clen = content.unicode_len();
    let mut seg_start: usize = 0;
    let mut i: usize = 0;
    while i <= clen
        invariant
            0 <= seg_start <= i <= clen,
            clen == sv.len(),
            sv == msg.content@,
            content@ == sv,
            peer_list.wf(),
            peer_list.tombstones() == old(peer_list).tombstones(),
            pre == old(peer_list).records(),
            pre.len() <= peer_list.records().len(),
            seg_start == 0 || sv[seg_start - 1] == ',',
            forall|m: int| seg_start <= m < i ==> sv[m] != ',',
            forall|a: int, b: int|
                #[trigger] is_segment(sv, a, b) && b < seg_start ==> segment_admitted(
                    sv,
                    a,
                    b,
                    old(peer_list).tombstones(),
                    local_addr,
                    now as int,
                    peer_list.records(),
                ),
            forall|m: int|
                0 <= m < pre.len() ==> #[trigger] peer_list.records()[m] == pre[m],
            forall|k: int|
                pre.len() <= k < peer_list.records().len() ==> {
                    let rec = #[trigger] peer_list.records()[k];
                    &&& rec.last_seen == now
                    &&& rec.addr != local_addr
                    &&& !has_addr(pre, rec.addr)
                    &&& !tombstoned_within(
                        old(peer_list).tombstones(),
                        rec.addr,
                        REMOVED_PEER_GRACE_PERIOD as int,
                        now as int,
                    )
                    &&& rec.username == temp_name_chars(rec.addr)
                },
            new_peers@.len() == peer_list.records().len() - pre.len(),
            forall|k: int|
                0 <= k < new_peers@.len() ==> #[trigger] new_peers@[k] == peer_list.records()[
                    pre.len() + k].addr,
            sends@.len() == new_peers@.len(),
            forall|k: int|
                0 <= k < sends@.len() ==> (#[trigger] sends@[k]).dest == Dest::Peer(new_peers@[k])
                    && sends@[k].msg.msg_type == MessageType::Discovery && sends@[k].msg.sender@
                    == username@ && sends@[k].msg.sender_addr == Some(local_addr),
        decreases clen - i,
    {
        let at_end = i == clen;
        let is_sep = if at_end {
            true
        } else {
            content.get_char(i) == ','
        };
        if is_sep {
            let ghost s0 = seg_start as int;
            let ghost ii = i as int;
            let ghost entry_records = peer_list.records();
            if seg_start < i {
                let segment = content.substring_char(seg_start, i);
                proof {
                    assert(segment@ == sv.subrange(s0, ii));
                }
                match crate::endpoint::parse_endpoint(segment) {
                    Some(addr) => {
                        if !(addr == local_addr) {
                            let known = peer_list.find_username_by_addr(&addr).is_some();
                            let tombed = peer_list.was_recently_removed(
                                &addr,
                                REMOVED_PEER_GRACE_PERIOD,
                                now,
                            );
                            if !known && !tombed {
                                let temp = temp_name_for(&addr);
                                let ghost before = peer_list.records();
                                proof {
                                    lemma_temp_name_usable(addr);
                                }
                                peer_list.add_or_update_peer(addr, temp, now);
                                proof {
                                    assert(effective_name(temp_name_chars(addr), addr)
                                        == temp_name_chars(addr));
                                    assert(!has_key(before, temp_name_chars(addr), addr)) by {
                                        if has_key(before, temp_name_chars(addr), addr) {
                                            let w = choose|w: int|
                                                0 <= w < before.len() && same_key(
                                                    #[trigger] before[w],
                                                    temp_name_chars(addr),
                                                    addr,
                                                );
                                            assert(has_addr(before, addr));
                                        }
                                    }
                                    assert(peer_list.records() == before.push(
                                        RecordV {
                                            addr,
                                            username: temp_name_chars(addr),
                                            last_seen: now,
                                        },
                                    ));
                                    assert(!has_addr(pre, addr)) by {
                                        if has_addr(pre, addr) {
                                            let w = choose|w: int|
                                                0 <= w < pre.len() && (#[trigger] pre[w]).addr
                                                    == addr;
                                            assert(before[w].addr == addr);
                                            assert(has_addr(before, addr));
                                        }
                                    }
                                    assert(peer_list.records()[before.len() as int].addr == addr);
                                    assert(has_addr(peer_list.records(), addr));
                                    assert forall|k: int|
                                        pre.len() <= k < peer_list.records().len() implies {
                                        let rec = #[trigger] peer_list.records()[k];
                                        &&& rec.last_seen == now
                                        &&& rec.addr != local_addr
                                        &&& !has_addr(pre, rec.addr)
                                        &&& !tombstoned_within(
                                            old(peer_list).tombstones(),
                                            rec.addr,
                                            REMOVED_PEER_GRACE_PERIOD as int,
                                            now as int,
                                        )
                                        &&& rec.username == temp_name_chars(rec.addr)
                                    } by {
                                        if k < before.len() {
                                            assert(peer_list.records()[k] == before[k]);
                                        } else {
                                            assert(peer_list.records()[k].addr == addr);
                                        }
                                    }
                                }
                                new_peers.push(addr);
                                let probe = Message::new_discovery(
                                    String::from_str(username),
                                    local_addr,
                                );
                                sends.push(Outbound { dest: Dest::Peer(addr), msg: probe });
                            }
                        }
                    },
                    None => {},
                }
            } else {
                proof {
                    assert(sv.subrange(s0, ii).len() == 0);
                    assert(crate::endpoint::digit_run_len(sv.subrange(s0, ii), 0) == 0);
                    assert(crate::endpoint::parse_endpoint_chars(sv.subrange(s0, ii)) is None);
                }
            }
            proof {
                let tombs = old(peer_list).tombstones();
                assert(segment_admitted(sv, s0, ii, tombs, local_addr, now as int,
                    peer_list.records()));
                assert forall|a: int, b: int|
                    #[trigger] is_segment(sv, a, b) && b < ii + 1 implies segment_admitted(
                    sv,
                    a,
                    b,
                    tombs,
                    local_addr,
                    now as int,
                    peer_list.records(),
                ) by {
                    if b < s0 {
                        assert(segment_admitted(sv, a, b, tombs, local_addr, now as int,
                            entry_records));
                        if crate::endpoint::parse_endpoint_chars(sv.subrange(a, b)) is Some {
                            let ep = crate::endpoint::parse_endpoint_chars(
                                sv.subrange(a, b),
                            )->0;
                            if has_addr(entry_records, ep) {
                                let w = choose|w: int|
                                    0 <= w < entry_records.len() && (
                                    #[trigger] entry_records[w]).addr == ep;
                                assert(peer_list.records()[w] == entry_records[w]) by {
                                    if w < pre.len() {
                                    } else {
                                        assert(entry_records[w] == peer_list.records()[w]);
                                    }
                                }
                                assert(has_addr(peer_list.records(), ep));
                            }
                        }
                    } else {
                        assert(b == ii) by {
                            if b < ii {
                                assert(sv[b] == ',');
                                assert(b >= s0);
                            }
                        }
                        assert(a == s0) by {
                            if a > s0 {
                                assert(sv[a - 1] != ',');
                                assert(a != 0);
                            }
                            if a < s0 {
                                assert(s0 >= 1);
                                assert(sv[s0 - 1] == ',');
                                assert(a <= s0 - 1 < b);
                            }
                        }
                    }
                }
            }
            if at_end {
                proof {
                    assert forall|a: int, b: int|
                        #[trigger] is_segment(sv, a, b) implies segment_admitted(
                        sv,
                        a,
                        b,
                        old(peer_list).tombstones(),
                        local_addr,
                        now as int,
                        peer_list.records(),
                    ) by {
                        assert(b <= sv.len());
                        assert(b < ii + 1);
                    }
                }
                return (new_peers, sends);
            }
            seg_start = i + 1;
        }
        i = i + 1;
    }
    proof {
        // The final segment is handled when `i` reaches the end of the
        // content, and the function returns there: this point is dead.
        assert(false);
    }
    (new_peers, sends)
}

} // verus!