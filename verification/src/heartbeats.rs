//! The heartbeat failure detector: the emitter's snapshot, the sweeper, and
//! the receive side of liveness gossip.

use vstd::prelude::*;
use vstd::string::StrSliceExecFns;
use vstd::string::StringExecFns;
use crate::endpoint::Endpoint;
use crate::message::Message;
use crate::message::MessageType;
use crate::message::pairs_view;
use crate::peer_list::PeerInfo;
use crate::peer_list::PeerList;
use crate::peer_list::RecordV;
use crate::peer_list::effective_name;
use crate::peer_list::has_addr;
use crate::peer_list::has_key;
use crate::peer_list::is_anon;
use crate::peer_list::kept_from;
use crate::peer_list::looks_like_address;
use crate::peer_list::elapsed;
use crate::peer_list::lemma_fresh_tombs_pointwise;
use crate::peer_list::tomb_time;
use crate::peer_list::live_from;
use crate::peer_list::refresh_addr;
use crate::peer_list::stale_from;
use crate::peer_list::same_key;
use crate::peer_list::tombstoned_within;
use crate::peer_list::upsert_post;
use crate::peer_list::views_of;

verus! {

/// Seconds between heartbeat rounds and sweeper rounds.
pub const HEARTBEAT_INTERVAL: u64 = 6;

/// Seconds of direct silence after which a peer is declared dead.
pub const PEER_TIMEOUT: u64 = 15;

/// Seconds during which a freshly evicted endpoint may not be re-added by
/// hearsay.
pub const REMOVED_PEER_GRACE_PERIOD: u64 = 30;

/// The (name, endpoint) gossip carried by a heartbeat: one pair per record.
pub open spec fn gossip_of(s: Seq<RecordV>) -> Seq<(Seq<char>, Endpoint)> {
    s.map(|i: int, r: RecordV| (r.username, r.addr))
}

/// The endpoints of all records, in table order.
pub open spec fn addrs_of(s: Seq<RecordV>) -> Seq<Endpoint> {
    s.map(|i: int, r: RecordV| r.addr)
}

/// Builds one heartbeat round: the message carrying the current membership
/// snapshot as gossip, and the endpoints it is to be sent to — every
/// currently known peer.
pub fn send_heartbeats(peer_list: &PeerList, username: &str, local_addr: Endpoint) -> (r: (
    Message,
    Vec<Endpoint>,
))
    ensures
        r.0.msg_type == MessageType::Heartbeat,
        r.0.sender@ == username@,
        r.0.sender_addr == Some(local_addr),
        r.0.known_peers matches Some(kp) && pairs_view(kp@) == gossip_of(peer_list.records()),
        r.1@ == addrs_of(peer_list.records()),
{
    let peers = peer_list.get_peers();
    let mut pairs: Vec<(String, Endpoint)> = Vec::new();
    let mut dests: Vec<Endpoint> = Vec::new();
    let n = peers.len();
    let mut i: usize = 0;
    proof {
        assert(views_of(peers@) == peer_list.records());
        assert(pairs_view(pairs@) =~= gossip_of(peer_list.records()).subrange(0, 0));
        assert(dests@ =~= addrs_of(peer_list.records()).subrange(0, 0));
    }
    while i < n
        invariant
            0 <= i <= n,
            n == peers@.len(),
            views_of(peers@) == peer_list.records(),
            pairs_view(pairs@) == gossip_of(peer_list.records()).subrange(0, i as int),
            dests@ == addrs_of(peer_list.records()).subrange(0, i as int),
        decreases n - i,
    {
        proof {
            assert(peer_list.records()[i as int] == peers@[i as int]@);
        }
        let ghost prevp = pairs@;
        proof {
            assert(pairs_view(prevp).len() == i as int);
            assert(prevp.len() == i as int);
        }
        let name = peers[i].username.clone();
        let addr = peers[i].addr;
        proof {
            assert(name == peers@[i as int].username);
            assert(addr == peers@[i as int].addr);
        }
        pairs.push((name, addr));
        dests.push(addr);
        proof {
            assert(pairs@ == prevp.push((peers@[i as int].username, peers@[i as int].addr)));
            assert(pairs@[i as int] == (peers@[i as int].username, peers@[i as int].addr));
            assert forall|m: int|
                0 <= m < i + 1 implies #[trigger] pairs_view(pairs@)[m] == gossip_of(
                peer_list.records(),
            )[m] by {
                if m < i {
                    assert(pairs_view(prevp)[m] == gossip_of(peer_list.records()).subrange(
                        0,
                        i as int,
                    )[m]);
                    assert(pairs@[m] == prevp[m]);
                } else {
                    assert(peer_list.records()[m] == peers@[m]@);
                }
            }
            assert(pairs_view(pairs@) =~= gossip_of(peer_list.records()).subrange(0, i as int + 1));
            assert(dests@ =~= addrs_of(peer_list.records()).subrange(0, i as int + 1));
        }
        i = i + 1;
    }
    proof {
        assert(gossip_of(peer_list.records()).subrange(0, n as int) =~= gossip_of(
            peer_list.records(),
        ));
        assert(addrs_of(peer_list.records()).subrange(0, n as int) =~= addrs_of(
            peer_list.records(),
        ));
    }
    let msg = Message::new_heartbeat(String::from_str(username), local_addr, pairs);
    (msg, dests)
}

/// One sweeper round: consolidates ports, evicts every record idle longer
/// than the liveness timeout, drops tombstones older than twice the grace
/// period, and returns the evicted records for reporting. Afterwards every
/// evicted endpoint carries a tombstone written at `now`; every other
/// tombstone survives exactly when its eviction is younger than twice the
/// grace period.
pub fn check_peer_timeouts(peer_list: &mut PeerList, now: u64) -> (removed: Vec<PeerInfo>)
    requires
        old(peer_list).wf(),
    ensures
        final(peer_list).wf(),
        final(peer_list).records() == live_from(
            kept_from(old(peer_list).records(), 0),
            PEER_TIMEOUT as int,
            now as int,
            0,
        ),
        views_of(removed@) == stale_from(
            kept_from(old(peer_list).records(), 0),
            PEER_TIMEOUT as int,
            now as int,
            0,
        ),
        forall|a: Endpoint|
            #[trigger] tomb_time(final(peer_list).tombstones(), a) == (if has_addr(
                stale_from(
                    kept_from(old(peer_list).records(), 0),
                    PEER_TIMEOUT as int,
                    now as int,
                    0,
                ),
                a,
            ) {
                Some(now)
            } else {
                match tomb_time(old(peer_list).tombstones(), a) {
                    Some(w) => if elapsed(now as int, w as int) < 2 * REMOVED_PEER_GRACE_PERIOD {
                        Some(w)
                    } else {
                        None::<u64>
                    },
                    None => None::<u64>,
                }
            }),
{
    let ghost evicted = stale_from(
        kept_from(old(peer_list).records(), 0),
        PEER_TIMEOUT as int,
        now as int,
        0,
    );
    peer_list.consolidate();
    let removed = peer_list.remove_stale_peers(PEER_TIMEOUT, now);
    let ghost mid_tombs = peer_list.tombstones();
    peer_list.clean_removed_list(2 * REMOVED_PEER_GRACE_PERIOD, now);
    proof {
        lemma_fresh_tombs_pointwise(mid_tombs, (2 * REMOVED_PEER_GRACE_PERIOD) as int, now as int);
        assert forall|a: Endpoint|
            #[trigger] tomb_time(peer_list.tombstones(), a) == (if has_addr(evicted, a) {
                Some(now)
            } else {
                match tomb_time(old(peer_list).tombstones(), a) {
                    Some(w) => if elapsed(now as int, w as int) < 2 * REMOVED_PEER_GRACE_PERIOD {
                        Some(w)
                    } else {
                        None::<u64>
                    },
                    None => None::<u64>,
                }
            }) by {
            assert(tomb_time(mid_tombs, a) == (if has_addr(evicted, a) {
                Some(now)
            } else {
                tomb_time(old(peer_list).tombstones(), a)
            }));
            if has_addr(evicted, a) {
                assert(elapsed(now as int, now as int) == 0);
            }
        }
    }
    removed
}

/// What handling a heartbeat from `sa` did, as seen in the directory going
/// from `pre` to `post` and in the returned report `discovered`. The sender
/// is recorded under its effective name unless anonymous; at most one
/// appended record precedes the gossip block, and that block mirrors the
/// report pair for pair; every reported pair is a vetted pair of the gossip
/// payload `kp`; appended records sit at pairwise distinct endpoints; and
/// every gossiped endpoint is accounted for — present, tombstoned, or
/// anonymous.
pub open spec fn heartbeat_report_ok(
    pre: Seq<RecordV>,
    post: Seq<RecordV>,
    tombs: Seq<(Endpoint, u64)>,
    sa: Endpoint,
    sender: Seq<char>,
    kp: Option<Seq<(Seq<char>, Endpoint)>>,
    discovered: Seq<(String, Endpoint)>,
    now: u64,
) -> bool {
    let ename = effective_name(sender, sa);
    &&& pre.len() <= post.len()
    &&& discovered.len() <= post.len() - pre.len()
    &&& post.len() - pre.len() - discovered.len() <= 1
    &&& forall|i: int|
        0 <= i < pre.len() ==> (#[trigger] post[i]).username == pre[i].username && post[i].addr
            == pre[i].addr
    &&& forall|i: int| 0 <= i < pre.len() && (#[trigger] pre[i]).addr != sa ==> post[i] == pre[i]
    &&& has_addr(post, sa) || is_anon(ename)
    &&& !is_anon(ename) ==> exists|i: int|
        0 <= i < post.len() && same_key(#[trigger] post[i], ename, sa) && post[i].last_seen == now
    &&& forall|i: int|
        pre.len() <= i < post.len() - discovered.len() ==> #[trigger] post[i] == (RecordV {
            addr: sa,
            username: ename,
            last_seen: now,
        })
    &&& forall|j: int|
        0 <= j < discovered.len() ==> post[post.len() - discovered.len() + j] == (RecordV {
            addr: (#[trigger] discovered[j]).1,
            username: effective_name(discovered[j].0@, discovered[j].1),
            last_seen: now,
        })
    &&& forall|j: int|
        0 <= j < discovered.len() ==> {
            let d = #[trigger] discovered[j];
            &&& !has_addr(pre, d.1)
            &&& !tombstoned_within(tombs, d.1, REMOVED_PEER_GRACE_PERIOD as int, now as int)
            &&& !is_anon(effective_name(d.0@, d.1))
            &&& (kp matches Some(ps) && exists|k2: int|
                0 <= k2 < ps.len() && #[trigger] ps[k2] == (d.0@, d.1))
        }
    &&& forall|i: int, j: int|
        pre.len() <= i < j < post.len() ==> (#[trigger] post[i]).addr != (#[trigger] post[j]).addr
    &&& kp matches Some(ps) ==> forall|k: int|
        0 <= k < ps.len() ==> has_addr(post, (#[trigger] ps[k]).1) || tombstoned_within(
            tombs,
            ps[k].1,
            REMOVED_PEER_GRACE_PERIOD as int,
            now as int,
        ) || is_anon(effective_name(ps[k].0, ps[k].1))
}

/// Handles a received heartbeat. The direct sender is recorded under its
/// claimed name — a live datagram just arrived from that exact endpoint.
/// Each gossiped pair is taken in only if its endpoint is unknown, not under
/// a tombstone's grace window, and its name is not anonymous; gossip never
/// refreshes an existing record's `last_direct_contact`. The returned list
/// reports exactly the pairs taken in, in order: the appended records mirror
/// it pair for pair.
#[verifier::rlimit(100)]
#[verifier::spinoff_prover]
pub fn handle_heartbeat_message(msg: &Message, peer_list: &mut PeerList, now: u64) -> (discovered:
    Vec<(String, Endpoint)>)
    requires
        old(peer_list).wf(),
    ensures
        final(peer_list).wf(),
        final(peer_list).tombstones() == old(peer_list).tombstones(),
        msg.sender_addr is None ==> final(peer_list).records() == old(peer_list).records()
            && discovered@.len() == 0,
        msg.sender_addr matches Some(sa) ==> heartbeat_report_ok(
            old(peer_list).records(),
            final(peer_list).records(),
            old(peer_list).tombstones(),
            sa,
            msg.sender@,
            msg@.known_peers,
            discovered@,
            now,
        ),
{
    let mut discovered: Vec<(String, Endpoint)> = Vec::new();
    let sa = match &msg.sender_addr {
        Some(sa) => *sa,
        None => {
            return discovered;
        },
    };
    let ghost pre = old(peer_list).records();
    let sender_name = msg.sender.clone();
    peer_list.add_or_update_peer(sa, sender_name, now);
    let ghost mid = peer_list.records();
    let ghost ename = effective_name(msg.sender@, sa);
    proof {
        lemma_upsert_prefix(pre, mid, sa, msg.sender@, now);
        assert(has_addr(mid, sa) || is_anon(ename)) by {
            if has_addr(pre, sa) && !is_anon(ename) {
                let w = choose|w: int| 0 <= w < pre.len() && (#[trigger] pre[w]).addr == sa;
                assert(mid[w].addr == pre[w].addr);
                assert(has_addr(mid, sa));
            }
        }
    }
    let kp = match &msg.known_peers {
        Some(kp) => kp,
        None => {
            proof {
                assert(heartbeat_report_ok(
                    pre,
                    peer_list.records(),
                    old(peer_list).tombstones(),
                    sa,
                    msg.sender@,
                    msg@.known_peers,
                    discovered@,
                    now,
                ));
            }
            return discovered;
        },
    };
    let n = kp.len();
    let mut k: usize = 0;
    while k < n
        invariant
            0 <= k <= n,
            n == kp@.len(),
            kp@ == msg.known_peers->0@,
            peer_list.wf(),
            peer_list.tombstones() == old(peer_list).tombstones(),
            pre == old(peer_list).records(),
            ename == effective_name(msg.sender@, sa),
            pre.len() <= mid.len() <= pre.len() + 1,
            peer_list.records().len() == mid.len() + discovered@.len(),
            forall|i: int|
                0 <= i < mid.len() ==> #[trigger] peer_list.records()[i] == mid[i],
            forall|i: int|
                0 <= i < pre.len() ==> (#[trigger] mid[i]).username == pre[i].username
                    && mid[i].addr == pre[i].addr,
            forall|i: int|
                0 <= i < pre.len() && (#[trigger] pre[i]).addr != sa ==> mid[i] == pre[i],
            has_addr(mid, sa) || is_anon(ename),
            !is_anon(ename) ==> exists|i: int|
                0 <= i < mid.len() && same_key(#[trigger] mid[i], ename, sa) && mid[i].last_seen
                    == now,
            forall|i: int|
                pre.len() <= i < mid.len() ==> #[trigger] mid[i] == (RecordV {
                    addr: sa,
                    username: ename,
                    last_seen: now,
                }),
            forall|j: int|
                0 <= j < discovered@.len() ==> peer_list.records()[mid.len() + j] == (RecordV {
                    addr: (#[trigger] discovered@[j]).1,
                    username: effective_name(discovered@[j].0@, discovered@[j].1),
                    last_seen: now,
                }),
            forall|j: int|
                0 <= j < discovered@.len() ==> {
                    let d = #[trigger] discovered@[j];
                    &&& !has_addr(pre, d.1)
                    &&& !tombstoned_within(
                        old(peer_list).tombstones(),
                        d.1,
                        REMOVED_PEER_GRACE_PERIOD as int,
                        now as int,
                    )
                    &&& !is_anon(effective_name(d.0@, d.1))
                    &&& exists|k2: int|
                        0 <= k2 < kp@.len() && (#[trigger] kp@[k2]).0 == d.0 && kp@[k2].1 == d.1
                },
            forall|i: int, j: int|
                pre.len() <= i < j < peer_list.records().len() ==> (
                #[trigger] peer_list.records()[i]).addr != (#[trigger] peer_list.records()[j]).addr,
            forall|m: int|
                0 <= m < k ==> has_addr(peer_list.records(), (#[trigger] kp@[m]).1)
                    || tombstoned_within(
                    old(peer_list).tombstones(),
                    kp@[m].1,
                    REMOVED_PEER_GRACE_PERIOD as int,
                    now as int,
                ) || is_anon(effective_name(kp@[m].0@, kp@[m].1)),
        decreases n - k,
    {
        let peer_addr = kp[k].1;
        let is_new = peer_list.find_username_by_addr(&peer_addr).is_none();
        let tombed = peer_list.was_recently_removed(
            &peer_addr,
            REMOVED_PEER_GRACE_PERIOD,
            now,
        );
        let claimed = &kp[k].0;
        let anonish = claimed.as_str().is_empty() || crate::text::str_contains_char(
            claimed.as_str(),
            ':',
        ) || crate::text::str_starts_with(claimed.as_str(), "anonymous@");
        proof {
            assert(anonish == is_anon(effective_name(kp@[k as int].0@, peer_addr))) by {
                if looks_like_address(kp@[k as int].0@) {
                    crate::peer_list::lemma_anon_label_is_anon(peer_addr);
                }
            }
        }
        if is_new && !tombed && !anonish {
            let peer_name = kp[k].0.clone();
            let ghost before = peer_list.records();
            let ghost cname = effective_name(kp@[k as int].0@, peer_addr);
            peer_list.add_or_update_peer(peer_addr, peer_name, now);
            proof {
                lemma_upsert_prefix(before, peer_list.records(), peer_addr, kp@[k as int].0@, now);
                assert(!has_addr(before, peer_addr));
                assert(!has_key(before, cname, peer_addr)) by {
                    if has_key(before, cname, peer_addr) {
                        let w = choose|w: int|
                            0 <= w < before.len() && same_key(
                                #[trigger] before[w],
                                cname,
                                peer_addr,
                            );
                        assert(has_addr(before, peer_addr));
                    }
                }
                assert(peer_list.records() == before.push(
                    RecordV { addr: peer_addr, username: cname, last_seen: now },
                ));
                assert(!has_addr(pre, peer_addr)) by {
                    if has_addr(pre, peer_addr) {
                        let w = choose|w: int|
                            0 <= w < pre.len() && (#[trigger] pre[w]).addr == peer_addr;
                        assert(before[w].addr == pre[w].addr);
                        assert(has_addr(before, peer_addr));
                    }
                }
                assert forall|i: int|
                    0 <= i < before.len() implies #[trigger] peer_list.records()[i]
                    == before[i] by {}
                assert forall|i: int, j: int|
                    pre.len() <= i < j < peer_list.records().len() implies (
                #[trigger] peer_list.records()[i]).addr != (
                #[trigger] peer_list.records()[j]).addr by {
                    if j == before.len() as int {
                        assert(before[i].addr != peer_addr) by {
                            if before[i].addr == peer_addr {
                                assert(has_addr(before, peer_addr));
                            }
                        }
                    }
                }
            }
            discovered.push((kp[k].0.clone(), peer_addr));
            proof {
                assert(discovered@[discovered@.len() - 1] == (kp@[k as int].0, peer_addr));
                assert(peer_list.records()[mid.len() + discovered@.len() - 1] == (RecordV {
                    addr: peer_addr,
                    username: cname,
                    last_seen: now,
                }));
            }
        }
        proof {
            if is_new && !tombed && !anonish {
                assert(has_addr(peer_list.records(), peer_addr)) by {
                    assert(peer_list.records()[peer_list.records().len() - 1].addr == peer_addr);
                }
            } else if !is_new {
                assert(has_addr(peer_list.records(), peer_addr));
            }
            assert forall|m: int|
                0 <= m < k + 1 implies has_addr(peer_list.records(), (#[trigger] kp@[m]).1)
                || tombstoned_within(
                old(peer_list).tombstones(),
                kp@[m].1,
                REMOVED_PEER_GRACE_PERIOD as int,
                now as int,
            ) || is_anon(effective_name(kp@[m].0@, kp@[m].1)) by {}
        }
        k = k + 1;
    }
    proof {
        if has_addr(mid, sa) {
            let w = choose|w: int| 0 <= w < mid.len() && (#[trigger] mid[w]).addr == sa;
            assert(peer_list.records()[w] == mid[w]);
            assert(has_addr(peer_list.records(), sa));
        }
        if !is_anon(ename) {
            let i = choose|i: int|
                0 <= i < mid.len() && same_key(#[trigger] mid[i], ename, sa) && mid[i].last_seen
                    == now;
            assert(peer_list.records()[i] == mid[i]);
        }
        let ps = pairs_view(kp@);
        assert(msg@.known_peers == Some(ps));
        assert forall|j: int|
            0 <= j < discovered@.len() implies (exists|k2: int|
            0 <= k2 < ps.len() && #[trigger] ps[k2] == ((#[trigger] discovered@[j]).0@,
            discovered@[j].1)) by {
            let d = discovered@[j];
            let k2 = choose|k2: int|
                0 <= k2 < kp@.len() && (#[trigger] kp@[k2]).0 == d.0 && kp@[k2].1 == d.1;
            assert(ps[k2] == (kp@[k2].0@, kp@[k2].1));
        }
        assert forall|k: int|
            0 <= k < ps.len() implies has_addr(peer_list.records(), (#[trigger] ps[k]).1)
            || tombstoned_within(
            old(peer_list).tombstones(),
            ps[k].1,
            REMOVED_PEER_GRACE_PERIOD as int,
            now as int,
        ) || is_anon(effective_name(ps[k].0, ps[k].1)) by {
            assert(ps[k] == (kp@[k].0@, kp@[k].1));
        }
        assert(peer_list.records().len() - discovered@.len() == mid.len());
        assert forall|i: int|
            pre.len() <= i < peer_list.records().len() - discovered@.len() implies
            #[trigger] peer_list.records()[i] == (RecordV {
            addr: sa,
            username: effective_name(msg.sender@, sa),
            last_seen: now,
        }) by {
            assert(peer_list.records()[i] == mid[i]);
            assert(mid[i] == (RecordV { addr: sa, username: ename, last_seen: now }));
        }
        assert forall|j: int|
            0 <= j < discovered@.len() implies peer_list.records()[peer_list.records().len()
            - discovered@.len() + j] == (RecordV {
            addr: (#[trigger] discovered@[j]).1,
            username: effective_name(discovered@[j].0@, discovered@[j].1),
            last_seen: now,
        }) by {
            assert(peer_list.records()[mid.len() + j] == (RecordV {
                addr: discovered@[j].1,
                username: effective_name(discovered@[j].0@, discovered@[j].1),
                last_seen: now,
            }));
        }
        assert forall|i: int|
            0 <= i < pre.len() implies (#[trigger] peer_list.records()[i]).username
            == pre[i].username && peer_list.records()[i].addr == pre[i].addr by {
            assert(peer_list.records()[i] == mid[i]);
        }
        assert forall|i: int|
            0 <= i < pre.len() && (#[trigger] pre[i]).addr != sa implies peer_list.records()[i]
            == pre[i] by {
            assert(peer_list.records()[i] == mid[i]);
        }
        assert(pre.len() <= peer_list.records().len());
        assert(discovered@.len() <= peer_list.records().len() - pre.len());
        assert(peer_list.records().len() - pre.len() - discovered@.len() <= 1);
        assert(has_addr(peer_list.records(), sa) || is_anon(effective_name(msg.sender@, sa)));
        assert(!is_anon(effective_name(msg.sender@, sa)) ==> exists|i: int|
            0 <= i < peer_list.records().len() && same_key(
                #[trigger] peer_list.records()[i],
                effective_name(msg.sender@, sa),
                sa,
            ) && peer_list.records()[i].last_seen == now);
        assert forall|j: int|
            0 <= j < discovered@.len() implies {
            let d = #[trigger] discovered@[j];
            &&& !has_addr(pre, d.1)
            &&& !tombstoned_within(
                old(peer_list).tombstones(),
                d.1,
                REMOVED_PEER_GRACE_PERIOD as int,
                now as int,
            )
            &&& !is_anon(effective_name(d.0@, d.1))
            &&& (msg@.known_peers matches Some(ps2) && exists|k2: int|
                0 <= k2 < ps2.len() && #[trigger] ps2[k2] == (d.0@, d.1))
        } by {
            let d = discovered@[j];
            assert(!has_addr(pre, d.1));
            assert(!tombstoned_within(
                old(peer_list).tombstones(),
                d.1,
                REMOVED_PEER_GRACE_PERIOD as int,
                now as int,
            ));
            assert(!is_anon(effective_name(d.0@, d.1)));
            assert(msg@.known_peers == Some(ps));
            let k2 = choose|k2: int|
                0 <= k2 < kp@.len() && (#[trigger] kp@[k2]).0 == d.0 && kp@[k2].1 == d.1;
            assert((msg@.known_peers->0)[k2] == (kp@[k2].0@, kp@[k2].1));
            assert(exists|k3: int|
                0 <= k3 < (msg@.known_peers->0).len() && #[trigger] (msg@.known_peers->0)[k3] == (
                d.0@,
                d.1,
            ));
        }
        assert forall|k: int|
            0 <= k < (msg@.known_peers->0).len() implies has_addr(
            peer_list.records(),
            (#[trigger] (msg@.known_peers->0)[k]).1,
        ) || tombstoned_within(
            old(peer_list).tombstones(),
            (msg@.known_peers->0)[k].1,
            REMOVED_PEER_GRACE_PERIOD as int,
            now as int,
        ) || is_anon(effective_name((msg@.known_peers->0)[k].0, (msg@.known_peers->0)[k].1)) by {
            assert((msg@.known_peers->0)[k] == (kp@[k].0@, kp@[k].1));
        }
        assert(heartbeat_report_ok(
            pre,
            peer_list.records(),
            old(peer_list).tombstones(),
            sa,
            msg.sender@,
            msg@.known_peers,
            discovered@,
            now,
        ));
    }
    discovered
}

/// After an upsert the old records keep their identities in place; records
/// at other endpoints are untouched entirely; at most one record is
/// appended, and it is exactly the upserted identity at the new contact
/// time. Unless the effective name is anonymous, a record under that
/// identity with the new contact time exists afterwards.
pub proof fn lemma_upsert_prefix(
    pre: Seq<RecordV>,
    post: Seq<RecordV>,
    addr: Endpoint,
    claimed: Seq<char>,
    now: u64,
)
    requires
        upsert_post(pre, post, addr, claimed, now),
    ensures
        pre.len() <= post.len() <= pre.len() + 1,
        forall|i: int|
            0 <= i < pre.len() ==> (#[trigger] post[i]).username == pre[i].username && post[i].addr
                == pre[i].addr,
        forall|i: int| 0 <= i < pre.len() && (#[trigger] pre[i]).addr != addr ==> post[i] == pre[i],
        forall|i: int|
            pre.len() <= i < post.len() ==> #[trigger] post[i] == (RecordV {
                addr,
                username: effective_name(claimed, addr),
                last_seen: now,
            }),
        !has_addr(pre, addr) && !is_anon(effective_name(claimed, addr)) ==> has_key(
            post,
            effective_name(claimed, addr),
            addr,
        ),
        !has_addr(pre, addr) && is_anon(effective_name(claimed, addr)) ==> post == pre,
        has_addr(pre, addr) || is_anon(effective_name(claimed, addr)) || has_addr(post, addr),
        !is_anon(effective_name(claimed, addr)) ==> exists|i: int|
            0 <= i < post.len() && same_key(#[trigger] post[i], effective_name(claimed, addr), addr)
                && post[i].last_seen == now,
{
    let name = effective_name(claimed, addr);
    if is_anon(name) {
        assert(post == refresh_addr(pre, addr, now));
        assert forall|i: int|
            0 <= i < pre.len() && (#[trigger] pre[i]).addr != addr implies post[i] == pre[i] by {}
        if !has_addr(pre, addr) {
            assert forall|i: int| 0 <= i < pre.len() implies #[trigger] post[i] == pre[i] by {
                assert(pre[i].addr != addr);
            }
            assert(post =~= pre);
        }
    } else if has_key(pre, name, addr) {
        let i = choose|i: int|
            0 <= i < pre.len() && same_key(#[trigger] pre[i], name, addr) && post == pre.update(
                i,
                RecordV { addr, username: name, last_seen: now },
            );
        assert(has_addr(pre, addr)) by {
            assert(pre[i].addr == addr);
        }
        assert(same_key(post[i], name, addr) && post[i].last_seen == now);
    } else {
        assert(post == pre.push(RecordV { addr, username: name, last_seen: now }));
        assert(same_key(post[pre.len() as int], name, addr));
        assert(post[pre.len() as int].addr == addr);
        assert(has_addr(post, addr));
        assert(post[pre.len() as int].last_seen == now);
    }
}

} // verus!