//! The datagram dispatcher: decoding, duplicate suppression, and routing by
//! message kind — the primary loop's logic and the bootstrap loop's logic.

use vstd::prelude::*;
use vstd::string::StrSliceExecFns;
use crate::codec::decode;
use crate::codec::parse_msg;
use crate::discovery::Outbound;
use crate::discovery::handle_discovery_message;
use crate::discovery::handle_peer_list_message;
use crate::endpoint::Endpoint;
use crate::heartbeats::handle_heartbeat_message;
use crate::message::MessageType;
use crate::peer_list::PeerList;
use crate::peer_list::has_addr;
use crate::peer_list::upsert_post;
use crate::text::str_eq;

verus! {

/// High-water mark of the remembered message identifiers.
pub const MAX_SEEN_IDS: usize = 1000;

/// How many identifiers the set is trimmed down to when it overflows.
pub const KEPT_SEEN_IDS: usize = 500;

/// The identifiers as character sequences.
pub open spec fn ids_view(v: Seq<String>) -> Seq<Seq<char>> {
    v.map(|i: int, s: String| s@)
}

/// The recently seen message identifiers, bounded in size: once the
/// high-water mark is passed, only the most recent identifiers are kept.
pub struct SeenIds {
    ids: Vec<String>,
}

impl SeenIds {
    /// The remembered identifiers, oldest first.
    pub closed spec fn ids_seq(self) -> Seq<Seq<char>> {
        ids_view(self.ids@)
    }

    /// Whether `id` is remembered.
    pub open spec fn contains_id(self, id: Seq<char>) -> bool {
        exists|i: int| 0 <= i < self.ids_seq().len() && #[trigger] self.ids_seq()[i] == id
    }

    /// The size bound the set never exceeds.
    pub open spec fn wf(self) -> bool {
        self.ids_seq().len() <= MAX_SEEN_IDS
    }

    /// An empty set.
    pub fn new() -> (r: SeenIds)
        ensures
            r.wf(),
            r.ids_seq() == Seq::<Seq<char>>::empty(),
    {
        let r = SeenIds { ids: Vec::new() };
        proof {
            assert(r.ids_seq() =~= Seq::<Seq<char>>::empty());
        }
        r
    }

    /// Remembers `id` and reports whether it was new. A new identifier is
    /// retained afterwards; when the set would pass the high-water mark it
    /// is trimmed to the most recent identifiers, the new one among them.
    pub fn insert_if_new(&mut self, id: &String) -> (fresh: bool)
        requires
            old(self).wf(),
        ensures
            final(self).wf(),
            fresh == !old(self).contains_id(id@),
            !fresh ==> final(self).ids_seq() == old(self).ids_seq(),
            fresh ==> final(self).contains_id(id@),
            fresh && old(self).ids_seq().len() < MAX_SEEN_IDS ==> final(self).ids_seq().len()
                == old(self).ids_seq().len() + 1,
            fresh && old(self).ids_seq().len() == MAX_SEEN_IDS ==> final(self).ids_seq().len()
                == KEPT_SEEN_IDS,
    {
        let n = self.ids.len();
        let mut i: usize = 0;
        while i < n
            invariant
                0 <= i <= n,
                n == self.ids@.len(),
                self.wf(),
                self.ids_seq() == old(self).ids_seq(),
                forall|m: int| 0 <= m < i ==> #[trigger] self.ids_seq()[m] != id@,
            decreases n - i,
        {
            if str_eq(self.ids[i].as_str(), id.as_str()) {
                proof {
                    assert(self.ids_seq()[i as int] == id@);
                }
                return false;
            }
            proof {
                assert(self.ids_seq()[i as int] == self.ids@[i as int]@);
            }
            i = i + 1;
        }
        let ghost pre = self.ids_seq();
        self.ids.push(id.clone());
        proof {
            assert(self.ids_seq() =~= pre.push(id@));
            assert(self.ids_seq()[pre.len() as int] == id@);
        }
        if self.ids.len() > MAX_SEEN_IDS {
            let keep_from = self.ids.len() - KEPT_SEEN_IDS;
            let tail = self.ids.split_off(keep_from);
            self.ids = tail;
            proof {
                assert(self.ids_seq().len() == KEPT_SEEN_IDS);
                assert(self.ids_seq()[KEPT_SEEN_IDS - 1] == id@);
            }
        }
        true
    }
}

/// How a chat datagram's claimed sender stands to the directory: the
/// recorded name matched, clashed with the claim, or the endpoint is
/// unknown; `Plain` when the datagram carried no sender endpoint.
pub enum SenderTag {
    Known(String),
    Mismatch { recorded: String, claimed: String },
    Unverified(String),
    Plain(String),
}

/// One chat line to render.
pub struct ChatEvent {
    pub sender_tag: SenderTag,
    pub content: String,
    pub timestamp: i64,
}

/// What one datagram on the application port led to.
pub struct DispatchOutcome {
    pub decode_failed: bool,
    pub chat: Option<ChatEvent>,
    pub discovered: Vec<(String, Endpoint)>,
    pub new_peers: Vec<Endpoint>,
    pub sends: Vec<Outbound>,
}

/// Whether a sender tag tells the truth about the directory `recs` and the
/// claimed sender of the message view `sender`/`sender_addr`.
pub open spec fn tag_ok(
    tag: SenderTag,
    sender: Seq<char>,
    sender_addr: Option<Endpoint>,
    recs: Seq<crate::peer_list::RecordV>,
) -> bool {
    match tag {
        SenderTag::Plain(s) => sender_addr is None && s@ == sender,
        SenderTag::Unverified(s) => sender_addr matches Some(sa) && !has_addr(recs, sa) && s@
            == sender,
        SenderTag::Known(u) => sender_addr matches Some(sa) && u@ == sender && (exists|i: int|
            0 <= i < recs.len() && (#[trigger] recs[i]).addr == sa && recs[i].username == u@),
        SenderTag::Mismatch { recorded, claimed } => sender_addr matches Some(sa) && claimed@
            == sender && recorded@ != sender && (exists|i: int|
            0 <= i < recs.len() && (#[trigger] recs[i]).addr == sa && recs[i].username
                == recorded@),
    }
}

/// Handles one datagram received on the application port: decodes it,
/// suppresses duplicate chat renderings by message identifier, and routes
/// by kind — chat to the renderer, heartbeats and peer lists to the
/// membership logic, discovery probes ignored here. A malformed datagram
/// only reports a decode failure.
#[verifier::rlimit(100)]
pub fn handle_datagram(
    buf: &[u8],
    peer_list: &mut PeerList,
    seen: &mut SeenIds,
    username: &str,
    local_addr: Endpoint,
    now: u64,
) -> (r: DispatchOutcome)
    requires
        old(peer_list).wf(),
        old(seen).wf(),
    ensures
        final(peer_list).wf(),
        final(seen).wf(),
        final(peer_list).tombstones() == old(peer_list).tombstones(),
        parse_msg(buf@) is None ==> r.decode_failed && final(peer_list).records() == old(
            peer_list,
        ).records() && final(seen).ids_seq() == old(seen).ids_seq() && r.chat is None
            && r.sends@.len() == 0 && r.discovered@.len() == 0 && r.new_peers@.len() == 0,
        parse_msg(buf@) matches Some(v) ==> {
            &&& !r.decode_failed
            &&& (v.msg_type == MessageType::Chat ==> {
                &&& r.sends@.len() == 0 && r.discovered@.len() == 0 && r.new_peers@.len() == 0
                &&& final(peer_list).records() == old(peer_list).records()
                &&& (r.chat is Some <==> !old(seen).contains_id(v.message_id))
                &&& (old(seen).contains_id(v.message_id) ==> final(seen).ids_seq() == old(
                    seen,
                ).ids_seq())
                &&& (r.chat matches Some(ev) ==> final(seen).contains_id(v.message_id)
                    && ev.content@ == v.content && ev.timestamp == v.timestamp && tag_ok(
                    ev.sender_tag,
                    v.sender,
                    v.sender_addr,
                    final(peer_list).records(),
                ))
            })
            &&& (v.msg_type == MessageType::Discovery ==> final(peer_list).records() == old(
                peer_list,
            ).records() && final(seen).ids_seq() == old(seen).ids_seq() && r.chat is None
                && r.sends@.len() == 0 && r.discovered@.len() == 0 && r.new_peers@.len() == 0)
            &&& (v.msg_type == MessageType::Heartbeat ==> {
                &&& final(seen).ids_seq() == old(seen).ids_seq()
                &&& r.chat is None
                &&& r.sends@.len() == 0 && r.new_peers@.len() == 0
                &&& (v.sender_addr is None ==> final(peer_list).records() == old(
                    peer_list,
                ).records() && r.discovered@.len() == 0)
                &&& (v.sender_addr matches Some(sa) ==> crate::heartbeats::heartbeat_report_ok(
                    old(peer_list).records(),
                    final(peer_list).records(),
                    old(peer_list).tombstones(),
                    sa,
                    v.sender,
                    v.known_peers,
                    r.discovered@,
                    now,
                ))
            })
            &&& (v.msg_type == MessageType::PeerList ==> {
                &&& final(seen).ids_seq() == old(seen).ids_seq()
                &&& r.chat is None
                &&& r.discovered@.len() == 0
                &&& r.new_peers@.len() == final(peer_list).records().len() - old(
                    peer_list,
                ).records().len()
                &&& forall|k: int|
                    0 <= k < r.new_peers@.len() ==> final(peer_list).records()[old(
                        peer_list,
                    ).records().len() + k].addr == #[trigger] r.new_peers@[k]
                &&& r.sends@.len() == r.new_peers@.len()
                &&& forall|k: int|
                    0 <= k < r.sends@.len() ==> (#[trigger] r.sends@[k]).dest
                        == crate::discovery::Dest::Peer(r.new_peers@[k])
                        && r.sends@[k].msg.msg_type == MessageType::Discovery
                        && r.sends@[k].msg.sender@ == username@ && r.sends@[k].msg.sender_addr
                        == Some(local_addr)
                &&& forall|i: int|
                    0 <= i < old(peer_list).records().len() ==> final(peer_list).records()[i]
                        == #[trigger] old(peer_list).records()[i]
                &&& forall|a: int, b: int|
                    #[trigger] crate::discovery::is_segment(v.content, a, b)
                        ==> crate::discovery::segment_admitted(
                        v.content,
                        a,
                        b,
                        old(peer_list).tombstones(),
                        local_addr,
                        now as int,
                        final(peer_list).records(),
                    )
            })
        },
{
    let mut r = DispatchOutcome {
        decode_failed: false,
        chat: None,
        discovered: Vec::new(),
        new_peers: Vec::new(),
        sends: Vec::new(),
    };
    let msg = match decode(buf) {
        Ok(m) => m,
        Err(_) => {
            r.decode_failed = true;
            return r;
        },
    };
    match msg.msg_type {
        MessageType::Chat => {
            let fresh = seen.insert_if_new(&msg.message_id);
            if fresh {
                let tag = match &msg.sender_addr {
                    None => SenderTag::Plain(msg.sender.clone()),
                    Some(sa) => match peer_list.find_username_by_addr(sa) {
                        Some(u) => {
                            if str_eq(u.as_str(), msg.sender.as_str()) {
                                SenderTag::Known(u)
                            } else {
                                SenderTag::Mismatch { recorded: u, claimed: msg.sender.clone() }
                            }
                        },
                        None => SenderTag::Unverified(msg.sender.clone()),
                    },
                };
                r.chat = Some(
                    ChatEvent {
                        sender_tag: tag,
                        content: msg.content.clone(),
                        timestamp: msg.timestamp,
                    },
                );
            }
        },
        MessageType::Discovery => {},
        MessageType::Heartbeat => {
            r.discovered = handle_heartbeat_message(&msg, peer_list, now);
        },
        MessageType::PeerList => {
            let (new_peers, sends) = handle_peer_list_message(
                &msg,
                peer_list,
                username,
                local_addr,
                now,
            );
            r.new_peers = new_peers;
            r.sends = sends;
        },
    }
    r
}

/// What one datagram on the bootstrap port led to.
pub struct InitOutcome {
    pub decode_failed: bool,
    pub is_new_peer: bool,
    pub peer: Option<Endpoint>,
    pub replies: Vec<Outbound>,
}

/// Handles one datagram received on the bootstrap port: only discovery
/// probes are acted on — the sender is recorded and answered with our own
/// probe and our peer list; every other kind is ignored. A malformed
/// datagram only reports a decode failure.
pub fn handle_init_datagram(
    buf: &[u8],
    peer_list: &mut PeerList,
    username: &str,
    local_addr: Endpoint,
    now: u64,
) -> (r: InitOutcome)
    requires
        old(peer_list).wf(),
    ensures
        final(peer_list).wf(),
        final(peer_list).tombstones() == old(peer_list).tombstones(),
        parse_msg(buf@) is None ==> r.decode_failed && final(peer_list).records() == old(
            peer_list,
        ).records() && r.replies@.len() == 0,
        parse_msg(buf@) matches Some(v) ==> {
            &&& !r.decode_failed
            &&& (v.msg_type != MessageType::Discovery ==> final(peer_list).records() == old(
                peer_list,
            ).records() && r.replies@.len() == 0)
            &&& (v.msg_type == MessageType::Discovery ==> {
                &&& r.peer == v.sender_addr
                &&& (v.sender_addr is None ==> final(peer_list).records() == old(
                    peer_list,
                ).records() && r.replies@.len() == 0)
                &&& (v.sender_addr matches Some(sa) ==> {
                    &&& upsert_post(
                        old(peer_list).records(),
                        final(peer_list).records(),
                        sa,
                        v.sender,
                        now,
                    )
                    &&& r.is_new_peer == !has_addr(old(peer_list).records(), sa)
                    &&& r.replies@.len() == 2
                    &&& r.replies@[0].dest == crate::discovery::Dest::Peer(sa)
                    &&& r.replies@[0].msg.msg_type == MessageType::Discovery
                    &&& r.replies@[1].dest == crate::discovery::Dest::Peer(sa)
                    &&& r.replies@[1].msg.msg_type == MessageType::PeerList
                    &&& r.replies@[1].msg.sender@ == username@
                    &&& r.replies@[1].msg.content@ == crate::message::peer_list_chars(
                        if crate::heartbeats::addrs_of(final(peer_list).records()).contains(
                            local_addr,
                        ) {
                            crate::heartbeats::addrs_of(final(peer_list).records())
                        } else {
                            crate::heartbeats::addrs_of(final(peer_list).records()).push(
                                local_addr,
                            )
                        },
                    )
                })
            })
        },
{
    let mut r = InitOutcome {
        decode_failed: false,
        is_new_peer: false,
        peer: None,
        replies: Vec::new(),
    };
    let msg = match decode(buf) {
        Ok(m) => m,
        Err(_) => {
            r.decode_failed = true;
            return r;
        },
    };
    match msg.msg_type {
        MessageType::Discovery => {
            r.peer = msg.sender_addr;
            let (is_new, replies) = handle_discovery_message(
                &msg,
                peer_list,
                username,
                local_addr,
                now,
            );
            r.is_new_peer = is_new;
            r.replies = replies;
        },
        _ => {},
    }
    r
}

} // verus!
