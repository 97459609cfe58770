//! The wire envelope: one message per UDP datagram.

use vstd::prelude::*;
use vstd::string::StrSliceExecFns;
use vstd::string::StringExecFns;
use crate::endpoint::Endpoint;
use crate::endpoint::endpoint_chars;
use crate::endpoint::endpoint_to_string;

verus! {

/// What a datagram carries: chat text, a discovery probe, a liveness
/// heartbeat, or a shared peer list.
#[derive(Clone, Copy, PartialEq, Eq, Structural, Debug)]
pub enum MessageType {
    Chat,
    Discovery,
    Heartbeat,
    PeerList,
}

/// The message envelope. `content` depends on the kind: chat text, a fixed
/// marker, or the serialized peer list. `message_id` serves only to suppress
/// duplicates; `timestamp` is the sender's unsynchronized wall clock.
/// `known_peers` rides on heartbeats and carries membership gossip.
#[derive(Clone, Debug)]
pub struct Message {
    pub sender: String,
    pub content: String,
    pub message_id: String,
    pub timestamp: i64,
    pub msg_type: MessageType,
    pub sender_addr: Option<Endpoint>,
    pub known_peers: Option<Vec<(String, Endpoint)>>,
}

/// The mathematical shadow of a gossip pair list: names as character
/// sequences.
pub open spec fn pairs_view(v: Seq<(String, Endpoint)>) -> Seq<(Seq<char>, Endpoint)> {
    v.map(|i: int, p: (String, Endpoint)| (p.0@, p.1))
}

/// The mathematical shadow of a message: strings as character sequences.
pub struct MessageV {
    pub sender: Seq<char>,
    pub content: Seq<char>,
    pub message_id: Seq<char>,
    pub timestamp: i64,
    pub msg_type: MessageType,
    pub sender_addr: Option<Endpoint>,
    pub known_peers: Option<Seq<(Seq<char>, Endpoint)>>,
}

impl View for Message {
    type V = MessageV;

    open spec fn view(&self) -> MessageV {
        MessageV {
            sender: self.sender@,
            content: self.content@,
            message_id: self.message_id@,
            timestamp: self.timestamp,
            msg_type: self.msg_type,
            sender_addr: self.sender_addr,
            known_peers: match self.known_peers {
                Some(v) => Some(pairs_view(v@)),
                None => None,
            },
        }
    }
}

/// Relies on nanoid's `format` with its URL-safe 64-symbol alphabet: a fresh
/// collision-resistant identifier of 21 ASCII characters, from a
/// cryptographic generator. Nothing beyond the length is promised: the value
/// is random.
#[verifier::external_body]
fn fresh_message_id() -> (r: String)
    ensures
        r@.len() == 21,
{
    nanoid::format(nanoid::rngs::default, &nanoid::alphabet::SAFE, 21)
}

/// Relies on chrono's `Utc::now`: the wall clock as Unix seconds. The clock
/// is outside the library's control, so nothing is promised of the value.
#[verifier::external_body]
fn now_timestamp() -> (r: i64) {
    chrono::Utc::now().timestamp()
}

/// The serialized peer list from position `i` on: the endpoints' canonical
/// texts, comma-separated.
pub open spec fn peer_list_chars_from(peers: Seq<Endpoint>, i: int) -> Seq<char>
    decreases peers.len() - i,
{
    if i < 0 || i >= peers.len() {
        Seq::empty()
    } else if i == peers.len() - 1 {
        endpoint_chars(peers[i])
    } else {
        endpoint_chars(peers[i]) + seq![','] + peer_list_chars_from(peers, i + 1)
    }
}

/// The serialized peer list: the endpoints' canonical texts, comma-separated.
pub open spec fn peer_list_chars(peers: Seq<Endpoint>) -> Seq<char> {
    peer_list_chars_from(peers, 0)
}

impl Message {
    /// A chat message carrying `content`, with a fresh identifier and the
    /// sender's wall-clock time.
    pub fn new_chat(sender: String, content: String, sender_addr: Option<Endpoint>) -> (r: Message)
        ensures
            r.sender == sender,
            r.content == content,
            r.message_id@.len() == 21,
            r.msg_type == MessageType::Chat,
            r.sender_addr == sender_addr,
            r.known_peers is None,
    {
        Message {
            sender,
            content,
            message_id: fresh_message_id(),
            timestamp: now_timestamp(),
            msg_type: MessageType::Chat,
            sender_addr,
            known_peers: None,
        }
    }

    /// A discovery probe announcing the sender's own receive endpoint.
    pub fn new_discovery(sender: String, sender_addr: Endpoint) -> (r: Message)
        ensures
            r.sender == sender,
            r.content@ == "DISCOVERY"@,
            r.message_id@.len() == 21,
            r.msg_type == MessageType::Discovery,
            r.sender_addr == Some(sender_addr),
            r.known_peers is None,
    {
        Message {
            sender,
            content: String::from_str("DISCOVERY"),
            message_id: fresh_message_id(),
            timestamp: now_timestamp(),
            msg_type: MessageType::Discovery,
            sender_addr: Some(sender_addr),
            known_peers: None,
        }
    }

    /// A heartbeat carrying the sender's membership snapshot as gossip.
    pub fn new_heartbeat(
        sender: String,
        sender_addr: Endpoint,
        known_peers: Vec<(String, Endpoint)>,
    ) -> (r: Message)
        ensures
            r.sender == sender,
            r.content@ == "HEARTBEAT"@,
            r.message_id@.len() == 21,
            r.msg_type == MessageType::Heartbeat,
            r.sender_addr == Some(sender_addr),
            r.known_peers == Some(known_peers),
    {
        Message {
            sender,
            content: String::from_str("HEARTBEAT"),
            message_id: fresh_message_id(),
            timestamp: now_timestamp(),
            msg_type: MessageType::Heartbeat,
            sender_addr: Some(sender_addr),
            known_peers: Some(known_peers),
        }
    }

    /// A peer-list reply: the given endpoints serialized into the content.
    pub fn new_peer_list(sender: String, peers: Vec<Endpoint>, sender_addr: Endpoint) -> (r:
        Message)
        ensures
            r.sender == sender,
            r.content@ == peer_list_chars(peers@),
            r.message_id@.len() == 21,
            r.msg_type == MessageType::PeerList,
            r.sender_addr == Some(sender_addr),
            r.known_peers is None,
    {
        let mut content = String::new();
        let n = peers.len();
        let mut i: usize = 0;
        proof {
            assert(content@ + peer_list_chars_from(peers@, 0) =~= peer_list_chars_from(peers@, 0));
        }
        while i < n
            invariant
                0 <= i <= n,
                n == peers.len(),
                content@ + peer_list_chars_from(peers@, i as int) == peer_list_chars_from(
                    peers@,
                    0,
                ),
            decreases n - i,
        {
            let ghost prev = content@;
            let rendered = endpoint_to_string(&peers[i]);
            content.append(rendered.as_str());
            if i + 1 < n {
                content.push(',');
                proof {
                    assert(content@ =~= prev + (endpoint_chars(peers@[i as int]) + seq![',']));
                    assert(content@ + peer_list_chars_from(peers@, i as int + 1) =~= prev
                        + peer_list_chars_from(peers@, i as int));
                }
            } else {
                proof {
                    assert(content@ =~= prev + endpoint_chars(peers@[i as int]));
                    assert(content@ + peer_list_chars_from(peers@, i as int + 1) =~= prev
                        + peer_list_chars_from(peers@, i as int));
                }
            }
            i = i + 1;
        }
        proof {
            assert(peer_list_chars_from(peers@, n as int) =~= Seq::<char>::empty());
            assert(content@ =~= content@ + peer_list_chars_from(peers@, n as int));
        }
        Message {
            sender,
            content,
            message_id: fresh_message_id(),
            timestamp: now_timestamp(),
            msg_type: MessageType::PeerList,
            sender_addr: Some(sender_addr),
            known_peers: None,
        }
    }
}

} // verus!
