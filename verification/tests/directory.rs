use pung::endpoint::Endpoint;
use pung::heartbeats::check_peer_timeouts;
use pung::heartbeats::handle_heartbeat_message;
use pung::heartbeats::send_heartbeats;
use pung::message::Message;
use pung::message::MessageType;
use pung::peer_list::PeerList;

fn ep(a: u8, b: u8, c: u8, d: u8, port: u16) -> Endpoint {
    Endpoint { ip0: a, ip1: b, ip2: c, ip3: d, port }
}

fn heartbeat_from(sender: &str, addr: Endpoint, gossip: Vec<(String, Endpoint)>) -> Message {
    Message::new_heartbeat(sender.to_string(), addr, gossip)
}

#[test]
fn upsert_inserts_and_lists_one_record() {
    let mut dir = PeerList::new();
    let a = ep(192, 168, 0, 7, 4000);
    dir.add_or_update_peer(a, "alice".to_string(), 10);
    let peers = dir.get_peers();
    assert_eq!(peers.len(), 1);
    assert_eq!(peers[0].username, "alice");
    assert_eq!(peers[0].addr, a);
    assert_eq!(peers[0].last_seen, 10);
}

#[test]
fn upsert_same_identity_twice_is_idempotent() {
    let mut dir = PeerList::new();
    let a = ep(10, 0, 0, 1, 9000);
    dir.add_or_update_peer(a, "alice".to_string(), 1);
    dir.add_or_update_peer(a, "alice".to_string(), 2);
    let peers = dir.get_peers();
    assert_eq!(peers.len(), 1);
    assert_eq!(peers[0].last_seen, 2);
}

#[test]
fn different_name_at_same_address_coexists() {
    let mut dir = PeerList::new();
    let a = ep(10, 0, 0, 1, 9000);
    dir.add_or_update_peer(a, "alice".to_string(), 1);
    dir.add_or_update_peer(a, "carol".to_string(), 2);
    let peers = dir.get_peers();
    assert_eq!(peers.len(), 2);
    for i in 0..peers.len() {
        for j in 0..peers.len() {
            if i != j {
                assert!(!(peers[i].username == peers[j].username && peers[i].addr == peers[j].addr));
            }
        }
    }
}

#[test]
fn anonymous_name_on_unknown_address_creates_nothing() {
    let mut dir = PeerList::new();
    let a = ep(10, 0, 0, 2, 9000);
    dir.add_or_update_peer(a, "".to_string(), 5);
    assert_eq!(dir.get_peers().len(), 0);
    dir.add_or_update_peer(a, "10.0.0.2:9000".to_string(), 6);
    assert_eq!(dir.get_peers().len(), 0);
}

#[test]
fn anonymous_name_refreshes_known_address() {
    let mut dir = PeerList::new();
    let a = ep(10, 0, 0, 2, 9000);
    dir.add_or_update_peer(a, "bob".to_string(), 5);
    dir.add_or_update_peer(a, "".to_string(), 9);
    let peers = dir.get_peers();
    assert_eq!(peers.len(), 1);
    assert_eq!(peers[0].username, "bob");
    assert_eq!(peers[0].last_seen, 9);
}

#[test]
fn lookup_matches_full_endpoint_only() {
    let mut dir = PeerList::new();
    let a = ep(10, 0, 0, 3, 9000);
    let same_ip_other_port = ep(10, 0, 0, 3, 9001);
    dir.add_or_update_peer(a, "dave".to_string(), 1);
    assert_eq!(dir.find_username_by_addr(&a), Some("dave".to_string()));
    assert_eq!(dir.find_username_by_addr(&same_ip_other_port), None);
}

#[test]
fn stale_record_is_evicted_and_reported_once() {
    let mut dir = PeerList::new();
    let a = ep(10, 0, 0, 4, 9000);
    let b = ep(10, 0, 0, 5, 9000);
    dir.add_or_update_peer(a, "old".to_string(), 0);
    dir.add_or_update_peer(b, "fresh".to_string(), 95);
    let removed = dir.remove_stale_peers(15, 100);
    assert_eq!(removed.len(), 1);
    assert_eq!(removed[0].username, "old");
    assert_eq!(removed[0].addr, a);
    let peers = dir.get_peers();
    assert_eq!(peers.len(), 1);
    assert_eq!(peers[0].username, "fresh");
    assert!(dir.was_recently_removed(&a, 30, 100));
    assert!(!dir.was_recently_removed(&b, 30, 100));
}

#[test]
fn tombstone_suppresses_gossip_within_grace_and_expires_after() {
    let mut dir = PeerList::new();
    let x = ep(10, 0, 0, 6, 9000);
    let sender = ep(10, 0, 0, 9, 9000);
    dir.add_or_update_peer(x, "alice".to_string(), 0);
    let removed = dir.remove_stale_peers(15, 50);
    assert_eq!(removed.len(), 1);
    assert_eq!(dir.get_peers().len(), 0);

    // Within the grace window hearsay about the evicted endpoint is refused.
    let hb = heartbeat_from("yolanda", sender, vec![("alice".to_string(), x)]);
    let discovered = handle_heartbeat_message(&hb, &mut dir, 60);
    assert_eq!(discovered.len(), 0);
    let peers = dir.get_peers();
    assert_eq!(peers.len(), 1); // only the direct sender
    assert_eq!(peers[0].addr, sender);

    // After the grace window the same hearsay succeeds.
    let hb2 = heartbeat_from("yolanda", sender, vec![("alice".to_string(), x)]);
    let discovered2 = handle_heartbeat_message(&hb2, &mut dir, 90);
    assert_eq!(discovered2.len(), 1);
    assert_eq!(discovered2[0].1, x);
    assert!(dir.find_username_by_addr(&x).is_some());
}

#[test]
fn heartbeat_gossip_never_refreshes_existing_record() {
    let mut dir = PeerList::new();
    let z = ep(10, 0, 0, 7, 9000);
    let y = ep(10, 0, 0, 8, 9000);
    dir.add_or_update_peer(z, "zed".to_string(), 5);
    let hb = heartbeat_from("yolanda", y, vec![("zed".to_string(), z)]);
    handle_heartbeat_message(&hb, &mut dir, 20);
    let peers = dir.get_peers();
    let zrec = peers.iter().find(|p| p.addr == z).unwrap();
    assert_eq!(zrec.last_seen, 5); // unchanged: gossip is not direct contact
    let yrec = peers.iter().find(|p| p.addr == y).unwrap();
    assert_eq!(yrec.last_seen, 20); // the direct sender is refreshed
}

#[test]
fn heartbeat_direct_sender_is_always_recorded() {
    let mut dir = PeerList::new();
    let y = ep(172, 16, 0, 1, 7001);
    let hb = heartbeat_from("yolanda", y, vec![]);
    handle_heartbeat_message(&hb, &mut dir, 3);
    assert_eq!(dir.find_username_by_addr(&y), Some("yolanda".to_string()));
}

#[test]
fn consolidate_keeps_most_recent_port_per_name_and_ip() {
    let mut dir = PeerList::new();
    let old_port = ep(10, 0, 0, 9, 1000);
    let new_port = ep(10, 0, 0, 9, 2000);
    let other = ep(10, 0, 0, 10, 1000);
    dir.add_or_update_peer(old_port, "bob".to_string(), 5);
    dir.add_or_update_peer(new_port, "bob".to_string(), 9);
    dir.add_or_update_peer(other, "carol".to_string(), 1);
    dir.consolidate();
    let peers = dir.get_peers();
    assert_eq!(peers.len(), 2);
    let bob = peers.iter().find(|p| p.username == "bob").unwrap();
    assert_eq!(bob.addr, new_port);
    assert_eq!(bob.last_seen, 9);
    assert!(peers.iter().any(|p| p.username == "carol"));
}

#[test]
fn sweeper_consolidates_then_evicts() {
    let mut dir = PeerList::new();
    let a1 = ep(10, 0, 1, 1, 1000);
    let a2 = ep(10, 0, 1, 1, 2000);
    let b = ep(10, 0, 1, 2, 1000);
    dir.add_or_update_peer(a1, "ann".to_string(), 90);
    dir.add_or_update_peer(a2, "ann".to_string(), 95);
    dir.add_or_update_peer(b, "old".to_string(), 0);
    let removed = check_peer_timeouts(&mut dir, 100);
    assert_eq!(removed.len(), 1);
    assert_eq!(removed[0].username, "old");
    let peers = dir.get_peers();
    assert_eq!(peers.len(), 1);
    assert_eq!(peers[0].addr, a2);
}

#[test]
fn tombstones_are_garbage_collected() {
    let mut dir = PeerList::new();
    let a = ep(10, 0, 2, 1, 1000);
    dir.add_or_update_peer(a, "gone".to_string(), 0);
    dir.remove_stale_peers(15, 50);
    assert!(dir.was_recently_removed(&a, 30, 60));
    dir.clean_removed_list(60, 200); // eviction is 150 ticks old, older than 60
    assert!(!dir.was_recently_removed(&a, 1000, 200));
}

#[test]
fn heartbeat_snapshot_carries_every_peer() {
    let mut dir = PeerList::new();
    let a = ep(10, 0, 3, 1, 1000);
    let b = ep(10, 0, 3, 2, 1000);
    dir.add_or_update_peer(a, "ann".to_string(), 1);
    dir.add_or_update_peer(b, "ben".to_string(), 2);
    let me = ep(10, 0, 3, 99, 4242);
    let (msg, dests) = send_heartbeats(&dir, "self", me);
    assert!(matches!(msg.msg_type, MessageType::Heartbeat));
    assert_eq!(msg.sender, "self");
    assert_eq!(msg.sender_addr, Some(me));
    assert_eq!(msg.content, "HEARTBEAT");
    let kp = msg.known_peers.unwrap();
    assert_eq!(kp.len(), 2);
    assert_eq!(kp[0], ("ann".to_string(), a));
    assert_eq!(kp[1], ("ben".to_string(), b));
    assert_eq!(dests, vec![a, b]);
}

#[test]
fn gossiped_anonymous_label_never_creates_a_record() {
    let mut dir = PeerList::new();
    let y = ep(10, 0, 0, 8, 9000);
    let x = ep(10, 0, 0, 9, 9100);
    // A peer gossips an anonymous label it holds for an unknown endpoint:
    // the label may not create a record here either.
    let hb = heartbeat_from(
        "yolanda",
        y,
        vec![("anonymous@10.0.0.9:9100".to_string(), x)],
    );
    let discovered = handle_heartbeat_message(&hb, &mut dir, 4);
    assert_eq!(discovered.len(), 0); // an anonymous pair is never taken in
    let peers = dir.get_peers();
    assert_eq!(peers.len(), 1); // only the direct sender was recorded
    assert_eq!(peers[0].addr, y);
}

#[test]
fn consolidate_breaks_ties_deterministically() {
    let mut dir = PeerList::new();
    let p1 = ep(10, 0, 4, 1, 1000);
    let p2 = ep(10, 0, 4, 1, 2000);
    dir.add_or_update_peer(p1, "bob".to_string(), 7);
    dir.add_or_update_peer(p2, "bob".to_string(), 7);
    dir.consolidate();
    let peers = dir.get_peers();
    assert_eq!(peers.len(), 1);
    assert_eq!(peers[0].addr, p1); // equal times: the earlier record stays
}

#[test]
fn eviction_boundary_is_strict() {
    let mut dir = PeerList::new();
    let a = ep(10, 0, 5, 1, 1000);
    dir.add_or_update_peer(a, "edge".to_string(), 85);
    // Idle exactly the timeout: not yet stale.
    assert_eq!(dir.remove_stale_peers(15, 100).len(), 0);
    assert_eq!(dir.get_peers().len(), 1);
    // One tick beyond: evicted.
    assert_eq!(dir.remove_stale_peers(15, 101).len(), 1);
    assert_eq!(dir.get_peers().len(), 0);
}
