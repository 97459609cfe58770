use pung::app_state::show_tips;
use pung::codec::decode;
use pung::codec::encode;
use pung::commands::Command;
use pung::commands::handle_command;
use pung::discovery::Dest;
use pung::discovery::DEFAULT_RECV_INIT_PORT;
use pung::discovery::handle_discovery_message;
use pung::discovery::send_discovery_message;
use pung::endpoint::Endpoint;
use pung::endpoint::endpoint_to_string;
use pung::endpoint::parse_endpoint;
use pung::listener::SeenIds;
use pung::listener::handle_datagram;
use pung::listener::handle_init_datagram;
use pung::mdns_discovery::DnsRecord;
use pung::mdns_discovery::MdnsService;
use pung::mdns_discovery::process_response;
use pung::mdns_discovery::sanitize_hostname;
use pung::message::Message;
use pung::message::MessageType;
use pung::peer_list::PeerList;
use pung::utils::display_time_from_timestamp;
use pung::utils::display_time_from_timestamp_with_tz;
use pung::utils::get_random_port;

fn ep(a: u8, b: u8, c: u8, d: u8, port: u16) -> Endpoint {
    Endpoint { ip0: a, ip1: b, ip2: c, ip3: d, port }
}

#[test]
fn endpoint_renders_canonically() {
    let e = ep(192, 168, 0, 1, 9487);
    assert_eq!(endpoint_to_string(&e), "192.168.0.1:9487");
    let z = ep(0, 0, 0, 0, 0);
    assert_eq!(endpoint_to_string(&z), "0.0.0.0:0");
}

#[test]
fn endpoint_parses_canonical_text() {
    assert_eq!(parse_endpoint("1.2.3.4:5678"), Some(ep(1, 2, 3, 4, 5678)));
    assert_eq!(parse_endpoint("255.255.255.255:65535"), Some(ep(255, 255, 255, 255, 65535)));
    assert_eq!(parse_endpoint("0.0.0.0:0"), Some(ep(0, 0, 0, 0, 0)));
}

#[test]
fn endpoint_rejects_malformed_text() {
    assert_eq!(parse_endpoint(""), None);
    assert_eq!(parse_endpoint("1.2.3.4"), None);
    assert_eq!(parse_endpoint("01.2.3.4:5"), None);
    assert_eq!(parse_endpoint("256.2.3.4:5"), None);
    assert_eq!(parse_endpoint("1.2.3.4:70000"), None);
    assert_eq!(parse_endpoint("1.2.3.4:5 "), None);
    assert_eq!(parse_endpoint("a.b.c.d:e"), None);
}

#[test]
fn endpoint_round_trips_through_text() {
    let e = ep(10, 20, 30, 40, 50607);
    let text = endpoint_to_string(&e);
    assert_eq!(parse_endpoint(&text), Some(e));
}

#[test]
fn codec_round_trips_chat() {
    let m = Message {
        sender: "ali çe".to_string(),
        content: "héllo αβγ".to_string(),
        message_id: "id-123".to_string(),
        timestamp: -5,
        msg_type: MessageType::Chat,
        sender_addr: Some(ep(1, 2, 3, 4, 5)),
        known_peers: None,
    };
    let bytes = encode(&m);
    let back = decode(&bytes).unwrap();
    assert_eq!(back.sender, m.sender);
    assert_eq!(back.content, m.content);
    assert_eq!(back.message_id, m.message_id);
    assert_eq!(back.timestamp, m.timestamp);
    assert!(matches!(back.msg_type, MessageType::Chat));
    assert_eq!(back.sender_addr, m.sender_addr);
    assert!(back.known_peers.is_none());
}

#[test]
fn codec_round_trips_heartbeat_with_gossip() {
    let m = Message {
        sender: "y".to_string(),
        content: "HEARTBEAT".to_string(),
        message_id: "".to_string(),
        timestamp: i64::MAX,
        msg_type: MessageType::Heartbeat,
        sender_addr: None,
        known_peers: Some(vec![
            ("alice".to_string(), ep(9, 8, 7, 6, 5)),
            ("".to_string(), ep(0, 0, 0, 0, 1)),
        ]),
    };
    let bytes = encode(&m);
    let back = decode(&bytes).unwrap();
    assert!(matches!(back.msg_type, MessageType::Heartbeat));
    assert_eq!(back.timestamp, i64::MAX);
    assert!(back.sender_addr.is_none());
    assert_eq!(back.known_peers, m.known_peers);
}

#[test]
fn codec_round_trips_all_kinds() {
    for kind in [
        MessageType::Chat,
        MessageType::Discovery,
        MessageType::Heartbeat,
        MessageType::PeerList,
    ] {
        let m = Message {
            sender: "s".to_string(),
            content: "c".to_string(),
            message_id: "i".to_string(),
            timestamp: 7,
            msg_type: kind,
            sender_addr: None,
            known_peers: None,
        };
        let back = decode(&encode(&m)).unwrap();
        assert_eq!(back.msg_type, kind);
    }
}

#[test]
fn decode_rejects_malformed_datagrams() {
    assert!(decode(&[]).is_err());
    assert!(decode(&[9]).is_err()); // no such kind tag
    assert!(decode(&[0, 1]).is_err()); // truncated header
    let m = Message {
        sender: "s".to_string(),
        content: "c".to_string(),
        message_id: "i".to_string(),
        timestamp: 7,
        msg_type: MessageType::Chat,
        sender_addr: None,
        known_peers: None,
    };
    let mut bytes = encode(&m);
    bytes.push(0); // trailing byte: not a strict encoding
    assert!(decode(&bytes).is_err());
    let mut cut = encode(&m);
    cut.pop();
    assert!(decode(&cut).is_err());
}

#[test]
fn decode_rejects_invalid_character_values() {
    // A one-character sender whose scalar value is a surrogate.
    let mut bytes = vec![0u8]; // Chat
    bytes.extend_from_slice(&[1, 0]); // sender length 1
    bytes.extend_from_slice(&0xD800u32.to_le_bytes()); // not a Unicode scalar
    bytes.extend_from_slice(&[0, 0]); // content ""
    bytes.extend_from_slice(&[0, 0]); // message_id ""
    bytes.extend_from_slice(&[0; 8]); // timestamp
    bytes.push(0); // no sender_addr
    bytes.push(0); // no known_peers
    assert!(decode(&bytes).is_err());
}

#[test]
fn message_constructors_fill_the_envelope() {
    let me = ep(10, 0, 0, 1, 4000);
    let chat = Message::new_chat("ann".to_string(), "hi".to_string(), Some(me));
    assert!(matches!(chat.msg_type, MessageType::Chat));
    assert_eq!(chat.sender, "ann");
    assert_eq!(chat.content, "hi");
    assert_eq!(chat.message_id.chars().count(), 21);
    assert!(chat.timestamp > 1_000_000_000);
    let disco = Message::new_discovery("ann".to_string(), me);
    assert_eq!(disco.content, "DISCOVERY");
    assert_eq!(disco.sender_addr, Some(me));
    let pl = Message::new_peer_list(
        "ann".to_string(),
        vec![ep(1, 2, 3, 4, 5), ep(6, 7, 8, 9, 10)],
        me,
    );
    assert!(matches!(pl.msg_type, MessageType::PeerList));
    assert_eq!(pl.content, "1.2.3.4:5,6.7.8.9:10");
    let two = Message::new_chat("a".to_string(), "b".to_string(), None);
    assert_ne!(chat.message_id, two.message_id);
}

#[test]
fn discovery_broadcast_covers_both_ports() {
    let me = ep(10, 0, 0, 1, 4000);
    let (msg, dests) = send_discovery_message("ann", me);
    assert!(matches!(msg.msg_type, MessageType::Discovery));
    assert_eq!(dests, vec![Dest::Broadcast(DEFAULT_RECV_INIT_PORT), Dest::Broadcast(4000)]);
    let bootstrap_holder = ep(10, 0, 0, 1, DEFAULT_RECV_INIT_PORT);
    let (_, one) = send_discovery_message("ann", bootstrap_holder);
    assert_eq!(one, vec![Dest::Broadcast(DEFAULT_RECV_INIT_PORT)]);
}

#[test]
fn discovery_reply_shares_the_peer_list() {
    let mut dir = PeerList::new();
    let me = ep(10, 0, 0, 1, 4000);
    let z = ep(10, 0, 0, 3, 6000);
    dir.add_or_update_peer(z, "zed".to_string(), 1);
    let probe = Message::new_discovery("xavier".to_string(), ep(10, 0, 0, 2, 5000));
    let (is_new, replies) = handle_discovery_message(&probe, &mut dir, "yolanda", me, 2);
    assert!(is_new);
    assert_eq!(replies.len(), 2);
    assert!(matches!(replies[0].msg.msg_type, MessageType::Discovery));
    assert!(matches!(replies[1].msg.msg_type, MessageType::PeerList));
    // The list carries Z, the probing sender, and ourselves.
    assert_eq!(replies[1].msg.content, "10.0.0.3:6000,10.0.0.2:5000,10.0.0.1:4000");
}

#[test]
fn gossip_fan_out_reaches_the_third_node() {
    // Node Y knows Z; X broadcasts a discovery probe.
    let x_addr = ep(10, 0, 0, 1, 4001);
    let y_addr = ep(10, 0, 0, 2, 4002);
    let z_addr = ep(10, 0, 0, 3, 4003);
    let mut y_dir = PeerList::new();
    y_dir.add_or_update_peer(z_addr, "zed".to_string(), 1);

    let x_probe = Message::new_discovery("xavier".to_string(), x_addr);
    let wire = encode(&x_probe);
    let outcome = handle_init_datagram(&wire, &mut y_dir, "yolanda", y_addr, 2);
    assert!(!outcome.decode_failed);
    assert!(outcome.is_new_peer);
    assert_eq!(outcome.peer, Some(x_addr));
    assert_eq!(outcome.replies.len(), 2);

    // X receives Y's peer list on its application port.
    let mut x_dir = PeerList::new();
    let mut x_seen = SeenIds::new();
    let list_wire = encode(&outcome.replies[1].msg);
    let x_outcome = handle_datagram(&list_wire, &mut x_dir, &mut x_seen, "xavier", x_addr, 3);
    assert!(!x_outcome.decode_failed);
    // X ends up with records for both Y and Z, and plans a probe to each.
    assert!(x_dir.find_username_by_addr(&y_addr).is_some());
    assert!(x_dir.find_username_by_addr(&z_addr).is_some());
    assert!(x_outcome.sends.iter().any(|o| o.dest == Dest::Peer(z_addr)));
    assert!(x_outcome.new_peers.contains(&z_addr));
    // X itself is in the shared list but is never added to its own table.
    assert!(x_dir.find_username_by_addr(&x_addr).is_none());
}

#[test]
fn duplicate_chat_renders_exactly_once() {
    let mut dir = PeerList::new();
    let mut seen = SeenIds::new();
    let me = ep(10, 0, 0, 1, 4000);
    let chat = Message::new_chat("ann".to_string(), "hi".to_string(), Some(ep(10, 0, 0, 2, 5000)));
    let wire = encode(&chat);
    let first = handle_datagram(&wire, &mut dir, &mut seen, "self", me, 1);
    assert!(first.chat.is_some());
    let second = handle_datagram(&wire, &mut dir, &mut seen, "self", me, 2);
    assert!(second.chat.is_none());
}

#[test]
fn seen_ids_forget_oldest_after_overflow() {
    let mut seen = SeenIds::new();
    assert!(seen.insert_if_new(&"id-0".to_string()));
    assert!(!seen.insert_if_new(&"id-0".to_string()));
    for i in 1..=1000u32 {
        assert!(seen.insert_if_new(&format!("id-{}", i)));
    }
    // The set overflowed and was trimmed to recent entries: the first
    // identifier was forgotten, the latest is still remembered.
    assert!(seen.insert_if_new(&"id-0".to_string()));
    assert!(!seen.insert_if_new(&"id-1000".to_string()));
}

#[test]
fn bootstrap_listener_ignores_other_kinds() {
    let mut dir = PeerList::new();
    let me = ep(10, 0, 0, 1, 4000);
    let chat = Message::new_chat("ann".to_string(), "hi".to_string(), None);
    let outcome = handle_init_datagram(&encode(&chat), &mut dir, "self", me, 1);
    assert!(!outcome.decode_failed);
    assert_eq!(outcome.replies.len(), 0);
    assert_eq!(dir.get_peers().len(), 0);
    let garbage = [7u8, 7, 7];
    let bad = handle_init_datagram(&garbage, &mut dir, "self", me, 1);
    assert!(bad.decode_failed);
}

#[test]
fn chat_sender_verification_flags_mismatch() {
    let mut dir = PeerList::new();
    let mut seen = SeenIds::new();
    let me = ep(10, 0, 0, 1, 4000);
    let liar = ep(10, 0, 0, 2, 5000);
    dir.add_or_update_peer(liar, "honest".to_string(), 1);
    let chat = Message::new_chat("impostor".to_string(), "hi".to_string(), Some(liar));
    let outcome = handle_datagram(&encode(&chat), &mut dir, &mut seen, "self", me, 2);
    let ev = outcome.chat.unwrap();
    match ev.sender_tag {
        pung::listener::SenderTag::Mismatch { recorded, claimed } => {
            assert_eq!(recorded, "honest");
            assert_eq!(claimed, "impostor");
        },
        _ => panic!("expected a mismatch tag"),
    }
}

#[test]
fn commands_are_read_from_the_first_token() {
    assert_eq!(handle_command("/peers"), Command::Peers);
    assert_eq!(handle_command("/p"), Command::Peers);
    assert_eq!(handle_command("  /q"), Command::Quit);
    assert_eq!(handle_command("/help me"), Command::Help);
    assert_eq!(handle_command("/b"), Command::Broadcast);
    assert_eq!(handle_command("/version"), Command::Version);
    assert_eq!(handle_command("/t"), Command::Tips);
    assert_eq!(handle_command("/state"), Command::State);
    assert_eq!(handle_command("/frobnicate"), Command::Unknown);
    assert_eq!(handle_command("hello world"), Command::NotCommand);
    assert_eq!(handle_command(""), Command::NotCommand);
}

#[test]
fn tips_list_both_hints() {
    let tips = show_tips();
    assert_eq!(tips.len(), 2);
    assert_eq!(tips[0], "1) use [/h] to show available commands");
    assert_eq!(tips[1], "2) use [/v] to show version and check for updates");
}

#[test]
fn clock_face_rendering_is_exact() {
    assert_eq!(display_time_from_timestamp_with_tz(0, 0), "00:00:00");
    assert_eq!(display_time_from_timestamp_with_tz(0, 8), "08:00:00");
    assert_eq!(display_time_from_timestamp_with_tz(-1, 0), "23:59:59");
    assert_eq!(display_time_from_timestamp_with_tz(86399, 0), "23:59:59");
    assert_eq!(display_time_from_timestamp_with_tz(3661, 0), "01:01:01");
    assert_eq!(display_time_from_timestamp(0), "08:00:00");
}

#[test]
fn random_port_respects_bounds() {
    assert_eq!(get_random_port(5000, 5000), 5000);
    for _ in 0..32 {
        let p = get_random_port(1000, 2000);
        assert!((1000..=2000).contains(&p));
    }
}

#[test]
fn hostname_sanitizing_maps_trims_and_lowercases() {
    assert_eq!(sanitize_hostname("ABC"), "abc");
    assert_eq!(sanitize_hostname("a b!"), "a-b");
    assert_eq!(sanitize_hostname("--x--"), "x");
    assert_eq!(sanitize_hostname("---"), "user");
    assert_eq!(sanitize_hostname(""), "user");
    assert_eq!(sanitize_hostname("Héllo"), "héllo");
}

#[test]
fn mdns_service_description() {
    let s = MdnsService::register("ann".to_string(), 4000);
    assert_eq!(s.username, "ann");
    assert_eq!(s.port, 4000);
    assert_eq!(s.service_name, "_pung-chat._udp.local");
}

#[test]
fn mdns_response_records_discovered_peers() {
    let mut dir = PeerList::new();
    let me = ep(10, 0, 0, 1, 4000);
    let records = vec![
        DnsRecord::A { ip0: 10, ip1: 0, ip2: 0, ip3: 5 },
        DnsRecord::A { ip0: 10, ip1: 0, ip2: 0, ip3: 1 },
        DnsRecord::Srv { port: 4000, target: "host.local".to_string() },
        DnsRecord::Txt { entries: vec!["username=nia".to_string()] },
    ];
    let added = process_response(&records, &mut dir, me, 7);
    assert_eq!(added.len(), 1); // our own endpoint is skipped
    assert_eq!(added[0].0, "nia");
    assert_eq!(added[0].1, ep(10, 0, 0, 5, 4000));
    assert_eq!(dir.find_username_by_addr(&ep(10, 0, 0, 5, 4000)), Some("nia".to_string()));
}

#[test]
fn mdns_response_without_srv_adds_nothing() {
    let mut dir = PeerList::new();
    let me = ep(10, 0, 0, 1, 4000);
    let records = vec![DnsRecord::A { ip0: 10, ip1: 0, ip2: 0, ip3: 5 }];
    let added = process_response(&records, &mut dir, me, 7);
    assert_eq!(added.len(), 0);
    assert_eq!(dir.get_peers().len(), 0);
}

#[test]
fn codec_round_trips_the_full_envelope() {
    let m = Message {
        sender: "s".to_string(),
        content: "1.2.3.4:5,6.7.8.9:10".to_string(),
        message_id: "xyz".to_string(),
        timestamp: i64::MIN + 1,
        msg_type: MessageType::PeerList,
        sender_addr: Some(ep(255, 0, 255, 0, 65535)),
        known_peers: Some(vec![("n".to_string(), ep(1, 1, 1, 1, 1))]),
    };
    let bytes = encode(&m);
    let back = decode(&bytes).unwrap();
    assert_eq!(back.sender, m.sender);
    assert_eq!(back.content, m.content);
    assert_eq!(back.message_id, m.message_id);
    assert_eq!(back.timestamp, m.timestamp);
    assert_eq!(back.sender_addr, m.sender_addr);
    assert_eq!(back.known_peers, m.known_peers);
    // Re-encoding the decoded message yields the identical datagram.
    assert_eq!(encode(&back), bytes);
}

#[test]
fn decode_rejects_a_nonminimal_flag_byte() {
    let m = Message {
        sender: "s".to_string(),
        content: "c".to_string(),
        message_id: "i".to_string(),
        timestamp: 0,
        msg_type: MessageType::Chat,
        sender_addr: None,
        known_peers: None,
    };
    let mut bytes = encode(&m);
    let n = bytes.len();
    bytes[n - 1] = 2; // the gossip presence flag must be 0 or 1
    assert!(decode(&bytes).is_err());
}

#[test]
fn mdns_last_srv_and_last_username_win() {
    let mut dir = PeerList::new();
    let me = ep(10, 0, 0, 1, 4000);
    let records = vec![
        DnsRecord::Srv { port: 1111, target: "stale.local".to_string() },
        DnsRecord::Txt { entries: vec!["username=old".to_string(), "note=x".to_string()] },
        DnsRecord::A { ip0: 10, ip1: 0, ip2: 0, ip3: 6 },
        DnsRecord::Srv { port: 2222, target: "host.local".to_string() },
        DnsRecord::Txt { entries: vec!["username=nia".to_string()] },
    ];
    let added = process_response(&records, &mut dir, me, 7);
    assert_eq!(added.len(), 1);
    assert_eq!(added[0].0, "nia");
    assert_eq!(added[0].1, ep(10, 0, 0, 6, 2222));
}

#[test]
fn mdns_hostname_names_the_peer_without_txt_username() {
    let mut dir = PeerList::new();
    let me = ep(10, 0, 0, 1, 4000);
    let records = vec![
        DnsRecord::A { ip0: 10, ip1: 0, ip2: 0, ip3: 7 },
        DnsRecord::Srv { port: 4000, target: "host.local".to_string() },
    ];
    let added = process_response(&records, &mut dir, me, 7);
    assert_eq!(added.len(), 1);
    assert_eq!(added[0].0, "host.local");
    assert_eq!(dir.find_username_by_addr(&ep(10, 0, 0, 7, 4000)), Some("host.local".to_string()));
}
