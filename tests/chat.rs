use gossip_chat::history::{decode_download, BootstrapError, Download, History, MAX_HISTORY_BYTES};
use gossip_chat::relay::{LengthPrintActor, P2PActor};
use gossip_chat::text::TicketParseError;
use gossip_chat::ticket::{PeerAddr, P2PTicket};
use gossip_chat::wire::{decode_history, decode_message, encode_history, encode_message, MessageBody};

fn msg(from: Option<[u8; 32]>, text: &str) -> MessageBody {
    MessageBody { from, text: text.to_string() }
}

fn same_msg(a: &MessageBody, b: &MessageBody) -> bool {
    a.from == b.from && a.text == b.text
}

fn same_peer(a: &PeerAddr, b: &PeerAddr) -> bool {
    a.node_id == b.node_id && a.relay_url == b.relay_url && a.direct_addresses == b.direct_addresses
}

fn same_ticket(a: &P2PTicket, b: &P2PTicket) -> bool {
    a.topic == b.topic
        && a.nodes.len() == b.nodes.len()
        && a.nodes.iter().zip(b.nodes.iter()).all(|(x, y)| same_peer(x, y))
        && same_peer(&a.bootstrap_node, &b.bootstrap_node)
}

fn sample_ticket() -> P2PTicket {
    P2PTicket {
        topic: [9u8; 32],
        nodes: vec![
            PeerAddr { node_id: [1u8; 32], relay_url: Some("https://relay.example.org./".to_string()), direct_addresses: vec![] },
            PeerAddr {
                node_id: [2u8; 32],
                relay_url: None,
                direct_addresses: vec!["192.0.2.7:4433".to_string(), "[2001:db8::1]:4433".to_string()],
            },
        ],
        bootstrap_node: PeerAddr { node_id: [3u8; 32], relay_url: None, direct_addresses: vec![] },
    }
}

#[test]
fn message_encoding_exact_bytes() {
    assert_eq!(encode_message(&msg(None, "hi")), vec![0u8, 2, b'h', b'i']);
    let mut expected = vec![1u8];
    expected.extend_from_slice(&[7u8; 32]);
    expected.extend_from_slice(&[2, b'h', b'i']);
    assert_eq!(encode_message(&msg(Some([7u8; 32]), "hi")), expected);
}

#[test]
fn long_text_uses_two_byte_length() {
    let text = "a".repeat(300);
    let bytes = encode_message(&msg(None, &text));
    assert_eq!(&bytes[..4], &[0u8, 251, 44, 1]);
    assert_eq!(bytes.len(), 4 + 300);
    let back = decode_message(&bytes).unwrap();
    assert_eq!(back.text, text);
}

#[test]
fn message_round_trip_with_unicode() {
    let m = msg(Some([5u8; 32]), "héllo, wörld ✓");
    let back = decode_message(&encode_message(&m)).unwrap();
    assert!(same_msg(&m, &back));
}

#[test]
fn message_decode_rejects_bad_input() {
    assert!(decode_message(&[]).is_err());
    assert!(decode_message(&[2, 0]).is_err());
    assert!(decode_message(&[0, 1, 0xff]).is_err());
    assert!(decode_message(&[0, 3, b'a']).is_err());
    assert!(decode_message(&[0, 1, b'a', 0]).is_err());
    assert!(decode_message(&[1, 0, 0]).is_err());
}

#[test]
fn history_encoding_round_trip() {
    let ms = vec![msg(Some([4u8; 32]), "hi"), msg(None, "there")];
    let bytes = encode_history(&ms);
    assert_eq!(bytes[0], 2);
    let back = decode_history(&bytes).unwrap();
    assert_eq!(back.len(), 2);
    assert!(same_msg(&back[0], &ms[0]));
    assert!(same_msg(&back[1], &ms[1]));
    assert_eq!(encode_history(&[]), vec![0u8]);
    assert!(decode_history(&[1]).is_err());
    assert!(decode_history(&[]).is_err());
}

#[test]
fn ticket_text_round_trip() {
    let t = sample_ticket();
    let text = t.to_text();
    let back = P2PTicket::from_text(&text).unwrap();
    assert!(same_ticket(&t, &back));
}

#[test]
fn ticket_text_is_lowercase_base32_of_bytes() {
    let t = sample_ticket();
    let text = t.to_text();
    let expected = data_encoding::BASE32_NOPAD.encode(&t.to_bytes()).to_ascii_lowercase();
    assert_eq!(text, expected);
    assert!(text.chars().all(|c| c.is_ascii_lowercase() || ('2'..='7').contains(&c)));
    assert_ne!(text.as_bytes(), &t.to_bytes()[..]);
}

#[test]
fn ticket_text_case_insensitive() {
    let t = sample_ticket();
    let text = t.to_text();
    let upper = text.to_ascii_uppercase();
    let a = P2PTicket::from_text(&text).unwrap();
    let b = P2PTicket::from_text(&upper).unwrap();
    assert!(same_ticket(&a, &b));
    let mixed: String = text
        .chars()
        .enumerate()
        .map(|(i, c)| if i % 2 == 0 { c.to_ascii_uppercase() } else { c })
        .collect();
    let c = P2PTicket::from_text(&mixed).unwrap();
    assert!(same_ticket(&a, &c));
}

#[test]
fn ticket_garbage_rejected() {
    assert_eq!(P2PTicket::from_text("not a ticket!").unwrap_err(), TicketParseError::Encoding);
    assert_eq!(P2PTicket::from_text("a").unwrap_err(), TicketParseError::Encoding);
    let short = data_encoding::BASE32_NOPAD.encode(&[1u8, 2, 3]);
    assert!(matches!(P2PTicket::from_text(&short), Err(TicketParseError::Decode(_))));
    assert!(matches!(P2PTicket::from_text(""), Err(TicketParseError::Decode(_))));
}

#[test]
fn ticket_truncated_or_extended_rejected() {
    let t = sample_ticket();
    let bytes = t.to_bytes();
    for len in 0..bytes.len() {
        assert!(P2PTicket::from_bytes(&bytes[..len]).is_err());
        let text = data_encoding::BASE32_NOPAD.encode(&bytes[..len]);
        assert!(P2PTicket::from_text(&text).is_err());
    }
    let mut longer = bytes.clone();
    longer.push(0);
    assert!(P2PTicket::from_bytes(&longer).is_err());
    let text = data_encoding::BASE32_NOPAD.encode(&longer);
    assert!(P2PTicket::from_text(&text).is_err());
}

#[test]
fn ticket_bytes_layout() {
    let t = P2PTicket {
        topic: [0u8; 32],
        nodes: vec![],
        bootstrap_node: PeerAddr { node_id: [1u8; 32], relay_url: None, direct_addresses: vec![] },
    };
    let bytes = t.to_bytes();
    assert_eq!(bytes.len(), 32 + 1 + 32 + 1 + 1);
    assert_eq!(bytes[32], 0);
    assert_eq!(bytes[65], 0);
    assert_eq!(bytes[66], 0);
}

#[test]
fn ticket_keeps_direct_addresses() {
    let t = sample_ticket();
    let back = P2PTicket::from_text(&t.to_text()).unwrap();
    assert_eq!(back.nodes[1].direct_addresses, vec!["192.0.2.7:4433".to_string(), "[2001:db8::1]:4433".to_string()]);
    let one = P2PTicket {
        topic: [0u8; 32],
        nodes: vec![],
        bootstrap_node: PeerAddr { node_id: [1u8; 32], relay_url: None, direct_addresses: vec!["a:1".to_string()] },
    };
    let bytes = one.to_bytes();
    assert_eq!(&bytes[66..], &[1u8, 3, b'a', b':', b'1']);
}

#[test]
fn ticket_text_with_foreign_characters_refused() {
    let text = sample_ticket().to_text();
    for bad in ["!", " ", "0", "1", "8", "9", "=", "é"] {
        let mut s = text.clone();
        s.insert_str(4, bad);
        assert_eq!(P2PTicket::from_text(&s).unwrap_err(), TicketParseError::Encoding);
    }
}

#[test]
fn fan_out_reaches_each_subscriber_once() {
    let mut relay = P2PActor::new();
    let a = relay.subscribe();
    let b = relay.subscribe();
    let m = msg(Some([1u8; 32]), "ping");
    relay.deliver(&m);
    let late = relay.subscribe();
    let got_a = relay.take_messages(a);
    let got_b = relay.take_messages(b);
    assert_eq!(got_a.len(), 1);
    assert_eq!(got_b.len(), 1);
    assert!(same_msg(&got_a[0], &m));
    assert!(same_msg(&got_b[0], &m));
    assert!(relay.take_messages(late).is_empty());
    assert!(relay.take_messages(a).is_empty());
    assert!(relay.take_messages(99).is_empty());
}

#[test]
fn unsubscribed_inbox_gets_nothing() {
    let mut relay = P2PActor::new();
    let a = relay.subscribe();
    let b = relay.subscribe();
    relay.unsubscribe(a);
    relay.deliver(&msg(None, "x"));
    assert!(relay.take_messages(a).is_empty());
    assert_eq!(relay.take_messages(b).len(), 1);
    assert_eq!(relay.subscriber_count(), 2);
}

#[test]
fn corrupt_gossip_is_dropped() {
    let mut relay = P2PActor::new();
    let s = relay.subscribe();
    assert!(!relay.receive(&[0xde, 0xad, 0xbe, 0xef]));
    assert!(!relay.receive(&[]));
    assert!(relay.take_messages(s).is_empty());
    let m = msg(None, "after");
    assert!(relay.receive(&encode_message(&m)));
    let got = relay.take_messages(s);
    assert_eq!(got.len(), 1);
    assert!(same_msg(&got[0], &m));
}

#[test]
fn publish_encodes_message() {
    let mut relay = P2PActor::new();
    assert!(!relay.is_joined());
    relay.mark_joined();
    assert!(relay.is_joined());
    let m = msg(Some([2u8; 32]), "out");
    assert_eq!(relay.publish(&m), encode_message(&m));
}

#[test]
fn end_to_end_gossip_delivery() {
    let peer_a = [10u8; 32];
    let mut relay_a = P2PActor::new();
    relay_a.mark_joined();
    let open = P2PTicket {
        topic: [42u8; 32],
        nodes: vec![PeerAddr { node_id: peer_a, relay_url: None, direct_addresses: vec![] }],
        bootstrap_node: PeerAddr { node_id: peer_a, relay_url: None, direct_addresses: vec![] },
    };
    let joined = P2PTicket::from_text(&open.to_text()).unwrap();
    assert_eq!(joined.topic, [42u8; 32]);
    let mut relay_b = P2PActor::new();
    relay_b.mark_joined();
    let printer = LengthPrintActor::register(&mut relay_b);
    let wire = relay_a.publish(&msg(Some(peer_a), "hello"));
    assert!(relay_b.receive(&wire));
    let got = printer.take_pending(&mut relay_b);
    assert_eq!(got.len(), 1);
    assert_eq!(got[0].from, Some(peer_a));
    assert_eq!(got[0].text, "hello");
}

#[test]
fn end_to_end_bootstrap_download() {
    let peer_a = [11u8; 32];
    let mut history = History::new();
    history.append(msg(Some(peer_a), "hi"));
    history.append(msg(Some(peer_a), "there"));
    let response = history.encoded_snapshot();
    let mut download = Download::new();
    for chunk in response.chunks(3) {
        download.push_chunk(chunk).unwrap();
    }
    let got = download.finish().unwrap();
    assert_eq!(got.len(), 2);
    assert!(same_msg(&got[0], &msg(Some(peer_a), "hi")));
    assert!(same_msg(&got[1], &msg(Some(peer_a), "there")));
}

#[test]
fn snapshot_is_independent_copy() {
    let mut history = History::new();
    history.append(msg(None, "one"));
    let snap = history.snapshot();
    history.append(msg(None, "two"));
    assert_eq!(snap.len(), 1);
    assert_eq!(snap[0].text, "one");
    let later = history.snapshot();
    assert_eq!(later.len(), 2);
    assert_eq!(later[0].text, "one");
    assert_eq!(later[1].text, "two");
    assert_eq!(history.len(), 2);
}

#[test]
fn bootstrap_ceiling_enforced() {
    let mut download = Download::new();
    let big = vec![0u8; MAX_HISTORY_BYTES];
    assert!(download.push_chunk(&big).is_ok());
    assert_eq!(download.push_chunk(&[1]), Err(BootstrapError::TooLarge));
    assert_eq!(download.received_len(), MAX_HISTORY_BYTES);
    let over = vec![0u8; MAX_HISTORY_BYTES + 1];
    assert_eq!(decode_download(&over).unwrap_err(), BootstrapError::TooLarge);
    let mut history = History::new();
    let text = "x".repeat(1000);
    for _ in 0..600 {
        history.append(msg(None, &text));
    }
    let response = history.encoded_snapshot();
    assert!(response.len() > MAX_HISTORY_BYTES);
    assert_eq!(decode_download(&response).unwrap_err(), BootstrapError::TooLarge);
}

#[test]
fn bootstrap_decode_error() {
    assert!(matches!(decode_download(&[5, 0]), Err(BootstrapError::Decode(_))));
    let empty = decode_download(&[0]).unwrap();
    assert!(empty.is_empty());
}
