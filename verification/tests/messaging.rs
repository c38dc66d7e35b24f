use base64::Engine;
use chacha20poly1305::KeyInit;
use chacha20poly1305::aead::Aead;
use sha2::Digest;

use relayer::codec::parse_event;
use relayer::codec::render_event;
use relayer::crypto::decrypt_fanout_payload;
use relayer::crypto::encrypt_with_secret;
use relayer::event::Event;
use relayer::framing::forward_outcome;
use relayer::framing::frame_message;
use relayer::framing::status_ok;
use relayer::relay::ConnectDecision;
use relayer::relay::RelayDirectory;
use relayer::relay::RelayStatus;
use relayer::relay::should_reconnect;
use relayer::subscription::SubscriptionDirectory;

fn sample_event() -> Event {
    let mut id = Vec::new();
    for i in 0..32u8 {
        id.push(i);
    }
    let mut pubkey = String::new();
    for _ in 0..32 {
        pubkey.push_str("0f");
    }
    Event { id, pubkey, kind: 30931, created_at: 1000, content: String::from("hi") }
}

#[test]
fn test_hex_encode_decode() {
    let bytes = vec![0u8, 31, 171, 255];
    let hex = relayer::hexutil::hex_encode(&bytes);
    assert_eq!(hex, "001fabff");
    let back = relayer::hexutil::hex_decode(hex.as_str()).expect("valid hex");
    assert_eq!(back, bytes);
    assert!(relayer::hexutil::hex_decode("0G").is_none());
    assert!(relayer::hexutil::hex_decode("abc").is_none());
    assert!(relayer::hexutil::hex_decode("AB").is_none());
}

#[test]
fn test_render_exact_json() {
    let e = sample_event();
    let json = render_event(&e);
    let expected = "{\"id\":\"000102030405060708090a0b0c0d0e0f101112131415161718191a1b1c1d1e1f\",\"pubkey\":\"0f0f0f0f0f0f0f0f0f0f0f0f0f0f0f0f0f0f0f0f0f0f0f0f0f0f0f0f0f0f0f0f\",\"kind\":30931,\"created_at\":1000,\"content\":\"hi\"}";
    assert_eq!(json, expected);
}

#[test]
fn test_json_round_trip_with_escapes() {
    let mut e = sample_event();
    e.content = String::from("quote \" backslash \\ newline \n tab \t done");
    let json = render_event(&e);
    let back = parse_event(json.as_str()).expect("own rendering parses");
    assert_eq!(back.id, e.id);
    assert_eq!(back.pubkey, e.pubkey);
    assert_eq!(back.kind, e.kind);
    assert_eq!(back.created_at, e.created_at);
    assert_eq!(back.content, e.content);
}

#[test]
fn test_parse_rejects_malformed() {
    assert!(parse_event("").is_none());
    assert!(parse_event("{}").is_none());
    assert!(parse_event("{\"id\":\"00\"}").is_none());
    let e = sample_event();
    let mut json = render_event(&e);
    json.push('x');
    assert!(parse_event(json.as_str()).is_none());
}

#[test]
fn test_encrypt_decrypt_round_trip() {
    let payload = encrypt_with_secret("payload", "s1").expect("encryption succeeds");
    let back = decrypt_fanout_payload(payload.as_str(), "s1").expect("own payload decrypts");
    assert_eq!(back, "payload");
    assert!(decrypt_fanout_payload(payload.as_str(), "wrong").is_none());
}

#[test]
fn test_encrypt_layout_against_crates() {
    // Undo the layout with the outside crates directly: base64, then
    // the twelve-byte nonce, then ChaCha20-Poly1305 under the SHA-256
    // of the secret.
    let payload = encrypt_with_secret("the content", "secret-k").expect("encryption succeeds");
    let raw = base64::engine::general_purpose::STANDARD
        .decode(payload.as_str())
        .expect("payload is base64");
    assert!(raw.len() > 12);
    let key_bytes = sha2::Sha256::digest("secret-k".as_bytes());
    let key = chacha20poly1305::Key::try_from(&key_bytes[..]).expect("32-byte key");
    let nonce = chacha20poly1305::Nonce::try_from(&raw[0..12]).expect("12-byte nonce");
    let cipher = chacha20poly1305::ChaCha20Poly1305::new(&key);
    let plain = cipher.decrypt(&nonce, &raw[12..]).expect("tag verifies");
    assert_eq!(plain, b"the content");
}

#[test]
fn test_fanout_for_event() {
    let mut dir = SubscriptionDirectory::new();
    let e = sample_event();
    dir.register_bot(e.pubkey.as_str(), "np", "0xabc", "bot").unwrap();
    dir.add_subscription(e.pubkey.as_str(), "f1", "s1").unwrap();
    dir.add_subscription(e.pubkey.as_str(), "f2", "s2").unwrap();
    let msgs = dir.fanout_for_event(&e).expect("fanout succeeds");
    assert_eq!(msgs.len(), 2);
    assert_eq!(msgs[0].target_pubkey, "f1");
    assert_eq!(msgs[1].target_pubkey, "f2");
    for m in &msgs {
        assert_eq!(m.bot_pubkey, e.pubkey);
        assert_eq!(m.kind, e.kind);
        assert_eq!(m.original_event_id, e.id_hex());
    }
    let p1 = decrypt_fanout_payload(msgs[0].payload.as_str(), "s1").expect("f1 decrypts");
    let p2 = decrypt_fanout_payload(msgs[1].payload.as_str(), "s2").expect("f2 decrypts");
    assert_eq!(p1, "hi");
    assert_eq!(p2, "hi");
    assert_ne!(msgs[0].payload, msgs[1].payload);
}

#[test]
fn test_register_bot_upsert() {
    let mut dir = SubscriptionDirectory::new();
    dir.register_bot("bp", "np1", "0x1", "first").unwrap();
    dir.register_bot("bp", "np2", "0x2", "second").unwrap();
    let found = dir.find_bot_by_eth("0x2").expect("updated eth is found");
    assert_eq!(found.bot_pubkey, "bp");
    assert_eq!(found.nostr_pubkey, "np2");
    assert!(dir.find_bot_by_eth("0x1").is_none());
    // The eth address of a different bot is refused.
    dir.register_bot("other", "np", "0x3", "third").unwrap();
    assert!(dir.register_bot("bp", "np", "0x3", "steal").is_err());
}

#[test]
fn test_add_subscription_requires_bot() {
    let mut dir = SubscriptionDirectory::new();
    assert!(dir.add_subscription("nobody", "f1", "s1").is_err());
    dir.register_bot("bp", "np", "0x1", "bot").unwrap();
    dir.add_subscription("bp", "f1", "s1").unwrap();
    dir.add_subscription("bp", "f1", "s9").unwrap();
    let subs = dir.list_subscriptions("bp");
    assert_eq!(subs.len(), 1);
    assert_eq!(subs[0].follower_pubkey, "f1");
    assert_eq!(subs[0].shared_secret, "s9");
}

#[test]
fn test_remove_bot_cascades() {
    let mut dir = SubscriptionDirectory::new();
    dir.register_bot("bp", "np", "0x1", "bot").unwrap();
    dir.register_bot("other", "np", "0x2", "bot2").unwrap();
    dir.add_subscription("bp", "f1", "s1").unwrap();
    dir.add_subscription("other", "f2", "s2").unwrap();
    dir.remove_bot("bp");
    assert_eq!(dir.list_subscriptions("bp").len(), 0);
    assert_eq!(dir.list_subscriptions("other").len(), 1);
    assert!(dir.find_bot_by_eth("0x1").is_none());
    assert!(dir.find_bot_by_eth("0x2").is_some());
}

#[test]
fn test_platform_rotation() {
    let mut dir = SubscriptionDirectory::new();
    let first = dir.ensure_platform_pubkey("aaa", 7).expect("first key is announced");
    assert_eq!(
        first,
        "{\"new_pubkey\":\"aaa\",\"op\":\"platform_key_rotation\",\"previous_pubkey\":null,\"ts\":7}"
    );
    assert!(dir.ensure_platform_pubkey("aaa", 8).is_none());
    let second = dir.ensure_platform_pubkey("bbb", 9).expect("changed key is announced");
    assert_eq!(
        second,
        "{\"new_pubkey\":\"bbb\",\"op\":\"platform_key_rotation\",\"previous_pubkey\":\"aaa\",\"ts\":9}"
    );
}

#[test]
fn test_frame_message() {
    let framed = frame_message(&vec![1u8, 2, 3]).expect("small payload frames");
    assert_eq!(framed, vec![0u8, 0, 0, 3, 1, 2, 3]);
    let empty = frame_message(&Vec::new()).expect("empty payload frames");
    assert_eq!(empty, vec![0u8, 0, 0, 0]);
}

#[test]
fn test_status_ok() {
    assert!(status_ok(200));
    assert!(status_ok(204));
    assert!(status_ok(299));
    assert!(!status_ok(199));
    assert!(!status_ok(300));
    assert!(!status_ok(404));
    assert!(!status_ok(500));
}

#[test]
fn test_forward_outcome() {
    assert!(forward_outcome(&Vec::new()));
    assert!(forward_outcome(&vec![true, true]));
    assert!(!forward_outcome(&vec![true, false]));
    assert!(!forward_outcome(&vec![false]));
}

#[test]
fn test_relay_pool_bookkeeping() {
    let mut pool = RelayDirectory::new(2);
    assert!(matches!(pool.decide_connect("wss://one"), ConnectDecision::Connect));
    assert!(matches!(pool.decide_connect("wss://one"), ConnectDecision::AlreadyConnected));
    assert!(matches!(pool.decide_connect("wss://two"), ConnectDecision::Connect));
    assert!(matches!(pool.decide_connect("wss://three"), ConnectDecision::AtCapacity));
    assert_eq!(pool.active_connections(), 2);
    assert_eq!(pool.list_relays(), vec!["wss://one", "wss://two"]);
    assert!(pool.disconnect("wss://one"));
    assert!(!pool.disconnect("wss://one"));
    assert_eq!(pool.active_connections(), 1);
    assert!(should_reconnect(&RelayStatus::Disconnected));
    assert!(!should_reconnect(&RelayStatus::Connected));
    assert!(!should_reconnect(&RelayStatus::Error(String::from("boom"))));
}

#[test]
fn test_config_defaults() {
    assert_eq!(relayer::config::default_allowed_kinds(), vec![30931, 30932, 30933, 30934]);
    assert_eq!(relayer::config::default_pg_pool_size(), 5);
}
