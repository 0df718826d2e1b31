use redis_top::encoder::encode_one;
use redis_top::relay::{Relay, RelayError, RelaySide};
use redis_top::stats::Stats;
use redis_top::value::RedisValue;

fn get_foo() -> Vec<u8> {
    encode_one(RedisValue::Array(vec![
        RedisValue::BulkString(b"GET".to_vec()),
        RedisValue::BulkString(b"foo".to_vec()),
    ]))
}

fn set_foo_1() -> Vec<u8> {
    encode_one(RedisValue::Array(vec![
        RedisValue::BulkString(b"SET".to_vec()),
        RedisValue::BulkString(b"foo".to_vec()),
        RedisValue::BulkString(b"1".to_vec()),
    ]))
}

#[test]
fn abuse_renders_variants() {
    assert_eq!(RedisValue::Integer(-42).abuse(), "-42");
    assert_eq!(RedisValue::String("hi".to_string()).abuse(), "hi");
    assert_eq!(RedisValue::Error("bad".to_string()).abuse(), "Error(bad)");
    assert_eq!(RedisValue::Null.abuse(), "null");
    assert_eq!(
        RedisValue::BulkString(b"text".to_vec()).abuse(),
        "text"
    );
    // invalid UTF-8 falls back to a debug form of the raw bytes
    assert_eq!(
        RedisValue::BulkString(vec![0, 159, 10]).abuse(),
        "[0, 159, 10]"
    );
    assert_eq!(
        RedisValue::Array(vec![
            RedisValue::BulkString(b"GET".to_vec()),
            RedisValue::BulkString(b"foo".to_vec()),
        ])
        .abuse(),
        "GET foo"
    );
    assert_eq!(RedisValue::Array(vec![]).abuse(), "");
}

#[test]
fn stats_top_k_scenario() {
    let mut stats = Stats::new();
    for _ in 0..5 {
        stats.accumulate_packet(&get_foo());
    }
    for _ in 0..2 {
        stats.accumulate_packet(&set_foo_1());
    }
    assert_eq!(stats.count(), 7);
    let top = stats.top_k();
    assert_eq!(top.len(), 2);
    assert_eq!(top[0].0, "GET foo");
    assert_eq!(top[0].1, 5);
    assert_eq!(top[1].0, "SET foo 1");
    assert_eq!(top[1].1, 2);
}

#[test]
fn stats_skip_on_failure() {
    let mut stats = Stats::new();
    // does not begin with a valid RESP tag byte
    stats.accumulate_packet(&[0x7a, 13, 10]);
    assert_eq!(stats.count(), 0);
    assert_eq!(stats.top_k().len(), 0);
}

#[test]
fn stats_top_k_ranks_more_than_ten() {
    let mut stats = Stats::new();
    // twelve distinct keys, key k accumulated k times
    for k in 1..=12u64 {
        for _ in 0..k {
            stats.accumulate_packet(&encode_one(RedisValue::Integer(k as i64)));
        }
    }
    assert_eq!(stats.count(), (1..=12u64).sum::<u64>());
    let top = stats.top_k();
    assert_eq!(top.len(), 10);
    for (rank, entry) in top.iter().enumerate() {
        assert_eq!(entry.1, 12 - rank as u64);
        assert_eq!(entry.0, format!("{}", 12 - rank as u64));
    }
}

#[test]
fn stats_started_at_is_in_the_past() {
    let stats = Stats::new();
    assert!(stats.started_at() <= std::time::Instant::now());
}

#[test]
fn stats_accumulate_ethernet_frame() {
    // build a real Ethernet/IPv4/TCP frame whose payload is one RESP value
    let builder = etherparse::PacketBuilder::ethernet2([1, 2, 3, 4, 5, 6], [7, 8, 9, 10, 11, 12])
        .ipv4([192, 168, 1, 1], [192, 168, 1, 2], 20)
        .tcp(12345, 6379, 0, 4000);
    let payload = get_foo();
    let mut frame = Vec::with_capacity(builder.size(payload.len()));
    builder.write(&mut frame, &payload).unwrap();

    let mut stats = Stats::new();
    stats.accumulate_ethernet(&frame);
    assert_eq!(stats.count(), 1);
    let top = stats.top_k();
    assert_eq!(top.len(), 1);
    assert_eq!(top[0].0, "GET foo");

    // a frame too short to parse is skipped
    stats.accumulate_ethernet(&[0, 1, 2]);
    assert_eq!(stats.count(), 1);
}

#[test]
fn relay_ping_pong() {
    let ping = encode_one(RedisValue::Array(vec![RedisValue::BulkString(
        b"PING".to_vec(),
    )]));
    let pong = encode_one(RedisValue::String("PONG".to_string()));

    let mut relay = Relay::new();
    assert_eq!(relay.awaiting(), RelaySide::Client);

    // the client's exact bytes are forwarded unchanged to the server
    let to_server = relay.on_bytes(RelaySide::Client, &ping).unwrap();
    assert_eq!(to_server, ping);
    assert_eq!(relay.awaiting(), RelaySide::Server);

    // a second client request is refused until the reply has been relayed
    match relay.on_bytes(RelaySide::Client, &ping) {
        Err(RelayError::OutOfTurn) => {}
        _ => panic!("a second request must wait for the reply"),
    }

    // the server's exact bytes are relayed unchanged back to the client
    let to_client = relay.on_bytes(RelaySide::Server, &pong).unwrap();
    assert_eq!(to_client, pong);
    assert_eq!(relay.awaiting(), RelaySide::Client);
}

#[test]
fn relay_tears_down_on_malformed_input() {
    let mut relay = Relay::new();
    match relay.on_bytes(RelaySide::Client, &[0x7a, 1, 2]) {
        Err(RelayError::Decode(_)) => {}
        _ => panic!("malformed bytes must fail the relay"),
    }
}
