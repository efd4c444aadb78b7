use kernel::net::driver::{NetDriver, SendResult};
use kernel::net::loopback::LoopbackDriver;
use kernel::net::{self, NetState};

#[test]
fn ping_needs_an_initialized_network() {
    let mut n = NetState::new();
    assert!(!net::is_initialized(&n));
    assert_eq!(net::ping(&mut n, "localhost").err(), Some("network not initialized"));
    net::init(&mut n);
    assert!(net::is_initialized(&n));
    assert_eq!(net::ping(&mut n, " localhost ").unwrap(), "Reply from localhost: ok");
    assert_eq!(net::ping(&mut n, "127.0.0.1").unwrap(), "Reply from localhost: ok");
    assert_eq!(net::ping(&mut n, "example.com").err(), Some("only localhost is supported"));
}

#[test]
fn status_lines() {
    assert_eq!(net::status_lines(), ["Network: initialized", "Loopback: active"]);
}

#[test]
fn loopback_gives_back_what_it_was_sent() {
    let mut d = LoopbackDriver::new();
    assert_eq!(d.name(), "loopback");
    assert!(!d.is_up());
    assert!(d.send(b"early") == SendResult::Dropped);
    let mut buf = [0u8; 8];
    assert_eq!(d.receive(&mut buf), None);
    d.init();
    assert!(d.is_up());
    assert!(d.send(b"hello") == SendResult::Delivered);
    assert_eq!(d.receive(&mut buf), Some(5));
    assert_eq!(&buf[..5], b"hello");
    let mut small = [0u8; 3];
    assert_eq!(d.receive(&mut small), Some(3));
    assert_eq!(&small, b"hel");
}

#[test]
fn loopback_keeps_at_most_its_buffer() {
    let mut d = LoopbackDriver::new();
    d.init();
    let big = vec![7u8; 600];
    assert!(d.send(&big) == SendResult::Delivered);
    let mut out = vec![0u8; 600];
    assert_eq!(d.receive(&mut out), Some(512));
    assert!(out[..512].iter().all(|&b| b == 7));
    assert!(out[512..].iter().all(|&b| b == 0));
}

#[test]
fn http_stub_is_unavailable() {
    let client = net::http_client();
    let response = client.get("http://example.com/");
    assert_eq!(response.status, 503);
    assert_eq!(
        response.body,
        "HTTP client stub: network stack not connected to http://example.com/"
    );
}
