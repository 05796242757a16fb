use owhois::context::Context;
use owhois::server::{
    duration_to_ms, query_line, settings, upstream_address, upstream_request, upstream_server,
    ReloadWatch,
};

#[test]
fn milliseconds_of_durations() {
    assert_eq!(duration_to_ms(0, 0), 0);
    assert_eq!(duration_to_ms(2, 999_999), 2000);
    assert_eq!(duration_to_ms(1, 1_500_000), 1001);
    assert_eq!(duration_to_ms(3, 999_999_999), 3999);
}

#[test]
fn reload_debounce() {
    let mut watch = ReloadWatch::new(1000);
    assert!(!watch.on_write(1000));
    assert!(!watch.on_write(15999));
    assert!(watch.on_write(16000));
    assert_eq!(watch.last_event_ms, 16000);
    assert!(!watch.on_write(20000));
    assert_eq!(watch.last_event_ms, 16000);
    assert!(watch.on_write(31000));
}

#[test]
fn query_lines_and_requests() {
    assert_eq!(query_line("AS500\r\n"), "AS500");
    assert_eq!(query_line("AS500\n"), "AS500");
    assert_eq!(query_line("AS500"), "AS500");
    assert_eq!(query_line("\r\n"), "");
    assert_eq!(upstream_request("AS500"), "AS500\r\n");
    assert_eq!(upstream_address("whois.ripe.net"), "whois.ripe.net:43");
}

#[test]
fn upstream_choice() {
    let ctx = Context::from_files(b"1.0.0.0/24,first-server\n4.0.0.0/8,\n", b"", b"").unwrap();
    assert_eq!(upstream_server(&ctx, "1.0.0.1", "whois.iana.org"), "first-server");
    assert_eq!(upstream_server(&ctx, "4.0.0.1", "whois.iana.org"), "whois.iana.org");
    assert_eq!(upstream_server(&ctx, "nonsense", "default.example"), "default.example");
}

#[test]
fn default_settings() {
    let (server, port) = settings(None, None);
    assert_eq!(server, "whois.iana.org");
    assert_eq!(port, "4343");
    let (server, port) = settings(Some(String::from("whois.example")), Some(String::from("43")));
    assert_eq!(server, "whois.example");
    assert_eq!(port, "43");
}
