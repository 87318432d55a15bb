use spider::frontier::{Args, Frontier, Step};
use spider::keyset::KeySet;
use spider::netguard::{filter_resolved, forbidden_ranges, IpValue, ResolveError, SocketValue};
use spider::weburl::{parse_url, WebUrl};

fn url(s: &str) -> WebUrl {
    parse_url(s).expect("test URL parses")
}

fn crawled(step: Step) -> (String, usize, bool) {
    match step {
        Step::Crawl { job, should_extract } => (job.url.as_text(), job.depth, should_extract),
        _ => panic!("expected a job"),
    }
}

#[test]
fn frontier_hands_out_each_page_once() {
    let mut f = Frontier::new(url("https://example.com/docs/"), 2, 1);
    assert_eq!(crawled(f.next_step("")), ("https://example.com/docs/".to_string(), 0, true));
    assert!(matches!(f.next_step(""), Step::Wait));
    f.complete(
        vec![
            url("https://example.com/docs/a"),
            url("https://example.com/docs/#top"),
            url("https://example.com/docs/a?x=1"),
            url("https://example.com/docs/b"),
        ],
        0,
    );
    assert_eq!(f.active(), 0);
    assert_eq!(f.queued(), 4);
    assert_eq!(crawled(f.next_step("")), ("https://example.com/docs/a".to_string(), 1, false));
    assert_eq!(crawled(f.next_step("")), ("https://example.com/docs/b".to_string(), 1, false));
    assert_eq!(f.queued(), 0);
    assert!(matches!(f.next_step(""), Step::Wait));
    f.complete(Vec::new(), 1);
    f.complete(Vec::new(), 1);
    assert!(matches!(f.next_step(""), Step::Finished));
}

#[test]
fn frontier_respects_worker_limit_and_robots() {
    let mut f = Frontier::new(url("https://example.com/"), 0, 3);
    let robots = "User-agent: *\nDisallow: /private\n";
    assert_eq!(crawled(f.next_step(robots)).0, "https://example.com/");
    f.complete(vec![url("https://example.com/private/x"), url("https://example.com/open")], 0);
    match f.next_step(robots) {
        Step::Blocked { url } => assert_eq!(url.as_text(), "https://example.com/private/x"),
        _ => panic!("expected the private page to be blocked"),
    }
    assert_eq!(crawled(f.next_step(robots)), ("https://example.com/open".to_string(), 1, true));
    f.complete(vec![url("https://example.com/private/x")], 1);
    assert!(matches!(f.next_step(robots), Step::Finished));
}

#[test]
fn worker_count_is_at_least_one() {
    let a = Args { index: "https://e.com".to_string(), output: "/tmp/o".to_string(), depth: 3, workers: 0, hardcode_external: false };
    assert_eq!(a.worker_count(), 1);
    let b = Args { workers: 4, ..a };
    assert_eq!(b.worker_count(), 4);
}

#[test]
fn keyset_holds_each_key_once() {
    let mut s = KeySet::new();
    assert!(s.insert("b".to_string()));
    assert!(s.insert("a".to_string()));
    assert!(s.insert("ab".to_string()));
    assert!(!s.insert("a".to_string()));
    assert!(s.contains(&"ab".to_string()));
    assert!(!s.contains(&"c".to_string()));
    assert_eq!(s.len(), 3);
}

fn v4(a: u8, b: u8, c: u8, d: u8) -> IpValue {
    IpValue::V4(u32::from_be_bytes([a, b, c, d]))
}

#[test]
fn private_addresses_are_refused() {
    let forbidden = forbidden_ranges().expect("ranges parse");
    assert_eq!(forbidden.len(), 8);
    let local = vec![SocketValue { ip: v4(127, 0, 0, 1), port: 0 }, SocketValue { ip: v4(192, 168, 1, 5), port: 0 }];
    assert_eq!(filter_resolved(&local, &forbidden), Err(ResolveError::AccessDenied));
    let mixed = vec![
        SocketValue { ip: v4(10, 1, 2, 3), port: 0 },
        SocketValue { ip: v4(93, 184, 216, 34), port: 0 },
        SocketValue { ip: v4(172, 31, 255, 255), port: 0 },
        SocketValue { ip: v4(172, 32, 0, 1), port: 0 },
        SocketValue { ip: IpValue::V6(1), port: 0 },
        SocketValue { ip: IpValue::V6(0xfe80 << 112), port: 0 },
        SocketValue { ip: IpValue::V6(0x2001_0db8 << 96), port: 0 },
    ];
    assert_eq!(
        filter_resolved(&mixed, &forbidden),
        Ok(vec![
            SocketValue { ip: v4(93, 184, 216, 34), port: 0 },
            SocketValue { ip: v4(172, 32, 0, 1), port: 0 },
            SocketValue { ip: IpValue::V6(0x2001_0db8 << 96), port: 0 },
        ])
    );
}

#[test]
fn ipv4_mapped_private_addresses_are_refused() {
    let forbidden = forbidden_ranges().expect("ranges parse");
    let mapped = |a: u8, b: u8, c: u8, d: u8| IpValue::V6((0xffffu128 << 32) | u32::from_be_bytes([a, b, c, d]) as u128);
    let loopback = vec![SocketValue { ip: mapped(127, 0, 0, 1), port: 0 }];
    assert_eq!(filter_resolved(&loopback, &forbidden), Err(ResolveError::AccessDenied));
    let private = vec![SocketValue { ip: mapped(10, 0, 0, 7), port: 80 }, SocketValue { ip: mapped(169, 254, 1, 1), port: 80 }];
    assert_eq!(filter_resolved(&private, &forbidden), Err(ResolveError::AccessDenied));
    let public = vec![SocketValue { ip: mapped(93, 184, 216, 34), port: 443 }];
    assert_eq!(filter_resolved(&public, &forbidden), Ok(public.clone()));
}
