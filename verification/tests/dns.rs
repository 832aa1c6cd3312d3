use sxdpi::dns::{
    after_doh, after_system, begin_resolution, dedup_addresses, doh_addresses, doh_endpoint, normalize_hostname,
    push_unique, DnsCache, DohAnswer, IpAddress, ResolveStep, CACHE_TTL_MS, DOH_ENDPOINT_COUNT,
};

fn v4(a: u8, b: u8, c: u8, d: u8) -> IpAddress {
    IpAddress::V4(a, b, c, d)
}

#[test]
fn hostnames_are_normalised() {
    assert_eq!(normalize_hostname("  [Example.COM.]  "), "example.com");
    assert_eq!(normalize_hostname("[::1]"), "::1");
    assert_eq!(normalize_hostname("WWW.Test.Org..."), "www.test.org");
    assert_eq!(normalize_hostname("ÄB"), "Äb");
    assert_eq!(normalize_hostname(""), "");
}

#[test]
fn push_unique_keeps_addresses_distinct() {
    let mut ips = vec![v4(1, 1, 1, 1)];
    push_unique(&mut ips, v4(8, 8, 8, 8));
    push_unique(&mut ips, v4(1, 1, 1, 1));
    push_unique(&mut ips, v4(8, 8, 8, 8));
    assert_eq!(ips, vec![v4(1, 1, 1, 1), v4(8, 8, 8, 8)]);
}

#[test]
fn dedup_keeps_first_occurrences() {
    let v6 = IpAddress::V6(0, 0, 0, 0, 0, 0, 0, 1);
    let ips = vec![v4(2, 2, 2, 2), v6, v4(2, 2, 2, 2), v4(3, 3, 3, 3), v6];
    assert_eq!(dedup_addresses(&ips), vec![v4(2, 2, 2, 2), v6, v4(3, 3, 3, 3)]);
    assert_eq!(dedup_addresses(&vec![]), vec![]);
}

#[test]
fn doh_answers_give_distinct_a_records() {
    let answers = vec![
        DohAnswer { record_type: 5, ipv4: None },
        DohAnswer { record_type: 1, ipv4: Some((104, 16, 1, 1)) },
        DohAnswer { record_type: 1, ipv4: None },
        DohAnswer { record_type: 28, ipv4: Some((9, 9, 9, 9)) },
        DohAnswer { record_type: 1, ipv4: Some((104, 16, 1, 2)) },
        DohAnswer { record_type: 1, ipv4: Some((104, 16, 1, 1)) },
    ];
    assert_eq!(
        doh_addresses(0, Some(answers)).unwrap(),
        vec![v4(104, 16, 1, 1), v4(104, 16, 1, 2)]
    );
}

#[test]
fn doh_answer_errors() {
    assert_eq!(doh_addresses(3, Some(vec![])).unwrap_err(), "DoH status code: 3");
    assert_eq!(doh_addresses(0, None).unwrap_err(), "response has no A records");
    assert_eq!(
        doh_addresses(0, Some(vec![DohAnswer { record_type: 5, ipv4: None }])).unwrap_err(),
        "no valid IPv4 address found"
    );
}

#[test]
fn resolvers_tried_in_order() {
    assert_eq!(DOH_ENDPOINT_COUNT, 2);
    assert_eq!(doh_endpoint(0), "https://cloudflare-dns.com/dns-query");
    assert_eq!(doh_endpoint(1), "https://dns.google/resolve");
    assert!(matches!(after_doh(0, Err("HTTP 500".to_string())), ResolveStep::QueryDoh(1)));
    assert!(matches!(after_doh(0, Ok(vec![])), ResolveStep::QueryDoh(1)));
    assert!(matches!(after_doh(1, Err("x".to_string())), ResolveStep::QuerySystem));
    match after_doh(1, Ok(vec![v4(1, 2, 3, 4)])) {
        ResolveStep::Resolved(ips) => assert_eq!(ips, vec![v4(1, 2, 3, 4)]),
        _ => panic!("expected a resolution"),
    }
}

#[test]
fn system_resolver_outcomes() {
    assert_eq!(after_system("a.com", Ok(vec![v4(1, 1, 1, 1)])).unwrap(), vec![v4(1, 1, 1, 1)]);
    assert_eq!(after_system("a.com", Ok(vec![])).unwrap_err(), "System DNS: no records for a.com");
    assert_eq!(
        after_system("a.com", Err("lookup failed".to_string())).unwrap_err(),
        "DNS failed completely: a.com - lookup failed"
    );
}

#[test]
fn cache_read_after_write() {
    let mut c = DnsCache::new();
    assert_eq!(c.lookup("a.com", 0), None);
    c.insert("a.com", vec![v4(1, 1, 1, 1)], 1_000);
    assert_eq!(c.lookup("a.com", 1_000), Some(vec![v4(1, 1, 1, 1)]));
    assert_eq!(c.lookup("a.com", 1_000 + CACHE_TTL_MS - 1), Some(vec![v4(1, 1, 1, 1)]));
    assert_eq!(c.lookup("a.com", 1_000 + CACHE_TTL_MS), None);
    assert_eq!(c.lookup("b.com", 1_000), None);
    // A clock that reads earlier counts as no time elapsed.
    assert_eq!(c.lookup("a.com", 0), Some(vec![v4(1, 1, 1, 1)]));
}

#[test]
fn cache_replaces_and_skips_empty() {
    let mut c = DnsCache::new();
    c.insert("a.com", vec![v4(1, 1, 1, 1)], 0);
    c.insert("b.com", vec![v4(2, 2, 2, 2)], 0);
    c.insert("a.com", vec![v4(3, 3, 3, 3), v4(4, 4, 4, 4)], 10);
    assert_eq!(c.lookup("a.com", 20), Some(vec![v4(3, 3, 3, 3), v4(4, 4, 4, 4)]));
    assert_eq!(c.lookup("b.com", 20), Some(vec![v4(2, 2, 2, 2)]));
    c.insert("b.com", vec![], 30);
    assert_eq!(c.lookup("b.com", 30), None);
}

#[test]
fn normalised_names_are_canonical() {
    for h in ["  [Example.COM.]  ", "[[::1]]", "A.B.C...", "...", "", "  ", "MiXeD-Case.Org"] {
        let r = normalize_hostname(h);
        assert!(!r.starts_with('['));
        assert!(!r.ends_with('.'));
        assert!(!r.bytes().any(|b| b.is_ascii_uppercase()));
        assert!(r.len() <= h.len());
        assert_eq!(normalize_hostname(&h.to_ascii_uppercase()), r);
    }
    assert_eq!(normalize_hostname("[[::1]]"), "::1");
    assert_eq!(normalize_hostname("A.B.C..."), "a.b.c");
}

#[test]
fn resolution_consults_the_cache_first() {
    let mut c = DnsCache::new();
    assert!(matches!(begin_resolution(&c, "a.com", None, 0), ResolveStep::QueryDoh(0)));
    c.insert("a.com", vec![v4(1, 2, 3, 4)], 5);
    match begin_resolution(&c, "a.com", None, 6) {
        ResolveStep::Resolved(ips) => assert_eq!(ips, vec![v4(1, 2, 3, 4)]),
        other => panic!("unexpected step {:?}", other),
    }
    assert!(matches!(begin_resolution(&c, "a.com", None, 5 + CACHE_TTL_MS), ResolveStep::QueryDoh(0)));
    assert!(matches!(begin_resolution(&c, "b.com", None, 6), ResolveStep::QueryDoh(0)));
}

#[test]
fn ip_literal_resolves_to_itself() {
    let mut c = DnsCache::new();
    c.insert("1.2.3.4", vec![v4(9, 9, 9, 9)], 0);
    match begin_resolution(&c, "1.2.3.4", Some(v4(1, 2, 3, 4)), 1) {
        ResolveStep::Resolved(ips) => assert_eq!(ips, vec![v4(1, 2, 3, 4)]),
        other => panic!("unexpected step {:?}", other),
    }
}
