use sxdpi::dpi_engine::EngineError;
use sxdpi::http::{
    classify_connection, classify_request, connect_reply, connect_target, decode_lossy, find_header_end,
    is_client_hello, is_http_request, mixcase_string, parse_proxy_url, prepare_connect,
    prepare_http_request, rewrite_http_request, split_target, RequestKind,
};
use sxdpi::settings::Settings;

fn conn_msg(e: EngineError) -> String {
    match e {
        EngineError::ConnectionError(m) => m,
        other => panic!("unexpected error {:?}", other),
    }
}

fn plain_settings() -> Settings {
    let mut s = Settings::default();
    s.enable_host_mixcase = false;
    s
}

#[test]
fn header_end_found_after_blank_line() {
    assert_eq!(find_header_end(b"GET / HTTP/1.1\r\nHost: a\r\n\r\nbody"), Some(27));
    assert_eq!(find_header_end(b"\r\n\r\n"), Some(4));
    assert_eq!(find_header_end(b"a\r\n\r\n\r\n\r\n"), Some(5));
}

#[test]
fn header_end_missing() {
    assert_eq!(find_header_end(b""), None);
    assert_eq!(find_header_end(b"\r\n\r"), None);
    assert_eq!(find_header_end(b"GET / HTTP/1.1\r\n"), None);
}

#[test]
fn client_hello_detection() {
    assert!(is_client_hello(&[0x16, 0x03, 0x01, 0x02, 0x00, 0x01, 0x00]));
    assert!(is_client_hello(&[0x16, 0, 0, 0, 0, 0x01]));
    assert!(!is_client_hello(&[0x16, 0, 0, 0, 0]));
    assert!(!is_client_hello(&[0x17, 0, 0, 0, 0, 0x01]));
    assert!(!is_client_hello(&[0x16, 0, 0, 0, 0, 0x02]));
    assert!(!is_client_hello(&[]));
}

#[test]
fn request_kinds() {
    assert_eq!(classify_request("CONNECT example.com:443 HTTP/1.1\r\n"), RequestKind::Connect);
    assert_eq!(classify_request("GET http://a/ HTTP/1.1\r\n"), RequestKind::Http);
    assert_eq!(classify_request("get http://a/ HTTP/1.1"), RequestKind::Unknown);
    assert_eq!(classify_request("CONNECT"), RequestKind::Unknown);
    assert_eq!(classify_request(""), RequestKind::Unknown);
    assert_eq!(classify_connection(b"\x16\x03\x01"), RequestKind::Unknown);
    assert_eq!(classify_connection(b"POST http://a/ HTTP/1.1\r\n"), RequestKind::Http);
}

#[test]
fn http_methods() {
    for m in ["GET ", "POST ", "PUT ", "DELETE ", "HEAD ", "OPTIONS ", "PATCH "] {
        assert!(is_http_request(&format!("{}/ HTTP/1.1", m)));
    }
    assert!(!is_http_request("TRACE / HTTP/1.1"));
    assert!(!is_http_request("GET"));
    assert!(!is_http_request("GETX / HTTP/1.1"));
}

#[test]
fn connect_targets() {
    assert_eq!(connect_target("CONNECT example.com:443 HTTP/1.1\r\nHost: x\r\n\r\n").unwrap(), "example.com:443");
    assert_eq!(connect_target("CONNECT example.com HTTP/1.1\r\n").unwrap(), "example.com:443");
    assert_eq!(connect_target("CONNECT   a.b:8443").unwrap(), "a.b:8443");
    assert_eq!(connect_target("CONNECT\ta.b\r\n").unwrap(), "a.b:443");
    assert_eq!(conn_msg(connect_target("CONNECT\r\nx y\r\n").unwrap_err()), "Geçersiz CONNECT");
    assert_eq!(conn_msg(connect_target("").unwrap_err()), "Geçersiz CONNECT");
    assert_eq!(prepare_connect(b"CONNECT h:1 HTTP/1.1\r\n\r\n").unwrap(), "h:1");
}

#[test]
fn proxy_url_documented_example() {
    let u = parse_proxy_url("http://example.com:8080/path").unwrap();
    assert_eq!(u.host, "example.com");
    assert_eq!(u.port, 8080);
    assert_eq!(u.path, "/path");
}

#[test]
fn proxy_url_defaults_and_errors() {
    let u = parse_proxy_url("https://a.b").unwrap();
    assert_eq!((u.host.as_str(), u.port, u.path.as_str()), ("a.b", 80, "/"));
    let u = parse_proxy_url("example.com:notaport/x?y=1").unwrap();
    assert_eq!((u.host.as_str(), u.port, u.path.as_str()), ("example.com:notaport", 80, "/x?y=1"));
    let u = parse_proxy_url("http://host:+81/").unwrap();
    assert_eq!((u.host.as_str(), u.port), ("host", 81));
    let u = parse_proxy_url("http://host:70000/").unwrap();
    assert_eq!((u.host.as_str(), u.port), ("host:70000", 80));
    let u = parse_proxy_url("http://[::1]:8080/").unwrap();
    assert_eq!((u.host.as_str(), u.port), ("[::1]", 8080));
    assert_eq!(conn_msg(parse_proxy_url("/relative").unwrap_err()), "Relative URL");
    assert_eq!(conn_msg(parse_proxy_url("http://:80/").unwrap_err()), "Boş host");
    assert_eq!(conn_msg(parse_proxy_url("").unwrap_err()), "Boş host");
}

#[test]
fn split_targets() {
    let t = split_target("example.com:443").unwrap();
    assert_eq!((t.host.as_str(), t.port), ("example.com", 443));
    let t = split_target("[::1]:8080").unwrap();
    assert_eq!((t.host.as_str(), t.port), ("[::1]", 8080));
    assert_eq!(conn_msg(split_target("nohost").unwrap_err()), "Geçersiz adres: nohost");
    assert_eq!(conn_msg(split_target("h:abc").unwrap_err()), "Geçersiz port: abc");
    assert_eq!(conn_msg(split_target("h:").unwrap_err()), "Geçersiz port: ");
}

#[test]
fn mixcase_host() {
    assert_eq!(mixcase_string("Host"), "hOsT");
    assert_eq!(mixcase_string(""), "");
    assert_eq!(mixcase_string("abc1"), "aBc1");
}

#[test]
fn rewrite_plain_request_with_defaults() {
    let text = "GET http://example.com/index.html HTTP/1.1\r\nHost: example.com\r\nProxy-Connection: keep-alive\r\nAccept: */*\r\n\r\n";
    let f = rewrite_http_request(text, text.as_bytes(), &Settings::default()).unwrap();
    assert_eq!(f.host, "example.com");
    assert_eq!(f.port, 80);
    assert_eq!(f.target, "example.com:80");
    assert_eq!(
        String::from_utf8(f.request).unwrap(),
        "GET /index.html HTTP/1.1\r\nhOsT: example.com\r\nConnection: keep-alive\r\nAccept: */*\r\n\r\n"
    );
}

#[test]
fn rewrite_dot_after_host() {
    let mut s = plain_settings();
    s.enable_dot_after_host = true;
    let text = "GET http://example.com/ HTTP/1.1\r\nhost:   example.com..  \r\n\r\n";
    let f = rewrite_http_request(text, text.as_bytes(), &s).unwrap();
    assert_eq!(String::from_utf8(f.request).unwrap(), "GET / HTTP/1.1\r\nHost: example.com.\r\n\r\n");
}

#[test]
fn rewrite_header_padding() {
    let mut s = plain_settings();
    s.enable_header_padding = true;
    let text = "GET http://a.com/ HTTP/1.1\r\nHost: a.com\r\n\r\n";
    let f = rewrite_http_request(text, text.as_bytes(), &s).unwrap();
    assert_eq!(String::from_utf8(f.request).unwrap(), "GET / HTTP/1.1\r\n \r\nHost: a.com\r\n\r\n");
}

#[test]
fn rewrite_adds_missing_host() {
    let text = "GET http://a.com:8080/ HTTP/1.0\r\n\r\n";
    let f = rewrite_http_request(text, text.as_bytes(), &plain_settings()).unwrap();
    assert_eq!(f.port, 8080);
    assert_eq!(f.target, "a.com:8080");
    assert_eq!(String::from_utf8(f.request).unwrap(), "GET / HTTP/1.0\r\nHost: a.com\r\n\r\n");
}

#[test]
fn rewrite_keeps_body() {
    let text = "POST http://a.com/x HTTP/1.1\r\nHost: a.com\r\nContent-Length: 3\r\n\r\nabc";
    let f = rewrite_http_request(text, text.as_bytes(), &plain_settings()).unwrap();
    assert_eq!(
        String::from_utf8(f.request).unwrap(),
        "POST /x HTTP/1.1\r\nHost: a.com\r\nContent-Length: 3\r\n\r\nabc"
    );
}

#[test]
fn rewrite_proxy_connection_variants() {
    let text = "GET http://a.com/ HTTP/1.1\nPROXY-CONNECTION:close\nHost: a.com\n";
    let f = rewrite_http_request(text, text.as_bytes(), &plain_settings()).unwrap();
    assert_eq!(
        String::from_utf8(f.request).unwrap(),
        "GET / HTTP/1.1\r\nConnection: close\r\nHost: a.com\r\n\r\n"
    );
}

#[test]
fn rewrite_errors() {
    let s = Settings::default();
    assert_eq!(conn_msg(rewrite_http_request("GET\r\n", b"GET\r\n", &s).unwrap_err()), "Geçersiz HTTP isteği");
    assert_eq!(conn_msg(rewrite_http_request("GET /x\r\n", b"GET /x\r\n", &s).unwrap_err()), "Geçersiz HTTP isteği");
    assert_eq!(
        conn_msg(rewrite_http_request("GET /relative HTTP/1.1\r\n", b"", &s).unwrap_err()),
        "Relative URL"
    );
    assert_eq!(conn_msg(rewrite_http_request("", b"", &s).unwrap_err()), "Geçersiz HTTP isteği");
}

#[test]
fn lossy_decoding_replaces_invalid_bytes() {
    assert_eq!(decode_lossy(b"ab\xffc"), "ab\u{FFFD}c");
    assert_eq!(decode_lossy("ğ".as_bytes()), "ğ");
    let data = b"GET http://a.com/ HTTP/1.1\r\nX: \xff\r\n\r\n";
    let f = prepare_http_request(data, &plain_settings()).unwrap();
    assert_eq!(
        f.request,
        "GET / HTTP/1.1\r\nX: \u{FFFD}\r\nHost: a.com\r\n\r\n".as_bytes().to_vec()
    );
}

#[test]
fn targets_split_back_into_host_and_port() {
    let text = "GET http://[::1]:8080/ HTTP/1.1\r\n\r\n";
    let f = rewrite_http_request(text, text.as_bytes(), &plain_settings()).unwrap();
    let hp = split_target(&f.target).unwrap();
    assert_eq!((hp.host.as_str(), hp.port), ("[::1]", 8080));

    let t = connect_target("CONNECT a.b HTTP/1.1\r\n\r\n").unwrap();
    let hp = split_target(&t).unwrap();
    assert_eq!((hp.host.as_str(), hp.port), ("a.b", 443));
}

#[test]
fn valid_start_settles_kind_despite_invalid_bytes() {
    assert_eq!(classify_connection(b"GET \xff\xfe"), RequestKind::Http);
    assert_eq!(classify_connection(b"CONNECT \xff"), RequestKind::Connect);
    assert_eq!(classify_connection(b"OPTIONS * HTTP/1.1\r\n\xc3"), RequestKind::Http);
    assert_eq!(classify_connection(b"\xffGET / HTTP/1.1"), RequestKind::Unknown);
}

#[test]
fn valid_first_line_settles_connect_target() {
    assert_eq!(prepare_connect(b"CONNECT a.com HTTP/1.1\r\n\xff\xfe").unwrap(), "a.com:443");
    assert_eq!(prepare_connect(b"CONNECT b.org:8443 HTTP/1.1\n\x80rest").unwrap(), "b.org:8443");
    assert_eq!(conn_msg(prepare_connect(b"CONNECT\r\n\xff").unwrap_err()), "Geçersiz CONNECT");
}

#[test]
fn mixcase_of_ascii_text() {
    assert_eq!(mixcase_string("HOST"), "hOsT");
    assert_eq!(mixcase_string("proxy-Connection"), "pRoXy-cOnNeCtIoN");
}

#[test]
fn mixcase_host_header_example() {
    let mut s = Settings::default();
    s.enable_host_mixcase = true;
    s.enable_dot_after_host = true;
    s.enable_header_padding = false;
    let data = b"GET http://example.com/a HTTP/1.1\r\nHost: example.com\r\nProxy-Connection: keep-alive\r\n\r\n";
    let f = prepare_http_request(data, &s).unwrap();
    assert_eq!(
        String::from_utf8(f.request.clone()).unwrap(),
        "GET /a HTTP/1.1\r\nhOsT: example.com.\r\nConnection: keep-alive\r\n\r\n"
    );
}

#[test]
fn replies_to_the_client() {
    assert_eq!(connect_reply(true), "HTTP/1.1 200 Connection Established\r\n\r\n");
    assert_eq!(connect_reply(false), "HTTP/1.1 502 Bad Gateway\r\n\r\n");
}

#[test]
fn invalid_first_byte_is_unknown() {
    assert_eq!(classify_connection(b"\x80CONNECT a:1 HTTP/1.1\r\n"), RequestKind::Unknown);
    assert_eq!(classify_connection(b"\xffGET / HTTP/1.1\r\n"), RequestKind::Unknown);
    assert!(decode_lossy(b"\xc0A").starts_with('\u{FFFD}'));
}

#[test]
fn proxy_url_round_trip() {
    for (h, p, q) in [("example.com", 8080u16, "/path"), ("a", 0, "/"), ("b.c", 65535, "/x/y?z")] {
        let u = parse_proxy_url(&format!("http://{}:{}{}", h, p, q)).unwrap();
        assert_eq!((u.host.as_str(), u.port, u.path.as_str()), (h, p, q));
        let bare = parse_proxy_url(&format!("http://{}", h)).unwrap();
        assert_eq!((bare.host.as_str(), bare.port, bare.path.as_str()), (h, 80, "/"));
    }
}
