use sxdpi::settings::{BypassMode, Settings};

#[test]
fn test_default_settings() {
    let s = Settings::default();
    assert_eq!(s.fragment_size, 2);
    assert_eq!(s.proxy_port, 8118);
    assert_eq!(s.bypass_mode, BypassMode::TcpFragmentation);
}

#[test]
fn default_settings_all_fields() {
    let s = Settings::default();
    assert_eq!(s.language, "en");
    assert_eq!(s.fragment_delay_ms, 50);
    assert!(!s.autostart);
    assert_eq!(s.ttl_value, 1);
    assert!(s.enable_host_mixcase);
    assert!(!s.enable_dot_after_host);
    assert!(!s.enable_header_padding);
    assert_eq!(BypassMode::default(), BypassMode::TcpFragmentation);
}

#[test]
fn bypass_mode_display_text() {
    assert_eq!(BypassMode::TcpFragmentation.display_text(), "TCP Fragmentation");
    assert_eq!(BypassMode::FakePacket.display_text(), "Fake Packet");
    assert_eq!(BypassMode::HostManipulation.display_text(), "Host Manipulation");
    assert_eq!(BypassMode::Combined.display_text(), "Combined");
}
