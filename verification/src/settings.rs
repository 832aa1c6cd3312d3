//! User settings of the bypass engine and their defaults.

use vstd::prelude::*;

verus! {

/// The DPI bypass technique applied to the first data a client sends.
#[derive(Clone, Copy, Debug, PartialEq, Eq, Structural)]
pub enum BypassMode {
    /// TCP fragmentation only: the TLS ClientHello is split.
    TcpFragmentation,
    /// A fake packet with a low time-to-live: a decoy ClientHello with
    /// another server name passes the DPI but dies before the target, and
    /// the data takes its place.
    FakePacket,
    /// HTTP Host header manipulation.
    HostManipulation,
    /// All techniques together.
    Combined,
}

impl Default for BypassMode {
    fn default() -> (r: Self)
        ensures
            r == BypassMode::TcpFragmentation,
    {
        BypassMode::TcpFragmentation
    }
}

impl BypassMode {
    /// The human-readable name of the mode.
    pub open spec fn spec_display_text(self) -> Seq<char> {
        match self {
            BypassMode::TcpFragmentation => "TCP Fragmentation"@,
            BypassMode::FakePacket => "Fake Packet"@,
            BypassMode::HostManipulation => "Host Manipulation"@,
            BypassMode::Combined => "Combined"@,
        }
    }

    /// The human-readable name of the mode.
    pub fn display_text(&self) -> (r: String)
        ensures
            r@ == self.spec_display_text(),
    {
        match self {
            BypassMode::TcpFragmentation => String::from_str("TCP Fragmentation"),
            BypassMode::FakePacket => String::from_str("Fake Packet"),
            BypassMode::HostManipulation => String::from_str("Host Manipulation"),
            BypassMode::Combined => String::from_str("Combined"),
        }
    }
}

/// The engine's settings.
#[derive(Clone, Debug)]
pub struct Settings {
    /// The active bypass mode.
    pub bypass_mode: BypassMode,
    /// The interface language (default "en").
    pub language: String,
    /// Size in bytes of the first TCP fragment (default 2); kept small so
    /// that the SNI of a ClientHello is split.
    pub fragment_size: usize,
    /// Delay between TCP fragments in milliseconds (default 50).
    pub fragment_delay_ms: u64,
    /// Port of the local proxy server (default 8118).
    pub proxy_port: u16,
    /// Start with the operating system.
    pub autostart: bool,
    /// Time-to-live of the fake packet (default 1): low enough that the
    /// packet passes the DPI but dies before the target.
    pub ttl_value: u8,
    /// Write the Host header name in alternating case: "Host" becomes "hOsT".
    pub enable_host_mixcase: bool,
    /// Append a dot to the Host value: "example.com" becomes "example.com.".
    pub enable_dot_after_host: bool,
    /// Inject an extra line of white space into HTTP requests:
    /// "GET / HTTP/1.1\r\n" becomes "GET / HTTP/1.1\r\n \r\n".
    pub enable_header_padding: bool,
}

impl Settings {
    /// The values that [`Settings::default`] gives.
    pub open spec fn is_default(self) -> bool {
        &&& self.bypass_mode == BypassMode::TcpFragmentation
        &&& self.language@ == "en"@
        &&& self.fragment_size == 2
        &&& self.fragment_delay_ms == 50
        &&& self.proxy_port == 8118
        &&& !self.autostart
        &&& self.ttl_value == 1
        &&& self.enable_host_mixcase
        &&& !self.enable_dot_after_host
        &&& !self.enable_header_padding
    }
}

impl Default for Settings {
    fn default() -> (s: Self)
        ensures
            s.is_default(),
    {
        Settings {
            bypass_mode: BypassMode::default(),
            language: String::from_str("en"),
            fragment_size: 2,
            fragment_delay_ms: 50,
            proxy_port: 8118,
            autostart: false,
            ttl_value: 1,
            enable_host_mixcase: true,
            enable_dot_after_host: false,
            enable_header_padding: false,
        }
    }
}

} // verus!
