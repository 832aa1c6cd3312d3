//! The bypass engine: its errors, its state machine, and the plans by which
//! the first data of a connection is split into delayed TCP writes.

use crate::settings::{BypassMode, Settings};
use crate::text::decimal;
use crate::text::push_decimal;
use crate::shutdown::{ShutdownNotice, ShutdownSignal};
use std::sync::Arc;
use tokio::sync::Notify;
use vstd::prelude::*;

verus! {

// ─── Errors ────────────────────────────────────────────────────────────────

/// Why the engine could not do what was asked.
#[derive(Debug)]
pub enum EngineError {
    AlreadyRunning,
    AlreadyStopped,
    BindError(String),
    IoError(std::io::Error),
    ConnectionError(String),
}

/// The text of an I/O error (`std::io::Error`'s `Display`); it depends on the
/// operating system, so nothing is stated of it.
#[verifier::external_body]
pub fn io_error_text(e: &std::io::Error) -> String {
    e.to_string()
}

impl EngineError {
    /// The message shown for the error, with `io_text` the text of an I/O error
    /// for `IoError`.
    pub open spec fn spec_message(&self, io_text: Seq<char>) -> Seq<char> {
        match self {
            EngineError::AlreadyRunning => "Motor zaten çalışıyor"@,
            EngineError::AlreadyStopped => "Motor zaten durmuş"@,
            EngineError::BindError(m) => "Proxy sunucu başlatılamadı: "@ + m@,
            EngineError::IoError(_) => "IO hatası: "@ + io_text,
            EngineError::ConnectionError(m) => "Bağlantı hatası: "@ + m@,
        }
    }

    /// The message shown for the error.
    pub fn message(&self) -> (r: String)
        ensures
            self is IoError ==> exists|io_text: Seq<char>| r@ == self.spec_message(io_text),
            !(self is IoError) ==> r@ == self.spec_message(Seq::empty()),
    {
        match self {
            EngineError::AlreadyRunning => String::from_str("Motor zaten çalışıyor"),
            EngineError::AlreadyStopped => String::from_str("Motor zaten durmuş"),
            EngineError::BindError(m) => {
                let mut r = String::from_str("Proxy sunucu başlatılamadı: ");
                r.append(m.as_str());
                r
            },
            EngineError::IoError(e) => {
                let t = io_error_text(e);
                let mut r = String::from_str("IO hatası: ");
                r.append(t.as_str());
                assert(r@ == self.spec_message(t@));
                r
            },
            EngineError::ConnectionError(m) => {
                let mut r = String::from_str("Bağlantı hatası: ");
                r.append(m.as_str());
                r
            },
        }
    }
}

/// The error for a proxy listener that could not be bound to `addr`.
pub fn bind_error(addr: &str, reason: &str) -> (e: EngineError)
    ensures
        e matches EngineError::BindError(m) && m@ == addr@ + ": "@ + reason@,
{
    let mut m = String::from_str(addr);
    m.append(": ");
    m.append(reason);
    EngineError::BindError(m)
}

/// A `ConnectionError` carrying `msg`.
pub fn connection_error(msg: &str) -> (e: EngineError)
    ensures
        e matches EngineError::ConnectionError(m) && m@ == msg@,
{
    EngineError::ConnectionError(String::from_str(msg))
}

// ─── Engine state ──────────────────────────────────────────────────────────

/// Where the engine is in its life cycle.
#[derive(Clone, Copy, Debug, PartialEq, Eq, Structural)]
pub enum EngineState {
    Stopped,
    Starting,
    Running,
    Stopping,
}

impl EngineState {
    pub open spec fn spec_display_text(self) -> Seq<char> {
        match self {
            EngineState::Stopped => "Stopped"@,
            EngineState::Starting => "Starting"@,
            EngineState::Running => "Running"@,
            EngineState::Stopping => "Stopping"@,
        }
    }

    /// The human-readable name of the state.
    pub fn display_text(&self) -> (r: String)
        ensures
            r@ == self.spec_display_text(),
    {
        match self {
            EngineState::Stopped => String::from_str("Stopped"),
            EngineState::Starting => String::from_str("Starting"),
            EngineState::Running => String::from_str("Running"),
            EngineState::Stopping => String::from_str("Stopping"),
        }
    }
}

/// A start is refused while the engine runs or is starting.
pub open spec fn start_refused(s: EngineState) -> bool {
    s == EngineState::Running || s == EngineState::Starting
}

/// A stop is refused while the engine is stopped or stopping.
pub open spec fn stop_refused(s: EngineState) -> bool {
    s == EngineState::Stopped || s == EngineState::Stopping
}

/// The state after a start request.
pub open spec fn after_start(s: EngineState) -> EngineState {
    if start_refused(s) {
        s
    } else {
        EngineState::Starting
    }
}

/// The state after the proxy listener was bound.
pub open spec fn after_listening(s: EngineState) -> EngineState {
    if s == EngineState::Starting {
        EngineState::Running
    } else {
        s
    }
}

/// The state after a stop request.
pub open spec fn after_stop(s: EngineState) -> EngineState {
    if stop_refused(s) {
        s
    } else {
        EngineState::Stopped
    }
}

/// The address the proxy listens on for `port`: "127.0.0.1:<port>".
pub open spec fn listen_address(port: u16) -> Seq<char> {
    "127.0.0.1:"@ + decimal(port as nat)
}

/// The DPI bypass engine: its state, its settings, and the signal that ends
/// the proxy loop and the relays of the current run.
pub struct DpiEngine {
    state: EngineState,
    settings: Settings,
    shutdown_signal: ShutdownSignal,
    last_notice: Option<ShutdownNotice>,
}

/// The generation of the signal a notice records, if there is a notice.
pub open spec fn notified_generation(n: Option<ShutdownNotice>) -> Option<nat> {
    match n {
        Some(notice) => Some(notice.generation()),
        None => None,
    }
}

/// The notifier a notice records, if there is a notice.
pub open spec fn notified_notifier(n: Option<ShutdownNotice>) -> Option<Notify> {
    match n {
        Some(notice) => Some(notice.notified()),
        None => None,
    }
}

impl DpiEngine {
    pub closed spec fn spec_state(&self) -> EngineState {
        self.state
    }

    pub closed spec fn spec_settings(&self) -> Settings {
        self.settings
    }

    /// The notifier that the tasks of the current run wait on.
    pub closed spec fn spec_shutdown_signal(&self) -> Notify {
        self.shutdown_signal.spec_notify()
    }

    /// The number of the current run: how many accepted stops came before.
    pub closed spec fn spec_generation(&self) -> nat {
        self.shutdown_signal.generation()
    }

    /// The run whose signal the last accepted stop notified, if any.
    pub closed spec fn spec_last_notified(&self) -> Option<nat> {
        notified_generation(self.last_notice)
    }

    /// The notifier that the last accepted stop woke, if any.
    pub closed spec fn spec_last_notified_signal(&self) -> Option<Notify> {
        notified_notifier(self.last_notice)
    }

    /// A stopped engine with the given settings.
    pub fn new(settings: Settings) -> (e: Self)
        ensures
            e.spec_state() == EngineState::Stopped,
            e.spec_settings() == settings,
            e.spec_generation() == 0,
            e.spec_last_notified() is None,
            e.spec_last_notified_signal() is None,
    {
        DpiEngine {
            state: EngineState::Stopped,
            settings,
            shutdown_signal: ShutdownSignal::first(),
            last_notice: None,
        }
    }

    pub fn state(&self) -> (r: &EngineState)
        ensures
            *r == self.spec_state(),
    {
        &self.state
    }

    pub fn settings(&self) -> (r: &Settings)
        ensures
            *r == self.spec_settings(),
    {
        &self.settings
    }

    /// The signal that the current run's proxy loop and relays wait on.
    pub fn shutdown_signal(&self) -> (r: Arc<Notify>)
        ensures
            *r == self.spec_shutdown_signal(),
    {
        self.shutdown_signal.handle()
    }

    /// Replaces the settings; the state is kept.
    pub fn update_settings(&mut self, settings: Settings)
        ensures
            final(self).spec_settings() == settings,
            final(self).spec_state() == old(self).spec_state(),
            final(self).spec_shutdown_signal() == old(self).spec_shutdown_signal(),
            final(self).spec_generation() == old(self).spec_generation(),
            final(self).spec_last_notified() == old(self).spec_last_notified(),
            final(self).spec_last_notified_signal() == old(self).spec_last_notified_signal(),
    {
        self.settings = settings;
    }

    /// Begins a start: refused with `AlreadyRunning` while the engine runs or
    /// is starting; otherwise the engine is `Starting` and the address that
    /// the proxy must listen on is returned. The engine becomes `Running`
    /// once [`DpiEngine::listening`] reports that the listener is bound; if
    /// binding fails, it stays `Starting`.
    pub fn start(&mut self) -> (r: Result<String, EngineError>)
        ensures
            final(self).spec_state() == after_start(old(self).spec_state()),
            final(self).spec_settings() == old(self).spec_settings(),
            final(self).spec_shutdown_signal() == old(self).spec_shutdown_signal(),
            final(self).spec_generation() == old(self).spec_generation(),
            final(self).spec_last_notified() == old(self).spec_last_notified(),
            final(self).spec_last_notified_signal() == old(self).spec_last_notified_signal(),
            start_refused(old(self).spec_state()) ==> r matches Err(EngineError::AlreadyRunning),
            !start_refused(old(self).spec_state()) ==> (r matches Ok(addr) && addr@ == listen_address(
                old(self).spec_settings().proxy_port,
            )),
    {
        if self.state == EngineState::Running || self.state == EngineState::Starting {
            return Err(EngineError::AlreadyRunning);
        }
        self.state = EngineState::Starting;
        let mut addr = String::from_str("127.0.0.1:");
        push_decimal(&mut addr, self.settings.proxy_port as u64);
        Ok(addr)
    }

    /// Records that the proxy listener is bound: a starting engine runs.
    pub fn listening(&mut self)
        ensures
            final(self).spec_state() == after_listening(old(self).spec_state()),
            final(self).spec_settings() == old(self).spec_settings(),
            final(self).spec_shutdown_signal() == old(self).spec_shutdown_signal(),
            final(self).spec_generation() == old(self).spec_generation(),
            final(self).spec_last_notified() == old(self).spec_last_notified(),
            final(self).spec_last_notified_signal() == old(self).spec_last_notified_signal(),
    {
        if self.state == EngineState::Starting {
            self.state = EngineState::Running;
        }
    }

    /// Stops the engine: refused with `AlreadyStopped` while it is stopped or
    /// stopping, which leaves the signal alone and notifies nothing;
    /// otherwise every task waiting on the current run's signal is woken, the
    /// signal of the next run replaces it, and the engine is `Stopped`.
    pub fn stop(&mut self) -> (r: Result<(), EngineError>)
        ensures
            final(self).spec_state() == after_stop(old(self).spec_state()),
            final(self).spec_settings() == old(self).spec_settings(),
            stop_refused(old(self).spec_state()) ==> r matches Err(EngineError::AlreadyStopped),
            stop_refused(old(self).spec_state()) ==> final(self).spec_generation() == old(
                self,
            ).spec_generation() && final(self).spec_last_notified() == old(self).spec_last_notified()
                && final(self).spec_last_notified_signal() == old(self).spec_last_notified_signal()
                && final(self).spec_shutdown_signal() == old(self).spec_shutdown_signal(),
            !stop_refused(old(self).spec_state()) ==> r is Ok,
            !stop_refused(old(self).spec_state()) ==> final(self).spec_last_notified() == Some(
                old(self).spec_generation(),
            ) && final(self).spec_last_notified_signal() == Some(old(self).spec_shutdown_signal())
                && final(self).spec_generation() == old(self).spec_generation() + 1,
    {
        if self.state == EngineState::Stopped || self.state == EngineState::Stopping {
            return Err(EngineError::AlreadyStopped);
        }
        self.state = EngineState::Stopping;
        let notice = self.shutdown_signal.notify_all();
        self.last_notice = Some(notice);
        self.shutdown_signal = self.shutdown_signal.next();
        self.state = EngineState::Stopped;
        Ok(())
    }
}

/// A start that is accepted, once listening, leads to a running engine that
/// accepts a stop, and the stopped engine accepts a start again.
pub proof fn lemma_start_stop_cycle(s: EngineState)
    requires
        !start_refused(s),
    ensures
        after_listening(after_start(s)) == EngineState::Running,
        !stop_refused(after_listening(after_start(s))),
        after_stop(after_listening(after_start(s))) == EngineState::Stopped,
        !start_refused(after_stop(after_listening(after_start(s)))),
{
}

/// The engine is never started twice: after an accepted start, whether or
/// not the listener came up, a second start is refused.
pub proof fn lemma_no_double_start(s: EngineState)
    requires
        !start_refused(s),
    ensures
        start_refused(after_start(s)),
        start_refused(after_listening(after_start(s))),
{
}

/// Stopping twice is stopping once: the second stop is refused and changes
/// nothing.
pub proof fn lemma_stop_twice(s: EngineState)
    requires
        !stop_refused(s),
    ensures
        stop_refused(after_stop(s)),
        after_stop(after_stop(s)) == after_stop(s),
{
}

// ─── Bypass send plans ─────────────────────────────────────────────────────

/// One step of sending a client's first data to the server.
#[derive(Clone, Copy, Debug, PartialEq, Eq, Structural)]
pub enum SendStep {
    /// Write the bytes `data[start..end]`.
    Write { start: usize, end: usize },
    /// Flush the connection.
    Flush,
    /// Wait `ms` milliseconds.
    Sleep { ms: u64 },
    /// Send the following packets with the IP time-to-live `ttl`.
    SetTtl { ttl: u8 },
    /// Send the following packets with the time-to-live the connection had
    /// before the last `SetTtl`.
    RestoreTtl,
    /// Send the decoy [`decoy_payload`]`(end - start)` in the place of
    /// `data[start..end]` in the stream: the packets that leave carry the
    /// decoy, and the connection keeps those bytes to send them again.
    Decoy { start: usize, end: usize },
    /// Make the bytes that the connection sends again in the place of
    /// `data[start..end]` the data itself, so that the server receives
    /// `data[start..end]` there.
    Reveal { start: usize, end: usize },
}

pub open spec fn min(a: int, b: int) -> int {
    if a <= b {
        a
    } else {
        b
    }
}

pub open spec fn max(a: int, b: int) -> int {
    if a >= b {
        a
    } else {
        b
    }
}

pub open spec fn write_step(start: int, end: int) -> SendStep {
    SendStep::Write { start: start as usize, end: end as usize }
}

/// TCP fragmentation: the first `max(fragment_size, 1)` bytes (at most all of
/// them) go alone and are flushed; then, after the delay when there is one,
/// the rest goes in one write.
pub open spec fn fragmented_plan(len: nat, fragment_size: nat, delay_ms: u64) -> Seq<SendStep> {
    let f = min(max(fragment_size as int, 1), len as int);
    seq![write_step(0, f), SendStep::Flush] + (if delay_ms > 0 {
        seq![SendStep::Sleep { ms: delay_ms }]
    } else {
        seq![]
    }) + (if f < len {
        seq![write_step(f, len as int), SendStep::Flush]
    } else {
        seq![]
    })
}

/// The length of the decoy ClientHello.
pub const DECOY_LEN: usize = 73;

/// The server name that the decoy ClientHello asks for: "www.w3.org".
pub open spec fn decoy_server_name() -> Seq<u8> {
    seq![0x77u8, 0x77, 0x77, 0x2e, 0x77, 0x33, 0x2e, 0x6f, 0x72, 0x67]
}

/// The decoy: a TLS 1.2 record holding a ClientHello (version 1.2, a zero
/// random, no session, two cipher suites, no compression) whose only
/// extension is the server name [`decoy_server_name`].
pub open spec fn decoy_client_hello() -> Seq<u8> {
    // Record header (handshake, TLS 1.0, 68 bytes); handshake header
    // (ClientHello, 64 bytes); client version 1.2.
    seq![0x16u8, 0x03, 0x01, 0x00, 0x44, 0x01, 0x00, 0x00, 0x40, 0x03, 0x03]
        + Seq::new(32, |i: int| 0u8)
        // No session id; cipher suites TLS_AES_128_GCM_SHA256 and
        // TLS_RSA_WITH_AES_128_CBC_SHA; null compression; 19 bytes of
        // extensions: server_name (15 bytes), a list of 13 bytes holding a
        // host name of 10 bytes.
        + seq![
        0x00u8,
        0x00,
        0x04,
        0x13,
        0x01,
        0x00,
        0x2f,
        0x01,
        0x00,
        0x00,
        0x13,
        0x00,
        0x00,
        0x00,
        0x0f,
        0x00,
        0x0d,
        0x00,
        0x00,
        0x0a,
    ] + decoy_server_name()
}

/// How many bytes of data of length `len` a decoy stands in for.
pub open spec fn decoy_len(len: nat) -> int {
    min(len as int, DECOY_LEN as int)
}

/// The decoy sent in the place of `len` bytes: the first `len` bytes of the
/// decoy ClientHello (all of it when `len` is at least its length).
pub open spec fn spec_decoy_payload(len: nat) -> Seq<u8> {
    decoy_client_hello().take(decoy_len(len))
}

/// The fake packet: with the time-to-live `ttl` (low enough that the packets
/// pass the DPI but die before the server) the decoy goes in the place of
/// the first `n` bytes and is flushed; after the delay the time-to-live is
/// restored and the first `n` bytes of the data are put in the decoy's place,
/// so that what the connection sends again, and the server receives, is the
/// data.
pub open spec fn decoy_steps(n: int, delay_ms: u64, ttl: u8) -> Seq<SendStep> {
    seq![
        SendStep::SetTtl { ttl },
        SendStep::Decoy { start: 0, end: n as usize },
        SendStep::Flush,
        SendStep::Sleep { ms: delay_ms },
        SendStep::RestoreTtl,
        SendStep::Reveal { start: 0, end: n as usize },
    ]
}

/// The fake packet technique: data of up to 3 bytes goes in one write;
/// longer data gets the fake packet over its first `decoy_len(len)` bytes,
/// and the rest follows in one write.
pub open spec fn fake_packet_plan(len: nat, delay_ms: u64, ttl: u8) -> Seq<SendStep> {
    if len <= 3 {
        seq![write_step(0, len as int)]
    } else {
        let n = decoy_len(len);
        decoy_steps(n, delay_ms, ttl) + (if n < len {
            seq![write_step(n, len as int), SendStep::Flush]
        } else {
            seq![]
        })
    }
}

/// The rest of the data after its first `n` bytes as TCP fragmentation sends
/// it: `min(max(fragment_size, 1), len - n)` bytes alone and flushed, then,
/// after the delay when there is one, the rest.
pub open spec fn fragmented_rest(n: int, len: nat, fragment_size: nat, delay_ms: u64) -> Seq<SendStep> {
    if n < len {
        let f = min(max(fragment_size as int, 1), len - n);
        seq![write_step(n, n + f), SendStep::Flush] + (if delay_ms > 0 {
            seq![SendStep::Sleep { ms: delay_ms }]
        } else {
            seq![]
        }) + (if n + f < len {
            seq![write_step(n + f, len as int), SendStep::Flush]
        } else {
            seq![]
        })
    } else {
        seq![]
    }
}

/// All techniques together: data of up to 2 bytes goes in one write; longer
/// data gets the fake packet over its first `decoy_len(len)` bytes, and the
/// rest is fragmented.
pub open spec fn combined_plan(len: nat, fragment_size: nat, delay_ms: u64, ttl: u8) -> Seq<SendStep> {
    if len <= 2 {
        seq![write_step(0, len as int)]
    } else {
        let n = decoy_len(len);
        decoy_steps(n, delay_ms, ttl) + fragmented_rest(n, len, fragment_size, delay_ms)
    }
}

/// How `len` bytes are sent in `mode`, `ttl` being the time-to-live of the
/// fake packet. Host manipulation happens while the request is rewritten;
/// its bytes are then sent as TCP fragmentation sends them.
pub open spec fn bypass_plan(mode: BypassMode, len: nat, fragment_size: nat, delay_ms: u64, ttl: u8) -> Seq<
    SendStep,
> {
    match mode {
        BypassMode::TcpFragmentation => fragmented_plan(len, fragment_size, delay_ms),
        BypassMode::HostManipulation => fragmented_plan(len, fragment_size, delay_ms),
        BypassMode::FakePacket => fake_packet_plan(len, delay_ms, ttl),
        BypassMode::Combined => combined_plan(len, fragment_size, delay_ms, ttl),
    }
}

/// The bytes of `data` that the server receives when `plan` is carried out,
/// in order: those of its writes, and those that its reveals put in the place
/// of a decoy.
pub open spec fn written(plan: Seq<SendStep>, data: Seq<u8>) -> Seq<u8>
    decreases plan.len(),
{
    if plan.len() == 0 {
        Seq::empty()
    } else {
        written(plan.drop_last(), data) + match plan.last() {
            SendStep::Write { start, end } => data.subrange(start as int, end as int),
            SendStep::Reveal { start, end } => data.subrange(start as int, end as int),
            _ => Seq::empty(),
        }
    }
}

/// The plan for sending `len` bytes with the TCP fragmentation technique.
pub fn plan_fragmented(len: usize, settings: &Settings) -> (plan: Vec<SendStep>)
    ensures
        plan@ == fragmented_plan(len as nat, settings.fragment_size as nat, settings.fragment_delay_ms),
{
    let f0 = if settings.fragment_size > 1 {
        settings.fragment_size
    } else {
        1
    };
    let f = if f0 < len {
        f0
    } else {
        len
    };
    let delay = settings.fragment_delay_ms;
    let mut plan: Vec<SendStep> = Vec::new();
    plan.push(SendStep::Write { start: 0, end: f });
    plan.push(SendStep::Flush);
    if delay > 0 {
        plan.push(SendStep::Sleep { ms: delay });
    }
    if f < len {
        plan.push(SendStep::Write { start: f, end: len });
        plan.push(SendStep::Flush);
    }
    assert(plan@ =~= fragmented_plan(len as nat, settings.fragment_size as nat, delay));
    plan
}

/// The decoy sent in the place of `len` bytes.
pub fn decoy_payload(len: usize) -> (r: Vec<u8>)
    ensures
        r@ == spec_decoy_payload(len as nat),
{
    let full: Vec<u8> = vec![
        0x16u8, 0x03, 0x01, 0x00, 0x44, 0x01, 0x00, 0x00, 0x40, 0x03, 0x03,
        0x00, 0x00, 0x00, 0x00, 0x00, 0x00, 0x00, 0x00, 0x00, 0x00, 0x00, 0x00, 0x00, 0x00, 0x00, 0x00,
        0x00, 0x00, 0x00, 0x00, 0x00, 0x00, 0x00, 0x00, 0x00, 0x00, 0x00, 0x00, 0x00, 0x00, 0x00, 0x00,
        0x00, 0x00, 0x04, 0x13, 0x01, 0x00, 0x2f, 0x01, 0x00, 0x00, 0x13, 0x00, 0x00, 0x00,
        0x0f, 0x00, 0x0d, 0x00, 0x00, 0x0a, 0x77, 0x77, 0x77, 0x2e, 0x77, 0x33, 0x2e, 0x6f, 0x72, 0x67,
    ];
    assert(full@ =~= decoy_client_hello());
    let n = if len < DECOY_LEN {
        len
    } else {
        DECOY_LEN
    };
    let mut r: Vec<u8> = Vec::new();
    let mut i: usize = 0;
    while i < n
        invariant
            n <= full@.len() == DECOY_LEN,
            i <= n,
            full@ == decoy_client_hello(),
            r@ == full@.take(i as int),
        decreases n - i,
    {
        r.push(full[i]);
        assert(full@.take(i + 1) =~= full@.take(i as int).push(full@[i as int]));
        i = i + 1;
    }
    r
}

fn push_decoy_steps(plan: &mut Vec<SendStep>, n: usize, delay_ms: u64, ttl: u8)
    ensures
        final(plan)@ == old(plan)@ + decoy_steps(n as int, delay_ms, ttl),
{
    plan.push(SendStep::SetTtl { ttl });
    plan.push(SendStep::Decoy { start: 0, end: n });
    plan.push(SendStep::Flush);
    plan.push(SendStep::Sleep { ms: delay_ms });
    plan.push(SendStep::RestoreTtl);
    plan.push(SendStep::Reveal { start: 0, end: n });
    assert(final(plan)@ =~= old(plan)@ + decoy_steps(n as int, delay_ms, ttl));
}

/// The plan for the fake packet technique, with the time-to-live of the
/// settings.
pub fn plan_fake_packet(len: usize, settings: &Settings) -> (plan: Vec<SendStep>)
    ensures
        plan@ == fake_packet_plan(len as nat, settings.fragment_delay_ms, settings.ttl_value),
{
    let ttl = settings.ttl_value;
    let delay = settings.fragment_delay_ms;
    let mut plan: Vec<SendStep> = Vec::new();
    if len <= 3 {
        plan.push(SendStep::Write { start: 0, end: len });
        assert(plan@ =~= fake_packet_plan(len as nat, delay, ttl));
        return plan;
    }
    let n = if len < DECOY_LEN {
        len
    } else {
        DECOY_LEN
    };
    push_decoy_steps(&mut plan, n, delay, ttl);
    if n < len {
        plan.push(SendStep::Write { start: n, end: len });
        plan.push(SendStep::Flush);
    }
    assert(plan@ =~= fake_packet_plan(len as nat, delay, ttl));
    plan
}

/// The plan for the combined technique.
pub fn plan_combined(len: usize, settings: &Settings) -> (plan: Vec<SendStep>)
    ensures
        plan@ == combined_plan(
            len as nat,
            settings.fragment_size as nat,
            settings.fragment_delay_ms,
            settings.ttl_value,
        ),
{
    let ttl = settings.ttl_value;
    let delay = settings.fragment_delay_ms;
    let mut plan: Vec<SendStep> = Vec::new();
    if len <= 2 {
        plan.push(SendStep::Write { start: 0, end: len });
        assert(plan@ =~= combined_plan(len as nat, settings.fragment_size as nat, delay, ttl));
        return plan;
    }
    let n = if len < DECOY_LEN {
        len
    } else {
        DECOY_LEN
    };
    push_decoy_steps(&mut plan, n, delay, ttl);
    let ghost head = plan@;
    if n < len {
        let f0 = if settings.fragment_size > 1 {
            settings.fragment_size
        } else {
            1
        };
        let f = if f0 < len - n {
            f0
        } else {
            len - n
        };
        plan.push(SendStep::Write { start: n, end: n + f });
        plan.push(SendStep::Flush);
        if delay > 0 {
            plan.push(SendStep::Sleep { ms: delay });
        }
        if n + f < len {
            plan.push(SendStep::Write { start: n + f, end: len });
            plan.push(SendStep::Flush);
        }
    }
    assert(plan@ =~= head + fragmented_rest(n as int, len as nat, settings.fragment_size as nat, delay));
    plan
}

/// The plan for sending `len` bytes with the bypass mode of `settings`.
pub fn plan_bypass(len: usize, settings: &Settings) -> (plan: Vec<SendStep>)
    ensures
        plan@ == bypass_plan(
            settings.bypass_mode,
            len as nat,
            settings.fragment_size as nat,
            settings.fragment_delay_ms,
            settings.ttl_value,
        ),
{
    match settings.bypass_mode {
        BypassMode::TcpFragmentation => plan_fragmented(len, settings),
        BypassMode::FakePacket => plan_fake_packet(len, settings),
        BypassMode::HostManipulation => plan_fragmented(len, settings),
        BypassMode::Combined => plan_combined(len, settings),
    }
}

proof fn lemma_written_append(a: Seq<SendStep>, b: Seq<SendStep>, data: Seq<u8>)
    ensures
        written(a + b, data) == written(a, data) + written(b, data),
    decreases b.len(),
{
    if b.len() == 0 {
        assert(a + b =~= a);
    } else {
        assert((a + b).drop_last() =~= a + b.drop_last());
        lemma_written_append(a, b.drop_last(), data);
    }
}

proof fn lemma_written_one(st: SendStep, data: Seq<u8>)
    ensures
        written(seq![st], data) == match st {
            SendStep::Write { start, end } => data.subrange(start as int, end as int),
            SendStep::Reveal { start, end } => data.subrange(start as int, end as int),
            _ => Seq::empty(),
        },
{
    assert(seq![st].drop_last() =~= Seq::<SendStep>::empty());
    assert(written(Seq::<SendStep>::empty(), data) =~= Seq::<u8>::empty());
}

/// Steps that neither write nor reveal deliver nothing.
proof fn lemma_written_silent(p: Seq<SendStep>, data: Seq<u8>)
    requires
        forall|i: int| 0 <= i < p.len() ==> !(#[trigger] p[i] is Write) && !(p[i] is Reveal),
    ensures
        written(p, data) == Seq::<u8>::empty(),
    decreases p.len(),
{
    if p.len() > 0 {
        assert(!(p[p.len() - 1] is Write));
        lemma_written_silent(p.drop_last(), data);
    }
}

proof fn lemma_written_decoy_steps(n: int, delay_ms: u64, ttl: u8, data: Seq<u8>)
    requires
        0 <= n <= data.len() <= usize::MAX,
    ensures
        written(decoy_steps(n, delay_ms, ttl), data) == data.subrange(0, n),
{
    let silent = seq![
        SendStep::SetTtl { ttl },
        SendStep::Decoy { start: 0, end: n as usize },
        SendStep::Flush,
        SendStep::Sleep { ms: delay_ms },
        SendStep::RestoreTtl,
    ];
    let rv = seq![SendStep::Reveal { start: 0, end: n as usize }];
    assert(decoy_steps(n, delay_ms, ttl) =~= silent + rv);
    lemma_written_silent(silent, data);
    lemma_written_one(SendStep::Reveal { start: 0, end: n as usize }, data);
    lemma_written_append(silent, rv, data);
    assert(Seq::<u8>::empty() + data.subrange(0, n) =~= data.subrange(0, n));
}

proof fn lemma_written_fragmented_rest(n: int, fragment_size: nat, delay_ms: u64, data: Seq<u8>)
    requires
        0 <= n <= data.len() <= usize::MAX,
    ensures
        written(fragmented_rest(n, data.len(), fragment_size, delay_ms), data) == data.subrange(
            n,
            data.len() as int,
        ),
{
    let len = data.len();
    let e = Seq::<SendStep>::empty();
    let fl = seq![SendStep::Flush];
    let sl = seq![SendStep::Sleep { ms: delay_ms }];
    lemma_written_one(SendStep::Flush, data);
    lemma_written_one(SendStep::Sleep { ms: delay_ms }, data);
    assert(written(e, data) =~= Seq::<u8>::empty());
    if n < len {
        let f = min(max(fragment_size as int, 1), len - n);
        let p1 = seq![write_step(n, n + f)] + fl;
        let p2: Seq<SendStep> = if delay_ms > 0 { sl } else { e };
        let p3: Seq<SendStep> = if n + f < len { seq![write_step(n + f, len as int)] + fl } else { e };
        assert(fragmented_rest(n, len, fragment_size, delay_ms) =~= p1 + p2 + p3);
        lemma_written_one(write_step(n, n + f), data);
        lemma_written_one(write_step(n + f, len as int), data);
        lemma_written_append(seq![write_step(n, n + f)], fl, data);
        lemma_written_append(seq![write_step(n + f, len as int)], fl, data);
        lemma_written_append(p1, p2, data);
        lemma_written_append(p1 + p2, p3, data);
        if n + f < len {
            assert(data.subrange(n, n + f) + data.subrange(n + f, len as int) =~= data.subrange(
                n,
                len as int,
            ));
        } else {
            assert(data.subrange(n, n + f) =~= data.subrange(n, len as int));
        }
    } else {
        assert(fragmented_rest(n, len, fragment_size, delay_ms) =~= e);
        assert(data.subrange(n, len as int) =~= Seq::<u8>::empty());
    }
}

/// Splitting never loses, repeats or reorders a byte, and no decoy byte
/// reaches the server: in every mode the server receives exactly the data,
/// in order.
pub proof fn lemma_bypass_plan_sends_all(
    mode: BypassMode,
    data: Seq<u8>,
    fragment_size: nat,
    delay_ms: u64,
    ttl: u8,
)
    requires
        data.len() <= usize::MAX,
    ensures
        written(bypass_plan(mode, data.len(), fragment_size, delay_ms, ttl), data) == data,
{
    let len = data.len();
    let fl = seq![SendStep::Flush];
    lemma_written_one(SendStep::Flush, data);
    lemma_written_one(write_step(0, len as int), data);
    assert(data.subrange(0, len as int) =~= data);
    match mode {
        BypassMode::TcpFragmentation | BypassMode::HostManipulation => {
            if len > 0 {
                lemma_written_fragmented_rest(0, fragment_size, delay_ms, data);
                assert(fragmented_plan(len, fragment_size, delay_ms) =~= fragmented_rest(
                    0,
                    len,
                    fragment_size,
                    delay_ms,
                ));
            } else {
                let p1 = seq![write_step(0, 0)] + fl;
                let p2: Seq<SendStep> = if delay_ms > 0 {
                    seq![SendStep::Sleep { ms: delay_ms }]
                } else {
                    Seq::empty()
                };
                assert(fragmented_plan(len, fragment_size, delay_ms) =~= p1 + p2);
                lemma_written_one(write_step(0, 0), data);
                lemma_written_append(seq![write_step(0, 0)], fl, data);
                lemma_written_silent(p2, data);
                lemma_written_append(p1, p2, data);
                assert(data =~= Seq::<u8>::empty());
            }
        },
        BypassMode::FakePacket => {
            if len > 3 {
                let n = decoy_len(len);
                let d = decoy_steps(n, delay_ms, ttl);
                lemma_written_decoy_steps(n, delay_ms, ttl, data);
                if n < len {
                    let w = seq![write_step(n, len as int)];
                    lemma_written_one(write_step(n, len as int), data);
                    lemma_written_append(w, fl, data);
                    lemma_written_append(d, w + fl, data);
                    assert(d + (w + fl) =~= d + seq![write_step(n, len as int), SendStep::Flush]);
                    assert(data.subrange(0, n) + data.subrange(n, len as int) =~= data);
                } else {
                    assert(d + Seq::<SendStep>::empty() =~= d);
                }
            }
        },
        BypassMode::Combined => {
            if len > 2 {
                let n = decoy_len(len);
                lemma_written_decoy_steps(n, delay_ms, ttl, data);
                lemma_written_fragmented_rest(n, fragment_size, delay_ms, data);
                lemma_written_append(
                    decoy_steps(n, delay_ms, ttl),
                    fragmented_rest(n, len, fragment_size, delay_ms),
                    data,
                );
                assert(data.subrange(0, n) + data.subrange(n, len as int) =~= data);
            }
        },
    }
}

/// The decoy is a ClientHello record (content type 0x16, handshake type
/// 0x01 at offset 5) of [`DECOY_LEN`] bytes that ends with the server name
/// it asks for, which the data does not have to hold.
pub proof fn lemma_decoy_is_client_hello()
    ensures
        decoy_client_hello().len() == DECOY_LEN,
        decoy_client_hello()[0] == 0x16u8,
        decoy_client_hello()[5] == 0x01u8,
        decoy_client_hello().subrange(DECOY_LEN - 10, DECOY_LEN as int) == decoy_server_name(),
{
    assert(decoy_client_hello().subrange(DECOY_LEN - 10, DECOY_LEN as int) =~= decoy_server_name());
}

/// In the fake packet and combined modes, for data longer than what they
/// send whole, the fake packet goes first: the time-to-live of the settings
/// is set, the decoy goes in the place of the first `decoy_len(len)` bytes
/// (at least one) and is flushed, and only after the delay, with the
/// time-to-live restored, is that place given the data; nothing of the data
/// is written before.
pub proof fn lemma_fake_packet_goes_first(
    mode: BypassMode,
    len: nat,
    fragment_size: nat,
    delay_ms: u64,
    ttl: u8,
)
    requires
        len <= usize::MAX,
        mode == BypassMode::FakePacket && len > 3 || mode == BypassMode::Combined && len > 2,
    ensures
        ({
            let p = bypass_plan(mode, len, fragment_size, delay_ms, ttl);
            let n = decoy_len(len);
            &&& 0 < n <= len
            &&& p.len() >= 6
            &&& p[0] == SendStep::SetTtl { ttl }
            &&& p[1] == SendStep::Decoy { start: 0, end: n as usize }
            &&& p[2] == SendStep::Flush
            &&& p[3] == SendStep::Sleep { ms: delay_ms }
            &&& p[4] == SendStep::RestoreTtl
            &&& p[5] == SendStep::Reveal { start: 0, end: n as usize }
        }),
{
}

/// TCP fragmentation (and host manipulation, which sends as it does): when
/// the data is longer than `max(fragment_size, 1)` bytes, those first bytes
/// go alone in the first write and are flushed, and every byte after them
/// goes in one later write, the last write of the plan, which is flushed;
/// no other write is made; the delay, when there is one, comes right after
/// the first flush. Shorter data goes in one write.
pub proof fn lemma_fragmentation_splits_at_fragment_size(
    mode: BypassMode,
    len: nat,
    fragment_size: nat,
    delay_ms: u64,
    ttl: u8,
)
    requires
        len <= usize::MAX,
        mode == BypassMode::TcpFragmentation || mode == BypassMode::HostManipulation,
    ensures
        ({
            let p = bypass_plan(mode, len, fragment_size, delay_ms, ttl);
            let f: nat = if fragment_size >= 1 { fragment_size } else { 1 };
            &&& p.len() == (if f < len { 4int } else { 2int }) + (if delay_ms > 0 { 1int } else { 0int })
            &&& delay_ms > 0 ==> p[2] == SendStep::Sleep { ms: delay_ms }
            &&& f < len ==> {
                &&& p.len() >= 4
                &&& p[0] == SendStep::Write { start: 0, end: f as usize }
                &&& p[1] == SendStep::Flush
                &&& p[p.len() - 2] == SendStep::Write { start: f as usize, end: len as usize }
                &&& p[p.len() - 1] == SendStep::Flush
                &&& forall|i: int| 0 < i < p.len() - 2 ==> !(#[trigger] p[i] is Write)
            }
            &&& f >= len ==> {
                &&& p.len() >= 2
                &&& p[0] == SendStep::Write { start: 0, end: len as usize }
                &&& p[1] == SendStep::Flush
                &&& forall|i: int| 0 < i < p.len() ==> !(#[trigger] p[i] is Write)
            }
        }),
{
    let p = bypass_plan(mode, len, fragment_size, delay_ms, ttl);
    assert(p == fragmented_plan(len, fragment_size, delay_ms));
}

} // verus!
