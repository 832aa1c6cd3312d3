use sxdpi::dpi_engine::{
    bind_error, connection_error, plan_bypass, plan_combined, plan_fake_packet, plan_fragmented,
    decoy_payload, DpiEngine, EngineError, EngineState, SendStep,
};
use sxdpi::settings::{BypassMode, Settings};
use sxdpi::http::is_client_hello;

fn w(start: usize, end: usize) -> SendStep {
    SendStep::Write { start, end }
}

fn settings(mode: BypassMode, fragment_size: usize, delay: u64) -> Settings {
    let mut s = Settings::default();
    s.bypass_mode = mode;
    s.fragment_size = fragment_size;
    s.fragment_delay_ms = delay;
    s
}

fn reassemble(plan: &[SendStep], data: &[u8]) -> Vec<u8> {
    let mut out = Vec::new();
    for step in plan {
        match step {
            SendStep::Write { start, end } | SendStep::Reveal { start, end } => {
                out.extend_from_slice(&data[*start..*end])
            }
            _ => {}
        }
    }
    out
}

#[test]
fn engine_start_stop_cycle() {
    let mut e = DpiEngine::new(Settings::default());
    assert_eq!(*e.state(), EngineState::Stopped);
    let addr = e.start().unwrap();
    assert_eq!(addr, "127.0.0.1:8118");
    assert_eq!(*e.state(), EngineState::Starting);
    assert!(matches!(e.start(), Err(EngineError::AlreadyRunning)));
    e.listening();
    assert_eq!(*e.state(), EngineState::Running);
    assert!(matches!(e.start(), Err(EngineError::AlreadyRunning)));
    assert!(e.stop().is_ok());
    assert_eq!(*e.state(), EngineState::Stopped);
    assert!(matches!(e.stop(), Err(EngineError::AlreadyStopped)));
    assert_eq!(*e.state(), EngineState::Stopped);
    assert!(e.start().is_ok());
}

#[test]
fn engine_stop_while_starting() {
    let mut e = DpiEngine::new(Settings::default());
    e.start().unwrap();
    assert!(e.stop().is_ok());
    assert_eq!(*e.state(), EngineState::Stopped);
}

#[test]
fn engine_listen_address_uses_port() {
    let mut s = Settings::default();
    s.proxy_port = 9;
    let mut e = DpiEngine::new(s);
    assert_eq!(e.start().unwrap(), "127.0.0.1:9");
    let mut s2 = Settings::default();
    s2.proxy_port = 65535;
    e.update_settings(s2);
    assert_eq!(e.settings().proxy_port, 65535);
    assert_eq!(*e.state(), EngineState::Starting);
}

#[test]
fn engine_listening_only_after_start() {
    let mut e = DpiEngine::new(Settings::default());
    e.listening();
    assert_eq!(*e.state(), EngineState::Stopped);
}

#[test]
fn stop_wakes_the_shutdown_signal() {
    let rt = tokio::runtime::Runtime::new().unwrap();
    rt.block_on(async {
        let mut e = DpiEngine::new(Settings::default());
        e.start().unwrap();
        e.listening();
        let signal = e.shutdown_signal();
        let waiter = tokio::spawn(async move { signal.notified().await });
        tokio::time::sleep(std::time::Duration::from_millis(50)).await;
        e.stop().unwrap();
        tokio::time::timeout(std::time::Duration::from_secs(5), waiter)
            .await
            .unwrap()
            .unwrap();
        // The next run has a fresh signal that nobody notified yet.
        let fresh = e.shutdown_signal();
        let pending = tokio::time::timeout(
            std::time::Duration::from_millis(50),
            fresh.notified(),
        )
        .await;
        assert!(pending.is_err());
    });
}

#[test]
fn engine_error_messages() {
    assert_eq!(EngineError::AlreadyRunning.message(), "Motor zaten çalışıyor");
    assert_eq!(EngineError::AlreadyStopped.message(), "Motor zaten durmuş");
    assert_eq!(
        bind_error("127.0.0.1:8118", "address in use").message(),
        "Proxy sunucu başlatılamadı: 127.0.0.1:8118: address in use"
    );
    assert_eq!(connection_error("TLS timeout").message(), "Bağlantı hatası: TLS timeout");
    let io = EngineError::IoError(std::io::Error::new(std::io::ErrorKind::Other, "boom"));
    assert_eq!(io.message(), "IO hatası: boom");
}

#[test]
fn engine_state_display_text() {
    assert_eq!(EngineState::Stopped.display_text(), "Stopped");
    assert_eq!(EngineState::Starting.display_text(), "Starting");
    assert_eq!(EngineState::Running.display_text(), "Running");
    assert_eq!(EngineState::Stopping.display_text(), "Stopping");
}

#[test]
fn fragmented_plan_splits_after_fragment_size() {
    let s = settings(BypassMode::TcpFragmentation, 2, 50);
    assert_eq!(
        plan_fragmented(10, &s),
        vec![w(0, 2), SendStep::Flush, SendStep::Sleep { ms: 50 }, w(2, 10), SendStep::Flush]
    );
    let s0 = settings(BypassMode::TcpFragmentation, 2, 0);
    assert_eq!(plan_fragmented(10, &s0), vec![w(0, 2), SendStep::Flush, w(2, 10), SendStep::Flush]);
}

#[test]
fn fragmented_plan_edge_cases() {
    let s = settings(BypassMode::TcpFragmentation, 0, 50);
    assert_eq!(
        plan_fragmented(5, &s),
        vec![w(0, 1), SendStep::Flush, SendStep::Sleep { ms: 50 }, w(1, 5), SendStep::Flush]
    );
    let s2 = settings(BypassMode::TcpFragmentation, 2, 50);
    assert_eq!(plan_fragmented(1, &s2), vec![w(0, 1), SendStep::Flush, SendStep::Sleep { ms: 50 }]);
    assert_eq!(plan_fragmented(0, &s2), vec![w(0, 0), SendStep::Flush, SendStep::Sleep { ms: 50 }]);
}

fn decoy(n: usize, delay: u64, ttl: u8) -> Vec<SendStep> {
    vec![
        SendStep::SetTtl { ttl },
        SendStep::Decoy { start: 0, end: n },
        SendStep::Flush,
        SendStep::Sleep { ms: delay },
        SendStep::RestoreTtl,
        SendStep::Reveal { start: 0, end: n },
    ]
}

#[test]
fn fake_packet_plan_sends_a_decoy_first() {
    let s = settings(BypassMode::FakePacket, 2, 50);
    assert_eq!(plan_fake_packet(3, &s), vec![w(0, 3)]);
    assert_eq!(plan_fake_packet(10, &s), decoy(10, 50, 1));
    let mut expected = decoy(73, 50, 1);
    expected.extend([w(73, 300), SendStep::Flush]);
    assert_eq!(plan_fake_packet(300, &s), expected);
    let mut low = settings(BypassMode::FakePacket, 100, 7);
    low.ttl_value = 4;
    assert_eq!(plan_fake_packet(73, &low), decoy(73, 7, 4));
}

#[test]
fn decoy_is_a_client_hello_with_another_name() {
    let d = decoy_payload(1000);
    assert_eq!(d.len(), 73);
    assert!(is_client_hello(&d));
    assert_eq!(&d[0..5], &[0x16, 0x03, 0x01, 0x00, 0x44]);
    assert_eq!(usize::from(d[4]), d.len() - 5);
    assert_eq!(&d[63..], b"www.w3.org");
    assert_eq!(decoy_payload(10), d[..10].to_vec());
    assert_eq!(decoy_payload(0), Vec::<u8>::new());
}

#[test]
fn combined_plan() {
    let s = settings(BypassMode::Combined, 2, 0);
    assert_eq!(plan_combined(2, &s), vec![w(0, 2)]);
    assert_eq!(plan_combined(3, &s), decoy(3, 0, 1));
    let mut expected = decoy(73, 0, 1);
    expected.extend([w(73, 75), SendStep::Flush, w(75, 200), SendStep::Flush]);
    assert_eq!(plan_combined(200, &s), expected);
    let d = settings(BypassMode::Combined, 500, 9);
    let mut expected = decoy(73, 9, 1);
    expected.extend([w(73, 200), SendStep::Flush, SendStep::Sleep { ms: 9 }]);
    assert_eq!(plan_combined(200, &d), expected);
}

#[test]
fn bypass_plan_follows_mode() {
    let data: Vec<u8> = (0..200u8).collect();
    assert_eq!(
        plan_bypass(40, &settings(BypassMode::HostManipulation, 3, 1)),
        plan_fragmented(40, &settings(BypassMode::HostManipulation, 3, 1))
    );
    assert_eq!(
        plan_bypass(40, &settings(BypassMode::FakePacket, 3, 1)),
        plan_fake_packet(40, &settings(BypassMode::FakePacket, 3, 1))
    );
    assert_eq!(plan_bypass(40, &settings(BypassMode::FakePacket, 3, 1))[0], SendStep::SetTtl { ttl: 1 });
    for mode in [
        BypassMode::TcpFragmentation,
        BypassMode::FakePacket,
        BypassMode::HostManipulation,
        BypassMode::Combined,
    ] {
        for len in 0..200usize {
            for fs in [0usize, 1, 2, 3, 5, 39, 100] {
                let plan = plan_bypass(len, &settings(mode, fs, 5));
                assert_eq!(reassemble(&plan, &data[..len]), data[..len].to_vec());
            }
        }
    }
}

#[test]
fn second_start_and_second_stop_are_refused() {
    let mut e = DpiEngine::new(Settings::default());
    e.start().unwrap();
    assert!(matches!(e.start(), Err(EngineError::AlreadyRunning)));
    assert_eq!(*e.state(), EngineState::Starting);
    e.stop().unwrap();
    assert!(matches!(e.stop(), Err(EngineError::AlreadyStopped)));
    assert_eq!(*e.state(), EngineState::Stopped);
}

#[test]
fn stop_wakes_the_run_and_installs_a_fresh_signal() {
    let rt = tokio::runtime::Builder::new_current_thread().enable_all().build().unwrap();
    rt.block_on(async {
        let mut e = DpiEngine::new(Settings::default());
        let before_start = e.shutdown_signal();
        e.start().unwrap();
        e.listening();
        let signal = e.shutdown_signal();
        assert!(std::sync::Arc::ptr_eq(&before_start, &signal));
        let waiting = signal.clone();
        let waiter = tokio::spawn(async move { waiting.notified().await });
        tokio::task::yield_now().await;
        e.stop().unwrap();
        tokio::time::timeout(std::time::Duration::from_secs(5), waiter)
            .await
            .expect("the waiting task is woken by stop")
            .unwrap();
        let next = e.shutdown_signal();
        assert!(!std::sync::Arc::ptr_eq(&signal, &next));
        assert!(matches!(e.stop(), Err(EngineError::AlreadyStopped)));
        assert!(std::sync::Arc::ptr_eq(&next, &e.shutdown_signal()));
    });
}
