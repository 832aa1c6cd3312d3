use sxdpi::system_proxy::{
    after_registry_write, autostart_command_result, begin_shutdown_cleanup, first_apply_step, disable_autostart, enable_autostart,
    registry_status, registry_value, set_system_proxy, text_contains, unset_error,
    unset_system_proxy, widestring, ApplyStep, ProxyError, ShutdownState, REG_DWORD, REG_SZ,
};

const OVERRIDE: &str = "localhost;127.0.0.1;127.*;<local>;10.*;172.16.*;172.17.*;172.18.*;172.19.*;172.20.*;172.21.*;172.22.*;172.23.*;172.24.*;172.25.*;172.26.*;172.27.*;172.28.*;172.29.*;172.30.*;172.31.*;192.168.*;*.microsoft.com;*.microsoftonline.com;*.windows.com;*.windows.net;*.windowsupdate.com;*.mp.microsoft.com;*.delivery.mp.microsoft.com;*.s-microsoft.com;*.msedge.net;*.azureedge.net;*.trafficmanager.net;*.akamaized.net;*.akamaihd.net;*.akadns.net;*.live.com;*.xboxlive.com;*.xboxservices.com;*.bing.com";

fn set_msg(e: ProxyError) -> String {
    match e {
        ProxyError::SetFailed(m) => m,
        other => panic!("unexpected error {:?}", other),
    }
}

#[test]
fn wide_strings_are_terminated_utf16() {
    assert_eq!(widestring("Ab"), vec![65, 98, 0]);
    assert_eq!(widestring(""), vec![0]);
    assert_eq!(widestring("ş😀"), vec![0x015F, 0xD83D, 0xDE00, 0]);
}

#[test]
fn registry_dword_values() {
    let v = registry_value("REG_DWORD", "1", "ProxyEnable").unwrap();
    assert_eq!(v.kind, REG_DWORD);
    assert_eq!(v.bytes, vec![1, 0, 0, 0]);
    let v = registry_value("REG_DWORD", "4294967295", "x").unwrap();
    assert_eq!(v.bytes, vec![255, 255, 255, 255]);
    let v = registry_value("REG_DWORD", "+258", "x").unwrap();
    assert_eq!(v.bytes, vec![2, 1, 0, 0]);
}

#[test]
fn registry_dword_parse_errors() {
    assert_eq!(set_msg(registry_value("REG_DWORD", "abc", "ctx").err().unwrap()), "ctx: invalid digit found in string");
    assert_eq!(set_msg(registry_value("REG_DWORD", "", "ctx").err().unwrap()), "ctx: cannot parse integer from empty string");
    assert_eq!(set_msg(registry_value("REG_DWORD", "4294967296", "ctx").err().unwrap()), "ctx: number too large to fit in target type");
    assert_eq!(set_msg(registry_value("REG_DWORD", "-1", "ctx").err().unwrap()), "ctx: invalid digit found in string");
    assert_eq!(set_msg(registry_value("REG_DWORD", "+", "ctx").err().unwrap()), "ctx: invalid digit found in string");
    assert_eq!(set_msg(registry_value("REG_DWORD", "99999999999x", "ctx").err().unwrap()), "ctx: number too large to fit in target type");
}

#[test]
fn registry_string_values() {
    let v = registry_value("REG_SZ", "A", "ctx").unwrap();
    assert_eq!(v.kind, REG_SZ);
    assert_eq!(v.bytes, vec![65, 0, 0, 0]);
    assert_eq!(
        set_msg(registry_value("REG_BINARY", "00", "ctx").err().unwrap()),
        "ctx: unsupported registry type REG_BINARY"
    );
}

#[test]
fn registry_status_codes() {
    assert!(registry_status(0, "ProxyEnable").is_ok());
    assert_eq!(set_msg(registry_status(5, "ProxyEnable").unwrap_err()), "ProxyEnable: Win32 registry status 5");
    assert_eq!(set_msg(registry_status(-1, "x").unwrap_err()), "x: Win32 registry status -1");
    assert_eq!(
        set_msg(registry_status(i32::MIN, "x").unwrap_err()),
        "x: Win32 registry status -2147483648"
    );
}

#[test]
fn set_proxy_plan() {
    let p = set_system_proxy(8118, &ShutdownState::new());
    assert_eq!(p.registry_key, "Software\\Microsoft\\Windows\\CurrentVersion\\Internet Settings");
    let writes: Vec<(String, String, String, String)> = p
        .registry_writes
        .iter()
        .map(|w| (w.value.clone(), w.reg_type.clone(), w.data.clone(), w.context.clone()))
        .collect();
    assert_eq!(
        writes,
        vec![
            ("ProxyEnable".into(), "REG_DWORD".into(), "1".into(), "ProxyEnable".into()),
            (
                "ProxyServer".into(),
                "REG_SZ".into(),
                "http=127.0.0.1:8118;https=127.0.0.1:8118".into(),
                "ProxyServer".into()
            ),
            ("ProxyOverride".into(), "REG_SZ".into(), OVERRIDE.into(), "ProxyOverride".into()),
            ("AutoDetect".into(), "REG_DWORD".into(), "0".into(), "AutoDetect".into()),
        ]
    );
    assert_eq!(p.registry_deletes, vec!["AutoConfigURL".to_string()]);
    assert_eq!(
        p.winhttp_args.unwrap(),
        vec![
            "winhttp".to_string(),
            "set".into(),
            "proxy".into(),
            "proxy-server=http=127.0.0.1:8118;https=127.0.0.1:8118".into(),
            format!("bypass-list={}", OVERRIDE),
        ]
    );
    assert!(p.notify_settings_changed);
    assert_eq!(p.gsettings_commands.len(), 5);
    assert_eq!(p.gsettings_commands[0], vec!["set", "org.gnome.system.proxy", "mode", "'manual'"]);
    assert_eq!(p.gsettings_commands[2], vec!["set", "org.gnome.system.proxy.http", "port", "8118"]);
    assert_eq!(p.gsettings_commands[3], vec!["set", "org.gnome.system.proxy.https", "host", "'127.0.0.1'"]);
}

#[test]
fn shutdown_skips_notifications() {
    let mut st = ShutdownState::new();
    assert!(!st.shutting_down);
    begin_shutdown_cleanup(&mut st);
    assert!(st.shutting_down);
    let p = set_system_proxy(1, &st);
    assert!(p.winhttp_args.is_none());
    assert!(!p.notify_settings_changed);
    assert_eq!(p.registry_writes[1].data, "http=127.0.0.1:1;https=127.0.0.1:1");
    let u = unset_system_proxy(&st);
    assert!(u.winhttp_args.is_none());
    assert!(!u.notify_settings_changed);
}

#[test]
fn unset_proxy_plan() {
    let p = unset_system_proxy(&ShutdownState::new());
    assert_eq!(p.registry_writes.len(), 1);
    assert_eq!(p.registry_writes[0].value, "ProxyEnable");
    assert_eq!(p.registry_writes[0].data, "0");
    assert!(p.registry_deletes.is_empty());
    assert_eq!(p.winhttp_args.unwrap(), vec!["winhttp", "reset", "proxy"]);
    assert_eq!(p.gsettings_commands, vec![vec!["set", "org.gnome.system.proxy", "mode", "'none'"]]);
}

#[test]
fn autostart_plans() {
    let p = enable_autostart("/usr/bin/sxdpi");
    assert_eq!(
        p.reg_args,
        vec!["add", "HKCU\\Software\\Microsoft\\Windows\\CurrentVersion\\Run", "/v", "SxDPI", "/t", "REG_SZ", "/d", "/usr/bin/sxdpi", "/f"]
    );
    assert_eq!(p.desktop_file_name, "sxdpi.desktop");
    assert_eq!(
        p.desktop_entry.unwrap(),
        "[Desktop Entry]\nType=Application\nName=SxDPI\nComment=DPI Bypass Application\nExec=/usr/bin/sxdpi\nTerminal=false\nStartupNotify=false\nX-GNOME-Autostart-enabled=true\n"
    );
    let d = disable_autostart();
    assert_eq!(d.reg_args, vec!["delete", "HKCU\\Software\\Microsoft\\Windows\\CurrentVersion\\Run", "/v", "SxDPI", "/f"]);
    assert!(d.desktop_entry.is_none());
}

#[test]
fn autostart_command_outcomes() {
    assert!(autostart_command_result(true, true, "").is_ok());
    assert!(matches!(autostart_command_result(true, false, "denied"), Err(ProxyError::SetFailed(m)) if m == "denied"));
    assert!(autostart_command_result(false, false, "ERROR: The system was unable to find the specified registry key or value.").is_ok());
    assert!(matches!(autostart_command_result(false, false, "denied"), Err(ProxyError::UnsetFailed(m)) if m == "denied"));
    assert!(text_contains("abc", ""));
    assert!(text_contains("abc", "bc"));
    assert!(!text_contains("abc", "cd"));
}

#[test]
fn proxy_error_messages() {
    assert_eq!(ProxyError::SetFailed("x".into()).message(), "Sistem proxy ayarı değiştirilemedi: x");
    assert_eq!(ProxyError::UnsetFailed("y".into()).message(), "Sistem proxy ayarı temizlenemedi: y");
    let io = ProxyError::CommandError(std::io::Error::new(std::io::ErrorKind::NotFound, "no gsettings"));
    assert_eq!(io.message(), "Komut çalıştırılamadı: no gsettings");
    match unset_error(&ProxyError::SetFailed("ProxyEnable: Win32 registry status 5".into())) {
        ProxyError::UnsetFailed(m) => {
            assert_eq!(m, "Sistem proxy ayarı değiştirilemedi: ProxyEnable: Win32 registry status 5")
        }
        other => panic!("unexpected {:?}", other),
    }
}

#[test]
fn registry_writes_stop_at_first_failure() {
    assert!(matches!(first_apply_step(0), ApplyStep::Finish));
    assert!(matches!(first_apply_step(3), ApplyStep::Write(0)));
    assert!(matches!(after_registry_write(0, 3, Ok(()), false), ApplyStep::Write(1)));
    assert!(matches!(after_registry_write(2, 3, Ok(()), false), ApplyStep::Finish));
    match after_registry_write(1, 3, Err(ProxyError::SetFailed("ProxyEnable".to_string())), false) {
        ApplyStep::Fail(ProxyError::SetFailed(m)) => assert_eq!(m, "ProxyEnable"),
        other => panic!("unexpected step {:?}", other),
    }
    match after_registry_write(0, 3, Err(ProxyError::SetFailed("ProxyEnable".to_string())), true) {
        ApplyStep::Fail(ProxyError::UnsetFailed(m)) => {
            assert_eq!(m, "Sistem proxy ayarı değiştirilemedi: ProxyEnable")
        }
        other => panic!("unexpected step {:?}", other),
    }
}
