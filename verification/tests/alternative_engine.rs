use sxdpi::alternative_engine::{
    alternative_arguments, candidate_paths, exe_name, search_paths, search_roots, startup_outcome,
    AlternativeEngineError,
};

#[test]
fn alternative_command_line() {
    assert_eq!(
        alternative_arguments(),
        vec!["-5", "--set-ttl", "5", "--dns-addr", "77.88.8.8", "--dns-port", "1253", "--dnsv6-addr", "2a02:6b8::feed:0ff", "--dnsv6-port", "1253"]
    );
    assert_eq!(exe_name(), "sxdpialternative.exe");
}

#[test]
fn alternative_search_order() {
    let p = candidate_paths();
    assert_eq!(
        p,
        vec![
            vec!["x86_64", "sxdpialternative.exe"],
            vec!["x86", "sxdpialternative.exe"],
            vec!["resources", "x86_64", "sxdpialternative.exe"],
            vec!["resources", "x86", "sxdpialternative.exe"],
            vec!["resources", "sxdpialternative.exe"],
            vec!["sxdpialternative.exe"],
        ]
    );
}

#[test]
fn alternative_startup() {
    assert!(startup_outcome(None).is_ok());
    assert!(matches!(startup_outcome(Some(Some(3))), Err(AlternativeEngineError::ExitedImmediately(Some(3)))));
    assert!(matches!(startup_outcome(Some(None)), Err(AlternativeEngineError::ExitedImmediately(None))));
}

#[test]
fn alternative_error_messages() {
    assert_eq!(
        AlternativeEngineError::ExecutableNotFound.message(),
        "SxDPI Alternative executable not found. Put sxdpialternative.exe under x86_64/ or x86/ next to SxDPI."
    );
    assert_eq!(
        AlternativeEngineError::ExitedImmediately(Some(-5)).message(),
        "SxDPI Alternative exited immediately with code Some(-5). It may need administrator privileges."
    );
    assert_eq!(
        AlternativeEngineError::ExitedImmediately(None).message(),
        "SxDPI Alternative exited immediately with code None. It may need administrator privileges."
    );
    let e = AlternativeEngineError::SpawnFailed(std::io::Error::new(std::io::ErrorKind::Other, "denied"));
    assert_eq!(e.message(), "SxDPI Alternative could not be started: denied");
}

fn path(parts: &[&str]) -> Vec<String> {
    parts.iter().map(|p| p.to_string()).collect()
}

#[test]
fn search_roots_keep_first_occurrences() {
    let roots = search_roots(
        Some(path(&["/", "opt", "app", "bin"])),
        Some(path(&["/", "opt", "app"])),
        Some(path(&["/"])),
    );
    assert_eq!(
        roots,
        vec![path(&["/", "opt", "app", "bin"]), path(&["/", "opt", "app"]), path(&["/", "opt"]), path(&["/"])]
    );
    assert_eq!(search_roots(None, None, None), Vec::<Vec<String>>::new());
    assert_eq!(
        search_roots(None, Some(path(&["C:\\", "x"])), None),
        vec![path(&["C:\\", "x"]), path(&["C:\\"])]
    );
}

#[test]
fn search_paths_try_each_candidate_under_each_root() {
    let roots = vec![path(&["/", "a"]), path(&["/"])];
    let cands = vec![path(&["x86", "e.exe"]), path(&["e.exe"])];
    assert_eq!(
        search_paths(&roots, &cands),
        vec![
            path(&["/", "a", "x86", "e.exe"]),
            path(&["/", "a", "e.exe"]),
            path(&["/", "x86", "e.exe"]),
            path(&["/", "e.exe"]),
        ]
    );
    assert_eq!(search_paths(&roots, &candidate_paths()).len(), 12);
}
