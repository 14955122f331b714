use fauxrrt::rocketpy::{
    backend_candidates, check_rocketpy, choose_backend, interp_check, interp_from_venv,
    json_reply_line, no_interpreter_found, no_python_error, parse_probe, pip_args, pip_outcome,
    standard_atmosphere, system_interps, venv_dir, venv_error, venv_python, von_karman,
    ProbeReply, PyInterp, SpawnResult,
};

#[test]
fn defaults_of_the_spec() {
    assert_eq!(standard_atmosphere(), "standard_atmosphere");
    assert_eq!(von_karman(), "von karman");
}

#[test]
fn status_reports_the_interpreter_or_the_error() {
    let interp = PyInterp { bin: "python3".into(), prefix: Vec::new(), label: "python3".into() };
    let ok = check_rocketpy(Ok((interp, "1.2.0".to_string())));
    assert!(ok.available);
    assert_eq!(ok.version.as_deref(), Some("1.2.0"));
    assert_eq!(ok.python.as_deref(), Some("python3"));
    assert!(ok.error.is_none());
    let bad = check_rocketpy(Err("no Python".to_string()));
    assert!(!bad.available);
    assert_eq!(bad.error.as_deref(), Some("no Python"));
    assert!(bad.version.is_none() && bad.python.is_none());
}

#[test]
fn interpreters_in_order() {
    let labels = |v: Vec<PyInterp>| v.into_iter().map(|p| p.label).collect::<Vec<_>>();
    assert_eq!(labels(system_interps(None, false)), vec!["python3", "python3", "python"]);
    assert_eq!(
        labels(system_interps(Some("/opt/py".to_string()), true)),
        vec!["/opt/py", "py -3", "python", "python3", "python"]
    );
    let win = system_interps(None, true);
    assert_eq!(win[0].bin, "py");
    assert_eq!(win[0].prefix, vec!["-3".to_string()]);
}

#[test]
fn reply_lines_and_probes() {
    assert_eq!(json_reply_line("noise\n {\"ok\": true}\nmore\n"), " {\"ok\": true}");
    assert_eq!(json_reply_line("  plain  \n"), "plain");
    let yes = ProbeReply { ok: true, version: Some("1.9".into()), error: None };
    assert_eq!(parse_probe(Some(yes), ""), Ok("1.9".to_string()));
    let yes = ProbeReply { ok: true, version: None, error: None };
    assert_eq!(parse_probe(Some(yes), ""), Ok("unknown".to_string()));
    let no = ProbeReply { ok: false, version: None, error: None };
    assert_eq!(parse_probe(Some(no), ""), Err("rocketpy is not installed".to_string()));
    assert_eq!(parse_probe(None, "a\nModuleNotFoundError"), Err("ModuleNotFoundError".to_string()));
    assert_eq!(parse_probe(None, ""), Err("could not import rocketpy".to_string()));
}

#[test]
fn system_python_checks() {
    let works = SpawnResult::Exited { stdout: "1\n".into(), stderr: String::new(), code: 0 };
    assert_eq!(interp_check(&works, "x"), None);
    let silent = SpawnResult::Exited { stdout: String::new(), stderr: String::new(), code: 0 };
    assert_eq!(interp_check(&silent, "before"), Some("before".to_string()));
    let failed = SpawnResult::Exited { stdout: "1".into(), stderr: "a\nbroken".into(), code: 2 };
    assert_eq!(interp_check(&failed, "before"), Some("broken".to_string()));
    let missing = SpawnResult::Failed("python3: not found".into());
    assert_eq!(interp_check(&missing, "before"), Some("python3: not found".to_string()));
    assert_eq!(
        no_python_error(&no_interpreter_found()),
        "no Python interpreter found. Install Python 3, then reopen the RocketPy builder."
    );
}

#[test]
fn pip_runs() {
    assert_eq!(
        pip_args(None),
        vec!["-m", "pip", "install", "--disable-pip-version-check", "--upgrade", "rocketpy"]
    );
    assert_eq!(pip_args(Some("req.txt"))[5..].to_vec(), vec!["-r", "req.txt"]);
    assert_eq!(pip_outcome("", "", 0), Ok(()));
    assert_eq!(
        pip_outcome("out1\nout2\n  \n", "err1\n", 1),
        Err("pip install rocketpy failed: out2".to_string())
    );
    assert_eq!(pip_outcome("", "e1\ne2\n", 1), Err("pip install rocketpy failed: e2".to_string()));
    assert_eq!(pip_outcome("", " ", 1), Err("pip install rocketpy failed: pip failed".to_string()));
}

#[test]
fn venv_paths_and_errors() {
    assert_eq!(venv_dir("/b"), "/b/.venv");
    assert_eq!(venv_python("/b/.venv", false), "/b/.venv/bin/python");
    assert_eq!(venv_python("/b/.venv", true), "/b/.venv/Scripts/python.exe");
    let p = interp_from_venv("/b/.venv/bin/python", true).unwrap();
    assert_eq!(p.label, "venv (/b/.venv/bin/python)");
    assert_eq!(p.bin, "/b/.venv/bin/python");
    assert!(interp_from_venv("/b/.venv/bin/python", false).is_none());
    assert_eq!(venv_error("o", "e1\ne2"), "could not create Python venv: e2");
    assert_eq!(venv_error("o1\no2", ""), "could not create Python venv: o2");
    assert_eq!(venv_error("", ""), "could not create Python venv: venv failed");
}

#[test]
fn backend_folder_candidates() {
    let c = backend_candidates("/src/app", Some("/work"), Some("/bin"));
    assert_eq!(
        c,
        vec![
            "/src/app/../rocketpy_backend",
            "/work/rocketpy_backend",
            "/work/../rocketpy_backend",
            "/bin/rocketpy_backend",
            "/bin/../rocketpy_backend",
            "/bin/../../rocketpy_backend",
        ]
    );
    assert_eq!(backend_candidates("/s", None, None), vec!["/s/../rocketpy_backend"]);
    assert_eq!(choose_backend(&c, &[false, false, true, false, true, false]), "/work/../rocketpy_backend");
    assert_eq!(choose_backend(&c, &[false; 6]), "/src/app/../rocketpy_backend");
}

use fauxrrt::rocketpy::{ensure_step, EnsureEvent, EnsureOutcome, EnsureStage};

fn next(stage: EnsureStage, n: usize, event: EnsureEvent) -> EnsureOutcome {
    ensure_step(stage, n, event)
}

#[test]
fn search_order_for_a_python_with_rocketpy() {
    assert!(matches!(next(EnsureStage::CheckCache, 2, EnsureEvent::Cache(true)), EnsureOutcome::UseCached));
    assert!(matches!(
        next(EnsureStage::CheckCache, 2, EnsureEvent::Cache(false)),
        EnsureOutcome::Continue(EnsureStage::CheckVenv)
    ));
    assert!(matches!(
        next(EnsureStage::CheckVenv, 2, EnsureEvent::VenvPresent(false)),
        EnsureOutcome::Continue(EnsureStage::ProbeSystem(0))
    ));
    assert!(matches!(
        next(EnsureStage::ProbeVenv, 2, EnsureEvent::Probe(Err("x".into()))),
        EnsureOutcome::Continue(EnsureStage::InstallVenv)
    ));
    assert!(matches!(
        next(EnsureStage::InstallVenv, 2, EnsureEvent::Install(true)),
        EnsureOutcome::Continue(EnsureStage::ReprobeVenv)
    ));
    assert!(matches!(
        next(EnsureStage::ReprobeVenv, 2, EnsureEvent::Probe(Err("x".into()))),
        EnsureOutcome::Continue(EnsureStage::ProbeSystem(0))
    ));
    assert!(matches!(
        next(EnsureStage::ProbeSystem(1), 2, EnsureEvent::Probe(Err("x".into()))),
        EnsureOutcome::Continue(EnsureStage::Bootstrap)
    ));
    assert!(matches!(
        next(EnsureStage::CheckVenv, 0, EnsureEvent::VenvPresent(false)),
        EnsureOutcome::Continue(EnsureStage::Bootstrap)
    ));
    match next(EnsureStage::ProbeSystem(0), 2, EnsureEvent::Probe(Ok("1.10".into()))) {
        EnsureOutcome::Found(v) => assert_eq!(v, "1.10"),
        other => panic!("{other:?}"),
    }
    match next(EnsureStage::Bootstrap, 2, EnsureEvent::Bootstrap(Err("no venv".into()))) {
        EnsureOutcome::Failed(e) => assert_eq!(e, "no venv"),
        other => panic!("{other:?}"),
    }
    match next(EnsureStage::ProbeBootstrapped, 2, EnsureEvent::Probe(Err("broken".into()))) {
        EnsureOutcome::Failed(e) => assert_eq!(e, "broken"),
        other => panic!("{other:?}"),
    }
}
