use tool_bridge::process::{get_process_detail, kill_kill_verdict, kill_term_verdict};
use tool_bridge::runner::run_command;

#[test]
fn ps_output_yields_the_detail() {
    let base = "\n  1234     1 root     05:33 bash\n";
    let d = get_process_detail(1234, base, Some(" /bin/bash -l \n")).unwrap();
    assert_eq!(d.pid, 1234);
    assert_eq!(d.ppid, Some(1));
    assert_eq!(d.user.as_deref(), Some("root"));
    assert_eq!(d.elapsed.as_deref(), Some("05:33"));
    assert_eq!(d.name.as_deref(), Some("bash"));
    assert_eq!(d.command.as_deref(), Some("/bin/bash -l"));
}

#[test]
fn ps_pid_field_falls_back_to_the_query() {
    let base = "x y root 05:33 bash\n";
    let d = get_process_detail(42, base, None).unwrap();
    assert_eq!(d.pid, 42);
    assert_eq!(d.ppid, None);
    assert_eq!(d.command, None);
}

#[test]
fn blank_args_listing_yields_no_command() {
    let base = "7 1 root 00:01 sh\n";
    let d = get_process_detail(7, base, Some("   \n")).unwrap();
    assert_eq!(d.command, None);
}

#[test]
fn empty_ps_output_is_process_not_found() {
    let e = get_process_detail(1, "", None).unwrap_err();
    assert_eq!(e, "process not found");
    let e2 = get_process_detail(1, " \n  \n", None).unwrap_err();
    assert_eq!(e2, "process not found");
}

#[test]
fn short_ps_line_is_a_parse_error() {
    let e = get_process_detail(1, "1234 1 root 05:33\n", None).unwrap_err();
    assert_eq!(e, "parse ps output failed");
}

#[test]
fn kill_verdicts_tolerate_an_already_gone_process() {
    assert!(kill_term_verdict(true, "").is_ok());
    assert!(kill_term_verdict(false, "kill: 99: No Such Process").is_ok());
    let e = kill_term_verdict(false, " operation not permitted \n").unwrap_err();
    assert_eq!(e, "kill -TERM failed: operation not permitted");
    assert!(kill_kill_verdict(false, "no such process").is_ok());
    let e2 = kill_kill_verdict(false, "denied").unwrap_err();
    assert_eq!(e2, "kill -KILL failed: denied");
}

#[test]
fn command_run_verdict_reports_exit_details() {
    let ok = run_command("lsof", true, Some(0), "OUT".to_string(), "");
    assert_eq!(ok.unwrap(), "OUT");
    let e = run_command("lsof", false, Some(3), String::new(), "boom").unwrap_err();
    assert_eq!(e, "lsof exited 3: boom");
    let e2 = run_command("ss", false, None, String::new(), "killed").unwrap_err();
    assert_eq!(e2, "ss exited -1: killed");
}

#[test]
fn launch_request_is_cleaned_and_validated() {
    let (exe, url) = tool_bridge::launcher::prepare_launch(
        "  \"C:\\tools\\player.exe\"  ",
        " http://example.test/v \n",
    )
    .unwrap();
    assert_eq!(exe, "C:\\tools\\player.exe");
    assert_eq!(url, "http://example.test/v");
    let e = tool_bridge::launcher::prepare_launch("  \"\"  ", "x").unwrap_err();
    assert_eq!(e, "potplayer 可执行文件路径不能为空");
    let e2 = tool_bridge::launcher::prepare_launch("p", "   ").unwrap_err();
    assert_eq!(e2, "url 不能为空");
}

#[test]
fn launch_path_probes_are_judged() {
    let p = "player.exe".to_string();
    assert!(tool_bridge::launcher::launch_path_verdict(&p, true, true).is_ok());
    let e = tool_bridge::launcher::launch_path_verdict(&p, false, false).unwrap_err();
    assert_eq!(e, "potplayer 可执行文件不存在: player.exe");
    let e2 = tool_bridge::launcher::launch_path_verdict(&p, true, false).unwrap_err();
    assert_eq!(e2, "potplayer 路径不是文件: player.exe");
}

#[test]
fn window_url_resolution_defaults_and_classifies() {
    let (ext, url) = tool_bridge::launcher::resolve_window_url(None);
    assert!(!ext);
    assert_eq!(url, "index.html");
    let (ext2, url2) = tool_bridge::launcher::resolve_window_url(Some("./pages/a.html".to_string()));
    assert!(!ext2);
    assert_eq!(url2, "pages/a.html");
    let (ext3, url3) =
        tool_bridge::launcher::resolve_window_url(Some("https://example.test/x".to_string()));
    assert!(ext3);
    assert_eq!(url3, "https://example.test/x");
    let (ext4, _) = tool_bridge::launcher::resolve_window_url(Some("http://e".to_string()));
    assert!(ext4);
}

#[test]
fn windows_record_becomes_a_detail() {
    let d = tool_bridge::process::process_detail_from_record(
        44,
        7,
        "svchost.exe".to_string(),
        Some("  C:\\Windows\\svchost.exe -k x  "),
    );
    assert_eq!(d.pid, 44);
    assert_eq!(d.ppid, Some(7));
    assert_eq!(d.user, None);
    assert_eq!(d.elapsed, None);
    assert_eq!(d.name.as_deref(), Some("svchost.exe"));
    assert_eq!(d.command.as_deref(), Some("C:\\Windows\\svchost.exe -k x"));
    let d2 = tool_bridge::process::process_detail_from_record(1, 0, "x".to_string(), Some("  "));
    assert_eq!(d2.command, None);
}

#[test]
fn taskkill_verdict_reports_the_forced_error() {
    assert!(tool_bridge::process::taskkill_verdict(true, false, "").is_ok());
    assert!(tool_bridge::process::taskkill_verdict(false, true, "").is_ok());
    let e = tool_bridge::process::taskkill_verdict(false, false, " access denied \n").unwrap_err();
    assert_eq!(e, "taskkill failed: access denied");
}
