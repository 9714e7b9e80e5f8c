use butler::ssh::shell_quote;

#[test]
fn shell_quote_leaves_safe_arguments_readable() {
    assert_eq!(shell_quote("job-123_4").unwrap(), "job-123_4");
}

#[test]
fn shell_quote_protects_tilde_spaces_and_single_quotes() {
    assert_eq!(shell_quote("~/ondemand/data").unwrap(), "'~/ondemand/data'");
    assert_eq!(shell_quote("hello world").unwrap(), "'hello world'");
    assert_eq!(shell_quote("it's").unwrap(), "'it'\"'\"'s'");
}

#[test]
fn shell_quote_rejects_newlines() {
    assert!(shell_quote("unsafe\nargument").is_err());
}

use butler::config::SshConfig;
use butler::ssh::{clean_error, command_output, format_process_failure, shell_join, SshClient};

fn config_for(target: &str) -> SshConfig {
    let mut config = SshConfig::default();
    config.target = target.to_string();
    config
}

#[test]
fn shell_join_quotes_each_part_and_separates_them_by_spaces() {
    let parts = vec!["scancel".to_string(), "12 34".to_string(), "".to_string()];
    assert_eq!(shell_join(&parts).unwrap(), "scancel '12 34' ''");
}

#[test]
fn shell_join_reports_the_first_unquotable_part() {
    let parts = vec!["ok".to_string(), "bad\rpart".to_string()];
    assert_eq!(
        shell_join(&parts).unwrap_err(),
        "A remote command argument contains an unsupported control character"
    );
}

#[test]
fn run_builds_the_ssh_command_line() {
    let mut config = config_for("user@login");
    config.multiplex = false;
    config.port = Some(2222);
    let client = SshClient::new(config, "/tmp");
    assert_eq!(client.target(), "user@login");
    assert_eq!(client.control_path(), None);
    let invocation = client.run("squeue", &["--me".to_string()]).unwrap();
    assert_eq!(invocation.program, "ssh");
    assert_eq!(
        invocation.arguments,
        vec![
            "-p",
            "2222",
            "-T",
            "-o",
            "ConnectTimeout=10",
            "-o",
            "ServerAliveInterval=15",
            "-o",
            "ServerAliveCountMax=2",
            "-o",
            "LogLevel=ERROR",
            "user@login",
            "squeue --me",
        ]
    );
    assert_eq!(invocation.stdin, None);
    assert_eq!(invocation.timeout_seconds, 30);
}

#[test]
fn multiplexed_clients_share_a_control_socket() {
    let mut config = config_for("login");
    config.multiplex = true;
    config.control_path = Some("/run/butler.sock".to_string());
    let client = SshClient::new(config, "/tmp");
    assert_eq!(client.control_path(), Some("/run/butler.sock"));
    let arguments = client.base_arguments();
    assert_eq!(
        arguments[arguments.len() - 6..].to_vec(),
        vec![
            "-o",
            "ControlMaster=auto",
            "-o",
            "ControlPersist=600",
            "-o",
            "ControlPath=/run/butler.sock",
        ]
    );

    let mut config = config_for("login");
    config.multiplex = true;
    let client = SshClient::new(config, "/var/tmp");
    let socket = client.control_path().unwrap().to_string();
    assert!(socket.starts_with("/var/tmp"));
    assert!(socket.ends_with("butler-%C.sock"));
}

#[test]
fn run_script_sends_the_script_on_standard_input() {
    let mut config = config_for("login");
    config.multiplex = false;
    let client = SshClient::new(config, "/tmp");
    let invocation = client
        .run_script("echo hi\n", &["~/data".to_string()])
        .unwrap();
    assert_eq!(invocation.arguments.last().unwrap(), "sh -s -- '~/data'");
    assert_eq!(invocation.stdin, Some(b"echo hi\n".to_vec()));
    let check = client.check_connection().unwrap();
    assert_eq!(check.arguments.last().unwrap(), "true");
}

#[test]
fn tunnel_arguments_bracket_ipv6_hosts() {
    let mut config = config_for("login");
    config.multiplex = false;
    let client = SshClient::new(config, "/tmp");
    let arguments = client.tunnel_arguments(40001, "fe80::1", 3450);
    assert_eq!(
        arguments[arguments.len() - 6..].to_vec(),
        vec![
            "-N",
            "-o",
            "ExitOnForwardFailure=yes",
            "-L",
            "127.0.0.1:40001:[fe80::1]:3450",
            "login",
        ]
    );
    let arguments = client.tunnel_arguments(40001, "udc-a1", 3450);
    assert_eq!(arguments[arguments.len() - 2], "127.0.0.1:40001:udc-a1:3450");
}

#[test]
fn failures_quote_the_error_and_give_a_hint() {
    assert_eq!(
        format_process_failure("SSH command", Some(255), b"user@host: Permission denied (publickey).\n"),
        "SSH command failed with exit status 255: user@host: Permission denied (publickey).. SSH authentication failed. Verify your key or agent and complete any required MFA in a terminal once."
    );
    assert_eq!(
        format_process_failure("SSH tunnel", None, b""),
        "SSH tunnel failed with exit status signal."
    );
    assert_eq!(
        format_process_failure("SSH command", Some(-1), b"ssh: Could not resolve hostname x"),
        "SSH command failed with exit status -1: ssh: Could not resolve hostname x. The SSH host could not be resolved; check the VPN and ssh.target."
    );
}

#[test]
fn error_text_is_collapsed_and_shortened() {
    assert_eq!(clean_error(b"  a \n\t b  "), "a b");
    assert_eq!(clean_error(b"bad \xff byte"), "bad \u{fffd} byte");
    let long = vec![b'x'; 900];
    let cleaned = clean_error(&long);
    assert_eq!(cleaned.chars().count(), 801);
    assert!(cleaned.ends_with('\u{2026}'));
}

#[test]
fn command_output_passes_success_through() {
    assert_eq!(command_output(true, Some(0), b"out".to_vec(), b"").unwrap(), b"out".to_vec());
    assert_eq!(
        command_output(false, Some(1), b"out".to_vec(), b"no route to host").unwrap_err(),
        "SSH command failed with exit status 1: no route to host. The cluster is unreachable; check the university VPN."
    );
}

use butler::ssh::{process_wait_step, WaitAction, WaitEvent};

#[test]
fn a_command_that_runs_too_long_is_stopped() {
    assert!(matches!(process_wait_step("ssh", 30, WaitEvent::Exited), WaitAction::Collect));
    assert!(matches!(
        process_wait_step("ssh", 30, WaitEvent::Running { timed_out: false }),
        WaitAction::Sleep
    ));
    match process_wait_step("ssh", 30, WaitEvent::Running { timed_out: true }) {
        WaitAction::Abort(message) => assert_eq!(message, "ssh did not finish within 30 seconds"),
        other => panic!("unexpected {other:?}"),
    }
    match process_wait_step("ssh", 30, WaitEvent::WaitFailed("gone".to_string())) {
        WaitAction::Abort(message) => assert_eq!(message, "Could not wait for ssh: gone"),
        other => panic!("unexpected {other:?}"),
    }
}
