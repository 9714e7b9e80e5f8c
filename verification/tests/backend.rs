use butler::backend::{
    backend_status, cancel_invocation, connection_invocation, discover, discovery_invocation,
    session_gone, stale_tunnels, unconfigured_status, DISCOVERY_SCRIPT,
};
use butler::config::ButlerConfig;
use butler::discovery::{list_sessions, parse_discovery_output, select_sessions, CachedSession};
use butler::models::SessionState;
use butler::ssh::SshClient;

fn discovery_output(title: &str, state: &str, extra_job: &str) -> Vec<u8> {
    let record = format!(
        r#"{{"id":"abc-1","cluster_id":"rivanna","job_id":"123","token":"sys/bc_code_server","title":"{title}","cache_completed":false}}"#
    );
    let mut text = String::from("noise\nBUTLER_DISCOVERY_V1\n");
    text.push_str("\u{1e}O\u{1f}abc-1\u{1f}");
    text.push_str(&record);
    text.push_str(&format!(
        "\u{1e}S\u{1f}123|{state}|udc-a1|1|8|64G|2-11:00:00|3-00:00:00|gpu|gres/gpu:a100:1"
    ));
    text.push_str(extra_job);
    text.push('\u{1e}');
    text.into_bytes()
}

fn client() -> (SshClient, ButlerConfig) {
    let mut config = ButlerConfig::default();
    config.ssh.target = "login".to_string();
    config.ssh.multiplex = false;
    (SshClient::new(config.ssh.clone(), "/tmp"), config)
}

#[test]
fn discovery_runs_the_script_with_the_data_root_and_squeue() {
    let (ssh, config) = client();
    let invocation = discovery_invocation(&ssh, &config).unwrap();
    assert_eq!(
        invocation.arguments.last().unwrap(),
        "sh -s -- '~/ondemand/data/sys/dashboard' squeue"
    );
    assert_eq!(invocation.stdin, Some(DISCOVERY_SCRIPT.as_bytes().to_vec()));
}

#[test]
fn discovered_code_server_sessions_are_listed_with_their_jobs() {
    let output = discovery_output("My IDE", "RUNNING", "");
    let cached = discover(&output, &[]).unwrap();
    assert_eq!(cached.len(), 1);
    assert_eq!(cached[0].job.id, "123");
    let sessions = list_sessions(&cached, &vec![Some(64 * 1024 * 1024 * 1024)]);
    assert_eq!(sessions.len(), 1);
    assert_eq!(sessions[0].friendly_name, "My IDE \u{b7} abc-1");
    assert_eq!(sessions[0].state, SessionState::Running);
    assert_eq!(sessions[0].hardware.cpus, Some(8));
    assert_eq!(sessions[0].hardware.gpus[0].model.as_deref(), Some("A100"));
    assert_eq!(sessions[0].runtime.remaining_seconds, Some(2 * 86_400 + 11 * 3_600));
    assert_eq!(sessions[0].runtime.time_limit_seconds, Some(3 * 86_400));
}

#[test]
fn sessions_are_sorted_by_state_then_name() {
    let mut first = discover(&discovery_output("Zeta", "PENDING", ""), &[]).unwrap();
    let second = discover(&discovery_output("Beta", "RUNNING", ""), &[]).unwrap();
    let third = discover(&discovery_output("Alpha", "RUNNING", ""), &[]).unwrap();
    first.extend(second);
    first.extend(third);
    let sessions = list_sessions(&first, &vec![None, None, None]);
    let names: Vec<&str> = sessions.iter().map(|s| s.friendly_name.as_str()).collect();
    assert_eq!(names, vec!["Alpha \u{b7} abc-1", "Beta \u{b7} abc-1", "Zeta \u{b7} abc-1"]);
}

#[test]
fn app_tokens_filter_the_sessions() {
    let output = discovery_output("IDE", "RUNNING", "");
    let snapshot = parse_discovery_output(&output).unwrap();
    assert!(select_sessions(&snapshot, &["sys/jupyter".to_string()]).is_empty());
    assert_eq!(select_sessions(&snapshot, &["sys/bc_code_server".to_string()]).len(), 1);
}

#[test]
fn unknown_records_are_refused() {
    let output = b"BUTLER_DISCOVERY_V1\n\x1eX\x1fdata\x1e".to_vec();
    assert_eq!(discover(&output, &[]).unwrap_err(), "SSH discovery returned an unknown record type");
    assert_eq!(
        discover(b"nothing here", &[]).unwrap_err(),
        "SSH session discovery output did not contain Butler's protocol marker"
    );
}

fn one_session(state: &str) -> CachedSession {
    discover(&discovery_output("IDE", state, ""), &[]).unwrap().remove(0)
}

#[test]
fn only_running_sessions_are_opened() {
    let (ssh, config) = client();
    let pending = one_session("PENDING");
    assert_eq!(
        connection_invocation(&ssh, &config, &pending).unwrap_err(),
        "IDE \u{b7} abc-1 is not running yet; its scheduler state is pending"
    );
    let running = one_session("RUNNING");
    let invocation = connection_invocation(&ssh, &config, &running).unwrap();
    assert_eq!(
        invocation.arguments.last().unwrap(),
        "sh -s -- '~/ondemand/data/sys/dashboard' rivanna sys/bc_code_server abc-1"
    );
}

#[test]
fn cancelling_runs_scancel_on_a_safe_job_id() {
    let (ssh, config) = client();
    let mut cached = one_session("RUNNING");
    let invocation = cancel_invocation(&ssh, &config, &cached).unwrap();
    assert_eq!(invocation.arguments.last().unwrap(), "scancel 123");
    cached.ood.job_id = "123; rm -rf ~".to_string();
    assert_eq!(
        cancel_invocation(&ssh, &config, &cached).unwrap_err(),
        "The scheduler job ID is invalid"
    );
}

#[test]
fn status_reports_the_connection() {
    let (ssh, _) = client();
    let status = backend_status("/c.json", &ssh, Err("down".to_string()), 2);
    assert!(status.configured);
    assert!(!status.connected);
    assert_eq!(status.ssh_target.as_deref(), Some("login"));
    assert_eq!(status.message.as_deref(), Some("down"));
    assert_eq!(status.active_tunnels, 2);
    let status = unconfigured_status("/c.json", "not configured");
    assert!(!status.configured);
    assert_eq!(status.message.as_deref(), Some("not configured"));
    assert_eq!(session_gone("x"), "Session x is no longer active");
}

#[test]
fn stale_tunnels_are_those_of_inactive_sessions() {
    let tunnels = vec!["a".to_string(), "b".to_string(), "c".to_string()];
    let active = vec!["b".to_string()];
    assert_eq!(stale_tunnels(&tunnels, &active), vec!["a".to_string(), "c".to_string()]);
}

use butler::backend::{tunnel_wait_step, TunnelAction, TunnelEvent};

#[test]
fn tunnels_become_ready_or_fail() {
    let (ssh, _) = client();
    assert!(matches!(tunnel_wait_step(&ssh, TunnelEvent::Listening), TunnelAction::Ready));
    assert!(matches!(
        tunnel_wait_step(&ssh, TunnelEvent::NotListening { timed_out: false }),
        TunnelAction::Retry
    ));
    match tunnel_wait_step(&ssh, TunnelEvent::NotListening { timed_out: true }) {
        TunnelAction::Fail { kill, message } => {
            assert!(kill);
            assert_eq!(
                message,
                "SSH opened but the localhost tunnel did not become ready within 5 seconds"
            );
        }
        other => panic!("unexpected {other:?}"),
    }
    match tunnel_wait_step(
        &ssh,
        TunnelEvent::Exited { code: Some(255), stderr: b"bind: Address already in use".to_vec() },
    ) {
        TunnelAction::Fail { kill, message } => {
            assert!(!kill);
            assert_eq!(
                message,
                "SSH tunnel failed with exit status 255: bind: Address already in use."
            );
        }
        other => panic!("unexpected {other:?}"),
    }
    match tunnel_wait_step(&ssh, TunnelEvent::InspectFailed("denied".to_string())) {
        TunnelAction::Fail { kill, message } => {
            assert!(kill);
            assert_eq!(message, "Could not inspect the SSH tunnel process: denied");
        }
        other => panic!("unexpected {other:?}"),
    }
}

#[test]
fn unparsable_records_are_reported_as_ignored() {
    let mut output = discovery_output("IDE", "RUNNING", "");
    output.pop();
    output.extend_from_slice(b"\x1eO\x1fbroken\x1f{not json\x1e");
    let snapshot = parse_discovery_output(&output).unwrap();
    assert_eq!(snapshot.ood_sessions.len(), 1);
    assert_eq!(snapshot.ignored.len(), 1);
    assert!(snapshot.ignored[0].starts_with("malformed OOD database file broken: "));
}
