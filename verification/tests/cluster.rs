use butler::connection::parse_connection_document;
use butler::discovery::parse_discovery_output;
use butler::models::SessionState;
use butler::slurm::{exact_memory_bytes, memory_request, parse_gpu_allocations, parse_slurm_duration};

fn chars(s: &str) -> Vec<char> {
    s.chars().collect()
}

#[test]
fn discovery_protocol_parses_ood_and_slurm_records() {
    let output = [
        "BUTLER_DISCOVERY_V1\n",
        "\u{1e}O\u{1f}abc\u{1f}",
        r#"{"id":"abc","cluster_id":"rivanna","job_id":"123","token":"sys/bc_code_server","title":"Code Server","cache_completed":false}"#,
        "\u{1e}S\u{1f}123|RUNNING|udc-a1|1|8|64G|2-11:00:00|3-00:00:00|gpu|gres/gpu:a100:1",
        "\u{1e}",
    ]
    .concat();
    let snapshot = parse_discovery_output(output.as_bytes()).unwrap();
    assert_eq!(snapshot.ood_sessions.len(), 1);
    assert_eq!(snapshot.jobs.len(), 1);
    assert_eq!(snapshot.jobs[0].state, SessionState::Running);
}

#[test]
fn parses_slurm_resource_formats() {
    assert_eq!(parse_slurm_duration(&chars("2-11:04:03")), Some(212_643));
    let request = memory_request(&chars("4Gc")).unwrap();
    assert_eq!(
        exact_memory_bytes(&request, Some(8), Some(1)),
        Some(Some(32 * 1024 * 1024 * 1024))
    );
    let gpus = parse_gpu_allocations(&chars("gres/gpu:a100:2"));
    assert_eq!(gpus[0].model.as_deref(), Some("A100"));
    assert_eq!(gpus[0].count, 2);
}

#[test]
fn parses_connection_yaml_with_quoted_hash() {
    let connection = parse_connection_document(&chars(
        "host: udc-a1\nport: 3450\npassword: 'secret # value'\npath: /code/\n",
    ))
    .unwrap();
    assert_eq!(connection.host, "udc-a1");
    assert_eq!(connection.port, 3450);
    assert_eq!(connection.password.as_deref(), Some("secret # value"));
    assert_eq!(connection.path, "/code/");
}
