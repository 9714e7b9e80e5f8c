use butler::connection::{decode_yaml_scalar, normalize_url_path, parse_connection_document, validate_connection_host};
use butler::discovery::connection_from_output;
use butler::ood::{display_name, humanize_token, parse_ood_session_record, validate_job_id, validate_relative_ood_path};
use butler::slurm::{
    exact_memory_bytes, memory_request, normalize_gpu_model, parse_gpu_allocations, parse_session_state,
    parse_slurm_duration, parse_slurm_job, MemoryScope,
};
use butler::models::SessionState;

fn chars(s: &str) -> Vec<char> {
    s.chars().collect()
}

fn text(v: Vec<char>) -> String {
    v.into_iter().collect()
}

#[test]
fn double_quoted_yaml_values_are_json_strings() {
    assert_eq!(text(decode_yaml_scalar(&chars(r#" "a\nb" # note"#), 3).unwrap()), "a\nb");
    assert_eq!(text(decode_yaml_scalar(&chars(" 'it''s' "), 1).unwrap()), "it's");
    assert_eq!(text(decode_yaml_scalar(&chars(" ~ "), 1).unwrap()), "");
    assert_eq!(
        decode_yaml_scalar(&chars(" 'open"), 4).unwrap_err(),
        "connection.yml line 4 has an unterminated single-quoted value"
    );
    assert!(decode_yaml_scalar(&chars(r#" "bad \q" "#), 2)
        .unwrap_err()
        .starts_with("connection.yml line 2 has an invalid double-quoted value: "));
}

#[test]
fn connection_documents_take_aliases_and_defaults() {
    let c = parse_connection_document(&chars("Host: node1\nport: 8080\n")).unwrap();
    assert_eq!(c.host, "node1");
    assert_eq!(c.port, 8080);
    assert_eq!(c.password, None);
    assert_eq!(c.protocol, "http");
    assert_eq!(c.path, "/");
    assert!(validate_connection_host(&chars("bad host")).is_err());
    assert_eq!(text(normalize_url_path(&chars("https://x:1/a/b")).unwrap()), "/a/b");
}

#[test]
fn connection_output_must_be_utf8_after_the_marker() {
    let mut output = b"BUTLER_CONNECTION_V1\nhost: n\nport: 1\n".to_vec();
    assert_eq!(connection_from_output(&output).unwrap().host, "n");
    output.push(0xff);
    assert_eq!(connection_from_output(&output).unwrap_err(), "connection.yml is not valid UTF-8");
}

#[test]
fn session_records_are_json_objects() {
    let record = parse_ood_session_record(
        &chars("file-1"),
        br#"{"id":"","job_id":"77","token":"sys/bc_code_server","title":"  "}"#,
    )
    .unwrap();
    assert_eq!(record.id, "file-1");
    assert_eq!(record.cluster_id, "");
    assert_eq!(record.title, None);
    assert!(!record.cache_completed);
    assert!(parse_ood_session_record(&chars("f"), b"[1]").is_err());
    assert!(parse_ood_session_record(&chars("f"), b"{").is_err());
    assert!(parse_ood_session_record(&chars("f"), br#"{"token":"t"}"#).is_err());
}

#[test]
fn tokens_become_readable_names() {
    assert_eq!(text(humanize_token(&chars("sys/bc_code_server"))), "Code Server");
    assert_eq!(text(humanize_token(&chars("dev/ßpecial-app"))), "SSpecial App");
    let record = parse_ood_session_record(
        &chars("f"),
        br#"{"id":"0123456789","job_id":"1","token":"sys/bc_jupyter_lab"}"#,
    )
    .unwrap();
    assert_eq!(display_name(&record), "Jupyter Lab \u{b7} 01234567");
}

#[test]
fn paths_and_job_ids_are_checked() {
    assert!(validate_relative_ood_path("app token", &chars("sys/bc_code_server")).is_ok());
    assert_eq!(
        validate_relative_ood_path("app token", &chars("../etc")).unwrap_err(),
        "The OOD app token is not a safe relative path"
    );
    assert!(validate_relative_ood_path("x", &chars("/abs")).is_err());
    assert!(validate_job_id(&chars("123_4+1")).is_ok());
    assert!(validate_job_id(&chars("1 2")).is_err());
}

#[test]
fn slurm_fields_are_read() {
    assert_eq!(parse_session_state(&chars(" pd ")), SessionState::Pending);
    assert_eq!(parse_session_state(&chars("CG")), SessionState::Cancelling);
    assert_eq!(parse_session_state(&chars("FAILED")), SessionState::Unknown);
    assert_eq!(parse_slurm_duration(&chars("05:06")), Some(306));
    assert_eq!(parse_slurm_duration(&chars("UNLIMITED")), None);
    assert_eq!(parse_slurm_duration(&chars("1:2:3:4")), None);
    assert_eq!(text(normalize_gpu_model(&chars("nvidia_a100_80gb"))), "NVIDIA-A100-80GB");
    let job = parse_slurm_job(&chars("9|RUNNING|n1|2|16|4000M|1:00|N/A|gpu|N/A")).unwrap();
    assert_eq!(job.nodes, Some(2));
    assert_eq!(job.cpus, Some(16));
    assert_eq!(job.time_limit, None);
    assert!(parse_slurm_job(&chars("9|RUNNING")).is_err());
}

#[test]
fn gpu_allocations_are_summed_per_model() {
    let gpus = parse_gpu_allocations(&chars("gres/gpu:a100:2,gres/gpu:1,gres/gpu:a100:1"));
    assert_eq!(gpus.len(), 2);
    assert_eq!(gpus[0].model, None);
    assert_eq!(gpus[0].count, 1);
    assert_eq!(gpus[1].model.as_deref(), Some("A100"));
    assert_eq!(gpus[1].count, 3);
}

#[test]
fn whole_memory_amounts_are_exact() {
    let request = memory_request(&chars(" 64G ")).unwrap();
    assert_eq!(request.scope, MemoryScope::Whole);
    assert_eq!(exact_memory_bytes(&request, None, None), Some(Some(64 << 30)));
    let request = memory_request(&chars("4000")).unwrap();
    assert_eq!(request.unit_power, 2);
    assert_eq!(exact_memory_bytes(&request, None, None), Some(Some(4000 << 20)));
    let request = memory_request(&chars("2Mn")).unwrap();
    assert_eq!(exact_memory_bytes(&request, Some(3), Some(4)), Some(Some(8 << 20)));
    let request = memory_request(&chars("0G")).unwrap();
    assert_eq!(exact_memory_bytes(&request, None, None), Some(None));
    let request = memory_request(&chars("1.5G")).unwrap();
    assert_eq!(exact_memory_bytes(&request, None, None), None);
    let request = memory_request(&chars("9000P")).unwrap();
    assert_eq!(exact_memory_bytes(&request, None, None), None);
    assert!(memory_request(&chars("4X")).is_none());
    assert!(memory_request(&chars("  ")).is_none());
}

use butler::connection::double_quoted_value;
use butler::ood::record_from_json;
use butler::ssh::error_text_detail;

#[test]
fn records_are_built_from_parsed_json() {
    assert_eq!(record_from_json(&chars("f"), Ok(None)).unwrap_err(), "non-object OOD database file f");
    assert_eq!(
        record_from_json(&chars("f"), Err("EOF".to_string())).unwrap_err(),
        "malformed OOD database file f: EOF"
    );
    assert_eq!(record_from_json(&chars("f"), Ok(Some(vec![]))).unwrap_err(), "OOD database file f has no job_id");
}

#[test]
fn double_quoted_values_report_their_line() {
    assert_eq!(text(double_quoted_value(Ok("v".to_string()), 2).unwrap()), "v");
    assert_eq!(
        double_quoted_value(Err("bad".to_string()), 7).unwrap_err(),
        "connection.yml line 7 has an invalid double-quoted value: bad"
    );
}

#[test]
fn decoded_error_text_is_collapsed() {
    assert_eq!(error_text_detail(&chars(" x\n\ny ")), "x y");
}
