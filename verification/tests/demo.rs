use butler::demo::{demo_sessions, ClusterService, MockClusterService, GIB};
use butler::models::SessionState;

#[test]
fn the_demo_lists_four_sessions() {
    let sessions = demo_sessions();
    assert_eq!(sessions.len(), 4);
    assert_eq!(sessions[0].friendly_name, "Training");
    assert_eq!(sessions[0].hardware.memory_bytes, Some(64 * GIB));
    assert_eq!(sessions[0].hardware.gpus[0].model.as_deref(), Some("A100"));
    assert_eq!(sessions[0].runtime.remaining_seconds, Some(212_400));
    assert_eq!(sessions[1].state, SessionState::Pending);
    assert_eq!(sessions[1].hardware.gpus[0].model, None);
    assert_eq!(sessions[3].runtime.remaining_seconds, Some(2_220));
}

#[test]
fn killing_a_session_removes_it() {
    let mut service = MockClusterService::new();
    service.kill_session("f56f937c-a385-4d32-a583-c12767077017").unwrap();
    let sessions = service.list_sessions().unwrap();
    assert_eq!(sessions.len(), 3);
    assert!(sessions.iter().all(|s| s.friendly_name != "Homework 3"));
    assert_eq!(
        service.kill_session("f56f937c-a385-4d32-a583-c12767077017").unwrap_err(),
        "Session f56f937c-a385-4d32-a583-c12767077017 is no longer active"
    );
}
