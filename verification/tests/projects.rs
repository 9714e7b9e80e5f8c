use butler::projects::{ProjectData, ProjectState};

#[test]
fn projects_and_assignments_survive_reload() {
    let mut state = ProjectState::from_data(ProjectData::default());
    let snapshot = state
        .create_project("Research".into(), Some("~/research".into()))
        .unwrap();
    let project_id = snapshot
        .projects
        .iter()
        .find(|project| project.name == "Research")
        .unwrap()
        .id;
    state
        .assign_session("session-a".into(), project_id)
        .unwrap();

    let saved = state.data().clone();
    let reloaded = ProjectState::from_data(saved).snapshot();
    let assigned = reloaded
        .assignments
        .iter()
        .find(|assignment| assignment.session_id == "session-a")
        .map(|assignment| assignment.project_id);
    assert_eq!(assigned, Some(project_id));
    assert!(reloaded.projects.iter().any(|project| project.is_default));
    assert!(reloaded
        .projects
        .iter()
        .any(|project| project.name == "Research"));
}

use butler::models::{Assignment, Project};

fn fresh() -> ProjectState {
    ProjectState::from_data(ProjectData::default())
}

#[test]
fn a_new_store_holds_the_default_project() {
    let snapshot = fresh().snapshot();
    assert_eq!(snapshot.projects.len(), 1);
    assert_eq!(snapshot.projects[0].id, 0);
    assert_eq!(snapshot.projects[0].name, "Unassigned");
    assert!(snapshot.projects[0].is_default);
    assert!(snapshot.assignments.is_empty());
}

#[test]
fn created_projects_get_fresh_ids_and_go_last() {
    let mut state = fresh();
    state.create_project("  Alpha ".into(), Some("  ".into())).unwrap();
    let snapshot = state.create_project("Beta".into(), Some(" ~/b ".into())).unwrap();
    let names: Vec<&str> = snapshot.projects.iter().map(|p| p.name.as_str()).collect();
    assert_eq!(names, vec!["Unassigned", "Alpha", "Beta"]);
    assert_eq!(snapshot.projects[1].id, 1);
    assert_eq!(snapshot.projects[1].remote_path, None);
    assert_eq!(snapshot.projects[2].id, 2);
    assert_eq!(snapshot.projects[2].remote_path.as_deref(), Some("~/b"));
    assert_eq!(snapshot.projects[2].sort_order, 2);
    assert_eq!(state.data().next_project_id, 3);
}

#[test]
fn project_names_are_checked() {
    let mut state = fresh();
    assert_eq!(state.create_project("   ".into(), None).unwrap_err(), "Project name cannot be empty");
    assert_eq!(
        state.create_project("x".repeat(81), None).unwrap_err(),
        "Project names must be 80 characters or fewer"
    );
    assert!(state.create_project("x".repeat(80), None).is_ok());
    assert_eq!(
        state.create_project("unassigned".into(), None).unwrap_err(),
        "A project named \u{201c}unassigned\u{201d} already exists"
    );
    assert_eq!(
        state.create_project("p".into(), Some("y".repeat(1025))).unwrap_err(),
        "Remote folders must be 1,024 characters or fewer"
    );
}

#[test]
fn updating_renames_and_keeps_its_own_name() {
    let mut state = fresh();
    state.create_project("Alpha".into(), None).unwrap();
    let snapshot = state.update_project(1, "ALPHA".into(), Some("/a".into())).unwrap();
    assert_eq!(snapshot.projects[1].name, "ALPHA");
    assert_eq!(snapshot.projects[1].remote_path.as_deref(), Some("/a"));
    assert_eq!(
        state.update_project(7, "Other".into(), None).unwrap_err(),
        "Project 7 no longer exists"
    );
    assert_eq!(
        state.update_project(1, "Unassigned".into(), None).unwrap_err(),
        "A project named \u{201c}Unassigned\u{201d} already exists"
    );
}

#[test]
fn deleting_a_project_drops_its_assignments() {
    let mut state = fresh();
    state.create_project("Alpha".into(), None).unwrap();
    state.create_project("Beta".into(), None).unwrap();
    state.assign_session("s1".into(), 1).unwrap();
    state.assign_session("s2".into(), 2).unwrap();
    let snapshot = state.delete_project(1).unwrap();
    assert_eq!(snapshot.projects.len(), 2);
    assert_eq!(snapshot.assignments.len(), 1);
    assert_eq!(snapshot.assignments[0].session_id, "s2");
    assert_eq!(state.delete_project(0).unwrap_err(), "The default project cannot be deleted");
    assert_eq!(state.delete_project(-3).unwrap_err(), "Project -3 no longer exists");
}

#[test]
fn assigning_to_the_default_project_unassigns() {
    let mut state = fresh();
    state.create_project("Alpha".into(), None).unwrap();
    state.assign_session("  s1 ".into(), 1).unwrap();
    let snapshot = state.assign_session("s1".into(), 1).unwrap();
    assert_eq!(snapshot.assignments.len(), 1);
    assert_eq!(snapshot.assignments[0].session_id, "s1");
    let snapshot = state.assign_session("s1".into(), 0).unwrap();
    assert!(snapshot.assignments.is_empty());
    assert_eq!(state.assign_session(" ".into(), 1).unwrap_err(), "The session ID is invalid");
    assert_eq!(state.assign_session("s".into(), 9).unwrap_err(), "Project 9 no longer exists");
}

fn project(id: i64, name: &str, sort_order: i64, is_default: bool) -> Project {
    Project { id, name: name.to_string(), remote_path: None, sort_order, is_default }
}

#[test]
fn loading_repairs_the_data() {
    let data = ProjectData {
        next_project_id: 0,
        projects: vec![project(5, "Late", 3, true), project(2, "Early", 1, false), project(4, "Tie", 1, false)],
        assignments: vec![
            Assignment { session_id: "a".to_string(), project_id: 2 },
            Assignment { session_id: "b".to_string(), project_id: 0 },
            Assignment { session_id: "c".to_string(), project_id: 9 },
            Assignment { session_id: " ".to_string(), project_id: 2 },
            Assignment { session_id: "a".to_string(), project_id: 4 },
        ],
    };
    let state = ProjectState::from_data(data);
    let snapshot = state.snapshot();
    let ids: Vec<i64> = snapshot.projects.iter().map(|p| p.id).collect();
    assert_eq!(ids, vec![0, 2, 4, 5]);
    let defaults: Vec<bool> = snapshot.projects.iter().map(|p| p.is_default).collect();
    assert_eq!(defaults, vec![true, false, false, false]);
    assert_eq!(snapshot.assignments.len(), 1);
    assert_eq!(snapshot.assignments[0].session_id, "a");
    assert_eq!(snapshot.assignments[0].project_id, 4);
    assert_eq!(state.data().next_project_id, 6);
}

#[test]
fn ids_and_names_stay_distinct() {
    let mut state = fresh();
    state.create_project("A".into(), None).unwrap();
    state.create_project("B".into(), None).unwrap();
    state.delete_project(1).unwrap();
    let snapshot = state.create_project("C".into(), None).unwrap();
    let ids: Vec<i64> = snapshot.projects.iter().map(|p| p.id).collect();
    assert_eq!(ids, vec![0, 2, 3]);
    assert!(state.update_project(3, "b".into(), None).is_err());
    assert_eq!(snapshot.projects.iter().filter(|p| p.is_default).count(), 1);
}
