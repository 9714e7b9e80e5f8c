//! The values that the desktop shell shows: sessions, their hardware and
//! runtime, the backend's status, opened sessions and projects.
use vstd::prelude::*;

verus! {

/// The scheduler state of a session, as the sidebar shows it.
#[derive(Clone, Copy, Debug, PartialEq, Eq, Structural)]
pub enum SessionState {
    Pending,
    Running,
    Cancelling,
    Completed,
    Cancelled,
    Expired,
    Unknown,
}

/// A number of GPUs of one model (`None` when the scheduler names none).
#[derive(Clone, Debug)]
pub struct GpuAllocation {
    pub model: Option<String>,
    pub count: u32,
}

#[derive(Clone, Debug)]
pub struct HardwareAllocation {
    pub cpus: Option<u32>,
    pub memory_bytes: Option<u64>,
    pub gpus: Vec<GpuAllocation>,
    pub partition: Option<String>,
}

#[derive(Clone, Debug)]
pub struct RuntimeInfo {
    pub remaining_seconds: Option<u64>,
    pub time_limit_seconds: Option<u64>,
}

/// One Code Server session as the sidebar lists it.
#[derive(Clone, Debug)]
pub struct Session {
    pub ood_session_id: String,
    pub job_id: String,
    pub friendly_name: String,
    pub project_id: Option<i64>,
    pub project_name: Option<String>,
    pub remote_path: Option<String>,
    pub state: SessionState,
    pub hardware: HardwareAllocation,
    pub runtime: RuntimeInfo,
}

/// What the backend reports of its configuration and connection.
#[derive(Clone, Debug)]
pub struct BackendStatus {
    pub configured: bool,
    pub connected: bool,
    pub config_path: String,
    pub ssh_target: Option<String>,
    pub control_path: Option<String>,
    pub active_tunnels: usize,
    pub message: Option<String>,
}

/// A session opened through a local tunnel.
#[derive(Clone, Debug)]
pub struct OpenSessionResult {
    pub session_id: String,
    pub local_port: u16,
    pub url: String,
    pub remote_host: String,
    pub remote_port: u16,
    pub password: Option<String>,
}

/// A user-defined group of sessions with an optional remote folder.
#[derive(Clone, Debug)]
pub struct Project {
    pub id: i64,
    pub name: String,
    pub remote_path: Option<String>,
    pub sort_order: i64,
    pub is_default: bool,
}

/// The project that a session was assigned to.
#[derive(Clone, Debug)]
pub struct Assignment {
    pub session_id: String,
    pub project_id: i64,
}

/// The projects and the session assignments, as the sidebar receives them.
#[derive(Clone, Debug)]
pub struct ProjectSnapshot {
    pub projects: Vec<Project>,
    pub assignments: Vec<Assignment>,
}

pub open spec fn opt_view(o: Option<String>) -> Option<Seq<char>> {
    match o {
        Some(s) => Some(s@),
        None => None,
    }
}

pub open spec fn gpu_allocation_view(g: GpuAllocation) -> (Option<Seq<char>>, u32) {
    (opt_view(g.model), g.count)
}

pub open spec fn gpu_allocation_views(v: Seq<GpuAllocation>) -> Seq<(Option<Seq<char>>, u32)> {
    v.map_values(|g: GpuAllocation| gpu_allocation_view(g))
}

/// A session as the contracts see it.
pub struct SessionView {
    pub ood_session_id: Seq<char>,
    pub job_id: Seq<char>,
    pub friendly_name: Seq<char>,
    pub project_id: Option<i64>,
    pub project_name: Option<Seq<char>>,
    pub remote_path: Option<Seq<char>>,
    pub state: SessionState,
    pub cpus: Option<u32>,
    pub memory_bytes: Option<u64>,
    pub gpus: Seq<(Option<Seq<char>>, u32)>,
    pub partition: Option<Seq<char>>,
    pub remaining_seconds: Option<u64>,
    pub time_limit_seconds: Option<u64>,
}

pub open spec fn session_view(s: Session) -> SessionView {
    SessionView {
        ood_session_id: s.ood_session_id@,
        job_id: s.job_id@,
        friendly_name: s.friendly_name@,
        project_id: s.project_id,
        project_name: opt_view(s.project_name),
        remote_path: opt_view(s.remote_path),
        state: s.state,
        cpus: s.hardware.cpus,
        memory_bytes: s.hardware.memory_bytes,
        gpus: gpu_allocation_views(s.hardware.gpus@),
        partition: opt_view(s.hardware.partition),
        remaining_seconds: s.runtime.remaining_seconds,
        time_limit_seconds: s.runtime.time_limit_seconds,
    }
}

pub open spec fn session_views(s: Seq<Session>) -> Seq<SessionView> {
    s.map_values(|x: Session| session_view(x))
}

fn copy_text(s: &Option<String>) -> (r: Option<String>)
    ensures
        opt_view(r) == opt_view(*s),
{
    match s {
        Some(t) => Some(t.clone()),
        None => None,
    }
}

/// A copy of a session.
pub fn copy_session(s: &Session) -> (r: Session)
    ensures
        session_view(r) == session_view(*s),
{
    let mut gpus: Vec<GpuAllocation> = Vec::new();
    let mut i: usize = 0;
    while i < s.hardware.gpus.len()
        invariant
            i <= s.hardware.gpus@.len(),
            gpu_allocation_views(gpus@) =~= gpu_allocation_views(s.hardware.gpus@).take(i as int),
        decreases s.hardware.gpus@.len() - i,
    {
        let g = &s.hardware.gpus[i];
        let ghost before = gpus@;
        gpus.push(GpuAllocation { model: copy_text(&g.model), count: g.count });
        assert(gpu_allocation_views(gpus@) =~= gpu_allocation_views(before).push(
            gpu_allocation_view(*g),
        ));
        i = i + 1;
    }
    assert(gpu_allocation_views(s.hardware.gpus@).take(i as int) =~= gpu_allocation_views(
        s.hardware.gpus@,
    ));
    Session {
        ood_session_id: s.ood_session_id.clone(),
        job_id: s.job_id.clone(),
        friendly_name: s.friendly_name.clone(),
        project_id: s.project_id,
        project_name: copy_text(&s.project_name),
        remote_path: copy_text(&s.remote_path),
        state: s.state,
        hardware: HardwareAllocation {
            cpus: s.hardware.cpus,
            memory_bytes: s.hardware.memory_bytes,
            gpus,
            partition: copy_text(&s.hardware.partition),
        },
        runtime: RuntimeInfo {
            remaining_seconds: s.runtime.remaining_seconds,
            time_limit_seconds: s.runtime.time_limit_seconds,
        },
    }
}

} // verus!
