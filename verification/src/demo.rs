//! The cluster service seam and its demonstration implementation, which
//! serves a fixed list of sessions so that the desktop shell can run
//! without a cluster.
use vstd::prelude::*;
use crate::models::{
    copy_session, session_views, GpuAllocation, HardwareAllocation, RuntimeInfo, Session,
    SessionState, SessionView,
};
use crate::text::{chars_equal, chars_of, text_around};

verus! {

/// One gibibyte, in bytes.
pub const GIB: u64 = 1073741824;

/// What the desktop shell asks of a cluster: the sessions to list, and the
/// cancellation of one of them.
pub trait ClusterService {
    fn list_sessions(&self) -> Result<Vec<Session>, String>;

    fn kill_session(&mut self, session_id: &str) -> Result<(), String>;
}

/// The sessions that the demonstration service starts with.
pub open spec fn demo_session_views() -> Seq<SessionView> {
    seq![
        SessionView {
            ood_session_id: "03a8efa7-da5f-436f-919f-617b948c1358"@,
            job_id: "12345678"@,
            friendly_name: "Training"@,
            project_id: Some(1),
            project_name: Some("Research"@),
            remote_path: Some("~/projects/research"@),
            state: SessionState::Running,
            cpus: Some(8),
            memory_bytes: Some((64 * GIB) as u64),
            gpus: seq![(Some("A100"@), 1u32)],
            partition: Some("gpu"@),
            remaining_seconds: Some((2 * 86_400 + 11 * 3_600) as u64),
            time_limit_seconds: Some((3 * 86_400) as u64),
        },
        SessionView {
            ood_session_id: "5fa6ed27-f89d-46ca-a6b7-9e21d324c48f"@,
            job_id: "12345681"@,
            friendly_name: "Evaluation"@,
            project_id: Some(1),
            project_name: Some("Research"@),
            remote_path: Some("~/projects/research/evaluation"@),
            state: SessionState::Pending,
            cpus: Some(4),
            memory_bytes: Some((32 * GIB) as u64),
            gpus: seq![(None, 1u32)],
            partition: Some("gpu"@),
            remaining_seconds: None,
            time_limit_seconds: Some(86_400),
        },
        SessionView {
            ood_session_id: "f56f937c-a385-4d32-a583-c12767077017"@,
            job_id: "12345692"@,
            friendly_name: "Homework 3"@,
            project_id: Some(2),
            project_name: Some("CS 4501"@),
            remote_path: Some("~/courses/cs4501/homework-3"@),
            state: SessionState::Running,
            cpus: Some(8),
            memory_bytes: Some((32 * GIB) as u64),
            gpus: Seq::empty(),
            partition: Some("standard"@),
            remaining_seconds: Some((18 * 3_600 + 42 * 60) as u64),
            time_limit_seconds: Some(86_400),
        },
        SessionView {
            ood_session_id: "b8e40aaf-27b8-42c6-8918-4296d416dbab"@,
            job_id: "12345703"@,
            friendly_name: "Scratch"@,
            project_id: Some(3),
            project_name: Some("Misc"@),
            remote_path: Some("~/scratch"@),
            state: SessionState::Running,
            cpus: Some(4),
            memory_bytes: Some((16 * GIB) as u64),
            gpus: Seq::empty(),
            partition: Some("standard"@),
            remaining_seconds: Some((37 * 60) as u64),
            time_limit_seconds: Some((4 * 3_600) as u64),
        },
    ]
}

fn text(s: &str) -> (r: Option<String>)
    ensures
        r matches Some(t) && t@ == s@,
{
    Some(s.to_string())
}

/// The demonstration sessions: two of a research project, one of a course,
/// and a scratch session.
pub fn demo_sessions() -> (r: Vec<Session>)
    ensures
        session_views(r@) == demo_session_views(),
{
    let mut sessions: Vec<Session> = Vec::new();
    let mut gpus: Vec<GpuAllocation> = Vec::new();
    gpus.push(GpuAllocation { model: text("A100"), count: 1 });
    sessions.push(
        Session {
            ood_session_id: "03a8efa7-da5f-436f-919f-617b948c1358".to_string(),
            job_id: "12345678".to_string(),
            friendly_name: "Training".to_string(),
            project_id: Some(1),
            project_name: text("Research"),
            remote_path: text("~/projects/research"),
            state: SessionState::Running,
            hardware: HardwareAllocation {
                cpus: Some(8),
                memory_bytes: Some(64 * GIB),
                gpus,
                partition: text("gpu"),
            },
            runtime: RuntimeInfo {
                remaining_seconds: Some(2 * 86_400 + 11 * 3_600),
                time_limit_seconds: Some(3 * 86_400),
            },
        },
    );
    let mut gpus: Vec<GpuAllocation> = Vec::new();
    gpus.push(GpuAllocation { model: None, count: 1 });
    sessions.push(
        Session {
            ood_session_id: "5fa6ed27-f89d-46ca-a6b7-9e21d324c48f".to_string(),
            job_id: "12345681".to_string(),
            friendly_name: "Evaluation".to_string(),
            project_id: Some(1),
            project_name: text("Research"),
            remote_path: text("~/projects/research/evaluation"),
            state: SessionState::Pending,
            hardware: HardwareAllocation {
                cpus: Some(4),
                memory_bytes: Some(32 * GIB),
                gpus,
                partition: text("gpu"),
            },
            runtime: RuntimeInfo { remaining_seconds: None, time_limit_seconds: Some(86_400) },
        },
    );
    sessions.push(
        Session {
            ood_session_id: "f56f937c-a385-4d32-a583-c12767077017".to_string(),
            job_id: "12345692".to_string(),
            friendly_name: "Homework 3".to_string(),
            project_id: Some(2),
            project_name: text("CS 4501"),
            remote_path: text("~/courses/cs4501/homework-3"),
            state: SessionState::Running,
            hardware: HardwareAllocation {
                cpus: Some(8),
                memory_bytes: Some(32 * GIB),
                gpus: Vec::new(),
                partition: text("standard"),
            },
            runtime: RuntimeInfo {
                remaining_seconds: Some(18 * 3_600 + 42 * 60),
                time_limit_seconds: Some(86_400),
            },
        },
    );
    sessions.push(
        Session {
            ood_session_id: "b8e40aaf-27b8-42c6-8918-4296d416dbab".to_string(),
            job_id: "12345703".to_string(),
            friendly_name: "Scratch".to_string(),
            project_id: Some(3),
            project_name: text("Misc"),
            remote_path: text("~/scratch"),
            state: SessionState::Running,
            hardware: HardwareAllocation {
                cpus: Some(4),
                memory_bytes: Some(16 * GIB),
                gpus: Vec::new(),
                partition: text("standard"),
            },
            runtime: RuntimeInfo {
                remaining_seconds: Some(37 * 60),
                time_limit_seconds: Some(4 * 3_600),
            },
        },
    );
    let ghost v = session_views(sessions@);
    let ghost d = demo_session_views();
    assert(v[0].gpus =~= d[0].gpus);
    assert(v[1].gpus =~= d[1].gpus);
    assert(v[2].gpus =~= d[2].gpus);
    assert(v[3].gpus =~= d[3].gpus);
    assert(v[0] == d[0]);
    assert(v[1] == d[1]);
    assert(v[2] == d[2]);
    assert(v[3] == d[3]);
    assert(v =~= d);
    sessions
}

/// The position of the first session with id `id`, or -1.
pub open spec fn session_position(s: Seq<SessionView>, id: Seq<char>) -> int
    decreases s.len(),
{
    if s.len() == 0 {
        -1
    } else if s[0].ood_session_id == id {
        0
    } else {
        let r = session_position(s.drop_first(), id);
        if r < 0 {
            -1
        } else {
            r + 1
        }
    }
}

pub proof fn lemma_session_position(s: Seq<SessionView>, id: Seq<char>, i: int)
    requires
        0 <= i <= s.len(),
        forall|j: int| 0 <= j < i ==> (#[trigger] s[j]).ood_session_id != id,
        i == s.len() || s[i].ood_session_id == id,
    ensures
        session_position(s, id) == (if i == s.len() {
            -1
        } else {
            i
        }),
    decreases i,
{
    if i > 0 {
        assert forall|j: int| 0 <= j < i - 1 implies (#[trigger] s.drop_first()[j]).ood_session_id
            != id by {
            assert(s.drop_first()[j] == s[j + 1]);
        }
        if i < s.len() {
            assert(s.drop_first()[i - 1] == s[i]);
        }
        lemma_session_position(s.drop_first(), id, i - 1);
    }
}

/// What cancelling session `id` does to the sessions `s`: the first
/// session with that id goes, or, when there is none, an error.
pub open spec fn kill_outcome(s: Seq<SessionView>, id: Seq<char>) -> Result<Seq<SessionView>, Seq<char>> {
    let i = session_position(s, id);
    if i < 0 {
        Err("Session "@ + id + " is no longer active"@)
    } else {
        Ok(s.remove(i))
    }
}

/// A cluster service that serves the demonstration sessions from memory.
#[derive(Clone, Debug)]
pub struct MockClusterService {
    sessions: Vec<Session>,
}

impl View for MockClusterService {
    type V = Seq<SessionView>;

    closed spec fn view(&self) -> Seq<SessionView> {
        session_views(self.sessions@)
    }
}

impl MockClusterService {
    pub fn new() -> (r: Self)
        ensures
            r@ == demo_session_views(),
    {
        MockClusterService { sessions: demo_sessions() }
    }
}

impl ClusterService for MockClusterService {
    /// The sessions, as they are now.
    fn list_sessions(&self) -> (r: Result<Vec<Session>, String>)
        ensures
            r matches Ok(v) && session_views(v@) == self@,
    {
        let mut out: Vec<Session> = Vec::new();
        let mut i: usize = 0;
        while i < self.sessions.len()
            invariant
                i <= self.sessions@.len(),
                session_views(out@) =~= session_views(self.sessions@).take(i as int),
            decreases self.sessions@.len() - i,
        {
            let ghost before = out@;
            out.push(copy_session(&self.sessions[i]));
            assert(session_views(out@) =~= session_views(before).push(
                session_views(self.sessions@)[i as int],
            ));
            i = i + 1;
        }
        assert(session_views(self.sessions@).take(i as int) =~= session_views(self.sessions@));
        Ok(out)
    }

    /// Cancels the first session with id `session_id`.
    fn kill_session(&mut self, session_id: &str) -> (r: Result<(), String>)
        ensures
            match kill_outcome(old(self)@, session_id@) {
                Ok(s) => r is Ok && final(self)@ == s,
                Err(m) => final(self)@ == old(self)@ && (r matches Err(e) && e@ == m),
            },
    {
        let ghost sv = session_views(self.sessions@);
        let id = chars_of(session_id);
        let mut i: usize = 0;
        while i < self.sessions.len()
            invariant
                i <= self.sessions@.len(),
                sv == session_views(self.sessions@),
                sv == old(self)@,
                id@ == session_id@,
                forall|j: int| 0 <= j < i ==> (#[trigger] sv[j]).ood_session_id != session_id@,
            decreases self.sessions@.len() - i,
        {
            let current = chars_of(self.sessions[i].ood_session_id.as_str());
            if chars_equal(current.as_slice(), id.as_slice()) {
                proof {
                    lemma_session_position(sv, session_id@, i as int);
                }
                let ghost before = self.sessions@;
                self.sessions.remove(i);
                assert(session_views(self.sessions@) =~= sv.remove(i as int));
                return Ok(());
            }
            i = i + 1;
        }
        proof {
            lemma_session_position(sv, session_id@, i as int);
        }
        Err(text_around("Session ", id.as_slice(), " is no longer active"))
    }
}

} // verus!
