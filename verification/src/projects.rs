//! The project store: user-defined projects that group sessions, and the
//! assignment of sessions to them. Reading and writing the store's file is
//! left to the caller, which hands the loaded data to `ProjectState` and
//! saves `ProjectState::data` after each change.
use vstd::prelude::*;
use crate::models::{opt_view, Assignment, Project, ProjectSnapshot};
use crate::text::{
    chars_equal, chars_of, lemma_trim_idempotent, lower_chars, lower_seq, signed_decimal,
    signed_decimal_chars, string_of, text_around, trim, trim_chars,
};

verus! {

/// The id of the project that unassigned sessions belong to.
pub const DEFAULT_PROJECT_ID: i64 = 0;

/// The longest project name, in characters.
pub const NAME_LIMIT: usize = 80;

/// The longest remote folder, in characters.
pub const PATH_LIMIT: usize = 1024;

/// What the store's file holds: the id that the next project gets, the
/// projects in display order, and the project of each assigned session.
#[derive(Clone, Debug)]
pub struct ProjectData {
    pub next_project_id: i64,
    pub projects: Vec<Project>,
    pub assignments: Vec<Assignment>,
}

/// A project as the contracts see it.
pub struct ProjectView {
    pub id: i64,
    pub name: Seq<char>,
    pub remote_path: Option<Seq<char>>,
    pub sort_order: i64,
    pub is_default: bool,
}

/// The store as the contracts see it.
pub struct ProjectsView {
    pub next_project_id: i64,
    pub projects: Seq<ProjectView>,
    pub assignments: Map<Seq<char>, i64>,
}

pub open spec fn project_view(p: Project) -> ProjectView {
    ProjectView {
        id: p.id,
        name: p.name@,
        remote_path: opt_view(p.remote_path),
        sort_order: p.sort_order,
        is_default: p.is_default,
    }
}

pub open spec fn projects_view(s: Seq<Project>) -> Seq<ProjectView> {
    s.map_values(|p: Project| project_view(p))
}

/// The position of some assignment of session `k`.
pub open spec fn assignment_index(a: Seq<Assignment>, k: Seq<char>) -> int {
    choose|i: int| 0 <= i < a.len() && a[i].session_id@ == k
}

/// The assignments as a map from session id to project id.
pub open spec fn assignment_map(a: Seq<Assignment>) -> Map<Seq<char>, i64> {
    Map::new(
        |k: Seq<char>| exists|i: int| 0 <= i < a.len() && a[i].session_id@ == k,
        |k: Seq<char>| a[assignment_index(a, k)].project_id,
    )
}

pub open spec fn data_view(d: ProjectData) -> ProjectsView {
    ProjectsView {
        next_project_id: d.next_project_id,
        projects: projects_view(d.projects@),
        assignments: assignment_map(d.assignments@),
    }
}

pub open spec fn snapshot_view(s: ProjectSnapshot) -> (Seq<ProjectView>, Map<Seq<char>, i64>) {
    (projects_view(s.projects@), assignment_map(s.assignments@))
}

/// Whether some project has id `id`.
pub open spec fn has_project(ps: Seq<ProjectView>, id: i64) -> bool {
    exists|i: int| 0 <= i < ps.len() && ps[i].id == id
}

/// The display order: by sort order, then by id.
pub open spec fn key_le(a: ProjectView, b: ProjectView) -> bool {
    a.sort_order < b.sort_order || (a.sort_order == b.sort_order && a.id <= b.id)
}

pub open spec fn keys_sorted(ps: Seq<ProjectView>) -> bool {
    forall|i: int, j: int| 0 <= i < j < ps.len() ==> key_le(#[trigger] ps[i], #[trigger] ps[j])
}

/// Two projects with different ids and names that differ ignoring ASCII
/// case.
pub open spec fn distinct_projects(a: ProjectView, b: ProjectView) -> bool {
    a.id != b.id && lower_seq(a.name) != lower_seq(b.name)
}

/// No two projects share an id, or a name ignoring ASCII case. With the
/// store's invariant, the default project is then the only one with id 0
/// and the only one marked default. The store keeps this once it holds;
/// data loaded from a file need not have it.
pub open spec fn consistent_projects(ps: Seq<ProjectView>) -> bool {
    forall|i: int, j: int| 0 <= i < j < ps.len() ==> distinct_projects(#[trigger] ps[i], #[trigger] ps[j])
}

pub open spec fn unique_sessions(a: Seq<Assignment>) -> bool {
    forall|i: int, j: int|
        0 <= i < j < a.len() ==> (#[trigger] a[i]).session_id@ != (#[trigger] a[j]).session_id@
}

/// An assignment worth keeping: of a named session to an existing project
/// other than the default one.
pub open spec fn valid_assignment(a: Assignment, ps: Seq<ProjectView>) -> bool {
    &&& trim(a.session_id@).len() > 0
    &&& a.project_id != DEFAULT_PROJECT_ID
    &&& has_project(ps, a.project_id)
}

/// What every store keeps: the default project is there, and only it is
/// marked default; projects are in display order; the next id is positive
/// and above every id (unless it has reached `i64::MAX`); each session is
/// assigned once, to a project that exists and is not the default one.
pub open spec fn data_wf(d: ProjectData) -> bool {
    let ps = projects_view(d.projects@);
    &&& has_project(ps, DEFAULT_PROJECT_ID)
    &&& forall|i: int| 0 <= i < ps.len() ==> ((#[trigger] ps[i]).is_default <==> ps[i].id == DEFAULT_PROJECT_ID)
    &&& keys_sorted(ps)
    &&& d.next_project_id >= 1
    &&& forall|i: int|
        0 <= i < ps.len() ==> (#[trigger] ps[i]).id < d.next_project_id || d.next_project_id == i64::MAX
    &&& unique_sessions(d.assignments@)
    &&& forall|i: int| 0 <= i < d.assignments@.len() ==> valid_assignment(#[trigger] d.assignments@[i], ps)
}

/// In a store that keeps its invariant and has consistent projects,
/// exactly one project is the default one.
pub proof fn lemma_one_default(d: ProjectData)
    requires
        data_wf(d),
        consistent_projects(projects_view(d.projects@)),
    ensures
        exists|i: int|
            0 <= i < d.projects@.len() && (#[trigger] projects_view(d.projects@)[i]).is_default,
        forall|i: int, j: int|
            0 <= i < d.projects@.len() && 0 <= j < d.projects@.len()
                && (#[trigger] projects_view(d.projects@)[i]).is_default
                && (#[trigger] projects_view(d.projects@)[j]).is_default ==> i == j,
{
    let ps = projects_view(d.projects@);
    let k = choose|k: int| 0 <= k < ps.len() && ps[k].id == DEFAULT_PROJECT_ID;
    assert(ps[k].is_default);
    assert forall|i: int, j: int|
        0 <= i < d.projects@.len() && 0 <= j < d.projects@.len() && (#[trigger] ps[i]).is_default
            && (#[trigger] ps[j]).is_default implies i == j by {
        if i < j {
            assert(distinct_projects(ps[i], ps[j]));
        } else if j < i {
            assert(distinct_projects(ps[j], ps[i]));
        }
    }
}

pub proof fn lemma_assignment_at(a: Seq<Assignment>, i: int)
    requires
        unique_sessions(a),
        0 <= i < a.len(),
    ensures
        assignment_map(a).contains_key(a[i].session_id@),
        assignment_map(a)[a[i].session_id@] == a[i].project_id,
{
    let k = a[i].session_id@;
    assert(exists|j: int| 0 <= j < a.len() && a[j].session_id@ == k);
    let j = assignment_index(a, k);
    if j != i {
        if j < i {
            assert(a[j].session_id@ != a[i].session_id@);
        } else {
            assert(a[i].session_id@ != a[j].session_id@);
        }
    }
}

/// The project that sessions belong to until they are assigned.
pub fn default_project() -> (r: Project)
    ensures
        project_view(r) == (ProjectView {
            id: DEFAULT_PROJECT_ID,
            name: "Unassigned"@,
            remote_path: None,
            sort_order: 0,
            is_default: true,
        }),
{
    Project {
        id: DEFAULT_PROJECT_ID,
        name: "Unassigned".to_string(),
        remote_path: None,
        sort_order: 0,
        is_default: true,
    }
}

impl Default for ProjectData {
    /// A store with the default project alone, no assignments, and 1 as the
    /// next id.
    fn default() -> (r: Self)
        ensures
            r.next_project_id == 1,
            projects_view(r.projects@) == seq![
                ProjectView {
                    id: DEFAULT_PROJECT_ID,
                    name: "Unassigned"@,
                    remote_path: None,
                    sort_order: 0,
                    is_default: true,
                },
            ],
            r.assignments@.len() == 0,
            data_wf(r),
            consistent_projects(projects_view(r.projects@)),
    {
        let mut projects: Vec<Project> = Vec::new();
        projects.push(default_project());
        let r = ProjectData { next_project_id: 1, projects, assignments: Vec::new() };
        assert(projects_view(r.projects@) =~= seq![project_view(r.projects@[0])]);
        assert(has_project(projects_view(r.projects@), DEFAULT_PROJECT_ID)) by {
            assert(projects_view(r.projects@)[0].id == DEFAULT_PROJECT_ID);
        }
        r
    }
}

/// A project name as the store keeps it: trimmed, and refused when empty
/// or longer than 80 characters.
pub open spec fn cleaned_name(name: Seq<char>) -> Result<Seq<char>, Seq<char>> {
    let t = trim(name);
    if t.len() == 0 {
        Err("Project name cannot be empty"@)
    } else if t.len() > NAME_LIMIT {
        Err("Project names must be 80 characters or fewer"@)
    } else {
        Ok(t)
    }
}

/// A remote folder as the store keeps it: trimmed, none when empty, and
/// refused when longer than 1,024 characters.
pub open spec fn cleaned_path(path: Option<Seq<char>>) -> Result<Option<Seq<char>>, Seq<char>> {
    match path {
        None => Ok(None),
        Some(p) => {
            let t = trim(p);
            if t.len() == 0 {
                Ok(None)
            } else if t.len() > PATH_LIMIT {
                Err("Remote folders must be 1,024 characters or fewer"@)
            } else {
                Ok(Some(t))
            }
        },
    }
}

pub fn clean_name(name: &str) -> (r: Result<String, String>)
    ensures
        match cleaned_name(name@) {
            Ok(n) => r matches Ok(s) && s@ == n,
            Err(m) => r matches Err(e) && e@ == m,
        },
{
    let raw = chars_of(name);
    let t = trim_chars(raw.as_slice());
    if t.len() == 0 {
        return Err("Project name cannot be empty".to_string());
    }
    if t.len() > NAME_LIMIT {
        return Err("Project names must be 80 characters or fewer".to_string());
    }
    Ok(string_of(t.as_slice()))
}

pub fn clean_path(path: Option<String>) -> (r: Result<Option<String>, String>)
    ensures
        match cleaned_path(opt_view(path)) {
            Ok(p) => r matches Ok(s) && opt_view(s) == p,
            Err(m) => r matches Err(e) && e@ == m,
        },
{
    match path {
        None => Ok(None),
        Some(p) => {
            let raw = chars_of(p.as_str());
            let t = trim_chars(raw.as_slice());
            if t.len() == 0 {
                Ok(None)
            } else if t.len() > PATH_LIMIT {
                Err("Remote folders must be 1,024 characters or fewer".to_string())
            } else {
                Ok(Some(string_of(t.as_slice())))
            }
        },
    }
}

/// Whether a project other than `except` has `name`, ignoring ASCII case.
pub open spec fn name_taken(ps: Seq<ProjectView>, name: Seq<char>, except: Option<i64>) -> bool {
    exists|i: int|
        0 <= i < ps.len() && Some(ps[i].id) != except && lower_seq(#[trigger] ps[i].name) == lower_seq(name)
}

/// The message for a name that another project has.
pub open spec fn duplicate_name_message(name: Seq<char>) -> Seq<char> {
    "A project named \u{201c}"@ + name + "\u{201d} already exists"@
}

fn same_ignoring_case(a: &str, b: &[char]) -> (r: bool)
    ensures
        r == (lower_seq(a@) == lower_seq(b@)),
{
    let ac = chars_of(a);
    let al = lower_chars(ac.as_slice());
    let bl = lower_chars(b);
    let mut i: usize = 0;
    if al.len() != bl.len() {
        return false;
    }
    while i < al.len()
        invariant
            i <= al@.len(),
            al@.len() == bl@.len(),
            al@ == lower_seq(a@),
            bl@ == lower_seq(b@),
            al@.take(i as int) == bl@.take(i as int),
        decreases al@.len() - i,
    {
        if al[i] != bl[i] {
            assert(al@[i as int] != bl@[i as int]);
            assert(al@ != bl@);
            return false;
        }
        assert(al@.take(i + 1) =~= al@.take(i as int).push(al@[i as int]));
        assert(bl@.take(i + 1) =~= bl@.take(i as int).push(bl@[i as int]));
        i = i + 1;
    }
    assert(al@.take(i as int) =~= al@);
    assert(bl@.take(i as int) =~= bl@);
    true
}

/// Refuses `name` when a project other than `except_project_id` has it,
/// ignoring ASCII case.
pub fn ensure_unique_name(projects: &Vec<Project>, name: &str, except_project_id: Option<i64>) -> (r:
    Result<(), String>)
    ensures
        r is Ok <==> !name_taken(projects_view(projects@), name@, except_project_id),
        r matches Err(e) ==> e@ == duplicate_name_message(name@),
{
    let ghost ps = projects_view(projects@);
    let n = chars_of(name);
    let mut i: usize = 0;
    while i < projects.len()
        invariant
            i <= projects@.len(),
            ps == projects_view(projects@),
            n@ == name@,
            forall|j: int|
                0 <= j < i ==> !(Some(ps[j].id) != except_project_id && lower_seq(#[trigger] ps[j].name)
                    == lower_seq(name@)),
        decreases projects@.len() - i,
    {
        let p = &projects[i];
        let other = match except_project_id {
            Some(e) => p.id != e,
            None => true,
        };
        if other && same_ignoring_case(p.name.as_str(), n.as_slice()) {
            assert(ps[i as int].name == p.name@);
            return Err(text_around("A project named \u{201c}", n.as_slice(), "\u{201d} already exists"));
        }
        i = i + 1;
    }
    Ok(())
}

fn copy_project(p: &Project) -> (r: Project)
    ensures
        project_view(r) == project_view(*p),
{
    Project {
        id: p.id,
        name: p.name.clone(),
        remote_path: match &p.remote_path {
            Some(s) => Some(s.clone()),
            None => None,
        },
        sort_order: p.sort_order,
        is_default: p.is_default,
    }
}

fn copy_projects(ps: &Vec<Project>) -> (r: Vec<Project>)
    ensures
        projects_view(r@) == projects_view(ps@),
{
    let mut out: Vec<Project> = Vec::new();
    let mut i: usize = 0;
    while i < ps.len()
        invariant
            i <= ps@.len(),
            projects_view(out@) =~= projects_view(ps@).take(i as int),
        decreases ps@.len() - i,
    {
        let ghost before = out@;
        out.push(copy_project(&ps[i]));
        assert(projects_view(out@) =~= projects_view(before).push(project_view(ps@[i as int])));
        i = i + 1;
    }
    assert(projects_view(ps@).take(i as int) =~= projects_view(ps@));
    out
}

fn copy_assignments(a: &Vec<Assignment>) -> (r: Vec<Assignment>)
    ensures
        r@.len() == a@.len(),
        forall|i: int|
            0 <= i < a@.len() ==> (#[trigger] r@[i]).session_id@ == a@[i].session_id@ && r@[i].project_id
                == a@[i].project_id,
{
    let mut out: Vec<Assignment> = Vec::new();
    let mut i: usize = 0;
    while i < a.len()
        invariant
            i <= a@.len(),
            out@.len() == i,
            forall|j: int|
                0 <= j < i ==> (#[trigger] out@[j]).session_id@ == a@[j].session_id@ && out@[j].project_id
                    == a@[j].project_id,
        decreases a@.len() - i,
    {
        out.push(Assignment { session_id: a[i].session_id.clone(), project_id: a[i].project_id });
        i = i + 1;
    }
    out
}

/// Two lists of assignments with the same sessions at the same places and
/// the same projects give the same map.
pub proof fn lemma_same_assignments(a: Seq<Assignment>, b: Seq<Assignment>)
    requires
        unique_sessions(a),
        a.len() == b.len(),
        forall|i: int|
            0 <= i < a.len() ==> (#[trigger] a[i]).session_id@ == b[i].session_id@ && a[i].project_id
                == b[i].project_id,
    ensures
        unique_sessions(b),
        assignment_map(a) == assignment_map(b),
{
    assert forall|i: int, j: int| 0 <= i < j < b.len() implies (#[trigger] b[i]).session_id@
        != (#[trigger] b[j]).session_id@ by {
        assert(a[i].session_id@ != a[j].session_id@);
    }
    assert forall|k: Seq<char>| #[trigger]
        assignment_map(a).contains_key(k) == assignment_map(b).contains_key(k) by {
        if assignment_map(a).contains_key(k) {
            let i = choose|i: int| 0 <= i < a.len() && a[i].session_id@ == k;
            assert(b[i].session_id@ == k);
        }
        if assignment_map(b).contains_key(k) {
            let i = choose|i: int| 0 <= i < b.len() && b[i].session_id@ == k;
            assert(a[i].session_id@ == k);
        }
    }
    assert forall|k: Seq<char>| assignment_map(a).contains_key(k) implies assignment_map(a)[k]
        == assignment_map(b)[k] by {
        let i = choose|i: int| 0 <= i < a.len() && a[i].session_id@ == k;
        lemma_assignment_at(a, i);
        lemma_assignment_at(b, i);
    }
    assert(assignment_map(a) =~= assignment_map(b));
}

/// The projects and assignments that the sidebar receives.
pub fn snapshot(data: &ProjectData) -> (r: ProjectSnapshot)
    requires
        unique_sessions(data.assignments@),
    ensures
        snapshot_view(r) == (projects_view(data.projects@), assignment_map(data.assignments@)),
{
    let projects = copy_projects(&data.projects);
    let assignments = copy_assignments(&data.assignments);
    proof {
        lemma_same_assignments(data.assignments@, assignments@);
    }
    ProjectSnapshot { projects, assignments }
}

/// `n + 1`, or `n` once it is `i64::MAX`.
pub open spec fn saturating_next(n: i64) -> i64 {
    if n == i64::MAX {
        n
    } else {
        (n + 1) as i64
    }
}

/// The largest sort order, 0 when there is no project.
pub open spec fn max_sort_order(ps: Seq<ProjectView>) -> i64
    decreases ps.len(),
{
    if ps.len() == 0 {
        0
    } else if ps.len() == 1 {
        ps[0].sort_order
    } else {
        let m = max_sort_order(ps.drop_last());
        if ps.last().sort_order > m {
            ps.last().sort_order
        } else {
            m
        }
    }
}

pub proof fn lemma_max_sort_order(ps: Seq<ProjectView>)
    ensures
        forall|i: int| 0 <= i < ps.len() ==> (#[trigger] ps[i]).sort_order <= max_sort_order(ps),
    decreases ps.len(),
{
    if ps.len() > 1 {
        lemma_max_sort_order(ps.drop_last());
        assert forall|i: int| 0 <= i < ps.len() implies (#[trigger] ps[i]).sort_order <= max_sort_order(
            ps,
        ) by {
            if i < ps.len() - 1 {
                assert(ps[i] == ps.drop_last()[i]);
            }
        }
    }
}

/// The id that the next created project gets.
pub open spec fn fresh_id(v: ProjectsView) -> i64 {
    if v.next_project_id > 1 {
        v.next_project_id
    } else {
        1
    }
}

/// The store with a new project `name` at `path` after the others.
pub open spec fn with_new_project(v: ProjectsView, name: Seq<char>, path: Option<Seq<char>>) -> ProjectsView {
    let id = fresh_id(v);
    ProjectsView {
        next_project_id: saturating_next(id),
        projects: v.projects.push(
            ProjectView {
                id,
                name,
                remote_path: path,
                sort_order: saturating_next(max_sort_order(v.projects)),
                is_default: false,
            },
        ),
        assignments: v.assignments,
    }
}

/// What creating a project `name` at `path` does to the store `v`.
pub open spec fn create_outcome(v: ProjectsView, name: Seq<char>, path: Option<Seq<char>>) -> Result<
    ProjectsView,
    Seq<char>,
> {
    match cleaned_name(name) {
        Err(e) => Err(e),
        Ok(n) => match cleaned_path(path) {
            Err(e) => Err(e),
            Ok(p) => if name_taken(v.projects, n, None) {
                Err(duplicate_name_message(n))
            } else {
                Ok(with_new_project(v, n, p))
            },
        },
    }
}

/// The message for a project that is not in the store.
pub open spec fn missing_project_message(id: i64) -> Seq<char> {
    "Project "@ + signed_decimal(id as int) + " no longer exists"@
}

fn missing_project(id: i64) -> (r: String)
    ensures
        r@ == missing_project_message(id),
{
    let digits = signed_decimal_chars(id);
    text_around("Project ", digits.as_slice(), " no longer exists")
}

/// The position of the first project with id `id`, or -1.
pub open spec fn first_project(ps: Seq<ProjectView>, id: i64) -> int
    decreases ps.len(),
{
    if ps.len() == 0 {
        -1
    } else if ps[0].id == id {
        0
    } else {
        let r = first_project(ps.drop_first(), id);
        if r < 0 {
            -1
        } else {
            r + 1
        }
    }
}

pub proof fn lemma_first_project(ps: Seq<ProjectView>, id: i64, i: int)
    requires
        0 <= i <= ps.len(),
        forall|j: int| 0 <= j < i ==> (#[trigger] ps[j]).id != id,
        i == ps.len() || ps[i].id == id,
    ensures
        first_project(ps, id) == (if i == ps.len() {
            -1
        } else {
            i
        }),
    decreases i,
{
    if i > 0 {
        assert forall|j: int| 0 <= j < i - 1 implies (#[trigger] ps.drop_first()[j]).id != id by {
            assert(ps.drop_first()[j] == ps[j + 1]);
        }
        if i < ps.len() {
            assert(ps.drop_first()[i - 1] == ps[i]);
        }
        lemma_first_project(ps.drop_first(), id, i - 1);
    }
}

/// The store with the first project `id` renamed to `name` and moved to
/// `path`.
pub open spec fn with_updated_project(
    v: ProjectsView,
    i: int,
    name: Seq<char>,
    path: Option<Seq<char>>,
) -> ProjectsView {
    let p = v.projects[i];
    ProjectsView {
        next_project_id: v.next_project_id,
        projects: v.projects.update(
            i,
            ProjectView {
                id: p.id,
                name,
                remote_path: path,
                sort_order: p.sort_order,
                is_default: p.is_default,
            },
        ),
        assignments: v.assignments,
    }
}

/// What renaming project `id` to `name` at `path` does to the store `v`.
pub open spec fn update_outcome(v: ProjectsView, id: i64, name: Seq<char>, path: Option<Seq<char>>) -> Result<
    ProjectsView,
    Seq<char>,
> {
    match cleaned_name(name) {
        Err(e) => Err(e),
        Ok(n) => match cleaned_path(path) {
            Err(e) => Err(e),
            Ok(p) => if name_taken(v.projects, n, Some(id)) {
                Err(duplicate_name_message(n))
            } else if first_project(v.projects, id) < 0 {
                Err(missing_project_message(id))
            } else {
                Ok(with_updated_project(v, first_project(v.projects, id), n, p))
            },
        },
    }
}

proof fn lemma_first_project_found(ps: Seq<ProjectView>, id: i64)
    requires
        first_project(ps, id) >= 0,
    ensures
        first_project(ps, id) < ps.len(),
        ps[first_project(ps, id)].id == id,
        forall|j: int| 0 <= j < first_project(ps, id) ==> (#[trigger] ps[j]).id != id,
    decreases ps.len(),
{
    if ps.len() > 0 && ps[0].id != id {
        lemma_first_project_found(ps.drop_first(), id);
        assert forall|j: int| 0 <= j < first_project(ps, id) implies (#[trigger] ps[j]).id != id by {
            if j > 0 {
                assert(ps[j] == ps.drop_first()[j - 1]);
            }
        }
    }
}

/// A successful update of project `id` gives the first project with that
/// id the trimmed name and, whatever folder it had, the trimmed folder
/// argument as its folder, none when the argument is none or blank; it
/// keeps that project's id, place and default flag, and leaves the other
/// projects, the assignments and the next id as they were.
pub proof fn lemma_update_sets_folder(v: ProjectsView, id: i64, name: Seq<char>, path: Option<Seq<char>>)
    ensures
        update_outcome(v, id, name, path) matches Ok(w) ==> {
            &&& w.next_project_id == v.next_project_id
            &&& w.assignments == v.assignments
            &&& w.projects.len() == v.projects.len()
            &&& exists|i: int|
                #![trigger v.projects[i]]
                0 <= i < v.projects.len() && v.projects[i].id == id && (forall|j: int|
                    0 <= j < i ==> (#[trigger] v.projects[j]).id != id) && w.projects[i].id == id
                    && w.projects[i].name == trim(name) && w.projects[i].remote_path == (match path {
                    Some(p) => if trim(p).len() > 0 {
                        Some(trim(p))
                    } else {
                        None
                    },
                    None => None,
                }) && w.projects[i].sort_order == v.projects[i].sort_order
                    && w.projects[i].is_default == v.projects[i].is_default && (forall|j: int|
                    0 <= j < v.projects.len() && j != i ==> #[trigger] w.projects[j] == v.projects[j])
        },
{
    if update_outcome(v, id, name, path) is Ok {
        let i = first_project(v.projects, id);
        lemma_first_project_found(v.projects, id);
        let w = with_updated_project(v, i, trim(name), cleaned_path(path)->Ok_0);
        assert(update_outcome(v, id, name, path) == Ok::<ProjectsView, Seq<char>>(w));
        assert(v.projects[i].id == id);
    }
}

fn max_sort(ps: &Vec<Project>) -> (r: i64)
    ensures
        r == max_sort_order(projects_view(ps@)),
{
    let ghost pv = projects_view(ps@);
    if ps.len() == 0 {
        return 0;
    }
    let mut m = ps[0].sort_order;
    let mut i: usize = 1;
    assert(pv.take(1).drop_last() =~= Seq::<ProjectView>::empty());
    while i < ps.len()
        invariant
            1 <= i <= ps@.len(),
            pv == projects_view(ps@),
            m == max_sort_order(pv.take(i as int)),
        decreases ps@.len() - i,
    {
        assert(pv.take(i + 1).drop_last() =~= pv.take(i as int));
        if ps[i].sort_order > m {
            m = ps[i].sort_order;
        }
        i = i + 1;
    }
    assert(pv.take(i as int) =~= pv);
    m
}

/// The position of the first project `id`.
fn position_of(ps: &Vec<Project>, id: i64) -> (r: Option<usize>)
    ensures
        match r {
            Some(i) => i as int == first_project(projects_view(ps@), id),
            None => first_project(projects_view(ps@), id) < 0,
        },
        r matches Some(i) ==> i < ps@.len() && projects_view(ps@)[i as int].id == id,
        r is None <==> !has_project(projects_view(ps@), id),
{
    let ghost pv = projects_view(ps@);
    let mut i: usize = 0;
    while i < ps.len()
        invariant
            i <= ps@.len(),
            pv == projects_view(ps@),
            forall|j: int| 0 <= j < i ==> (#[trigger] pv[j]).id != id,
        decreases ps@.len() - i,
    {
        if ps[i].id == id {
            proof {
                lemma_first_project(pv, id, i as int);
                assert(pv[i as int].id == id);
            }
            return Some(i);
        }
        i = i + 1;
    }
    proof {
        lemma_first_project(pv, id, i as int);
    }
    None
}

/// The assignments without the sessions of project `id`.
pub open spec fn unassigned(m: Map<Seq<char>, i64>, id: i64) -> Map<Seq<char>, i64> {
    Map::new(|k: Seq<char>| m.contains_key(k) && m[k] != id, |k: Seq<char>| m[k])
}

/// The projects other than `id`, in their order.
pub open spec fn without_project(ps: Seq<ProjectView>, id: i64) -> Seq<ProjectView>
    decreases ps.len(),
{
    if ps.len() == 0 {
        ps
    } else {
        let r = without_project(ps.drop_last(), id);
        if ps.last().id == id {
            r
        } else {
            r.push(ps.last())
        }
    }
}

/// The assignments to projects other than `id`, in their order.
pub open spec fn kept_assignments(a: Seq<Assignment>, id: i64) -> Seq<Assignment>
    decreases a.len(),
{
    if a.len() == 0 {
        a
    } else {
        let r = kept_assignments(a.drop_last(), id);
        if a.last().project_id != id {
            r.push(a.last())
        } else {
            r
        }
    }
}

/// What deleting project `id` does to the store `v`: the default project
/// stays, and with a deleted project go the assignments to it.
pub open spec fn delete_outcome(v: ProjectsView, id: i64) -> Result<ProjectsView, Seq<char>> {
    if id == DEFAULT_PROJECT_ID {
        Err("The default project cannot be deleted"@)
    } else if !has_project(v.projects, id) {
        Err(missing_project_message(id))
    } else {
        Ok(
            ProjectsView {
                next_project_id: v.next_project_id,
                projects: without_project(v.projects, id),
                assignments: unassigned(v.assignments, id),
            },
        )
    }
}

/// What assigning session `session` to project `id` does to the store `v`:
/// the session id is trimmed, and assigning to the default project
/// removes the assignment.
pub open spec fn assign_outcome(v: ProjectsView, session: Seq<char>, id: i64) -> Result<
    ProjectsView,
    Seq<char>,
> {
    let s = trim(session);
    if s.len() == 0 {
        Err("The session ID is invalid"@)
    } else if !has_project(v.projects, id) {
        Err(missing_project_message(id))
    } else {
        Ok(
            ProjectsView {
                next_project_id: v.next_project_id,
                projects: v.projects,
                assignments: if id == DEFAULT_PROJECT_ID {
                    v.assignments.remove(s)
                } else {
                    v.assignments.insert(s, id)
                },
            },
        )
    }
}

/// A successful creation adds one project after the others, with the
/// trimmed name, the trimmed folder (none when the argument is none or
/// blank), no default flag, the next id (one when the next id is not yet
/// positive) and a sort order above every other project's (while that is
/// below `i64::MAX`); the next id then moves past it, and the existing
/// projects and the assignments stay as they were. It succeeds exactly
/// when the trimmed name has 1 to 80 characters, the trimmed folder at most
/// 1,024, and no project has the name ignoring ASCII case.
pub proof fn lemma_create_adds_project(v: ProjectsView, name: Seq<char>, path: Option<Seq<char>>)
    ensures
        create_outcome(v, name, path) is Ok <==> (1 <= trim(name).len() <= 80 && (path matches Some(
            p,
        ) ==> trim(p).len() <= 1024) && !(exists|i: int|
            0 <= i < v.projects.len() && lower_seq(#[trigger] v.projects[i].name) == lower_seq(
                trim(name),
            ))),
        create_outcome(v, name, path) matches Ok(w) ==> {
            let id = if v.next_project_id >= 1 {
                v.next_project_id
            } else {
                1
            };
            &&& w.projects.len() == v.projects.len() + 1
            &&& forall|i: int| 0 <= i < v.projects.len() ==> #[trigger] w.projects[i] == v.projects[i]
            &&& w.projects.last().id == id
            &&& w.projects.last().name == trim(name)
            &&& w.projects.last().remote_path == (match path {
                Some(p) => if trim(p).len() > 0 {
                    Some(trim(p))
                } else {
                    None
                },
                None => None,
            })
            &&& !w.projects.last().is_default
            &&& forall|i: int|
                0 <= i < v.projects.len() && v.projects[i].sort_order < i64::MAX ==> (
                #[trigger] v.projects[i]).sort_order < w.projects.last().sort_order
            &&& w.next_project_id == (if id < i64::MAX {
                id + 1
            } else {
                id as int
            })
            &&& w.assignments == v.assignments
        },
{
    lemma_max_sort_order(v.projects);
    let w = with_new_project(v, trim(name), cleaned_path(path)->Ok_0);
    assert forall|i: int| 0 <= i < v.projects.len() implies #[trigger] w.projects[i] == v.projects[i] by {}
}

/// A successful deletion removes every project with the id and keeps the
/// others, in their order, with the assignments to the other projects; the
/// default project cannot be deleted, and deleting a project that is not
/// there is refused.
pub proof fn lemma_delete_removes_project(v: ProjectsView, id: i64)
    ensures
        id == DEFAULT_PROJECT_ID ==> delete_outcome(v, id) == Err::<ProjectsView, Seq<char>>(
            "The default project cannot be deleted"@,
        ),
        id != DEFAULT_PROJECT_ID && !(exists|i: int| 0 <= i < v.projects.len() && v.projects[i].id == id)
            ==> delete_outcome(v, id) is Err,
        delete_outcome(v, id) matches Ok(w) ==> {
            &&& forall|j: int| 0 <= j < w.projects.len() ==> (#[trigger] w.projects[j]).id != id
            &&& forall|j: int|
                0 <= j < w.projects.len() ==> exists|i: int|
                    0 <= i < v.projects.len() && #[trigger] w.projects[j] == v.projects[i]
            &&& forall|x: i64| x != id && has_project(v.projects, x) ==> has_project(w.projects, x)
            &&& forall|k: Seq<char>|
                #[trigger] w.assignments.contains_key(k) <==> (v.assignments.contains_key(k)
                    && v.assignments[k] != id)
            &&& forall|k: Seq<char>|
                #[trigger] w.assignments.contains_key(k) ==> w.assignments[k] == v.assignments[k]
            &&& w.next_project_id == v.next_project_id
        },
{
    lemma_without_project(v.projects, id);
}

/// A successful assignment files the trimmed session id under the project,
/// or takes it out of every project when the project is the default one,
/// and changes nothing else; a blank session id or a project that is not
/// there is refused.
pub proof fn lemma_assign_files_session(v: ProjectsView, session: Seq<char>, id: i64)
    ensures
        assign_outcome(v, session, id) is Ok <==> (trim(session).len() > 0 && exists|i: int|
            0 <= i < v.projects.len() && v.projects[i].id == id),
        assign_outcome(v, session, id) matches Ok(w) ==> {
            &&& id != DEFAULT_PROJECT_ID ==> w.assignments.contains_key(trim(session))
                && w.assignments[trim(session)] == id
            &&& id == DEFAULT_PROJECT_ID ==> !w.assignments.contains_key(trim(session))
            &&& forall|k: Seq<char>|
                k != trim(session) ==> (#[trigger] w.assignments.contains_key(k)
                    == v.assignments.contains_key(k) && w.assignments[k] == v.assignments[k])
            &&& w.projects == v.projects
            &&& w.next_project_id == v.next_project_id
        },
{
}

pub proof fn lemma_assignment_push(a: Seq<Assignment>, x: Assignment)
    requires
        unique_sessions(a),
        forall|i: int| 0 <= i < a.len() ==> (#[trigger] a[i]).session_id@ != x.session_id@,
    ensures
        unique_sessions(a.push(x)),
        assignment_map(a.push(x)) == assignment_map(a).insert(x.session_id@, x.project_id),
{
    let b = a.push(x);
    assert forall|i: int, j: int| 0 <= i < j < b.len() implies (#[trigger] b[i]).session_id@
        != (#[trigger] b[j]).session_id@ by {
        if j < a.len() {
            assert(a[i].session_id@ != a[j].session_id@);
        } else {
            assert(b[i] == a[i]);
        }
    }
    let m = assignment_map(a).insert(x.session_id@, x.project_id);
    assert forall|k: Seq<char>| #[trigger] assignment_map(b).contains_key(k) == m.contains_key(k) by {
        if assignment_map(b).contains_key(k) {
            let i = choose|i: int| 0 <= i < b.len() && b[i].session_id@ == k;
            if i < a.len() {
                assert(a[i].session_id@ == k);
            }
        }
        if assignment_map(a).contains_key(k) {
            let i = choose|i: int| 0 <= i < a.len() && a[i].session_id@ == k;
            assert(b[i].session_id@ == k);
        }
        if k == x.session_id@ {
            assert(b[a.len() as int].session_id@ == k);
        }
    }
    assert forall|k: Seq<char>| assignment_map(b).contains_key(k) implies assignment_map(b)[k] == m[k] by {
        let i = choose|i: int| 0 <= i < b.len() && b[i].session_id@ == k;
        lemma_assignment_at(b, i);
        if i < a.len() {
            assert(b[i] == a[i]);
            lemma_assignment_at(a, i);
        }
    }
    assert(assignment_map(b) =~= m);
}

pub proof fn lemma_assignment_update(a: Seq<Assignment>, i: int, x: Assignment)
    requires
        unique_sessions(a),
        0 <= i < a.len(),
        a[i].session_id@ == x.session_id@,
    ensures
        unique_sessions(a.update(i, x)),
        assignment_map(a.update(i, x)) == assignment_map(a).insert(x.session_id@, x.project_id),
{
    let b = a.update(i, x);
    assert forall|p: int, q: int| 0 <= p < q < b.len() implies (#[trigger] b[p]).session_id@
        != (#[trigger] b[q]).session_id@ by {
        assert(a[p].session_id@ != a[q].session_id@);
    }
    let m = assignment_map(a).insert(x.session_id@, x.project_id);
    assert forall|k: Seq<char>| #[trigger] assignment_map(b).contains_key(k) == m.contains_key(k) by {
        if assignment_map(b).contains_key(k) {
            let j = choose|j: int| 0 <= j < b.len() && b[j].session_id@ == k;
            assert(a[j].session_id@ == k);
        }
        if assignment_map(a).contains_key(k) {
            let j = choose|j: int| 0 <= j < a.len() && a[j].session_id@ == k;
            assert(b[j].session_id@ == k);
        }
        if k == x.session_id@ {
            assert(b[i].session_id@ == k);
        }
    }
    assert forall|k: Seq<char>| assignment_map(b).contains_key(k) implies assignment_map(b)[k] == m[k] by {
        let j = choose|j: int| 0 <= j < b.len() && b[j].session_id@ == k;
        lemma_assignment_at(b, j);
        if j != i {
            lemma_assignment_at(a, j);
        }
    }
    assert(assignment_map(b) =~= m);
}

pub proof fn lemma_assignment_remove(a: Seq<Assignment>, i: int)
    requires
        unique_sessions(a),
        0 <= i < a.len(),
    ensures
        unique_sessions(a.remove(i)),
        assignment_map(a.remove(i)) == assignment_map(a).remove(a[i].session_id@),
{
    let b = a.remove(i);
    assert forall|p: int, q: int| 0 <= p < q < b.len() implies (#[trigger] b[p]).session_id@
        != (#[trigger] b[q]).session_id@ by {
        let p2 = if p < i {
            p
        } else {
            p + 1
        };
        let q2 = if q < i {
            q
        } else {
            q + 1
        };
        assert(b[p] == a[p2] && b[q] == a[q2]);
        assert(a[p2].session_id@ != a[q2].session_id@);
    }
    let m = assignment_map(a).remove(a[i].session_id@);
    assert forall|k: Seq<char>| #[trigger] assignment_map(b).contains_key(k) == m.contains_key(k) by {
        if assignment_map(b).contains_key(k) {
            let j = choose|j: int| 0 <= j < b.len() && b[j].session_id@ == k;
            let j2 = if j < i {
                j
            } else {
                j + 1
            };
            assert(b[j] == a[j2]);
            assert(a[j2].session_id@ != a[i].session_id@) by {
                if j2 < i {
                    assert(a[j2].session_id@ != a[i].session_id@);
                } else {
                    assert(a[i].session_id@ != a[j2].session_id@);
                }
            }
        }
        if m.contains_key(k) {
            let j = choose|j: int| 0 <= j < a.len() && a[j].session_id@ == k;
            assert(j != i);
            let j2 = if j < i {
                j
            } else {
                j - 1
            };
            assert(b[j2] == a[j]);
        }
    }
    assert forall|k: Seq<char>| assignment_map(b).contains_key(k) implies assignment_map(b)[k] == m[k] by {
        let j = choose|j: int| 0 <= j < b.len() && b[j].session_id@ == k;
        let j2 = if j < i {
            j
        } else {
            j + 1
        };
        assert(b[j] == a[j2]);
        lemma_assignment_at(b, j);
        lemma_assignment_at(a, j2);
    }
    assert(assignment_map(b) =~= m);
}

pub proof fn lemma_kept_assignments(a: Seq<Assignment>, id: i64)
    requires
        unique_sessions(a),
    ensures
        unique_sessions(kept_assignments(a, id)),
        assignment_map(kept_assignments(a, id)) == unassigned(assignment_map(a), id),
        forall|j: int|
            0 <= j < kept_assignments(a, id).len() ==> exists|i: int|
                0 <= i < a.len() && #[trigger] kept_assignments(a, id)[j] == a[i] && a[i].project_id != id,
    decreases a.len(),
{
    let k = kept_assignments(a, id);
    if a.len() == 0 {
        assert(assignment_map(k) =~= unassigned(assignment_map(a), id));
    } else {
        let a2 = a.drop_last();
        let x = a.last();
        assert(unique_sessions(a2)) by {
            assert forall|p: int, q: int| 0 <= p < q < a2.len() implies (#[trigger] a2[p]).session_id@
                != (#[trigger] a2[q]).session_id@ by {
                assert(a[p].session_id@ != a[q].session_id@);
            }
        }
        lemma_kept_assignments(a2, id);
        let k2 = kept_assignments(a2, id);
        assert(forall|i: int| 0 <= i < a2.len() ==> (#[trigger] a2[i]).session_id@ != x.session_id@) by {
            assert forall|i: int| 0 <= i < a2.len() implies (#[trigger] a2[i]).session_id@
                != x.session_id@ by {
                assert(a[i].session_id@ != a[a.len() - 1].session_id@);
            }
        }
        lemma_assignment_push(a2, x);
        assert(a2.push(x) =~= a);
        if x.project_id != id {
            assert forall|i: int| 0 <= i < k2.len() implies (#[trigger] k2[i]).session_id@
                != x.session_id@ by {
                let i2 = choose|i2: int| 0 <= i2 < a2.len() && k2[i] == a2[i2] && a2[i2].project_id != id;
                assert(a2[i2].session_id@ != x.session_id@);
            }
            lemma_assignment_push(k2, x);
            assert(assignment_map(k) =~= unassigned(assignment_map(a), id));
            assert forall|j: int| 0 <= j < k.len() implies exists|i: int|
                0 <= i < a.len() && #[trigger] k[j] == a[i] && a[i].project_id != id by {
                if j < k2.len() {
                    let i2 = choose|i2: int|
                        0 <= i2 < a2.len() && k2[j] == a2[i2] && a2[i2].project_id != id;
                    assert(k[j] == a[i2]);
                } else {
                    assert(k[j] == a[a.len() - 1]);
                }
            }
        } else {
            assert(!assignment_map(a2).contains_key(x.session_id@));
            assert(assignment_map(k) =~= unassigned(assignment_map(a), id));
            assert forall|j: int| 0 <= j < k.len() implies exists|i: int|
                0 <= i < a.len() && #[trigger] k[j] == a[i] && a[i].project_id != id by {
                let i2 = choose|i2: int| 0 <= i2 < a2.len() && k2[j] == a2[i2] && a2[i2].project_id != id;
                assert(k[j] == a[i2]);
            }
        }
    }
}

pub proof fn lemma_without_project(ps: Seq<ProjectView>, id: i64)
    ensures
        forall|j: int|
            0 <= j < without_project(ps, id).len() ==> exists|i: int|
                0 <= i < ps.len() && #[trigger] without_project(ps, id)[j] == ps[i],
        forall|j: int|
            0 <= j < without_project(ps, id).len() ==> (#[trigger] without_project(ps, id)[j]).id != id,
        forall|x: i64| has_project(ps, x) && x != id ==> has_project(without_project(ps, id), x),
        keys_sorted(ps) ==> keys_sorted(without_project(ps, id)),
        consistent_projects(ps) ==> consistent_projects(without_project(ps, id)),
    decreases ps.len(),
{
    let w = without_project(ps, id);
    if ps.len() > 0 {
        let p2 = ps.drop_last();
        let last = ps.last();
        lemma_without_project(p2, id);
        let w2 = without_project(p2, id);
        assert forall|j: int| 0 <= j < w.len() implies exists|i: int|
            0 <= i < ps.len() && #[trigger] w[j] == ps[i] by {
            if j < w2.len() {
                let i2 = choose|i2: int| 0 <= i2 < p2.len() && w2[j] == p2[i2];
                assert(w[j] == ps[i2]);
            } else {
                assert(w[j] == ps[ps.len() - 1]);
            }
        }
        assert forall|x: i64| has_project(ps, x) && x != id implies has_project(w, x) by {
            let i = choose|i: int| 0 <= i < ps.len() && ps[i].id == x;
            if i < ps.len() - 1 {
                assert(p2[i].id == x);
                assert(has_project(p2, x));
                assert(has_project(w2, x));
                let j = choose|j: int| 0 <= j < w2.len() && w2[j].id == x;
                if last.id != id {
                    assert(w == w2.push(last));
                } else {
                    assert(w == w2);
                }
                assert(w[j] == w2[j]);
            } else {
                assert(w[w.len() - 1] == last);
            }
        }
        if keys_sorted(ps) {
            assert(keys_sorted(p2)) by {
                assert forall|i: int, j: int| 0 <= i < j < p2.len() implies key_le(
                    #[trigger] p2[i],
                    #[trigger] p2[j],
                ) by {
                    assert(key_le(ps[i], ps[j]));
                }
            }
            assert forall|i: int, j: int| 0 <= i < j < w.len() implies key_le(
                #[trigger] w[i],
                #[trigger] w[j],
            ) by {
                if j < w2.len() {
                    assert(w[i] == w2[i] && w[j] == w2[j]);
                } else {
                    let i2 = choose|i2: int| 0 <= i2 < p2.len() && w2[i] == p2[i2];
                    assert(w[i] == ps[i2]);
                    assert(w[j] == ps[ps.len() - 1]);
                    assert(key_le(ps[i2], ps[ps.len() - 1]));
                }
            }
        }
        if consistent_projects(ps) {
            assert(consistent_projects(p2)) by {
                assert forall|i: int, j: int| 0 <= i < j < p2.len() implies distinct_projects(
                    #[trigger] p2[i],
                    #[trigger] p2[j],
                ) by {
                    assert(distinct_projects(ps[i], ps[j]));
                }
            }
            assert forall|i: int, j: int| 0 <= i < j < w.len() implies distinct_projects(
                #[trigger] w[i],
                #[trigger] w[j],
            ) by {
                if j < w2.len() {
                    assert(w[i] == w2[i] && w[j] == w2[j]);
                } else {
                    let i2 = choose|i2: int| 0 <= i2 < p2.len() && w2[i] == p2[i2];
                    assert(w[i] == ps[i2]);
                    assert(w[j] == ps[ps.len() - 1]);
                    assert(distinct_projects(ps[i2], ps[ps.len() - 1]));
                }
            }
        }
    }
}

fn assignment_position(a: &Vec<Assignment>, key: &[char]) -> (r: Option<usize>)
    ensures
        match r {
            Some(i) => i < a@.len() && a@[i as int].session_id@ == key@,
            None => forall|i: int| 0 <= i < a@.len() ==> (#[trigger] a@[i]).session_id@ != key@,
        },
{
    let mut i: usize = 0;
    while i < a.len()
        invariant
            i <= a@.len(),
            forall|j: int| 0 <= j < i ==> (#[trigger] a@[j]).session_id@ != key@,
        decreases a@.len() - i,
    {
        let k = chars_of(a[i].session_id.as_str());
        if chars_equal(k.as_slice(), key) {
            return Some(i);
        }
        i = i + 1;
    }
    None
}

/// Whether `a` comes strictly before `b` in display order.
pub open spec fn project_before(a: ProjectView, b: ProjectView) -> bool {
    a.sort_order < b.sort_order || (a.sort_order == b.sort_order && a.id < b.id)
}

/// Where `x` goes in `s`: before the first project that it precedes.
pub open spec fn project_position(s: Seq<ProjectView>, x: ProjectView, from: int) -> int
    decreases s.len() - from,
{
    if from < 0 || from >= s.len() {
        s.len() as int
    } else if project_before(x, s[from]) {
        from
    } else {
        project_position(s, x, from + 1)
    }
}

/// `s` sorted stably in display order (an insertion sort), as
/// `sort_by_key` with the key `(sort_order, id)` sorts.
pub open spec fn sorted_projects(s: Seq<ProjectView>) -> Seq<ProjectView>
    decreases s.len(),
{
    if s.len() == 0 {
        s
    } else {
        let r = sorted_projects(s.drop_last());
        r.insert(project_position(r, s.last(), 0), s.last())
    }
}

pub open spec fn default_view() -> ProjectView {
    ProjectView {
        id: DEFAULT_PROJECT_ID,
        name: "Unassigned"@,
        remote_path: None,
        sort_order: 0,
        is_default: true,
    }
}

/// The projects with the default project added when it is missing.
pub open spec fn with_default(ps: Seq<ProjectView>) -> Seq<ProjectView> {
    if has_project(ps, DEFAULT_PROJECT_ID) {
        ps
    } else {
        ps.push(default_view())
    }
}

/// The projects with only the default one marked default.
pub open spec fn marked_default(ps: Seq<ProjectView>) -> Seq<ProjectView> {
    ps.map_values(
        |p: ProjectView|
            ProjectView {
                id: p.id,
                name: p.name,
                remote_path: p.remote_path,
                sort_order: p.sort_order,
                is_default: p.id == DEFAULT_PROJECT_ID,
            },
    )
}

/// The projects of loaded data as the store keeps them.
pub open spec fn repaired_projects(ps: Seq<ProjectView>) -> Seq<ProjectView> {
    sorted_projects(marked_default(with_default(ps)))
}

/// Whether no later assignment is of the same session: of several, the
/// last one counts, as in the file's JSON object.
pub open spec fn last_of_session(a: Seq<Assignment>, i: int) -> bool {
    forall|j: int| i < j < a.len() ==> (#[trigger] a[j]).session_id@ != a[i].session_id@
}

/// The loaded assignments among the first `n` that the store keeps: the
/// valid ones that count.
pub open spec fn loaded_assignments(a: Seq<Assignment>, ps: Seq<ProjectView>, n: int) -> Seq<Assignment>
    decreases n,
{
    if n <= 0 {
        Seq::empty()
    } else {
        let r = loaded_assignments(a, ps, n - 1);
        if valid_assignment(a[n - 1], ps) && last_of_session(a, n - 1) {
            r.push(a[n - 1])
        } else {
            r
        }
    }
}

/// The largest id, 0 when there is no project.
pub open spec fn max_id(ps: Seq<ProjectView>) -> i64
    decreases ps.len(),
{
    if ps.len() == 0 {
        0
    } else if ps.len() == 1 {
        ps[0].id
    } else {
        let m = max_id(ps.drop_last());
        if ps.last().id > m {
            ps.last().id
        } else {
            m
        }
    }
}

pub proof fn lemma_max_id(ps: Seq<ProjectView>)
    ensures
        forall|i: int| 0 <= i < ps.len() ==> (#[trigger] ps[i]).id <= max_id(ps),
        ps.len() > 0 ==> exists|i: int| 0 <= i < ps.len() && (#[trigger] ps[i]).id == max_id(ps),
    decreases ps.len(),
{
    if ps.len() > 1 {
        lemma_max_id(ps.drop_last());
        assert forall|i: int| 0 <= i < ps.len() implies (#[trigger] ps[i]).id <= max_id(ps) by {
            if i < ps.len() - 1 {
                assert(ps[i] == ps.drop_last()[i]);
            }
        }
        if ps.last().id <= max_id(ps.drop_last()) {
            let i = choose|i: int| 0 <= i < ps.len() - 1 && (#[trigger] ps.drop_last()[i]).id == max_id(
                ps.drop_last(),
            );
            assert(ps[i] == ps.drop_last()[i]);
        } else {
            assert(ps[ps.len() - 1].id == max_id(ps));
        }
    } else if ps.len() == 1 {
        assert(ps[0].id == max_id(ps));
    }
}

/// The next id of loaded data: above every id, and at least 1.
pub open spec fn repaired_next(next: i64, ps: Seq<ProjectView>) -> i64 {
    let above = saturating_next(max_id(ps));
    let m = if next > above {
        next
    } else {
        above
    };
    if m > 1 {
        m
    } else {
        1
    }
}

/// What the store holds once it has loaded `d`: the default project added
/// when missing and marked alone as default, the projects in display
/// order, the assignments that count and are valid, and a next id above
/// every id.
pub open spec fn repaired_view(d: ProjectData) -> ProjectsView {
    let ps = repaired_projects(projects_view(d.projects@));
    ProjectsView {
        next_project_id: repaired_next(d.next_project_id, ps),
        projects: ps,
        assignments: assignment_map(loaded_assignments(d.assignments@, ps, d.assignments@.len() as int)),
    }
}

pub proof fn lemma_project_position(s: Seq<ProjectView>, x: ProjectView, from: int, i: int)
    requires
        0 <= from <= i <= s.len(),
        forall|j: int| from <= j < i ==> !project_before(x, #[trigger] s[j]),
        i == s.len() || project_before(x, s[i]),
    ensures
        project_position(s, x, from) == i,
    decreases i - from,
{
    if from < i {
        lemma_project_position(s, x, from + 1, i);
    }
}

pub proof fn lemma_project_position_bounds(s: Seq<ProjectView>, x: ProjectView, from: int)
    requires
        0 <= from <= s.len(),
    ensures
        from <= project_position(s, x, from) <= s.len(),
        forall|k: int| from <= k < project_position(s, x, from) ==> !project_before(x, #[trigger] s[k]),
        project_position(s, x, from) < s.len() ==> project_before(x, s[project_position(s, x, from)]),
    decreases s.len() - from,
{
    if from < s.len() && !project_before(x, s[from]) {
        lemma_project_position_bounds(s, x, from + 1);
    }
}

/// The sorted projects are in display order and are the projects that were
/// sorted, each as often.
pub proof fn lemma_sorted_projects(s: Seq<ProjectView>)
    ensures
        sorted_projects(s).to_multiset() == s.to_multiset(),
        sorted_projects(s).len() == s.len(),
        keys_sorted(sorted_projects(s)),
    decreases s.len(),
{
    broadcast use vstd::seq_lib::to_multiset_insert, vstd::seq_lib::to_multiset_build;

    if s.len() > 0 {
        let t = s.drop_last();
        let x = s.last();
        lemma_sorted_projects(t);
        let r = sorted_projects(t);
        let p = project_position(r, x, 0);
        lemma_project_position_bounds(r, x, 0);
        let q = r.insert(p, x);
        assert(s =~= t.push(x));
        assert(q.to_multiset() == r.to_multiset().insert(x));
        assert forall|i: int, j: int| 0 <= i < j < q.len() implies key_le(
            #[trigger] q[i],
            #[trigger] q[j],
        ) by {
            if j < p {
                assert(q[i] == r[i] && q[j] == r[j]);
            } else if j == p {
                assert(q[i] == r[i]);
                assert(!project_before(x, r[i]));
            } else if i == p {
                assert(q[j] == r[j - 1]);
                assert(project_before(x, r[p]));
                if j - 1 > p {
                    assert(key_le(r[p], r[j - 1]));
                }
            } else if i < p {
                assert(q[i] == r[i] && q[j] == r[j - 1]);
            } else {
                assert(q[i] == r[i - 1] && q[j] == r[j - 1]);
            }
        }
    }
}

/// Sorting projects that are in display order changes nothing.
pub proof fn lemma_sorted_projects_identity(s: Seq<ProjectView>)
    requires
        keys_sorted(s),
    ensures
        sorted_projects(s) == s,
    decreases s.len(),
{
    if s.len() > 0 {
        let t = s.drop_last();
        let x = s.last();
        assert(keys_sorted(t)) by {
            assert forall|i: int, j: int| 0 <= i < j < t.len() implies key_le(
                #[trigger] t[i],
                #[trigger] t[j],
            ) by {
                assert(key_le(s[i], s[j]));
            }
        }
        lemma_sorted_projects_identity(t);
        assert forall|j: int| 0 <= j < t.len() implies !project_before(x, #[trigger] t[j]) by {
            assert(key_le(s[j], s[s.len() - 1]));
        }
        lemma_project_position(t, x, 0, t.len() as int);
        assert(t.insert(t.len() as int, x) =~= s);
    }
}

pub proof fn lemma_loaded_assignments(a: Seq<Assignment>, ps: Seq<ProjectView>, n: int)
    requires
        0 <= n <= a.len(),
    ensures
        unique_sessions(loaded_assignments(a, ps, n)),
        forall|j: int|
            0 <= j < loaded_assignments(a, ps, n).len() ==> exists|i: int|
                0 <= i < n && #[trigger] loaded_assignments(a, ps, n)[j] == a[i] && valid_assignment(
                    a[i],
                    ps,
                ) && last_of_session(a, i),
    decreases n,
{
    if n > 0 {
        lemma_loaded_assignments(a, ps, n - 1);
        let r = loaded_assignments(a, ps, n - 1);
        let l = loaded_assignments(a, ps, n);
        if valid_assignment(a[n - 1], ps) && last_of_session(a, n - 1) {
            assert forall|p: int, q: int| 0 <= p < q < l.len() implies (#[trigger] l[p]).session_id@
                != (#[trigger] l[q]).session_id@ by {
                if q < r.len() {
                    assert(l[p] == r[p] && l[q] == r[q]);
                } else {
                    let i = choose|i: int|
                        0 <= i < n - 1 && r[p] == a[i] && valid_assignment(a[i], ps) && last_of_session(
                            a,
                            i,
                        );
                    assert(l[p] == a[i]);
                    assert(l[q] == a[n - 1]);
                    assert(a[n - 1].session_id@ != a[i].session_id@);
                }
            }
            assert forall|j: int| 0 <= j < l.len() implies exists|i: int|
                0 <= i < n && #[trigger] l[j] == a[i] && valid_assignment(a[i], ps) && last_of_session(
                    a,
                    i,
                ) by {
                if j < r.len() {
                    let i = choose|i: int|
                        0 <= i < n - 1 && r[j] == a[i] && valid_assignment(a[i], ps) && last_of_session(
                            a,
                            i,
                        );
                    assert(l[j] == a[i]);
                } else {
                    assert(l[j] == a[n - 1]);
                }
            }
        }
    }
}

pub proof fn lemma_loaded_assignments_all(a: Seq<Assignment>, ps: Seq<ProjectView>, n: int)
    requires
        0 <= n <= a.len(),
        unique_sessions(a),
        forall|i: int| 0 <= i < a.len() ==> valid_assignment(#[trigger] a[i], ps),
    ensures
        loaded_assignments(a, ps, n) == a.take(n),
    decreases n,
{
    if n > 0 {
        lemma_loaded_assignments_all(a, ps, n - 1);
        assert(last_of_session(a, n - 1)) by {
            assert forall|j: int| n - 1 < j < a.len() implies (#[trigger] a[j]).session_id@
                != a[n - 1].session_id@ by {
                assert(a[n - 1].session_id@ != a[j].session_id@);
            }
        }
        assert(valid_assignment(a[n - 1], ps));
        assert(a.take(n - 1).push(a[n - 1]) =~= a.take(n));
    } else {
        assert(a.take(0) =~= Seq::<Assignment>::empty());
    }
}

/// What is saved and loaded again comes back unchanged: the store's
/// repair of loaded data leaves well-formed data as it is, so projects and
/// assignments survive a reload.
pub proof fn lemma_reload_keeps_store(d: ProjectData)
    requires
        data_wf(d),
    ensures
        repaired_view(d) == data_view(d),
{
    let ps = projects_view(d.projects@);
    let a = d.assignments@;
    assert(with_default(ps) == ps);
    assert(marked_default(ps) =~= ps) by {
        assert forall|i: int| 0 <= i < ps.len() implies #[trigger] marked_default(ps)[i] == ps[i] by {
            assert(ps[i].is_default <==> ps[i].id == DEFAULT_PROJECT_ID);
        }
    }
    lemma_sorted_projects_identity(ps);
    assert(repaired_projects(ps) == ps);
    lemma_loaded_assignments_all(a, ps, a.len() as int);
    assert(a.take(a.len() as int) =~= a);
    lemma_max_id(ps);
    let i = choose|i: int| 0 <= i < ps.len() && (#[trigger] ps[i]).id == max_id(ps);
    assert(ps[i].id < d.next_project_id || d.next_project_id == i64::MAX);
    assert(repaired_next(d.next_project_id, ps) == d.next_project_id);
}

pub proof fn lemma_same_elements<A>(s: Seq<A>, t: Seq<A>)
    requires
        s.to_multiset() == t.to_multiset(),
    ensures
        forall|x: A| s.contains(x) == t.contains(x),
{
    broadcast use vstd::seq_lib::to_multiset_contains;

    assert forall|x: A| s.contains(x) == t.contains(x) by {
        vstd::seq_lib::to_multiset_contains(s, x);
        vstd::seq_lib::to_multiset_contains(t, x);
    }
}

/// The repaired projects of loaded data keep the store's invariant: the
/// default project is there and alone marked default, and they are in
/// display order.
pub proof fn lemma_repaired_projects(ps: Seq<ProjectView>)
    ensures
        has_project(repaired_projects(ps), DEFAULT_PROJECT_ID),
        forall|i: int|
            0 <= i < repaired_projects(ps).len() ==> ((#[trigger] repaired_projects(ps)[i]).is_default
                <==> repaired_projects(ps)[i].id == DEFAULT_PROJECT_ID),
        keys_sorted(repaired_projects(ps)),
{
    let p1 = with_default(ps);
    let p2 = marked_default(p1);
    let p3 = sorted_projects(p2);
    assert(has_project(p1, DEFAULT_PROJECT_ID)) by {
        if !has_project(ps, DEFAULT_PROJECT_ID) {
            assert(p1[ps.len() as int] == default_view());
        }
    }
    let k = choose|k: int| 0 <= k < p1.len() && p1[k].id == DEFAULT_PROJECT_ID;
    assert(p2[k].id == DEFAULT_PROJECT_ID);
    lemma_sorted_projects(p2);
    lemma_same_elements(p3, p2);
    assert(p2.contains(p2[k]));
    assert(p3.contains(p2[k]));
    let m = choose|m: int| 0 <= m < p3.len() && p3[m] == p2[k];
    assert(p3[m].id == DEFAULT_PROJECT_ID);
    assert forall|i: int| 0 <= i < p3.len() implies ((#[trigger] p3[i]).is_default <==> p3[i].id
        == DEFAULT_PROJECT_ID) by {
        assert(p3.contains(p3[i]));
        assert(p2.contains(p3[i]));
        let j = choose|j: int| 0 <= j < p2.len() && p2[j] == p3[i];
        assert(p2[j].is_default <==> p2[j].id == DEFAULT_PROJECT_ID);
    }
}

fn precedes(a: &Project, b: &Project) -> (r: bool)
    ensures
        r == project_before(project_view(*a), project_view(*b)),
{
    a.sort_order < b.sort_order || (a.sort_order == b.sort_order && a.id < b.id)
}

/// Sorts projects stably by sort order, then id.
fn sort_projects(projects: Vec<Project>) -> (r: Vec<Project>)
    ensures
        projects_view(r@) == sorted_projects(projects_view(projects@)),
{
    let ghost input = projects_view(projects@);
    assert(input.len() == projects.len());
    let mut rest = projects;
    let mut out: Vec<Project> = Vec::new();
    let mut i: usize = 0;
    while rest.len() > 0
        invariant
            i <= input.len(),
            input.len() <= usize::MAX,
            rest@.len() + i == input.len(),
            projects_view(rest@) == input.skip(i as int),
            projects_view(out@) == sorted_projects(input.take(i as int)),
        decreases rest@.len(),
    {
        let ghost rest_before = rest@;
        let x = rest.remove(0);
        assert(rest_before[0] == x);
        assert(input.skip(i as int)[0] == project_view(x));
        assert(input.take(i + 1).drop_last() =~= input.take(i as int));
        assert(input.take(i + 1).last() == project_view(x));
        assert(projects_view(rest@) =~= projects_view(rest_before).skip(1));
        assert(projects_view(rest@) =~= input.skip(i + 1));
        let ghost ov = projects_view(out@);
        let mut j: usize = 0;
        while j < out.len() && !precedes(&x, &out[j])
            invariant
                j <= out@.len(),
                ov == projects_view(out@),
                forall|k: int| 0 <= k < j ==> !project_before(project_view(x), #[trigger] ov[k]),
            decreases out@.len() - j,
        {
            j = j + 1;
        }
        proof {
            lemma_project_position(ov, project_view(x), 0, j as int);
        }
        out.insert(j, x);
        assert(projects_view(out@) =~= ov.insert(j as int, project_view(x)));
        i = i + 1;
    }
    assert(input.take(i as int) =~= input);
    out
}

/// The projects with only the default one marked default.
fn mark_default(projects: &Vec<Project>) -> (r: Vec<Project>)
    ensures
        projects_view(r@) == marked_default(projects_view(projects@)),
{
    let ghost pv = projects_view(projects@);
    let mut out: Vec<Project> = Vec::new();
    let mut i: usize = 0;
    while i < projects.len()
        invariant
            i <= projects@.len(),
            pv == projects_view(projects@),
            projects_view(out@) =~= marked_default(pv).take(i as int),
        decreases projects@.len() - i,
    {
        let mut p = copy_project(&projects[i]);
        p.is_default = p.id == DEFAULT_PROJECT_ID;
        let ghost prior = out@;
        out.push(p);
        assert(projects_view(out@) =~= projects_view(prior).push(marked_default(pv)[i as int]));
        i = i + 1;
    }
    assert(marked_default(pv).take(i as int) =~= marked_default(pv));
    out
}

fn max_project_id(ps: &Vec<Project>) -> (r: i64)
    ensures
        r == max_id(projects_view(ps@)),
{
    let ghost pv = projects_view(ps@);
    if ps.len() == 0 {
        return 0;
    }
    let mut m = ps[0].id;
    let mut i: usize = 1;
    assert(pv.take(1).drop_last() =~= Seq::<ProjectView>::empty());
    while i < ps.len()
        invariant
            1 <= i <= ps@.len(),
            pv == projects_view(ps@),
            m == max_id(pv.take(i as int)),
        decreases ps@.len() - i,
    {
        assert(pv.take(i + 1).drop_last() =~= pv.take(i as int));
        if ps[i].id > m {
            m = ps[i].id;
        }
        i = i + 1;
    }
    assert(pv.take(i as int) =~= pv);
    m
}

fn is_last_of_session(a: &Vec<Assignment>, i: usize) -> (r: bool)
    requires
        i < a@.len(),
    ensures
        r == last_of_session(a@, i as int),
{
    let key = chars_of(a[i].session_id.as_str());
    let n = a.len();
    assert(i < n);
    let mut j: usize = i + 1;
    while j < a.len()
        invariant
            i < j <= a@.len(),
            key@ == a@[i as int].session_id@,
            forall|k: int| i < k < j ==> (#[trigger] a@[k]).session_id@ != a@[i as int].session_id@,
        decreases a@.len() - j,
    {
        let other = chars_of(a[j].session_id.as_str());
        if chars_equal(other.as_slice(), key.as_slice()) {
            return false;
        }
        j = j + 1;
    }
    true
}

/// The store, its view, and the invariant that every operation keeps.
#[derive(Clone, Debug)]
pub struct ProjectState {
    data: ProjectData,
}

impl View for ProjectState {
    type V = ProjectsView;

    closed spec fn view(&self) -> ProjectsView {
        data_view(self.data)
    }
}

impl ProjectState {
    /// The invariant of the store; see `data_wf`.
    pub closed spec fn wf(self) -> bool {
        data_wf(self.data)
    }

    /// The data to save to the store's file.
    pub fn data(&self) -> (r: &ProjectData)
        requires
            self.wf(),
        ensures
            data_wf(*r),
            data_view(*r) == self@,
    {
        &self.data
    }

    /// The projects and assignments as the sidebar receives them.
    pub fn snapshot(&self) -> (r: ProjectSnapshot)
        requires
            self.wf(),
        ensures
            snapshot_view(r) == (self@.projects, self@.assignments),
    {
        snapshot(&self.data)
    }

    /// Adds a project after the others, with the next id; its name is
    /// trimmed and must be new, ignoring ASCII case, and its folder is
    /// trimmed and dropped when empty.
    pub fn create_project(&mut self, name: String, remote_path: Option<String>) -> (r: Result<
        ProjectSnapshot,
        String,
    >)
        requires
            old(self).wf(),
        ensures
            final(self).wf(),
            consistent_projects(old(self)@.projects) && old(self)@.next_project_id < i64::MAX
                ==> consistent_projects(final(self)@.projects),
            match create_outcome(old(self)@, name@, opt_view(remote_path)) {
                Ok(v) => final(self)@ == v && (r matches Ok(s) && snapshot_view(s) == (
                    v.projects,
                    v.assignments,
                )),
                Err(m) => final(self)@ == old(self)@ && (r matches Err(e) && e@ == m),
            },
    {
        let name = match clean_name(name.as_str()) {
            Ok(n) => n,
            Err(e) => {
                return Err(e);
            },
        };
        let remote_path = match clean_path(remote_path) {
            Ok(p) => p,
            Err(e) => {
                return Err(e);
            },
        };
        match ensure_unique_name(&self.data.projects, name.as_str(), None) {
            Ok(()) => {},
            Err(e) => {
                return Err(e);
            },
        }
        let ghost before = self.data;
        let ghost ps = projects_view(before.projects@);
        let id = if self.data.next_project_id > 1 {
            self.data.next_project_id
        } else {
            1
        };
        let next = if id == i64::MAX {
            id
        } else {
            id + 1
        };
        let top = max_sort(&self.data.projects);
        let sort_order = if top == i64::MAX {
            top
        } else {
            top + 1
        };
        let project = Project { id, name, remote_path, sort_order, is_default: false };
        let ghost pv = project_view(project);
        self.data.next_project_id = next;
        self.data.projects.push(project);
        proof {
            let nps = projects_view(self.data.projects@);
            assert(nps =~= ps.push(pv));
            lemma_max_sort_order(ps);
            assert forall|i: int, j: int| 0 <= i < j < nps.len() implies key_le(
                #[trigger] nps[i],
                #[trigger] nps[j],
            ) by {
                if j == nps.len() - 1 {
                    assert(nps[i] == ps[i]);
                    assert(ps[i].sort_order <= max_sort_order(ps));
                } else {
                    assert(nps[i] == ps[i] && nps[j] == ps[j]);
                }
            }
            assert forall|id2: i64| has_project(ps, id2) implies has_project(nps, id2) by {
                let k = choose|k: int| 0 <= k < ps.len() && ps[k].id == id2;
                assert(nps[k] == ps[k]);
            }
            assert(forall|i: int| 0 <= i < ps.len() ==> nps[i] == ps[i]);
            assert(forall|i: int|
                0 <= i < self.data.assignments@.len() ==> valid_assignment(
                    #[trigger] self.data.assignments@[i],
                    nps,
                ));
            assert(data_view(self.data) == with_new_project(data_view(before), pv.name, pv.remote_path));
            if consistent_projects(ps) && before.next_project_id < i64::MAX {
                assert forall|i: int, j: int| 0 <= i < j < nps.len() implies distinct_projects(
                    #[trigger] nps[i],
                    #[trigger] nps[j],
                ) by {
                    if j == nps.len() - 1 {
                        assert(nps[i] == ps[i]);
                        assert(ps[i].id < before.next_project_id);
                        assert(!(Some(ps[i].id) != None::<i64> && lower_seq(ps[i].name) == lower_seq(
                            pv.name,
                        )));
                    } else {
                        assert(nps[i] == ps[i] && nps[j] == ps[j]);
                        assert(distinct_projects(ps[i], ps[j]));
                    }
                }
            }
        }
        Ok(snapshot(&self.data))
    }

    /// Renames the first project `project_id` and sets its folder, with the
    /// checks of `create_project`; the name may stay the project's own.
    pub fn update_project(&mut self, project_id: i64, name: String, remote_path: Option<String>) -> (r:
        Result<ProjectSnapshot, String>)
        requires
            old(self).wf(),
        ensures
            final(self).wf(),
            consistent_projects(old(self)@.projects) ==> consistent_projects(final(self)@.projects),
            match update_outcome(old(self)@, project_id, name@, opt_view(remote_path)) {
                Ok(v) => final(self)@ == v && (r matches Ok(s) && snapshot_view(s) == (
                    v.projects,
                    v.assignments,
                )),
                Err(m) => final(self)@ == old(self)@ && (r matches Err(e) && e@ == m),
            },
    {
        let name = match clean_name(name.as_str()) {
            Ok(n) => n,
            Err(e) => {
                return Err(e);
            },
        };
        let remote_path = match clean_path(remote_path) {
            Ok(p) => p,
            Err(e) => {
                return Err(e);
            },
        };
        match ensure_unique_name(&self.data.projects, name.as_str(), Some(project_id)) {
            Ok(()) => {},
            Err(e) => {
                return Err(e);
            },
        }
        let i = match position_of(&self.data.projects, project_id) {
            Some(i) => i,
            None => {
                return Err(missing_project(project_id));
            },
        };
        let ghost before = self.data;
        let ghost ps = projects_view(before.projects@);
        let old_project = &self.data.projects[i];
        let project = Project {
            id: old_project.id,
            name,
            remote_path,
            sort_order: old_project.sort_order,
            is_default: old_project.is_default,
        };
        let ghost pv = project_view(project);
        self.data.projects.set(i, project);
        proof {
            let nps = projects_view(self.data.projects@);
            assert(nps =~= ps.update(i as int, pv));
            assert(forall|j: int| 0 <= j < ps.len() ==> (#[trigger] nps[j]).id == ps[j].id
                && nps[j].sort_order == ps[j].sort_order && nps[j].is_default == ps[j].is_default);
            assert forall|j: int, k: int| 0 <= j < k < nps.len() implies key_le(
                #[trigger] nps[j],
                #[trigger] nps[k],
            ) by {
                assert(key_le(ps[j], ps[k]));
            }
            assert forall|id2: i64| has_project(ps, id2) implies has_project(nps, id2) by {
                let k = choose|k: int| 0 <= k < ps.len() && ps[k].id == id2;
                assert(nps[k].id == id2);
            }
            assert(forall|j: int|
                0 <= j < self.data.assignments@.len() ==> valid_assignment(
                    #[trigger] self.data.assignments@[j],
                    nps,
                ));
            assert(data_view(self.data) == with_updated_project(
                data_view(before),
                i as int,
                pv.name,
                pv.remote_path,
            ));
            if consistent_projects(ps) {
                assert forall|a: int, b: int| 0 <= a < b < nps.len() implies distinct_projects(
                    #[trigger] nps[a],
                    #[trigger] nps[b],
                ) by {
                    if a == i {
                        assert(distinct_projects(ps[a], ps[b]));
                        assert(nps[b] == ps[b]);
                        assert(!(Some(ps[b].id) != Some(project_id) && lower_seq(ps[b].name)
                            == lower_seq(pv.name)));
                    } else if b == i {
                        assert(distinct_projects(ps[a], ps[b]));
                        assert(nps[a] == ps[a]);
                        assert(!(Some(ps[a].id) != Some(project_id) && lower_seq(ps[a].name)
                            == lower_seq(pv.name)));
                    } else {
                        assert(nps[a] == ps[a] && nps[b] == ps[b]);
                        assert(distinct_projects(ps[a], ps[b]));
                    }
                }
            }
        }
        Ok(snapshot(&self.data))
    }

    /// Deletes project `project_id` and the assignments to it; the default
    /// project cannot be deleted.
    pub fn delete_project(&mut self, project_id: i64) -> (r: Result<ProjectSnapshot, String>)
        requires
            old(self).wf(),
        ensures
            final(self).wf(),
            consistent_projects(old(self)@.projects) ==> consistent_projects(final(self)@.projects),
            match delete_outcome(old(self)@, project_id) {
                Ok(v) => final(self)@ == v && (r matches Ok(s) && snapshot_view(s) == (
                    v.projects,
                    v.assignments,
                )),
                Err(m) => final(self)@ == old(self)@ && (r matches Err(e) && e@ == m),
            },
    {
        if project_id == DEFAULT_PROJECT_ID {
            return Err("The default project cannot be deleted".to_string());
        }
        match position_of(&self.data.projects, project_id) {
            Some(_) => {},
            None => {
                return Err(missing_project(project_id));
            },
        }
        let ghost before = self.data;
        let ghost ps = projects_view(before.projects@);
        let ghost a = before.assignments@;
        let mut kept: Vec<Project> = Vec::new();
        let mut i: usize = 0;
        while i < self.data.projects.len()
            invariant
                i <= self.data.projects@.len(),
                self.data == before,
                ps == projects_view(self.data.projects@),
                projects_view(kept@) == without_project(ps.take(i as int), project_id),
            decreases self.data.projects@.len() - i,
        {
            assert(ps.take(i + 1).drop_last() =~= ps.take(i as int));
            if self.data.projects[i].id != project_id {
                let ghost prior = kept@;
                kept.push(copy_project(&self.data.projects[i]));
                assert(projects_view(kept@) =~= projects_view(prior).push(ps[i as int]));
            }
            i = i + 1;
        }
        assert(ps.take(i as int) =~= ps);
        let mut kept_a: Vec<Assignment> = Vec::new();
        let mut j: usize = 0;
        while j < self.data.assignments.len()
            invariant
                j <= self.data.assignments@.len(),
                self.data == before,
                a == self.data.assignments@,
                kept_a@ == kept_assignments(a.take(j as int), project_id),
            decreases self.data.assignments@.len() - j,
        {
            assert(a.take(j + 1).drop_last() =~= a.take(j as int));
            let entry = &self.data.assignments[j];
            if entry.project_id != project_id {
                kept_a.push(
                    Assignment { session_id: entry.session_id.clone(), project_id: entry.project_id },
                );
            }
            j = j + 1;
        }
        assert(a.take(j as int) =~= a);
        self.data.projects = kept;
        self.data.assignments = kept_a;
        proof {
            lemma_without_project(ps, project_id);
            lemma_kept_assignments(a, project_id);
            let nps = without_project(ps, project_id);
            assert(has_project(nps, DEFAULT_PROJECT_ID));
            assert forall|i: int| 0 <= i < nps.len() implies ((#[trigger] nps[i]).is_default
                <==> nps[i].id == DEFAULT_PROJECT_ID) by {
                let i2 = choose|i2: int| 0 <= i2 < ps.len() && nps[i] == ps[i2];
                assert(ps[i2].is_default <==> ps[i2].id == DEFAULT_PROJECT_ID);
            }
            assert forall|i: int| 0 <= i < nps.len() implies (#[trigger] nps[i]).id
                < self.data.next_project_id || self.data.next_project_id == i64::MAX by {
                let i2 = choose|i2: int| 0 <= i2 < ps.len() && nps[i] == ps[i2];
                assert(ps[i2].id < before.next_project_id || before.next_project_id == i64::MAX);
            }
            let na = self.data.assignments@;
            assert forall|i: int| 0 <= i < na.len() implies valid_assignment(#[trigger] na[i], nps) by {
                let i2 = choose|i2: int|
                    0 <= i2 < a.len() && kept_assignments(a, project_id)[i] == a[i2] && a[i2].project_id
                        != project_id;
                assert(valid_assignment(a[i2], ps));
            }
        }
        Ok(snapshot(&self.data))
    }

    /// Assigns session `session_id` (trimmed) to project `project_id`, or
    /// unassigns it when that is the default project.
    pub fn assign_session(&mut self, session_id: String, project_id: i64) -> (r: Result<
        ProjectSnapshot,
        String,
    >)
        requires
            old(self).wf(),
        ensures
            final(self).wf(),
            consistent_projects(old(self)@.projects) ==> consistent_projects(final(self)@.projects),
            match assign_outcome(old(self)@, session_id@, project_id) {
                Ok(v) => final(self)@ == v && (r matches Ok(s) && snapshot_view(s) == (
                    v.projects,
                    v.assignments,
                )),
                Err(m) => final(self)@ == old(self)@ && (r matches Err(e) && e@ == m),
            },
    {
        let raw = chars_of(session_id.as_str());
        let key = trim_chars(raw.as_slice());
        if key.len() == 0 {
            return Err("The session ID is invalid".to_string());
        }
        match position_of(&self.data.projects, project_id) {
            Some(_) => {},
            None => {
                return Err(missing_project(project_id));
            },
        }
        let ghost before = self.data;
        let ghost a = before.assignments@;
        let ghost ps = projects_view(before.projects@);
        proof {
            lemma_trim_idempotent(session_id@);
        }
        let pos = assignment_position(&self.data.assignments, key.as_slice());
        if project_id == DEFAULT_PROJECT_ID {
            match pos {
                Some(i) => {
                    self.data.assignments.remove(i);
                    proof {
                        lemma_assignment_remove(a, i as int);
                    }
                },
                None => {
                    assert(assignment_map(a).remove(key@) =~= assignment_map(a));
                },
            }
            proof {
                let na = self.data.assignments@;
                assert forall|i: int| 0 <= i < na.len() implies valid_assignment(#[trigger] na[i], ps) by {
                    if pos is Some {
                        let p = pos->0 as int;
                        let i2 = if i < p {
                            i
                        } else {
                            i + 1
                        };
                        assert(na[i] == a[i2]);
                    }
                }
            }
        } else {
            let entry = Assignment { session_id: string_of(key.as_slice()), project_id };
            let ghost x = entry;
            match pos {
                Some(i) => {
                    self.data.assignments.set(i, entry);
                    proof {
                        lemma_assignment_update(a, i as int, x);
                    }
                },
                None => {
                    self.data.assignments.push(entry);
                    proof {
                        lemma_assignment_push(a, x);
                    }
                },
            }
            proof {
                let na = self.data.assignments@;
                assert forall|i: int| 0 <= i < na.len() implies valid_assignment(#[trigger] na[i], ps) by {
                    if na[i] != x {
                        assert(na[i] == a[i]);
                    }
                }
            }
        }
        Ok(snapshot(&self.data))
    }

    /// The store for data read from its file (or the defaults where there
    /// was none), repaired as `repaired_view` says.
    pub fn from_data(data: ProjectData) -> (r: Self)
        ensures
            r.wf(),
            r@ == repaired_view(data),
    {
        let ghost ps0 = projects_view(data.projects@);
        let ghost a = data.assignments@;
        let next_project_id = data.next_project_id;
        let assignments = data.assignments;
        let mut projects = data.projects;
        if position_of(&projects, DEFAULT_PROJECT_ID).is_none() {
            let ghost before = projects@;
            projects.push(default_project());
            assert(projects_view(projects@) =~= projects_view(before).push(default_view()));
        }
        assert(projects_view(projects@) == with_default(ps0));
        let marked = mark_default(&projects);
        let sorted = sort_projects(marked);
        let ghost ps = projects_view(sorted@);
        assert(ps == repaired_projects(ps0));
        let mut kept: Vec<Assignment> = Vec::new();
        let mut i: usize = 0;
        while i < assignments.len()
            invariant
                i <= assignments@.len(),
                a == assignments@,
                ps == projects_view(sorted@),
                kept@ == loaded_assignments(a, ps, i as int),
            decreases assignments@.len() - i,
        {
            let entry = &assignments[i];
            let key = chars_of(entry.session_id.as_str());
            let trimmed = trim_chars(key.as_slice());
            let valid = trimmed.len() > 0 && entry.project_id != DEFAULT_PROJECT_ID && position_of(
                &sorted,
                entry.project_id,
            ).is_some();
            if valid && is_last_of_session(&assignments, i) {
                kept.push(
                    Assignment { session_id: entry.session_id.clone(), project_id: entry.project_id },
                );
            }
            i = i + 1;
        }
        let top = max_project_id(&sorted);
        let above = if top == i64::MAX {
            top
        } else {
            top + 1
        };
        let m = if next_project_id > above {
            next_project_id
        } else {
            above
        };
        let next = if m > 1 {
            m
        } else {
            1
        };
        let state = ProjectState {
            data: ProjectData { next_project_id: next, projects: sorted, assignments: kept },
        };
        proof {
            lemma_repaired_projects(ps0);
            lemma_loaded_assignments(a, ps, a.len() as int);
            lemma_max_id(ps);
            let kv = state.data.assignments@;
            assert forall|j: int| 0 <= j < kv.len() implies valid_assignment(#[trigger] kv[j], ps) by {
                let i2 = choose|i2: int|
                    0 <= i2 < a.len() && kv[j] == a[i2] && valid_assignment(a[i2], ps) && last_of_session(
                        a,
                        i2,
                    );
            }
        }
        state
    }
}

} // verus!
