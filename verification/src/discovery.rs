//! Session discovery: reading the output of the discovery script,
//! matching Open OnDemand records to Slurm jobs, and building the sorted
//! session list; and what opening a session decides before and after it
//! reads `connection.yml`.
use vstd::prelude::*;
use vstd::utf8::{decode_utf8, valid_utf8};
use crate::connection::{connection_of, connection_view, parse_connection_document, ConnectionInfo};
use crate::models::{opt_view, GpuAllocation, HardwareAllocation, RuntimeInfo, Session, SessionState};
use crate::ood::{
    display_name, display_name_of, is_code_server, is_code_server_session, ood_record_of, ood_view,
    parse_ood_session_record, safe_session_paths, session_path_error, string_views,
    validate_session_path_data,
    OodRecordView, OodSessionRecord,
};
use crate::protocol::{
    after_marker, ascii_bytes, ascii_bytes_of, byte_views, copy_bytes, first_index, index_of_byte,
    lossy_text, lossy_utf8, marker_payload, split_bytes, split_on, utf8_text, FIELD_SEPARATOR,
    RECORD_SEPARATOR,
};
use crate::slurm::{
    duration_seconds, gpu_entries, gpu_summary, gpu_view, job_view, opt_u32_view,
    parse_gpu_allocations, parse_slurm_duration, parse_slurm_job, slurm_row, spec_state_label,
    spec_state_rank, state_label, state_rank, SlurmJob, SlurmJobView,
};
use crate::text::{
    chars_equal, chars_less, chars_less_than, chars_of, copy_range, ends_with, ends_with_chars,
    index_in_class, lemma_chars_less_total,
    lemma_chars_less_transitive, push_all, split, string_of, trim, trim_chars, CharClass,
};

verus! {

/// What the discovery script prints: its records follow this line.
pub open spec fn discovery_marker() -> Seq<u8> {
    ascii_bytes("BUTLER_DISCOVERY_V1\n"@)
}

/// What the connection script prints before `connection.yml`.
pub open spec fn connection_marker() -> Seq<u8> {
    ascii_bytes("BUTLER_CONNECTION_V1\n"@)
}

/// The Open OnDemand records and the Slurm jobs that discovery reported.
#[derive(Clone, Debug)]
pub struct DiscoverySnapshot {
    pub ood_sessions: Vec<OodSessionRecord>,
    pub jobs: Vec<SlurmJob>,
    /// The errors of the database records that did not parse and were
    /// ignored, in order.
    pub ignored: Vec<String>,
}

pub open spec fn ood_views(v: Seq<OodSessionRecord>) -> Seq<OodRecordView> {
    v.map_values(|r: OodSessionRecord| ood_view(r))
}

pub open spec fn job_views(v: Seq<SlurmJob>) -> Seq<SlurmJobView> {
    v.map_values(|j: SlurmJob| job_view(j))
}

pub open spec fn prepend_discovery(
    oods: Seq<OodRecordView>,
    jobs: Seq<SlurmJobView>,
    r: Result<(Seq<OodRecordView>, Seq<SlurmJobView>), Seq<char>>,
) -> Result<(Seq<OodRecordView>, Seq<SlurmJobView>), Seq<char>> {
    match r {
        Ok((a, b)) => Ok((oods + a, jobs + b)),
        Err(e) => Err(e),
    }
}

/// The records from `k` on: empty records are skipped; an `O` record is a
/// database file name and its JSON (a record that does not parse is
/// ignored); an `S` record is an `squeue` row in UTF-8; any other record is
/// an error, as is a malformed one.
pub open spec fn discovery_records(records: Seq<Seq<u8>>, k: int) -> Result<
    (Seq<OodRecordView>, Seq<SlurmJobView>),
    Seq<char>,
>
    decreases records.len() - k,
{
    if k < 0 || k >= records.len() {
        Ok((Seq::empty(), Seq::empty()))
    } else {
        let r = records[k];
        if r.len() == 0 {
            discovery_records(records, k + 1)
        } else if r.len() >= 2 && r[0] == ('O' as u8) && r[1] == FIELD_SEPARATOR {
            let payload = r.skip(2);
            let sep = first_index(payload, FIELD_SEPARATOR);
            if sep < 0 {
                Err("OOD discovery returned a malformed database record"@)
            } else {
                let rest = discovery_records(records, k + 1);
                match ood_record_of(lossy_utf8(payload.take(sep)), payload.skip(sep + 1)) {
                    Ok(o) => prepend_discovery(seq![o], Seq::empty(), rest),
                    Err(_) => rest,
                }
            }
        } else if r.len() >= 2 && r[0] == ('S' as u8) && r[1] == FIELD_SEPARATOR {
            let payload = r.skip(2);
            if !valid_utf8(payload) {
                Err("Slurm returned non-UTF-8 output"@)
            } else {
                match slurm_row(decode_utf8(payload)) {
                    Err(e) => Err(e),
                    Ok(j) => prepend_discovery(
                        Seq::empty(),
                        seq![j],
                        discovery_records(records, k + 1),
                    ),
                }
            }
        } else {
            Err("SSH discovery returned an unknown record type"@)
        }
    }
}

/// The errors of the database records from `k` on that do not parse, in
/// order; what `discovery_records` ignores.
pub open spec fn ignored_records(records: Seq<Seq<u8>>, k: int) -> Seq<Seq<char>>
    decreases records.len() - k,
{
    if k < 0 || k >= records.len() {
        Seq::empty()
    } else {
        let r = records[k];
        let rest = ignored_records(records, k + 1);
        if r.len() >= 2 && r[0] == ('O' as u8) && r[1] == FIELD_SEPARATOR {
            let payload = r.skip(2);
            let sep = first_index(payload, FIELD_SEPARATOR);
            if sep < 0 {
                rest
            } else {
                match ood_record_of(lossy_utf8(payload.take(sep)), payload.skip(sep + 1)) {
                    Ok(_) => rest,
                    Err(e) => seq![e] + rest,
                }
            }
        } else {
            rest
        }
    }
}

/// The errors of the database records that a discovery ignored.
pub open spec fn ignored_of(output: Seq<u8>) -> Seq<Seq<char>> {
    match after_marker(output, discovery_marker()) {
        None => Seq::empty(),
        Some(p) => ignored_records(split_on(p, RECORD_SEPARATOR), 0),
    }
}

/// What the output of the discovery script reports.
pub open spec fn discovery_of(output: Seq<u8>) -> Result<
    (Seq<OodRecordView>, Seq<SlurmJobView>),
    Seq<char>,
> {
    match after_marker(output, discovery_marker()) {
        None => Err("SSH "@ + "session discovery"@ + " output did not contain Butler's protocol marker"@),
        Some(p) => discovery_records(split_on(p, RECORD_SEPARATOR), 0),
    }
}

fn discovery_marker_bytes() -> (r: Vec<u8>)
    ensures
        r@ == discovery_marker(),
        r@.len() > 0,
{
    let r = ascii_bytes_of("BUTLER_DISCOVERY_V1\n");
    proof {
        reveal_strlit("BUTLER_DISCOVERY_V1\n");
    }
    r
}

fn connection_marker_bytes() -> (r: Vec<u8>)
    ensures
        r@ == connection_marker(),
        r@.len() > 0,
{
    let r = ascii_bytes_of("BUTLER_CONNECTION_V1\n");
    proof {
        reveal_strlit("BUTLER_CONNECTION_V1\n");
    }
    r
}

/// Reads the output of the discovery script.
pub fn parse_discovery_output(output: &[u8]) -> (r: Result<DiscoverySnapshot, String>)
    ensures
        match r {
            Ok(snap) => discovery_of(output@) == Ok::<_, Seq<char>>(
                (ood_views(snap.ood_sessions@), job_views(snap.jobs@)),
            ) && string_views(snap.ignored@) == ignored_of(output@),
            Err(m) => discovery_of(output@) == Err::<
                (Seq<OodRecordView>, Seq<SlurmJobView>),
                Seq<char>,
            >(m@),
        },
{
    let marker = discovery_marker_bytes();
    let payload = marker_payload(output, marker.as_slice(), "session discovery")?;
    let records = split_bytes(payload.as_slice(), RECORD_SEPARATOR);
    let ghost rv = byte_views(records@);
    let mut ood_sessions: Vec<OodSessionRecord> = Vec::new();
    let mut jobs: Vec<SlurmJob> = Vec::new();
    let mut ignored: Vec<String> = Vec::new();
    let mut k: usize = 0;
    while k < records.len()
        invariant
            string_views(ignored@) + ignored_records(rv, k as int) == ignored_of(output@),
            k <= records@.len(),
            rv == byte_views(records@),
            rv.len() == records@.len(),
            rv == split_on(payload@, RECORD_SEPARATOR),
            after_marker(output@, discovery_marker()) == Some(payload@),
            prepend_discovery(ood_views(ood_sessions@), job_views(jobs@), discovery_records(rv, k as int))
                == discovery_of(output@),
        decreases records@.len() - k,
    {
        let record = records[k].as_slice();
        assert(rv[k as int] == record@);
        let ghost before_o = ood_sessions@;
        let ghost before_j = jobs@;
        let ghost before_i = ignored@;
        if record.len() == 0 {
        } else if record.len() >= 2 && record[0] == 79u8 && record[1] == FIELD_SEPARATOR {
            let payload = copy_bytes(record, 2, record.len());
            assert(payload@ =~= record@.skip(2));
            let sep = index_of_byte(payload.as_slice(), 0, FIELD_SEPARATOR);
            assert(payload@.skip(0) =~= payload@);
            if sep == payload.len() {
                return Err("OOD discovery returned a malformed database record".to_string());
            }
            let name = copy_bytes(payload.as_slice(), 0, sep);
            assert(name@ =~= payload@.take(sep as int));
            let json = copy_bytes(payload.as_slice(), sep + 1, payload.len());
            assert(json@ =~= payload@.skip(sep + 1));
            let file = lossy_text(name.as_slice());
            match parse_ood_session_record(file.as_slice(), json.as_slice()) {
                Ok(session) => {
                    let ghost o = ood_view(session);
                    ood_sessions.push(session);
                    assert(ood_views(ood_sessions@) =~= ood_views(before_o) + seq![o]);
                    proof {
                        match discovery_records(rv, k + 1) {
                            Ok((a, b)) => {
                                assert(ood_views(before_o) + (seq![o] + a) =~= (ood_views(before_o)
                                    + seq![o]) + a);
                                assert(job_views(before_j) + (Seq::<SlurmJobView>::empty() + b)
                                    =~= job_views(before_j) + b);
                            },
                            Err(_) => {},
                        }
                    }
                },
                Err(e) => {
                    let ghost m = e@;
                    ignored.push(e);
                    assert(string_views(ignored@) =~= string_views(before_i).push(m));
                    assert(string_views(ignored@) + ignored_records(rv, k + 1) =~= string_views(
                        before_i,
                    ) + (seq![m] + ignored_records(rv, k + 1)));
                },
            }
        } else if record.len() >= 2 && record[0] == 83u8 && record[1] == FIELD_SEPARATOR {
            let payload = copy_bytes(record, 2, record.len());
            assert(payload@ =~= record@.skip(2));
            let line = match utf8_text(payload.as_slice()) {
                Some(line) => line,
                None => {
                    return Err("Slurm returned non-UTF-8 output".to_string());
                },
            };
            let job = match parse_slurm_job(line.as_slice()) {
                Ok(job) => job,
                Err(e) => {
                    return Err(e);
                },
            };
            let ghost j = job_view(job);
            jobs.push(job);
            assert(job_views(jobs@) =~= job_views(before_j) + seq![j]);
            proof {
                match discovery_records(rv, k + 1) {
                    Ok((a, b)) => {
                        assert(job_views(before_j) + (seq![j] + b) =~= (job_views(before_j)
                            + seq![j]) + b);
                        assert(ood_views(before_o) + (Seq::<OodRecordView>::empty() + a)
                            =~= ood_views(before_o) + a);
                    },
                    Err(_) => {},
                }
            }
        } else {
            return Err("SSH discovery returned an unknown record type".to_string());
        }
        k = k + 1;
    }
    proof {
        assert(ood_views(ood_sessions@) + Seq::<OodRecordView>::empty() =~= ood_views(ood_sessions@));
        assert(job_views(jobs@) + Seq::<SlurmJobView>::empty() =~= job_views(jobs@));
        assert(string_views(ignored@) + Seq::<Seq<char>>::empty() =~= string_views(ignored@));
    }
    Ok(DiscoverySnapshot { ood_sessions, jobs, ignored })
}


/// A job ID without any `;` suffix, surrounding white space, or a
/// `.batch` or `.extern` step suffix.
pub open spec fn canonical_job(job_id: Seq<char>) -> Seq<char> {
    let first = trim(split(job_id, CharClass::Exactly(';'))[0]);
    if ends_with(first, ".batch"@) {
        first.take(first.len() - ".batch"@.len())
    } else if ends_with(first, ".extern"@) {
        first.take(first.len() - ".extern"@.len())
    } else {
        first
    }
}

pub fn canonical_job_id(job_id: &[char]) -> (r: Vec<char>)
    ensures
        r@ == canonical_job(job_id@),
{
    let semi = index_in_class(job_id, 0, CharClass::Exactly(';'));
    proof {
        assert(job_id@.skip(0) =~= job_id@);
        crate::text::lemma_first_in_class_bounds(job_id@, CharClass::Exactly(';'));
    }
    let head = copy_range(job_id, 0, semi);
    assert(head@ =~= split(job_id@, CharClass::Exactly(';'))[0]);
    let first = trim_chars(head.as_slice());
    let batch = chars_of(".batch");
    let ext = chars_of(".extern");
    if ends_with_chars(first.as_slice(), batch.as_slice()) {
        copy_range(first.as_slice(), 0, first.len() - batch.len())
    } else if ends_with_chars(first.as_slice(), ext.as_slice()) {
        copy_range(first.as_slice(), 0, first.len() - ext.len())
    } else {
        first
    }
}

/// The first `k` with `jobs[k]` satisfying `p` at or after `from`, or -1.
pub open spec fn first_job(jobs: Seq<SlurmJobView>, p: spec_fn(SlurmJobView) -> bool, from: int) -> int
    decreases jobs.len() - from,
{
    if from < 0 || from >= jobs.len() {
        -1
    } else if p(jobs[from]) {
        from
    } else {
        first_job(jobs, p, from + 1)
    }
}

/// The job of an Open OnDemand record: the first with the same ID, else the
/// first with the same canonical ID.
pub open spec fn job_for(jobs: Seq<SlurmJobView>, job_id: Seq<char>) -> int {
    let exact = first_job(jobs, |j: SlurmJobView| j.id == job_id, 0);
    if exact >= 0 {
        exact
    } else {
        first_job(jobs, |j: SlurmJobView| canonical_job(j.id) == canonical_job(job_id), 0)
    }
}

pub proof fn lemma_first_job(jobs: Seq<SlurmJobView>, p: spec_fn(SlurmJobView) -> bool, from: int, i: int)
    requires
        0 <= from <= i <= jobs.len(),
        forall|j: int| from <= j < i ==> !p(#[trigger] jobs[j]),
        i == jobs.len() || p(jobs[i]),
    ensures
        first_job(jobs, p, from) == (if i == jobs.len() {
            -1
        } else {
            i
        }),
    decreases i - from,
{
    if from < i {
        lemma_first_job(jobs, p, from + 1, i);
    }
}

pub proof fn lemma_first_job_found(jobs: Seq<SlurmJobView>, p: spec_fn(SlurmJobView) -> bool, from: int)
    requires
        0 <= from,
    ensures
        first_job(jobs, p, from) >= 0 ==> first_job(jobs, p, from) < jobs.len() && p(
            jobs[first_job(jobs, p, from)],
        ),
    decreases jobs.len() - from,
{
    if from < jobs.len() && !p(jobs[from]) {
        lemma_first_job_found(jobs, p, from + 1);
    }
}

/// The job found for a record is one that Slurm reported, with the
/// record's job ID, or the same ID once array and step suffixes are
/// set aside.
pub proof fn lemma_job_for(jobs: Seq<SlurmJobView>, job_id: Seq<char>)
    ensures
        job_for(jobs, job_id) >= 0 ==> job_for(jobs, job_id) < jobs.len() && canonical_job(
            jobs[job_for(jobs, job_id)].id,
        ) == canonical_job(job_id),
{
    lemma_first_job_found(jobs, |j: SlurmJobView| j.id == job_id, 0);
    lemma_first_job_found(jobs, |j: SlurmJobView| canonical_job(j.id) == canonical_job(job_id), 0);
}

/// Discovery lists only active Code Server sessions: each listed pair is a
/// record that was discovered, whose cache is not completed and that is a
/// Code Server session, with a job that Slurm reported for it.
pub proof fn lemma_selected_sessions_active(
    oods: Seq<OodRecordView>,
    jobs: Seq<SlurmJobView>,
    tokens: Seq<Seq<char>>,
)
    ensures
        forall|k: int|
            0 <= k < selected_sessions(oods, jobs, tokens).len() ==> {
                let (o, j) = #[trigger] selected_sessions(oods, jobs, tokens)[k];
                &&& oods.contains(o)
                &&& !o.cache_completed
                &&& is_code_server(o, tokens)
                &&& jobs.contains(j)
                &&& canonical_job(j.id) == canonical_job(o.job_id)
            },
    decreases oods.len(),
{
    if oods.len() > 0 {
        let rest = oods.drop_last();
        lemma_selected_sessions_active(rest, jobs, tokens);
        let o = oods.last();
        lemma_job_for(jobs, o.job_id);
        let r = selected_sessions(rest, jobs, tokens);
        let s = selected_sessions(oods, jobs, tokens);
        assert forall|k: int| 0 <= k < s.len() implies {
            let (o2, j2) = #[trigger] s[k];
            &&& oods.contains(o2)
            &&& !o2.cache_completed
            &&& is_code_server(o2, tokens)
            &&& jobs.contains(j2)
            &&& canonical_job(j2.id) == canonical_job(o2.job_id)
        } by {
            if k < r.len() {
                assert(s[k] == r[k]);
                let (o2, j2) = r[k];
                assert(rest.contains(o2));
                let i = choose|i: int| 0 <= i < rest.len() && rest[i] == o2;
                assert(oods[i] == o2);
            } else {
                let idx = job_for(jobs, o.job_id);
                assert(s[k] == (o, jobs[idx]));
                assert(oods[oods.len() - 1] == o);
                assert(jobs.contains(jobs[idx]));
            }
        }
    }
}

pub fn find_job(jobs: &Vec<SlurmJob>, job_id: &[char]) -> (r: Option<usize>)
    ensures
        match r {
            Some(k) => job_for(job_views(jobs@), job_id@) == k as int && k < jobs@.len(),
            None => job_for(job_views(jobs@), job_id@) == -1,
        },
{
    let ghost jv = job_views(jobs@);
    let ghost exact = |j: SlurmJobView| j.id == job_id@;
    let mut i: usize = 0;
    while i < jobs.len()
        invariant
            i <= jobs@.len(),
            jv == job_views(jobs@),
            jv.len() == jobs@.len(),
            exact == (|j: SlurmJobView| j.id == job_id@),
            forall|j: int| 0 <= j < i ==> !exact(#[trigger] jv[j]),
        decreases jobs@.len() - i,
    {
        let id = chars_of(jobs[i].id.as_str());
        if chars_equal(id.as_slice(), job_id) {
            proof {
                lemma_first_job(jv, exact, 0, i as int);
            }
            return Some(i);
        }
        i = i + 1;
    }
    proof {
        lemma_first_job(jv, exact, 0, i as int);
    }
    let expected = canonical_job_id(job_id);
    let ghost same = |j: SlurmJobView| canonical_job(j.id) == canonical_job(job_id@);
    let mut i: usize = 0;
    while i < jobs.len()
        invariant
            i <= jobs@.len(),
            jv == job_views(jobs@),
            jv.len() == jobs@.len(),
            expected@ == canonical_job(job_id@),
            exact == (|j: SlurmJobView| j.id == job_id@),
            first_job(jv, exact, 0) == -1,
            same == (|j: SlurmJobView| canonical_job(j.id) == canonical_job(job_id@)),
            forall|j: int| 0 <= j < i ==> !same(#[trigger] jv[j]),
        decreases jobs@.len() - i,
    {
        let id = chars_of(jobs[i].id.as_str());
        let c = canonical_job_id(id.as_slice());
        if chars_equal(c.as_slice(), expected.as_slice()) {
            proof {
                lemma_first_job(jv, same, 0, i as int);
            }
            return Some(i);
        }
        i = i + 1;
    }
    proof {
        lemma_first_job(jv, same, 0, i as int);
    }
    None
}


/// A discovered session: its Open OnDemand record and its Slurm job.
#[derive(Clone, Debug)]
pub struct CachedSession {
    pub ood: OodSessionRecord,
    pub job: SlurmJob,
}

pub open spec fn cached_view(c: CachedSession) -> (OodRecordView, SlurmJobView) {
    (ood_view(c.ood), job_view(c.job))
}

pub open spec fn cached_views(v: Seq<CachedSession>) -> Seq<(OodRecordView, SlurmJobView)> {
    v.map_values(|c: CachedSession| cached_view(c))
}

fn clone_text(s: &Option<String>) -> (r: Option<String>)
    ensures
        opt_view(r) == opt_view(*s),
{
    match s {
        Some(t) => Some(t.clone()),
        None => None,
    }
}

pub fn clone_record(r: &OodSessionRecord) -> (c: OodSessionRecord)
    ensures
        ood_view(c) == ood_view(*r),
{
    OodSessionRecord {
        id: r.id.clone(),
        cluster_id: r.cluster_id.clone(),
        job_id: r.job_id.clone(),
        token: r.token.clone(),
        title: clone_text(&r.title),
        cache_completed: r.cache_completed,
    }
}

pub fn clone_job(j: &SlurmJob) -> (c: SlurmJob)
    ensures
        job_view(c) == job_view(*j),
{
    SlurmJob {
        id: j.id.clone(),
        state: j.state,
        nodes: j.nodes,
        cpus: j.cpus,
        minimum_memory: clone_text(&j.minimum_memory),
        time_left: clone_text(&j.time_left),
        time_limit: clone_text(&j.time_limit),
        partition: clone_text(&j.partition),
        tres_per_node: clone_text(&j.tres_per_node),
    }
}

/// The Code Server sessions of a discovery, each with its job, in the order
/// of the records: records whose cache is completed, that are not Code
/// Server sessions or whose job Slurm does not report are left out.
pub open spec fn selected_sessions(
    oods: Seq<OodRecordView>,
    jobs: Seq<SlurmJobView>,
    tokens: Seq<Seq<char>>,
) -> Seq<(OodRecordView, SlurmJobView)>
    decreases oods.len(),
{
    if oods.len() == 0 {
        Seq::empty()
    } else {
        let r = selected_sessions(oods.drop_last(), jobs, tokens);
        let o = oods.last();
        if o.cache_completed || !is_code_server(o, tokens) {
            r
        } else {
            let k = job_for(jobs, o.job_id);
            if k < 0 {
                r
            } else {
                r.push((o, jobs[k]))
            }
        }
    }
}

pub fn select_sessions(snapshot: &DiscoverySnapshot, app_tokens: &[String]) -> (r: Vec<
    CachedSession,
>)
    ensures
        cached_views(r@) == selected_sessions(
            ood_views(snapshot.ood_sessions@),
            job_views(snapshot.jobs@),
            string_views(app_tokens@),
        ),
{
    let ghost ov = ood_views(snapshot.ood_sessions@);
    let ghost jv = job_views(snapshot.jobs@);
    let ghost tv = string_views(app_tokens@);
    let mut out: Vec<CachedSession> = Vec::new();
    let mut i: usize = 0;
    while i < snapshot.ood_sessions.len()
        invariant
            i <= snapshot.ood_sessions@.len(),
            ov == ood_views(snapshot.ood_sessions@),
            ov.len() == snapshot.ood_sessions@.len(),
            jv == job_views(snapshot.jobs@),
            jv.len() == snapshot.jobs@.len(),
            tv == string_views(app_tokens@),
            cached_views(out@) == selected_sessions(ov.take(i as int), jv, tv),
        decreases snapshot.ood_sessions@.len() - i,
    {
        let ood = &snapshot.ood_sessions[i];
        assert(ov.take(i + 1).drop_last() =~= ov.take(i as int));
        assert(ov.take(i + 1).last() == ood_view(*ood));
        if !ood.cache_completed && is_code_server_session(ood, app_tokens) {
            let job_id = chars_of(ood.job_id.as_str());
            match find_job(&snapshot.jobs, job_id.as_slice()) {
                Some(k) => {
                    let c = CachedSession { ood: clone_record(ood), job: clone_job(&snapshot.jobs[k]) };
                    let ghost before = out@;
                    out.push(c);
                    assert(jv[k as int] == job_view(snapshot.jobs@[k as int]));
                    assert(cached_views(out@) =~= cached_views(before).push(cached_view(c)));
                },
                None => {},
            }
        }
        i = i + 1;
    }
    assert(ov.take(i as int) =~= ov);
    out
}

pub open spec fn gpu_views(v: Seq<GpuAllocation>) -> Seq<(Option<Seq<char>>, nat)> {
    v.map_values(|g: GpuAllocation| gpu_view(g))
}

pub open spec fn opt_duration(value: Option<Seq<char>>) -> Option<nat> {
    match value {
        Some(v) => duration_seconds(v),
        None => None,
    }
}

pub open spec fn opt_u64_view(o: Option<u64>) -> Option<nat> {
    match o {
        Some(n) => Some(n as nat),
        None => None,
    }
}

/// `session` lists the record and job: under the record's ID and display
/// name, with the job's ID, state, CPUs, partition, GPUs and durations,
/// `memory_bytes` as its memory, and no project.
pub open spec fn session_of(
    session: Session,
    o: OodRecordView,
    j: SlurmJobView,
    memory_bytes: Option<u64>,
) -> bool {
    &&& session.ood_session_id@ == o.id
    &&& session.job_id@ == j.id
    &&& session.friendly_name@ == display_name_of(o)
    &&& session.project_id is None
    &&& session.project_name is None
    &&& session.remote_path is None
    &&& session.state == j.state
    &&& opt_u32_view(session.hardware.cpus) == j.cpus
    &&& session.hardware.memory_bytes == memory_bytes
    &&& match j.tres_per_node {
        Some(t) => gpu_summary(gpu_views(session.hardware.gpus@), gpu_entries(t)),
        None => session.hardware.gpus@.len() == 0,
    }
    &&& opt_view(session.hardware.partition) == j.partition
    &&& opt_u64_view(session.runtime.remaining_seconds) == opt_duration(j.time_left)
    &&& opt_u64_view(session.runtime.time_limit_seconds) == opt_duration(j.time_limit)
}

fn duration_of(value: &Option<String>) -> (r: Option<u64>)
    ensures
        opt_u64_view(r) == opt_duration(opt_view(*value)),
{
    match value {
        Some(v) => parse_slurm_duration(chars_of(v.as_str()).as_slice()),
        None => None,
    }
}

/// The session that the sidebar lists for a record and its job; the job's
/// memory in bytes comes as `memory_bytes`.
pub fn build_session(ood: &OodSessionRecord, job: &SlurmJob, memory_bytes: Option<u64>) -> (r:
    Session)
    ensures
        session_of(r, ood_view(*ood), job_view(*job), memory_bytes),
{
    let gpus = match &job.tres_per_node {
        Some(t) => parse_gpu_allocations(chars_of(t.as_str()).as_slice()),
        None => Vec::new(),
    };
    Session {
        ood_session_id: ood.id.clone(),
        job_id: job.id.clone(),
        friendly_name: display_name(ood),
        project_id: None,
        project_name: None,
        remote_path: None,
        state: job.state,
        hardware: HardwareAllocation {
            cpus: job.cpus,
            memory_bytes,
            gpus,
            partition: clone_text(&job.partition),
        },
        runtime: RuntimeInfo {
            remaining_seconds: duration_of(&job.time_left),
            time_limit_seconds: duration_of(&job.time_limit),
        },
    }
}

/// The order of the sidebar: by state rank, then by name.
pub open spec fn session_less(a: Session, b: Session) -> bool {
    spec_state_rank(a.state) < spec_state_rank(b.state) || (spec_state_rank(a.state)
        == spec_state_rank(b.state) && chars_less(a.friendly_name@, b.friendly_name@))
}

/// Where `x` goes in `s`: before the first session that it precedes.
pub open spec fn insert_position(s: Seq<Session>, x: Session, from: int) -> int
    decreases s.len() - from,
{
    if from < 0 || from >= s.len() {
        s.len() as int
    } else if session_less(x, s[from]) {
        from
    } else {
        insert_position(s, x, from + 1)
    }
}

/// `s` sorted stably in sidebar order (an insertion sort).
pub open spec fn sorted_sessions(s: Seq<Session>) -> Seq<Session>
    decreases s.len(),
{
    if s.len() == 0 {
        s
    } else {
        let r = sorted_sessions(s.drop_last());
        r.insert(insert_position(r, s.last(), 0), s.last())
    }
}

pub proof fn lemma_insert_position(s: Seq<Session>, x: Session, from: int, i: int)
    requires
        0 <= from <= i <= s.len(),
        forall|j: int| from <= j < i ==> !session_less(x, #[trigger] s[j]),
        i == s.len() || session_less(x, s[i]),
    ensures
        insert_position(s, x, from) == i,
    decreases i - from,
{
    if from < i {
        lemma_insert_position(s, x, from + 1, i);
    }
}

fn precedes(a: &Session, b: &Session) -> (r: bool)
    ensures
        r == session_less(*a, *b),
{
    let ra = state_rank(a.state);
    let rb = state_rank(b.state);
    if ra != rb {
        return ra < rb;
    }
    let na = chars_of(a.friendly_name.as_str());
    let nb = chars_of(b.friendly_name.as_str());
    chars_less_than(na.as_slice(), nb.as_slice())
}

/// Sorts sessions stably by state rank, then name.
pub fn sort_sessions(sessions: Vec<Session>) -> (r: Vec<Session>)
    ensures
        r@ == sorted_sessions(sessions@),
{
    let ghost input = sessions@;
    assert(input.len() == sessions.len());
    let mut rest = sessions;
    let mut out: Vec<Session> = Vec::new();
    let mut i: usize = 0;
    while rest.len() > 0
        invariant
            i <= input.len(),
            input.len() <= usize::MAX,
            rest@.len() + i == input.len(),
            rest@ == input.skip(i as int),
            out@ == sorted_sessions(input.take(i as int)),
        decreases rest@.len(),
    {
        let x = rest.remove(0);
        assert(input.take(i + 1).drop_last() =~= input.take(i as int));
        assert(input.take(i + 1).last() == x);
        assert(rest@ =~= input.skip(i + 1));
        let mut j: usize = 0;
        while j < out.len() && !precedes(&x, &out[j])
            invariant
                j <= out@.len(),
                forall|k: int| 0 <= k < j ==> !session_less(x, #[trigger] out@[k]),
            decreases out@.len() - j,
        {
            j = j + 1;
        }
        proof {
            lemma_insert_position(out@, x, 0, j as int);
        }
        out.insert(j, x);
        i = i + 1;
    }
    assert(input.take(i as int) =~= input);
    out
}

/// The sessions that the sidebar lists for the discovered sessions (each
/// with its memory in bytes), in sidebar order.
pub fn list_sessions(cached: &Vec<CachedSession>, memory_bytes: &Vec<Option<u64>>) -> (r: Vec<
    Session,
>)
    requires
        memory_bytes@.len() == cached@.len(),
    ensures
        exists|built: Seq<Session>|
            {
                &&& built.len() == cached@.len()
                &&& forall|k: int|
                    0 <= k < built.len() ==> session_of(
                        #[trigger] built[k],
                        ood_view(cached@[k].ood),
                        job_view(cached@[k].job),
                        memory_bytes@[k],
                    )
                &&& r@ == sorted_sessions(built)
            },
{
    let mut built: Vec<Session> = Vec::new();
    let mut k: usize = 0;
    while k < cached.len()
        invariant
            k <= cached@.len(),
            memory_bytes@.len() == cached@.len(),
            built@.len() == k,
            forall|j: int|
                0 <= j < k ==> session_of(
                    #[trigger] built@[j],
                    ood_view(cached@[j].ood),
                    job_view(cached@[j].job),
                    memory_bytes@[j],
                ),
        decreases cached@.len() - k,
    {
        let s = build_session(&cached[k].ood, &cached[k].job, memory_bytes[k]);
        built.push(s);
        k = k + 1;
    }
    let ghost b = built@;
    let r = sort_sessions(built);
    assert(r@ == sorted_sessions(b));
    r
}


pub proof fn lemma_session_less_order(a: Session, b: Session, c: Session)
    ensures
        !(session_less(a, b) && session_less(b, a)),
        session_less(a, b) && session_less(b, c) ==> session_less(a, c),
{
    lemma_chars_less_total(a.friendly_name@, b.friendly_name@);
    if session_less(a, b) && session_less(b, c) && spec_state_rank(a.state) == spec_state_rank(
        b.state,
    ) && spec_state_rank(b.state) == spec_state_rank(c.state) {
        lemma_chars_less_transitive(a.friendly_name@, b.friendly_name@, c.friendly_name@);
    }
}

/// The session list is in sidebar order, and holds the sessions it was made
/// of, each as often: no session precedes one listed before it.
pub proof fn lemma_sorted_sessions(s: Seq<Session>)
    ensures
        sorted_sessions(s).to_multiset() == s.to_multiset(),
        sorted_sessions(s).len() == s.len(),
        forall|i: int, j: int|
            0 <= i < j < s.len() ==> !session_less(
                #[trigger] sorted_sessions(s)[j],
                #[trigger] sorted_sessions(s)[i],
            ),
    decreases s.len(),
{
    broadcast use vstd::seq_lib::to_multiset_insert, vstd::seq_lib::to_multiset_build;

    if s.len() > 0 {
        let t = s.drop_last();
        let x = s.last();
        lemma_sorted_sessions(t);
        let r = sorted_sessions(t);
        let p = insert_position(r, x, 0);
        lemma_insert_position_bounds(r, x, 0);
        let q = r.insert(p, x);
        assert(s =~= t.push(x));
        assert(q.to_multiset() == r.to_multiset().insert(x));
        assert forall|i: int, j: int| 0 <= i < j < q.len() implies !session_less(
            #[trigger] q[j],
            #[trigger] q[i],
        ) by {
            if j < p {
                assert(q[i] == r[i] && q[j] == r[j]);
            } else if j == p {
                assert(q[i] == r[i]);
                assert(!session_less(x, r[i]));
            } else if i == p {
                assert(q[j] == r[j - 1]);
                assert(session_less(x, r[p]));
                lemma_session_less_order(r[j - 1], x, r[p]);
                lemma_session_less_order(r[j - 1], r[p], r[j - 1]);
                if j - 1 > p {
                    assert(!session_less(r[j - 1], r[p]));
                }
            } else if i < p {
                assert(q[i] == r[i] && q[j] == r[j - 1]);
            } else {
                assert(q[i] == r[i - 1] && q[j] == r[j - 1]);
            }
        }
    }
}

pub proof fn lemma_insert_position_bounds(s: Seq<Session>, x: Session, from: int)
    requires
        0 <= from <= s.len(),
    ensures
        from <= insert_position(s, x, from) <= s.len(),
        forall|k: int| from <= k < insert_position(s, x, from) ==> !session_less(x, #[trigger] s[k]),
        insert_position(s, x, from) < s.len() ==> session_less(x, s[insert_position(s, x, from)]),
    decreases s.len() - from,
{
    if from < s.len() && !session_less(x, s[from]) {
        lemma_insert_position_bounds(s, x, from + 1);
    }
}


/// Checks that a discovered session can be opened: its job runs and its
/// IDs are safe components of the remote paths that lead to its
/// `connection.yml`.
pub fn check_openable(cached: &CachedSession) -> (r: Result<(), String>)
    ensures
        match r {
            Ok(()) => cached.job.state == SessionState::Running && safe_session_paths(
                ood_view(cached.ood),
            ),
            Err(m) => if cached.job.state != SessionState::Running {
                m@ == display_name_of(ood_view(cached.ood))
                    + " is not running yet; its scheduler state is "@ + spec_state_label(
                    cached.job.state,
                )
            } else {
                session_path_error(ood_view(cached.ood)) == Some(m@)
            },
        },
{
    if cached.job.state != SessionState::Running {
        let name = display_name(&cached.ood);
        let mut m = chars_of(name.as_str());
        let mid = chars_of(" is not running yet; its scheduler state is ");
        push_all(&mut m, mid.as_slice());
        let label = chars_of(state_label(cached.job.state));
        push_all(&mut m, label.as_slice());
        return Err(string_of(m.as_slice()));
    }
    validate_session_path_data(&cached.ood)
}

/// What the output of the connection script gives: the connection that
/// the `connection.yml` after its marker names.
pub open spec fn connection_from(output: Seq<u8>) -> Result<
    (Seq<char>, nat, Option<Seq<char>>, Seq<char>, Seq<char>),
    Seq<char>,
> {
    match after_marker(output, connection_marker()) {
        None => Err("SSH "@ + "connection.yml"@ + " output did not contain Butler's protocol marker"@),
        Some(p) => if !valid_utf8(p) {
            Err("connection.yml is not valid UTF-8"@)
        } else {
            connection_of(decode_utf8(p))
        },
    }
}

/// Reads the output of the connection script.
pub fn connection_from_output(output: &[u8]) -> (r: Result<ConnectionInfo, String>)
    ensures
        match r {
            Ok(c) => connection_from(output@) == Ok::<_, Seq<char>>(connection_view(c)),
            Err(m) => connection_from(output@) == Err::<
                (Seq<char>, nat, Option<Seq<char>>, Seq<char>, Seq<char>),
                Seq<char>,
            >(m@),
        },
{
    let marker = connection_marker_bytes();
    let document = marker_payload(output, marker.as_slice(), "connection.yml")?;
    let text = match utf8_text(document.as_slice()) {
        Some(text) => text,
        None => {
            return Err("connection.yml is not valid UTF-8".to_string());
        },
    };
    parse_connection_document(text.as_slice())
}

} // verus!
