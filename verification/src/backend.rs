//! What the cluster backend decides around its remote calls: the scripts
//! and commands it runs over SSH, what it makes of their output, and the
//! status it reports. Running the commands, the tunnels and the caches are
//! left to the caller.
use vstd::prelude::*;
use vstd::utf8::encode_utf8;
use crate::config::ButlerConfig;
use crate::discovery::{
    cached_views, check_openable, parse_discovery_output, select_sessions, discovery_of,
    selected_sessions, CachedSession,
};
use crate::models::{opt_view, BackendStatus};
use crate::ood::{ood_view, session_path_error, string_views, validate_job_id, valid_job_id};
use crate::slurm::spec_state_label;
use crate::ssh::{process_failure, remote_invocation, shell_joined, SshClient, SshInvocation};
use crate::text::{chars_equal, chars_of, text_around, text_then};

verus! {

/// The script that lists the Open OnDemand session records and the
/// user's Slurm jobs, in the record protocol of `discovery`. Its arguments
/// are the data root and the `squeue` binary.
pub const DISCOVERY_SCRIPT: &'static str = r#"set -eu
root=$1
squeue_bin=$2

case "$root" in
  "~") root=$HOME ;;
  "~/"*) root="$HOME/${root#\~/}" ;;
esac

record_separator=$(printf '\036')
field_separator=$(printf '\037')
printf 'BUTLER_DISCOVERY_V1\n'
db_root="$root/batch_connect/db"

if [ -d "$db_root" ]; then
  for file in "$db_root"/*; do
    [ -f "$file" ] || continue
    [ -r "$file" ] || continue
    case "$file" in
      *.bak) continue ;;
    esac

    printf '%sO%s%s%s' "$record_separator" "$field_separator" "${file##*/}" "$field_separator"
    cat "$file"
  done
fi

user=${USER:-$(id -un)}
tmp="${TMPDIR:-/tmp}/butler-squeue-$$"
trap 'rm -f "$tmp"' EXIT HUP INT TERM

"$squeue_bin" \
  --noheader \
  --user="$user" \
  --states=PENDING,RUNNING,CONFIGURING,COMPLETING \
  --format='%i|%T|%N|%D|%C|%m|%L|%l|%P|%b' \
  > "$tmp"

while IFS= read -r line || [ -n "$line" ]; do
  printf '%sS%s%s' "$record_separator" "$field_separator" "$line"
done < "$tmp"

printf '%s' "$record_separator"
"#;

/// The script that prints a session's `connection.yml` after its marker.
/// Its arguments are the data root, the cluster ID, the app token and the
/// session ID.
pub const CONNECTION_SCRIPT: &'static str = r#"set -eu
root=$1
cluster=$2
token=$3
session_id=$4

case "$root" in
  "~") root=$HOME ;;
  "~/"*) root="$HOME/${root#\~/}" ;;
esac

base="$root/batch_connect"

emit_if_readable() {
  if [ -f "$1" ] && [ -r "$1" ]; then
    printf 'BUTLER_CONNECTION_V1\n'
    cat "$1"
    exit 0
  fi
}

if [ -n "$cluster" ]; then
  emit_if_readable "$base/$cluster/$token/output/$session_id/connection.yml"
fi
emit_if_readable "$base/$token/output/$session_id/connection.yml"

found=$(find "$base" -type f -path "*/output/$session_id/connection.yml" -print -quit 2>/dev/null || true)
if [ -n "$found" ]; then
  printf 'BUTLER_CONNECTION_V1\n'
  cat "$found"
  exit 0
fi

printf 'connection.yml not found for OOD session %s\n' "$session_id" >&2
exit 4
"#;


fn push_copy(args: &mut Vec<String>, value: &String)
    ensures
        string_views(final(args)@) == string_views(old(args)@).push(value@),
{
    let ghost before = args@;
    args.push(value.clone());
    assert(string_views(args@) =~= string_views(before).push(value@));
}

/// The SSH call that runs the discovery script.
pub fn discovery_invocation(ssh: &SshClient, config: &ButlerConfig) -> (r: Result<SshInvocation, String>)
    ensures
        match shell_joined(
            seq!["sh"@, "-s"@, "--"@, config.ood.data_root@, config.slurm.squeue_binary@],
        ) {
            Ok(line) => r matches Ok(inv) && remote_invocation(inv, ssh.settings(), ssh.socket(), line)
                && (inv.stdin matches Some(input) && input@ == encode_utf8(DISCOVERY_SCRIPT@)),
            Err(m) => r matches Err(e) && e@ == m,
        },
{
    let mut args: Vec<String> = Vec::new();
    push_copy(&mut args, &config.ood.data_root);
    push_copy(&mut args, &config.slurm.squeue_binary);
    assert(seq!["sh"@, "-s"@, "--"@] + string_views(args@) =~= seq![
        "sh"@,
        "-s"@,
        "--"@,
        config.ood.data_root@,
        config.slurm.squeue_binary@,
    ]);
    ssh.run_script(DISCOVERY_SCRIPT, args.as_slice())
}

/// The sessions that a run of the discovery script reports: its Code
/// Server sessions, each with its job.
pub fn discover(output: &[u8], app_tokens: &[String]) -> (r: Result<Vec<CachedSession>, String>)
    ensures
        match discovery_of(output@) {
            Ok((oods, jobs)) => r matches Ok(c) && cached_views(c@) == selected_sessions(
                oods,
                jobs,
                string_views(app_tokens@),
            ),
            Err(m) => r matches Err(e) && e@ == m,
        },
{
    match parse_discovery_output(output) {
        Ok(snapshot) => Ok(select_sessions(&snapshot, app_tokens)),
        Err(e) => Err(e),
    }
}

/// Why a session cannot be opened: not running, or IDs that are no safe
/// path components; nothing when it can be.
pub open spec fn openable_error(cached: CachedSession) -> Option<Seq<char>> {
    if cached.job.state != crate::models::SessionState::Running {
        Some(
            crate::ood::display_name_of(ood_view(cached.ood))
                + " is not running yet; its scheduler state is "@ + spec_state_label(cached.job.state),
        )
    } else {
        session_path_error(ood_view(cached.ood))
    }
}

/// The SSH call that reads the `connection.yml` of a discovered session,
/// once the session is known to be openable.
pub fn connection_invocation(ssh: &SshClient, config: &ButlerConfig, cached: &CachedSession) -> (r:
    Result<SshInvocation, String>)
    ensures
        match openable_error(*cached) {
            Some(m) => r matches Err(e) && e@ == m,
            None => match shell_joined(
                seq![
                    "sh"@,
                    "-s"@,
                    "--"@,
                    config.ood.data_root@,
                    cached.ood.cluster_id@,
                    cached.ood.token@,
                    cached.ood.id@,
                ],
            ) {
                Ok(line) => r matches Ok(inv) && remote_invocation(
                    inv,
                    ssh.settings(),
                    ssh.socket(),
                    line,
                ) && (inv.stdin matches Some(input) && input@ == encode_utf8(CONNECTION_SCRIPT@)),
                Err(m) => r matches Err(e) && e@ == m,
            },
        },
{
    match check_openable(cached) {
        Ok(()) => {},
        Err(e) => {
            return Err(e);
        },
    }
    let mut args: Vec<String> = Vec::new();
    push_copy(&mut args, &config.ood.data_root);
    push_copy(&mut args, &cached.ood.cluster_id);
    push_copy(&mut args, &cached.ood.token);
    push_copy(&mut args, &cached.ood.id);
    assert(seq!["sh"@, "-s"@, "--"@] + string_views(args@) =~= seq![
        "sh"@,
        "-s"@,
        "--"@,
        config.ood.data_root@,
        cached.ood.cluster_id@,
        cached.ood.token@,
        cached.ood.id@,
    ]);
    ssh.run_script(CONNECTION_SCRIPT, args.as_slice())
}

/// The SSH call that cancels the job of a discovered session with
/// `scancel`, once its job ID is known to be safe to pass.
pub fn cancel_invocation(ssh: &SshClient, config: &ButlerConfig, cached: &CachedSession) -> (r:
    Result<SshInvocation, String>)
    ensures
        !valid_job_id(cached.ood.job_id@) ==> (r matches Err(e) && e@
            == "The scheduler job ID is invalid"@),
        valid_job_id(cached.ood.job_id@) ==> match shell_joined(
            seq![config.slurm.scancel_binary@, cached.ood.job_id@],
        ) {
            Ok(line) => r matches Ok(inv) && remote_invocation(
                inv,
                ssh.settings(),
                ssh.socket(),
                line,
            ) && inv.stdin is None,
            Err(m) => r matches Err(e) && e@ == m,
        },
{
    let job_id = chars_of(cached.ood.job_id.as_str());
    match validate_job_id(job_id.as_slice()) {
        Ok(()) => {},
        Err(e) => {
            return Err(e);
        },
    }
    let mut args: Vec<String> = Vec::new();
    push_copy(&mut args, &cached.ood.job_id);
    assert(seq![config.slurm.scancel_binary@] + string_views(args@) =~= seq![
        config.slurm.scancel_binary@,
        cached.ood.job_id@,
    ]);
    ssh.run(config.slurm.scancel_binary.as_str(), args.as_slice())
}

/// The message for a session that discovery no longer reports.
pub fn session_gone(session_id: &str) -> (r: String)
    ensures
        r@ == "Session "@ + session_id@ + " is no longer active"@,
{
    let id = chars_of(session_id);
    text_around("Session ", id.as_slice(), " is no longer active")
}

/// The status of a configured backend: connected when the connection check
/// succeeded, with its error as the message otherwise.
pub fn backend_status(
    config_path: &str,
    ssh: &SshClient,
    connection: Result<(), String>,
    active_tunnels: usize,
) -> (r: BackendStatus)
    ensures
        r.configured,
        r.connected == connection is Ok,
        r.config_path@ == config_path@,
        opt_view(r.ssh_target) == Some(ssh.settings().target@),
        opt_view(r.control_path) == ssh.socket(),
        r.active_tunnels == active_tunnels,
        match connection {
            Ok(()) => r.message is None,
            Err(e) => opt_view(r.message) == Some(e@),
        },
{
    let connected = connection.is_ok();
    let message = match connection {
        Ok(()) => None,
        Err(e) => Some(e),
    };
    BackendStatus {
        configured: true,
        connected,
        config_path: config_path.to_string(),
        ssh_target: Some(ssh.target().to_string()),
        control_path: match ssh.control_path() {
            Some(p) => Some(p.to_string()),
            None => None,
        },
        active_tunnels,
        message,
    }
}

/// The status of a backend that could not be configured, with the reason.
pub fn unconfigured_status(config_path: &str, message: &str) -> (r: BackendStatus)
    ensures
        !r.configured,
        !r.connected,
        r.config_path@ == config_path@,
        r.ssh_target is None,
        r.control_path is None,
        r.active_tunnels == 0,
        opt_view(r.message) == Some(message@),
{
    BackendStatus {
        configured: false,
        connected: false,
        config_path: config_path.to_string(),
        ssh_target: None,
        control_path: None,
        active_tunnels: 0,
        message: Some(message.to_string()),
    }
}

pub open spec fn listed(ids: Seq<Seq<char>>, id: Seq<char>) -> bool {
    exists|i: int| 0 <= i < ids.len() && ids[i] == id
}

/// The tunnels whose sessions discovery no longer reports, in the order of
/// `tunnel_ids`.
pub open spec fn stale_ids(tunnel_ids: Seq<Seq<char>>, active_ids: Seq<Seq<char>>) -> Seq<Seq<char>>
    decreases tunnel_ids.len(),
{
    if tunnel_ids.len() == 0 {
        tunnel_ids
    } else {
        let r = stale_ids(tunnel_ids.drop_last(), active_ids);
        if listed(active_ids, tunnel_ids.last()) {
            r
        } else {
            r.push(tunnel_ids.last())
        }
    }
}

fn is_listed(ids: &Vec<String>, id: &str) -> (r: bool)
    ensures
        r == listed(string_views(ids@), id@),
{
    let ghost iv = string_views(ids@);
    let key = chars_of(id);
    let mut i: usize = 0;
    while i < ids.len()
        invariant
            i <= ids@.len(),
            iv == string_views(ids@),
            key@ == id@,
            forall|j: int| 0 <= j < i ==> iv[j] != id@,
        decreases ids@.len() - i,
    {
        let other = chars_of(ids[i].as_str());
        if chars_equal(other.as_slice(), key.as_slice()) {
            assert(iv[i as int] == id@);
            return true;
        }
        i = i + 1;
    }
    false
}

/// The sessions of open tunnels that are no longer active, whose tunnels
/// are to be closed.
pub fn stale_tunnels(tunnel_ids: &Vec<String>, active_ids: &Vec<String>) -> (r: Vec<String>)
    ensures
        string_views(r@) == stale_ids(string_views(tunnel_ids@), string_views(active_ids@)),
{
    let ghost tv = string_views(tunnel_ids@);
    let ghost av = string_views(active_ids@);
    let mut out: Vec<String> = Vec::new();
    let mut i: usize = 0;
    while i < tunnel_ids.len()
        invariant
            i <= tunnel_ids@.len(),
            tv == string_views(tunnel_ids@),
            av == string_views(active_ids@),
            string_views(out@) == stale_ids(tv.take(i as int), av),
        decreases tunnel_ids@.len() - i,
    {
        assert(tv.take(i + 1).drop_last() =~= tv.take(i as int));
        assert(tv.take(i + 1).last() == tunnel_ids@[i as int]@);
        if !is_listed(active_ids, tunnel_ids[i].as_str()) {
            push_copy(&mut out, &tunnel_ids[i]);
        }
        i = i + 1;
    }
    assert(tv.take(i as int) =~= tv);
    out
}

/// The seconds that a new tunnel has to start listening.
pub const TUNNEL_READY_TIMEOUT_SECONDS: u64 = 5;

/// What a check of a starting tunnel found: the `ssh` process exited (with
/// its code and standard error), could not be inspected, or still runs and
/// its local port either listens or not yet (`timed_out` when its time is
/// up).
#[derive(Clone, Debug)]
pub enum TunnelEvent {
    Exited { code: Option<i32>, stderr: Vec<u8> },
    InspectFailed(String),
    Listening,
    NotListening { timed_out: bool },
}

/// What to do after a check of a starting tunnel.
#[derive(Clone, Debug)]
pub enum TunnelAction {
    /// The tunnel is ready for use.
    Ready,
    /// Wait a moment and check again.
    Retry,
    /// Give up with this message, killing the process first when `kill`.
    Fail { kill: bool, message: String },
}

/// Decides what follows a check of a tunnel that `ssh` starts: a process
/// that exited fails with its failure message, one that cannot be
/// inspected or does not listen in time is killed, and a listening port is
/// ready.
pub fn tunnel_wait_step(ssh: &SshClient, event: TunnelEvent) -> (r: TunnelAction)
    ensures
        match event {
            TunnelEvent::Exited { code, stderr } => r matches TunnelAction::Fail { kill, message }
                && !kill && message@ == process_failure("SSH tunnel"@, code, stderr@),
            TunnelEvent::InspectFailed(e) => r matches TunnelAction::Fail { kill, message } && kill
                && message@ == "Could not inspect the SSH tunnel process: "@ + e@,
            TunnelEvent::Listening => r is Ready,
            TunnelEvent::NotListening { timed_out } => if timed_out {
                r matches TunnelAction::Fail { kill, message } && kill && message@
                    == "SSH opened but the localhost tunnel did not become ready within 5 seconds"@
            } else {
                r is Retry
            },
        },
{
    match event {
        TunnelEvent::Exited { code, stderr } => TunnelAction::Fail {
            kill: false,
            message: ssh.format_tunnel_failure(code, stderr.as_slice()),
        },
        TunnelEvent::InspectFailed(e) => {
            let detail = chars_of(e.as_str());
            TunnelAction::Fail {
                kill: true,
                message: text_then("Could not inspect the SSH tunnel process: ", detail.as_slice()),
            }
        },
        TunnelEvent::Listening => TunnelAction::Ready,
        TunnelEvent::NotListening { timed_out } => {
            if timed_out {
                TunnelAction::Fail {
                    kill: true,
                    message: "SSH opened but the localhost tunnel did not become ready within 5 seconds".to_string(),
                }
            } else {
                TunnelAction::Retry
            }
        },
    }
}

} // verus!
