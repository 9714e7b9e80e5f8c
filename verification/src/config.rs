//! Butler's configuration: its defaults, the environment variables that
//! override it, its normalization and its validation.
use vstd::prelude::*;
use crate::connection::{contains_control_break, has_control_break};
use crate::models::opt_view;
use crate::ood::{nonempty_words, string_views};
use crate::text::{
    chars_equal, chars_of, copy_range, ends_with, lower_chars, lower_seq, parse_decimal, parse_unsigned, split, split_chars,
    starts_with, starts_with_chars, string_of, text_around, text_then, trim, trim_chars, views,
    CharClass,
};

verus! {

#[derive(Clone, Debug)]
pub struct SshConfig {
    pub target: String,
    pub binary: String,
    pub config_file: Option<String>,
    pub port: Option<u16>,
    pub connect_timeout_seconds: u64,
    pub command_timeout_seconds: u64,
    pub control_persist_seconds: u64,
    pub multiplex: bool,
    pub control_path: Option<String>,
}

#[derive(Clone, Debug)]
pub struct OodConfig {
    pub data_root: String,
    pub app_tokens: Vec<String>,
}

#[derive(Clone, Debug)]
pub struct SlurmConfig {
    pub squeue_binary: String,
    pub scancel_binary: String,
}

#[derive(Clone, Debug)]
pub struct ButlerConfig {
    pub ssh: SshConfig,
    pub ood: OodConfig,
    pub slurm: SlurmConfig,
}

/// A configuration and the file it was read from.
#[derive(Clone, Debug)]
pub struct LoadedConfig {
    pub config: ButlerConfig,
    pub path: String,
}

impl SshConfig {
    /// The defaults below for a platform that does (`multiplex`) or does not
    /// offer OpenSSH connection sharing: Unix builds share connections
    /// through a control socket, Windows builds do not.
    pub fn platform_default(multiplex: bool) -> (r: Self)
        ensures
            r.target@ == Seq::<char>::empty(),
            r.binary@ == "ssh"@,
            r.config_file is None,
            r.port is None,
            r.connect_timeout_seconds == 10,
            r.command_timeout_seconds == 30,
            r.control_persist_seconds == 600,
            r.multiplex == multiplex,
            r.control_path is None,
    {
        SshConfig {
            target: String::new(),
            binary: "ssh".to_string(),
            config_file: None,
            port: None,
            connect_timeout_seconds: 10,
            command_timeout_seconds: 30,
            control_persist_seconds: 600,
            multiplex,
            control_path: None,
        }
    }
}

impl Default for SshConfig {
    /// No target, the `ssh` on the path, ten seconds to connect, thirty for a
    /// command and ten minutes of control persistence. Whether connections
    /// are shared depends on the platform the program is built for, which
    /// this library does not see: the value here is the Unix one and is left
    /// out of the contract. A caller that knows its platform uses
    /// `platform_default`.
    fn default() -> (r: Self)
        ensures
            r.target@ == Seq::<char>::empty(),
            r.binary@ == "ssh"@,
            r.config_file is None,
            r.port is None,
            r.connect_timeout_seconds == 10,
            r.command_timeout_seconds == 30,
            r.control_persist_seconds == 600,
            r.control_path is None,
    {
        SshConfig::platform_default(true)
    }
}

impl Default for OodConfig {
    /// Open OnDemand's standard dashboard data root and no token allowlist.
    fn default() -> (r: Self)
        ensures
            r.data_root@ == "~/ondemand/data/sys/dashboard"@,
            r.app_tokens@.len() == 0,
    {
        OodConfig { data_root: "~/ondemand/data/sys/dashboard".to_string(), app_tokens: Vec::new() }
    }
}

impl Default for SlurmConfig {
    /// `squeue` and `scancel` as the login shell finds them.
    fn default() -> (r: Self)
        ensures
            r.squeue_binary@ == "squeue"@,
            r.scancel_binary@ == "scancel"@,
    {
        SlurmConfig { squeue_binary: "squeue".to_string(), scancel_binary: "scancel".to_string() }
    }
}

impl ButlerConfig {
    /// The default configuration for a platform that does (`multiplex`) or
    /// does not offer OpenSSH connection sharing.
    pub fn platform_default(multiplex: bool) -> (r: Self)
        ensures
            r.ssh.target@ == Seq::<char>::empty(),
            r.ssh.binary@ == "ssh"@,
            r.ssh.config_file is None,
            r.ssh.port is None,
            r.ssh.connect_timeout_seconds == 10,
            r.ssh.command_timeout_seconds == 30,
            r.ssh.control_persist_seconds == 600,
            r.ssh.multiplex == multiplex,
            r.ssh.control_path is None,
            r.ood.data_root@ == "~/ondemand/data/sys/dashboard"@,
            r.ood.app_tokens@.len() == 0,
            r.slurm.squeue_binary@ == "squeue"@,
            r.slurm.scancel_binary@ == "scancel"@,
    {
        ButlerConfig {
            ssh: SshConfig::platform_default(multiplex),
            ood: OodConfig::default(),
            slurm: SlurmConfig::default(),
        }
    }
}

impl Default for ButlerConfig {
    /// The defaults of each section; as for `SshConfig`, whether connections
    /// are shared is left to the platform (see `platform_default`).
    fn default() -> (r: Self)
        ensures
            r.ssh.target@ == Seq::<char>::empty(),
            r.ssh.binary@ == "ssh"@,
            r.ssh.config_file is None,
            r.ssh.port is None,
            r.ssh.connect_timeout_seconds == 10,
            r.ssh.command_timeout_seconds == 30,
            r.ssh.control_persist_seconds == 600,
            r.ssh.control_path is None,
            r.ood.data_root@ == "~/ondemand/data/sys/dashboard"@,
            r.ood.app_tokens@.len() == 0,
            r.slurm.squeue_binary@ == "squeue"@,
            r.slurm.scancel_binary@ == "scancel"@,
    {
        ButlerConfig { ssh: SshConfig::default(), ood: OodConfig::default(), slurm: SlurmConfig::default() }
    }
}

/// `path` joined to `base` as `Path::join` joins a relative path: `base`,
/// the platform's separator (`/`, or `\` on Windows), then `path`. No
/// separator is added to an empty `base` or one that ends with `/`; one
/// that ends with `\` (a separator on Windows only) or is a bare drive such
/// as `C:` (a drive on Windows only) gets none on Windows and `/` elsewhere.
pub open spec fn joined_path(result: Seq<char>, base: Seq<char>, path: Seq<char>) -> bool {
    if base.len() == 0 || base.last() == '/' {
        result == base + path
    } else if base.last() == '\\' || (base.len() == 2 && base[1] == ':') {
        result == base + path || result == base + seq!['/'] + path
    } else {
        result == base + seq!['/'] + path || result == base + seq!['\\'] + path
    }
}

/// Whether `path` starts with a root or a drive (`C:`), in which case
/// `Path::join` may replace the directory rather than append to it.
pub open spec fn rooted(path: Seq<char>) -> bool {
    starts_with(path, "/"@) || starts_with(path, "\\"@) || (path.len() >= 2 && path[1] == ':')
}

/// Whether `base` has a verbatim prefix (`\\?\`), after which Windows
/// normalizes a joined path.
pub open spec fn verbatim(base: Seq<char>) -> bool {
    starts_with(base, seq!['\\', '\\', '?', '\\'])
}

/// Joins a path to a directory with `Path::join`. For a path that is not
/// rooted and a directory without a verbatim prefix, the contract claims
/// the result that `joined_path` describes; which of `/` and `\` separates
/// them is the platform's and is left unsaid. Of a rooted path, which
/// replaces the directory, and of a verbatim directory, after which the
/// result is normalized, it claims nothing.
#[verifier::external_body]
pub(crate) fn join_path(base: &str, path: &str) -> (r: String)
    ensures
        !rooted(path@) && !verbatim(base@) ==> joined_path(r@, base@, path@),
{
    std::path::Path::new(base).join(path).to_string_lossy().into_owned()
}

/// The configuration file in the application's configuration directory.
pub fn default_path(app_config_dir: &str) -> (r: String)
    ensures
        !verbatim(app_config_dir@) ==> joined_path(r@, app_config_dir@, "config.json"@),
{
    proof {
        reveal_strlit("config.json");
        reveal_strlit("/");
        reveal_strlit("\\");
        assert("config.json"@.take(1)[0] != "/"@.take(1)[0]);
        assert("config.json"@.take(1)[0] != "\\"@.take(1)[0]);
    }
    join_path(app_config_dir, "config.json")
}

/// `path` with a leading `~` read as the home directory, when there is one.
/// What follows `~/` is joined to the home directory; where that rest is
/// itself rooted, or the home directory has a verbatim prefix, the platform
/// decides and nothing is claimed.
pub open spec fn home_expansion(result: Seq<char>, path: Seq<char>, home: Option<Seq<char>>) -> bool {
    match home {
        Some(h) => if path == "~"@ {
            result == h
        } else if starts_with(path, "~/"@) || starts_with(path, "~\\"@) {
            !rooted(path.skip(2)) && !verbatim(h) ==> joined_path(result, h, path.skip(2))
        } else {
            result == path
        },
        None => result == path,
    }
}

pub open spec fn home_view(home: Option<&str>) -> Option<Seq<char>> {
    match home {
        Some(h) => Some(h@),
        None => None,
    }
}

/// Expands a leading `~` of a local path to `home`, the user's home
/// directory where the environment names one.
pub fn expand_local_home(path: &str, home: Option<&str>) -> (r: String)
    ensures
        home_expansion(r@, path@, home_view(home)),
{
    let text = chars_of(path);
    let tilde = chars_of("~");
    let tilde_slash = chars_of("~/");
    let tilde_back = chars_of("~\\");
    let is_home = chars_equal(text.as_slice(), tilde.as_slice());
    let under_home = starts_with_chars(text.as_slice(), tilde_slash.as_slice())
        || starts_with_chars(text.as_slice(), tilde_back.as_slice());
    match home {
        Some(h) => {
            if is_home {
                return h.to_string();
            }
            if under_home {
                proof {
                    reveal_strlit("~/");
                    reveal_strlit("~\\");
                }
                let rest = copy_range(text.as_slice(), 2, text.len());
                assert(rest@ =~= path@.skip(2));
                let rest = string_of(rest.as_slice());
                return join_path(h, rest.as_str());
            }
            path.to_string()
        },
        None => path.to_string(),
    }
}

/// The value of a boolean setting: `1`, `true`, `yes`, `on` and `0`,
/// `false`, `no`, `off`, in any ASCII case and with white space around.
pub open spec fn bool_word(value: Seq<char>) -> Option<bool> {
    let v = lower_seq(trim(value));
    if v == "1"@ || v == "true"@ || v == "yes"@ || v == "on"@ {
        Some(true)
    } else if v == "0"@ || v == "false"@ || v == "no"@ || v == "off"@ {
        Some(false)
    } else {
        None
    }
}

fn is_word(value: &[char], word: &str) -> (r: bool)
    ensures
        r == (value@ == word@),
{
    let w = chars_of(word);
    chars_equal(value, w.as_slice())
}

/// Reads the boolean setting `name` from `value`.
pub fn parse_bool(name: &str, value: &str) -> (r: Result<bool, String>)
    ensures
        match bool_word(value@) {
            Some(b) => r == Ok::<bool, String>(b),
            None => r matches Err(e) && e@ == name@ + " must be true or false"@,
        },
{
    let raw = chars_of(value);
    let trimmed = trim_chars(raw.as_slice());
    let v = lower_chars(trimmed.as_slice());
    let v = v.as_slice();
    if is_word(v, "1") || is_word(v, "true") || is_word(v, "yes") || is_word(v, "on") {
        Ok(true)
    } else if is_word(v, "0") || is_word(v, "false") || is_word(v, "no") || is_word(v, "off") {
        Ok(false)
    } else {
        let suffix = chars_of(" must be true or false");
        Err(text_then(name, suffix.as_slice()))
    }
}

/// `value` trimmed, or nothing when that leaves it empty.
pub open spec fn nonempty_trimmed(value: Seq<char>) -> Option<Seq<char>> {
    if trim(value).len() > 0 {
        Some(trim(value))
    } else {
        None
    }
}

/// `value` trimmed, or `None` when nothing is left.
pub fn nonempty(value: &str) -> (r: Option<String>)
    ensures
        opt_view(r) == nonempty_trimmed(value@),
{
    let raw = chars_of(value);
    let t = trim_chars(raw.as_slice());
    if t.len() > 0 {
        Some(string_of(t.as_slice()))
    } else {
        None
    }
}

pub open spec fn trimmed_all(words: Seq<Seq<char>>) -> Seq<Seq<char>> {
    words.map_values(|w: Seq<char>| trim(w))
}

/// The tokens of a comma-separated list, trimmed, without empty ones.
pub open spec fn token_list(value: Seq<char>) -> Seq<Seq<char>> {
    nonempty_words(trimmed_all(split(value, CharClass::Exactly(','))))
}

/// The words trimmed, the empty ones left out.
fn clean_words(words: &Vec<Vec<char>>) -> (r: Vec<String>)
    ensures
        string_views(r@) == nonempty_words(trimmed_all(views(words@))),
{
    let ghost w = views(words@);
    let mut out: Vec<String> = Vec::new();
    let mut i: usize = 0;
    while i < words.len()
        invariant
            i <= words@.len(),
            w == views(words@),
            string_views(out@) == nonempty_words(trimmed_all(w.take(i as int))),
        decreases words@.len() - i,
    {
        let t = trim_chars(words[i].as_slice());
        let ghost before = out@;
        assert(trimmed_all(w.take(i + 1)).drop_last() =~= trimmed_all(w.take(i as int)));
        assert(trimmed_all(w.take(i + 1)).last() == t@);
        if t.len() > 0 {
            out.push(string_of(t.as_slice()));
            assert(string_views(out@) =~= string_views(before).push(t@));
        } else {
            assert(string_views(out@) =~= string_views(before));
        }
        i = i + 1;
    }
    assert(w.take(i as int) =~= w);
    out
}

/// The tokens of a comma-separated list.
pub fn parse_token_list(value: &str) -> (r: Vec<String>)
    ensures
        string_views(r@) == token_list(value@),
{
    let raw = chars_of(value);
    let pieces = split_chars(raw.as_slice(), CharClass::Exactly(','));
    clean_words(&pieces)
}

/// The given tokens trimmed, the empty ones left out.
pub fn clean_tokens(tokens: &Vec<String>) -> (r: Vec<String>)
    ensures
        string_views(r@) == nonempty_words(trimmed_all(string_views(tokens@))),
{
    let mut words: Vec<Vec<char>> = Vec::new();
    let mut i: usize = 0;
    while i < tokens.len()
        invariant
            i <= tokens@.len(),
            views(words@) =~= string_views(tokens@).take(i as int),
        decreases tokens@.len() - i,
    {
        let ghost before = words@;
        words.push(chars_of(tokens[i].as_str()));
        assert(views(words@) =~= views(before).push(tokens@[i as int]@));
        assert(string_views(tokens@).take(i + 1) =~= string_views(tokens@).take(i as int).push(
            tokens@[i as int]@,
        ));
        i = i + 1;
    }
    assert(string_views(tokens@).take(i as int) =~= string_views(tokens@));
    clean_words(&words)
}

/// The values of the environment variables that override the file, `None`
/// where one is unset: `BUTLER_SSH_TARGET`, `BUTLER_SSH_BINARY`,
/// `BUTLER_OOD_DATA_ROOT`, `BUTLER_SQUEUE_BINARY`, `BUTLER_SCANCEL_BINARY`,
/// `BUTLER_SSH_CONFIG`, `BUTLER_SSH_CONTROL_PATH`, `BUTLER_SSH_PORT`,
/// `BUTLER_SSH_MULTIPLEX` and `BUTLER_OOD_APP_TOKENS`.
#[derive(Clone, Debug)]
pub struct EnvironmentOverrides {
    pub ssh_target: Option<String>,
    pub ssh_binary: Option<String>,
    pub ood_data_root: Option<String>,
    pub squeue_binary: Option<String>,
    pub scancel_binary: Option<String>,
    pub ssh_config: Option<String>,
    pub ssh_control_path: Option<String>,
    pub ssh_port: Option<String>,
    pub ssh_multiplex: Option<String>,
    pub ood_app_tokens: Option<String>,
}

pub open spec fn override_or(value: Option<String>, current: Seq<char>) -> Seq<char> {
    match value {
        Some(v) => v@,
        None => current,
    }
}

/// Whether `BUTLER_SSH_PORT` is set to something that is no TCP port.
pub open spec fn bad_port(env: EnvironmentOverrides) -> bool {
    env.ssh_port matches Some(p) && parse_unsigned(p@, 65535) is None
}

/// Whether `BUTLER_SSH_MULTIPLEX` is set to something that is no boolean.
pub open spec fn bad_multiplex(env: EnvironmentOverrides) -> bool {
    env.ssh_multiplex matches Some(m) && bool_word(m@) is None
}

/// The error that the environment gives, the port checked first.
pub open spec fn environment_error(env: EnvironmentOverrides) -> Option<Seq<char>> {
    if bad_port(env) {
        Some("BUTLER_SSH_PORT must be a valid TCP port"@)
    } else if bad_multiplex(env) {
        Some("BUTLER_SSH_MULTIPLEX must be true or false"@)
    } else {
        None
    }
}

pub open spec fn port_after(env: EnvironmentOverrides, current: Option<u16>) -> Option<u16> {
    match env.ssh_port {
        Some(p) => match parse_unsigned(p@, 65535) {
            Some(n) => Some(n as u16),
            None => current,
        },
        None => current,
    }
}

pub open spec fn multiplex_after(env: EnvironmentOverrides, current: bool) -> bool {
    match env.ssh_multiplex {
        Some(m) => match bool_word(m@) {
            Some(b) => b,
            None => current,
        },
        None => current,
    }
}

pub open spec fn tokens_after(env: EnvironmentOverrides, current: Seq<Seq<char>>) -> Seq<Seq<char>> {
    match env.ood_app_tokens {
        Some(v) => token_list(v@),
        None => current,
    }
}

pub open spec fn control_path_after(env: EnvironmentOverrides, current: Option<Seq<char>>) -> Option<
    Seq<char>,
> {
    match env.ssh_control_path {
        Some(v) => nonempty_trimmed(v@),
        None => current,
    }
}

/// `config.ssh.config_file` after a setting of it to `value` expanded.
pub open spec fn expanded_file(file: Option<String>, value: Seq<char>, home: Option<Seq<char>>) -> bool {
    file matches Some(f) && home_expansion(f@, value, home)
}

fn override_string(value: &Option<String>, destination: &mut String)
    ensures
        final(destination)@ == override_or(*value, old(destination)@),
{
    match value {
        Some(v) => {
            *destination = v.clone();
        },
        None => {},
    }
}

/// Applies the environment's overrides to `config`, in the order of the
/// variables above; a port or a multiplex setting that cannot be read
/// stops there with its error.
pub fn apply_environment(config: &mut ButlerConfig, env: &EnvironmentOverrides, home: Option<&str>) -> (r:
    Result<(), String>)
    ensures
        final(config).ssh.target@ == override_or(env.ssh_target, old(config).ssh.target@),
        final(config).ssh.binary@ == override_or(env.ssh_binary, old(config).ssh.binary@),
        final(config).ood.data_root@ == override_or(env.ood_data_root, old(config).ood.data_root@),
        final(config).slurm.squeue_binary@ == override_or(
            env.squeue_binary,
            old(config).slurm.squeue_binary@,
        ),
        final(config).slurm.scancel_binary@ == override_or(
            env.scancel_binary,
            old(config).slurm.scancel_binary@,
        ),
        match env.ssh_config {
            Some(v) => expanded_file(final(config).ssh.config_file, v@, home_view(home)),
            None => final(config).ssh.config_file == old(config).ssh.config_file,
        },
        opt_view(final(config).ssh.control_path) == control_path_after(
            *env,
            opt_view(old(config).ssh.control_path),
        ),
        final(config).ssh.port == port_after(*env, old(config).ssh.port),
        final(config).ssh.multiplex == (if bad_port(*env) {
            old(config).ssh.multiplex
        } else {
            multiplex_after(*env, old(config).ssh.multiplex)
        }),
        string_views(final(config).ood.app_tokens@) == (if environment_error(*env) is Some {
            string_views(old(config).ood.app_tokens@)
        } else {
            tokens_after(*env, string_views(old(config).ood.app_tokens@))
        }),
        final(config).ssh.connect_timeout_seconds == old(config).ssh.connect_timeout_seconds,
        final(config).ssh.command_timeout_seconds == old(config).ssh.command_timeout_seconds,
        final(config).ssh.control_persist_seconds == old(config).ssh.control_persist_seconds,
        r is Ok <==> environment_error(*env) is None,
        r matches Err(e) ==> environment_error(*env) == Some(e@),
{
    override_string(&env.ssh_target, &mut config.ssh.target);
    override_string(&env.ssh_binary, &mut config.ssh.binary);
    override_string(&env.ood_data_root, &mut config.ood.data_root);
    override_string(&env.squeue_binary, &mut config.slurm.squeue_binary);
    override_string(&env.scancel_binary, &mut config.slurm.scancel_binary);
    match &env.ssh_config {
        Some(v) => {
            config.ssh.config_file = Some(expand_local_home(v.as_str(), home));
        },
        None => {},
    }
    match &env.ssh_control_path {
        Some(v) => {
            config.ssh.control_path = nonempty(v.as_str());
        },
        None => {},
    }
    match &env.ssh_port {
        Some(v) => {
            let raw = chars_of(v.as_str());
            match parse_decimal(raw.as_slice(), 65535) {
                Some(p) => {
                    config.ssh.port = Some(p as u16);
                },
                None => {
                    return Err("BUTLER_SSH_PORT must be a valid TCP port".to_string());
                },
            }
        },
        None => {},
    }
    match &env.ssh_multiplex {
        Some(v) => {
            match parse_bool("BUTLER_SSH_MULTIPLEX", v.as_str()) {
                Ok(b) => {
                    config.ssh.multiplex = b;
                },
                Err(e) => {
                    proof {
                        reveal_strlit("BUTLER_SSH_MULTIPLEX");
                        reveal_strlit(" must be true or false");
                        reveal_strlit("BUTLER_SSH_MULTIPLEX must be true or false");
                        assert(e@ =~= "BUTLER_SSH_MULTIPLEX must be true or false"@);
                    }
                    return Err(e);
                },
            }
        },
        None => {},
    }
    match &env.ood_app_tokens {
        Some(v) => {
            config.ood.app_tokens = parse_token_list(v.as_str());
        },
        None => {},
    }
    Ok(())
}

fn trim_string(value: &mut String)
    ensures
        final(value)@ == trim(old(value)@),
{
    let raw = chars_of(value.as_str());
    let t = trim_chars(raw.as_slice());
    *value = string_of(t.as_slice());
}

/// Trims the names and paths, drops empty application tokens and an empty
/// control path, and expands `~` in the SSH configuration file.
pub fn normalize(config: &mut ButlerConfig, home: Option<&str>)
    ensures
        final(config).ssh.target@ == trim(old(config).ssh.target@),
        final(config).ssh.binary@ == trim(old(config).ssh.binary@),
        final(config).ood.data_root@ == trim(old(config).ood.data_root@),
        final(config).slurm.squeue_binary@ == trim(old(config).slurm.squeue_binary@),
        final(config).slurm.scancel_binary@ == trim(old(config).slurm.scancel_binary@),
        string_views(final(config).ood.app_tokens@) == nonempty_words(
            trimmed_all(string_views(old(config).ood.app_tokens@)),
        ),
        match old(config).ssh.config_file {
            Some(p) => expanded_file(final(config).ssh.config_file, p@, home_view(home)),
            None => final(config).ssh.config_file is None,
        },
        opt_view(final(config).ssh.control_path) == match opt_view(old(config).ssh.control_path) {
            Some(p) => nonempty_trimmed(p),
            None => None,
        },
        final(config).ssh.port == old(config).ssh.port,
        final(config).ssh.multiplex == old(config).ssh.multiplex,
        final(config).ssh.connect_timeout_seconds == old(config).ssh.connect_timeout_seconds,
        final(config).ssh.command_timeout_seconds == old(config).ssh.command_timeout_seconds,
        final(config).ssh.control_persist_seconds == old(config).ssh.control_persist_seconds,
{
    trim_string(&mut config.ssh.target);
    trim_string(&mut config.ssh.binary);
    trim_string(&mut config.ood.data_root);
    trim_string(&mut config.slurm.squeue_binary);
    trim_string(&mut config.slurm.scancel_binary);
    config.ood.app_tokens = clean_tokens(&config.ood.app_tokens);
    let file = match &config.ssh.config_file {
        Some(p) => Some(expand_local_home(p.as_str(), home)),
        None => None,
    };
    config.ssh.config_file = file;
    let control = match &config.ssh.control_path {
        Some(p) => nonempty(p.as_str()),
        None => None,
    };
    config.ssh.control_path = control;
}

/// Whether some token holds a character that would break a line.
pub open spec fn some_token_breaks(tokens: Seq<Seq<char>>) -> bool {
    exists|i: int| 0 <= i < tokens.len() && has_control_break(#[trigger] tokens[i])
}

/// What is wrong with `config`, the first failing check in the order below,
/// or nothing. `path` names the file in the message for a missing target.
pub open spec fn config_error(config: ButlerConfig, path: Seq<char>) -> Option<Seq<char>> {
    let ssh = config.ssh;
    if ssh.target@.len() == 0 {
        Some(
            "Butler is not configured. Copy config.example.json to "@ + path
                + " and set ssh.target, or set BUTLER_SSH_TARGET."@,
        )
    } else if starts_with(ssh.target@, "-"@) || has_control_break(ssh.target@) {
        Some("ssh.target is invalid"@)
    } else if ssh.port == Some(0u16) {
        Some("ssh.port cannot be 0"@)
    } else if ssh.connect_timeout_seconds == 0 || ssh.command_timeout_seconds == 0 {
        Some("SSH timeout values must be greater than 0"@)
    } else if ssh.binary@.len() == 0 || config.slurm.squeue_binary@.len() == 0
        || config.slurm.scancel_binary@.len() == 0 {
        Some("Configured executable names cannot be empty"@)
    } else if config.ood.data_root@.len() == 0 || has_control_break(config.ood.data_root@) {
        Some("ood.dataRoot is invalid"@)
    } else if some_token_breaks(string_views(config.ood.app_tokens@)) {
        Some("ood.appTokens contains an invalid token"@)
    } else if ssh.control_path matches Some(p) && has_control_break(p@) {
        Some("ssh.controlPath is invalid"@)
    } else {
        None
    }
}

fn breaks(value: &str) -> (r: bool)
    ensures
        r == has_control_break(value@),
{
    let raw = chars_of(value);
    contains_control_break(raw.as_slice())
}

fn any_token_breaks(tokens: &Vec<String>) -> (r: bool)
    ensures
        r == some_token_breaks(string_views(tokens@)),
{
    let ghost tv = string_views(tokens@);
    let mut i: usize = 0;
    while i < tokens.len()
        invariant
            i <= tokens@.len(),
            tv == string_views(tokens@),
            forall|j: int| 0 <= j < i ==> !has_control_break(#[trigger] tv[j]),
        decreases tokens@.len() - i,
    {
        if breaks(tokens[i].as_str()) {
            assert(has_control_break(tv[i as int]));
            return true;
        }
        i = i + 1;
    }
    false
}

/// Checks `config`, read from `path`, before anything uses it.
pub fn validate(config: &ButlerConfig, path: &str) -> (r: Result<(), String>)
    ensures
        r is Ok <==> config_error(*config, path@) is None,
        r matches Err(e) ==> config_error(*config, path@) == Some(e@),
{
    let ssh = &config.ssh;
    if ssh.target.as_str().is_empty() {
        let p = chars_of(path);
        return Err(
            text_around(
                "Butler is not configured. Copy config.example.json to ",
                p.as_slice(),
                " and set ssh.target, or set BUTLER_SSH_TARGET.",
            ),
        );
    }
    let target = chars_of(ssh.target.as_str());
    let dash = chars_of("-");
    if starts_with_chars(target.as_slice(), dash.as_slice()) || contains_control_break(
        target.as_slice(),
    ) {
        return Err("ssh.target is invalid".to_string());
    }
    match ssh.port {
        Some(0) => {
            return Err("ssh.port cannot be 0".to_string());
        },
        _ => {},
    }
    if ssh.connect_timeout_seconds == 0 || ssh.command_timeout_seconds == 0 {
        return Err("SSH timeout values must be greater than 0".to_string());
    }
    if ssh.binary.as_str().is_empty() || config.slurm.squeue_binary.as_str().is_empty()
        || config.slurm.scancel_binary.as_str().is_empty() {
        return Err("Configured executable names cannot be empty".to_string());
    }
    if config.ood.data_root.as_str().is_empty() || breaks(config.ood.data_root.as_str()) {
        return Err("ood.dataRoot is invalid".to_string());
    }
    if any_token_breaks(&config.ood.app_tokens) {
        return Err("ood.appTokens contains an invalid token".to_string());
    }
    match &ssh.control_path {
        Some(p) => {
            if breaks(p.as_str()) {
                return Err("ssh.controlPath is invalid".to_string());
            }
        },
        None => {},
    }
    Ok(())
}

/// Whether `config` is what `base` becomes once the environment is applied
/// and the result normalized.
pub open spec fn resolved_from(
    config: ButlerConfig,
    base: ButlerConfig,
    env: EnvironmentOverrides,
    home: Option<Seq<char>>,
) -> bool {
    &&& config.ssh.target@ == trim(override_or(env.ssh_target, base.ssh.target@))
    &&& config.ssh.binary@ == trim(override_or(env.ssh_binary, base.ssh.binary@))
    &&& config.ood.data_root@ == trim(override_or(env.ood_data_root, base.ood.data_root@))
    &&& config.slurm.squeue_binary@ == trim(override_or(env.squeue_binary, base.slurm.squeue_binary@))
    &&& config.slurm.scancel_binary@ == trim(
        override_or(env.scancel_binary, base.slurm.scancel_binary@),
    )
    &&& match env.ssh_config {
        Some(v) => exists|q: Seq<char>|
            #[trigger] home_expansion(q, v@, home) && expanded_file(config.ssh.config_file, q, home),
        None => match base.ssh.config_file {
            Some(p) => expanded_file(config.ssh.config_file, p@, home),
            None => config.ssh.config_file is None,
        },
    }
    &&& opt_view(config.ssh.control_path) == match control_path_after(
        env,
        opt_view(base.ssh.control_path),
    ) {
        Some(p) => nonempty_trimmed(p),
        None => None,
    }
    &&& config.ssh.port == port_after(env, base.ssh.port)
    &&& config.ssh.multiplex == multiplex_after(env, base.ssh.multiplex)
    &&& string_views(config.ood.app_tokens@) == nonempty_words(
        trimmed_all(tokens_after(env, string_views(base.ood.app_tokens@))),
    )
    &&& config.ssh.connect_timeout_seconds == base.ssh.connect_timeout_seconds
    &&& config.ssh.command_timeout_seconds == base.ssh.command_timeout_seconds
    &&& config.ssh.control_persist_seconds == base.ssh.control_persist_seconds
}

/// Finishes loading a configuration read from `path` (or the defaults where
/// there was no file): applies the environment, normalizes, validates.
pub fn resolve_config(
    config: ButlerConfig,
    env: &EnvironmentOverrides,
    home: Option<&str>,
    path: String,
) -> (r: Result<LoadedConfig, String>)
    ensures
        match r {
            Ok(loaded) => {
                &&& loaded.path@ == path@
                &&& environment_error(*env) is None
                &&& resolved_from(loaded.config, config, *env, home_view(home))
                &&& config_error(loaded.config, path@) is None
            },
            Err(e) => match environment_error(*env) {
                Some(m) => e@ == m,
                None => exists|c: ButlerConfig|
                    #[trigger] resolved_from(c, config, *env, home_view(home)) && config_error(c, path@)
                        == Some(e@),
            },
        },
{
    let ghost base = config;
    let mut config = config;
    match apply_environment(&mut config, env, home) {
        Ok(()) => {},
        Err(e) => {
            return Err(e);
        },
    }
    let ghost applied = config;
    normalize(&mut config, home);
    proof {
        if env.ssh_config is Some {
            let v = env.ssh_config->0;
            let q = applied.ssh.config_file->0@;
            assert(home_expansion(q, v@, home_view(home)));
        }
        assert(resolved_from(config, base, *env, home_view(home)));
    }
    match validate(&config, path.as_str()) {
        Ok(()) => Ok(LoadedConfig { config, path }),
        Err(e) => Err(e),
    }
}

} // verus!
