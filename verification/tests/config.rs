use butler::config::{parse_bool, validate, ButlerConfig};

#[test]
fn defaults_match_standard_ood_and_slurm_layout() {
    let config = ButlerConfig::default();
    assert_eq!(config.ood.data_root, "~/ondemand/data/sys/dashboard");
    assert_eq!(config.slurm.squeue_binary, "squeue");
    assert_eq!(config.slurm.scancel_binary, "scancel");
}

#[test]
fn validation_requires_an_ssh_target() {
    let config = ButlerConfig::default();
    assert!(validate(&config, "config.json").is_err());
}

#[test]
fn boolean_environment_values_are_strict() {
    assert!(parse_bool("TEST", "yes").unwrap());
    assert!(!parse_bool("TEST", "OFF").unwrap());
    assert!(parse_bool("TEST", "maybe").is_err());
}

use butler::config::{
    apply_environment, default_path, expand_local_home, normalize, parse_token_list, resolve_config,
    EnvironmentOverrides,
};

fn no_overrides() -> EnvironmentOverrides {
    EnvironmentOverrides {
        ssh_target: None,
        ssh_binary: None,
        ood_data_root: None,
        squeue_binary: None,
        scancel_binary: None,
        ssh_config: None,
        ssh_control_path: None,
        ssh_port: None,
        ssh_multiplex: None,
        ood_app_tokens: None,
    }
}

#[test]
fn boolean_errors_name_the_setting() {
    assert_eq!(parse_bool("BUTLER_SSH_MULTIPLEX", "sometimes").unwrap_err(), "BUTLER_SSH_MULTIPLEX must be true or false");
    assert!(parse_bool("X", " 1 ").unwrap());
    assert!(!parse_bool("X", "No").unwrap());
}

#[test]
fn the_config_file_lives_in_the_config_directory() {
    let path = default_path("/home/me/.config/butler");
    assert!(path.starts_with("/home/me/.config/butler"));
    assert!(path.ends_with("config.json"));
    assert!(path.len() > "/home/me/.config/butler".len() + "config.json".len() - 1);
}

#[test]
fn home_is_expanded_only_at_the_start() {
    assert_eq!(expand_local_home("~", Some("/home/me")), "/home/me");
    assert!(expand_local_home("~/x/y", Some("/home/me")).starts_with("/home/me"));
    assert!(expand_local_home("~/x/y", Some("/home/me")).ends_with("x/y"));
    assert_eq!(expand_local_home("a/~/b", Some("/home/me")), "a/~/b");
    assert_eq!(expand_local_home("~/x", None), "~/x");
}

#[test]
fn token_lists_are_trimmed_and_skip_empty_entries() {
    assert_eq!(parse_token_list(" sys/a , ,b,"), vec!["sys/a".to_string(), "b".to_string()]);
}

#[test]
fn environment_overrides_apply_in_order() {
    let mut config = ButlerConfig::default();
    let mut env = no_overrides();
    env.ssh_target = Some("me@login".to_string());
    env.ssh_port = Some("+2200".to_string());
    env.ssh_multiplex = Some("off".to_string());
    env.ood_app_tokens = Some("a,b".to_string());
    env.ssh_control_path = Some("   ".to_string());
    apply_environment(&mut config, &env, None).unwrap();
    assert_eq!(config.ssh.target, "me@login");
    assert_eq!(config.ssh.port, Some(2200));
    assert!(!config.ssh.multiplex);
    assert_eq!(config.ood.app_tokens, vec!["a".to_string(), "b".to_string()]);
    assert_eq!(config.ssh.control_path, None);
}

#[test]
fn a_bad_port_stops_the_environment() {
    let mut config = ButlerConfig::default();
    let mut env = no_overrides();
    env.ssh_port = Some("70000".to_string());
    env.ssh_multiplex = Some("maybe".to_string());
    env.ssh_binary = Some("/usr/bin/ssh".to_string());
    assert_eq!(
        apply_environment(&mut config, &env, None).unwrap_err(),
        "BUTLER_SSH_PORT must be a valid TCP port"
    );
    assert_eq!(config.ssh.binary, "/usr/bin/ssh");
    assert!(config.ssh.multiplex);

    let mut env = no_overrides();
    env.ssh_multiplex = Some("maybe".to_string());
    assert_eq!(
        apply_environment(&mut config, &env, None).unwrap_err(),
        "BUTLER_SSH_MULTIPLEX must be true or false"
    );
}

#[test]
fn normalization_trims_and_drops_empty_values() {
    let mut config = ButlerConfig::default();
    config.ssh.target = "  login  ".to_string();
    config.ood.app_tokens = vec![" a ".to_string(), "  ".to_string()];
    config.ssh.control_path = Some(" ".to_string());
    config.ssh.config_file = Some("~/.ssh/config".to_string());
    normalize(&mut config, Some("/home/me"));
    assert_eq!(config.ssh.target, "login");
    assert_eq!(config.ood.app_tokens, vec!["a".to_string()]);
    assert_eq!(config.ssh.control_path, None);
    let file = config.ssh.config_file.unwrap();
    assert!(file.starts_with("/home/me") && file.ends_with(".ssh/config"));
}

#[test]
fn validation_reports_each_problem() {
    let config = ButlerConfig::default();
    assert_eq!(
        validate(&config, "/cfg/config.json").unwrap_err(),
        "Butler is not configured. Copy config.example.json to /cfg/config.json and set ssh.target, or set BUTLER_SSH_TARGET."
    );
    let mut config = ButlerConfig::default();
    config.ssh.target = "-oProxyCommand=x".to_string();
    assert_eq!(validate(&config, "c").unwrap_err(), "ssh.target is invalid");
    config.ssh.target = "login".to_string();
    config.ssh.port = Some(0);
    assert_eq!(validate(&config, "c").unwrap_err(), "ssh.port cannot be 0");
    config.ssh.port = None;
    config.ssh.command_timeout_seconds = 0;
    assert_eq!(validate(&config, "c").unwrap_err(), "SSH timeout values must be greater than 0");
    config.ssh.command_timeout_seconds = 30;
    config.slurm.scancel_binary = String::new();
    assert_eq!(validate(&config, "c").unwrap_err(), "Configured executable names cannot be empty");
    config.slurm.scancel_binary = "scancel".to_string();
    config.ood.data_root = "a\nb".to_string();
    assert_eq!(validate(&config, "c").unwrap_err(), "ood.dataRoot is invalid");
    config.ood.data_root = "~/ood".to_string();
    config.ood.app_tokens = vec!["x\0".to_string()];
    assert_eq!(validate(&config, "c").unwrap_err(), "ood.appTokens contains an invalid token");
    config.ood.app_tokens = vec![];
    config.ssh.control_path = Some("p\r".to_string());
    assert_eq!(validate(&config, "c").unwrap_err(), "ssh.controlPath is invalid");
    config.ssh.control_path = None;
    assert!(validate(&config, "c").is_ok());
}

#[test]
fn loading_applies_environment_normalization_and_validation() {
    let mut env = no_overrides();
    env.ssh_target = Some("  me@login ".to_string());
    let loaded = resolve_config(ButlerConfig::default(), &env, None, "/c/config.json".to_string()).unwrap();
    assert_eq!(loaded.config.ssh.target, "me@login");
    assert_eq!(loaded.path, "/c/config.json");
    assert!(resolve_config(ButlerConfig::default(), &no_overrides(), None, "p".to_string()).is_err());
}

#[test]
fn the_config_path_has_one_separator() {
    assert_eq!(default_path("/cfg"), "/cfg/config.json");
    assert_eq!(default_path("/cfg/"), "/cfg/config.json");
    assert_eq!(default_path(""), "config.json");
}

#[test]
fn connection_sharing_follows_the_platform() {
    let windows = ButlerConfig::platform_default(false);
    assert!(!windows.ssh.multiplex);
    assert_eq!(windows.ssh.binary, "ssh");
    assert_eq!(windows.ssh.connect_timeout_seconds, 10);
    assert_eq!(windows.ssh.command_timeout_seconds, 30);
    assert_eq!(windows.ssh.control_persist_seconds, 600);
    assert_eq!(windows.ood.data_root, "~/ondemand/data/sys/dashboard");
    let unix = ButlerConfig::platform_default(true);
    assert!(unix.ssh.multiplex);
    assert_eq!(unix.ssh.target, "");
    assert_eq!(unix.ssh.control_path, None);
}
