use cal::config::{CliOptions, Config, DisplayMode, apply_cli, config_format, ConfigFormat, FormatError, Colors};
use cal::daemon::{daemon_step, needs_scan, respond, tries_daemon, DaemonAction, DaemonEvent, DaemonPhase};
use cal::entry::Entry;

fn entry(name: &str) -> Entry {
    let mut e = Entry::default();
    e.name = name.to_string();
    e.command = name.to_string();
    e
}

#[test]
fn empty_request_gets_resident_entries() {
    let resident = vec![entry("a"), entry("b")];
    let mut request = Config::default();
    request.placeholder = Some("Search".to_string());
    let response = respond(request, &resident);
    assert!(response.daemon);
    assert_eq!(response.entries, resident);
    assert_eq!(response.placeholder.as_deref(), Some("Search"));
}

#[test]
fn request_with_entries_keeps_them() {
    let resident = vec![entry("a")];
    let mut request = Config::default();
    request.entries = vec![entry("mine")];
    let response = respond(request, &resident);
    assert!(response.daemon);
    assert_eq!(response.entries, vec![entry("mine")]);
}

#[test]
fn second_daemon_fails_without_removing_socket() {
    assert_eq!(
        daemon_step(DaemonPhase::Starting, DaemonEvent::BindRefused),
        (DaemonPhase::Terminating, DaemonAction::ExitWithError)
    );
    assert_eq!(
        daemon_step(DaemonPhase::Starting, DaemonEvent::Bound),
        (DaemonPhase::Listening, DaemonAction::AcceptNext)
    );
    assert_eq!(
        daemon_step(DaemonPhase::Listening, DaemonEvent::ConnectionDone),
        (DaemonPhase::Listening, DaemonAction::AcceptNext)
    );
    assert_eq!(
        daemon_step(DaemonPhase::Listening, DaemonEvent::Interrupted),
        (DaemonPhase::Terminating, DaemonAction::RemoveSocketAndExit)
    );
    assert_eq!(
        daemon_step(DaemonPhase::Starting, DaemonEvent::Interrupted),
        (DaemonPhase::Terminating, DaemonAction::Exit)
    );
    assert_eq!(
        daemon_step(DaemonPhase::Terminating, DaemonEvent::Interrupted),
        (DaemonPhase::Terminating, DaemonAction::Wait)
    );
}

#[test]
fn client_decisions() {
    let mut config = Config::default();
    assert!(tries_daemon(&config));
    assert!(needs_scan(&config));
    config.entries = vec![entry("x")];
    assert!(!needs_scan(&config));
    config.daemon = true;
    assert!(!tries_daemon(&config));
    assert!(needs_scan(&config));
}

#[test]
fn default_config_values() {
    let config = Config::default();
    assert!(!config.daemon);
    assert_eq!(config.mode, DisplayMode::Full);
    assert!(config.entries.is_empty());
    assert_eq!(config.colors.background, "#282c34");
    assert_eq!(config.colors.hover, "#3e4451");
    assert_eq!(config.colors.selected, "#4b5263");
    assert_eq!(config.colors.text, "#abb2bf");
    assert_eq!(config.colors.text_dim, "#5c6370");
    assert_eq!(config.colors.accent, "#61afef");
}

#[test]
fn command_line_overrides_configuration() {
    let mut config = Config::default();
    config.icon_theme = Some("Adwaita".to_string());
    config.placeholder = Some("Find".to_string());
    config.mode = DisplayMode::Icon;
    let cli = CliOptions { daemon: true, icon_theme: Some("Papirus".to_string()), placeholder: None, mode: None };
    let mut colors = Colors::default();
    colors.accent = "#ffffff".to_string();
    let merged = apply_cli(config, cli, Some(colors.clone()));
    assert!(merged.daemon);
    assert_eq!(merged.icon_theme.as_deref(), Some("Papirus"));
    assert_eq!(merged.placeholder.as_deref(), Some("Find"));
    assert_eq!(merged.mode, DisplayMode::Icon);
    assert_eq!(merged.colors, colors);
    let cli = CliOptions { daemon: false, icon_theme: None, placeholder: None, mode: Some(DisplayMode::Lines) };
    let merged = apply_cli(merged, cli, None);
    assert!(!merged.daemon);
    assert_eq!(merged.mode, DisplayMode::Lines);
    assert_eq!(merged.colors, colors);
}

#[test]
fn configuration_file_formats() {
    assert_eq!(config_format("toml"), Ok(ConfigFormat::Toml));
    assert_eq!(config_format("json"), Ok(ConfigFormat::Json));
    assert_eq!(config_format("yaml"), Err(FormatError::Yaml));
    assert_eq!(config_format("yml"), Err(FormatError::Yaml));
    assert_eq!(config_format("ini"), Err(FormatError::Unsupported));
    assert_eq!(config_format(""), Err(FormatError::Unsupported));
}
