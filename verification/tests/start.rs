use eyedropper::activation::{object_path, platform_data, requested, Activation};
use eyedropper::app::APP_ID;
use eyedropper::cli::{parse_args, Flags, Request};
use eyedropper::config::{ColorFormat, Config};

fn args(all: &[&str]) -> Vec<String> {
    all.iter().map(|a| a.to_string()).collect()
}

#[test]
fn no_arguments_run_the_applet() {
    assert_eq!(parse_args(&args(&[])), Request::Run(Flags { pick: false }));
    assert_eq!(Flags::default(), Flags { pick: false });
}

#[test]
fn pick_can_be_asked_for_in_two_ways() {
    assert_eq!(parse_args(&args(&["--pick"])), Request::Run(Flags { pick: true }));
    assert_eq!(parse_args(&args(&["-p"])), Request::Run(Flags { pick: true }));
    assert_eq!(parse_args(&args(&["-p", "--pick"])), Request::Run(Flags { pick: true }));
}

#[test]
fn help_and_unknown_arguments_stop_the_reading() {
    assert_eq!(parse_args(&args(&["--help"])), Request::Help);
    assert_eq!(parse_args(&args(&["-p", "-h", "--nope"])), Request::Help);
    assert_eq!(parse_args(&args(&["--nope"])), Request::Unknown("--nope".to_string()));
    assert_eq!(parse_args(&args(&["-p", "x", "-h"])), Request::Unknown("x".to_string()));
    assert_eq!(parse_args(&args(&[""])), Request::Unknown(String::new()));
    assert_eq!(parse_args(&args(&["--picks"])), Request::Unknown("--picks".to_string()));
}

#[test]
fn only_the_pick_action_is_known() {
    assert_eq!(requested("pick"), Some(Activation::Pick));
    assert_eq!(requested("Pick"), None);
    assert_eq!(requested(""), None);
    assert_eq!(requested("pick "), None);
}

#[test]
fn the_object_path_comes_from_the_app_id() {
    assert_eq!(object_path(APP_ID), "/io/github/nalladev/CosmicExtAppletEyedropper");
    assert_eq!(object_path(""), "/");
    assert_eq!(object_path("a..ü.b"), "/a//ü/b");
}

#[test]
fn platform_data_holds_the_tokens_that_are_there() {
    let text = |s: &str| Some(s.to_string());
    assert!(platform_data(None, None).is_empty());
    assert_eq!(
        platform_data(text("t"), None),
        vec![("activation-token", "t".to_string())]
    );
    assert_eq!(
        platform_data(None, text("s")),
        vec![("desktop-startup-id", "s".to_string())]
    );
    assert_eq!(
        platform_data(text("t"), text("s")),
        vec![("activation-token", "t".to_string()), ("desktop-startup-id", "s".to_string())]
    );
}

#[test]
fn settings_have_defaults() {
    let config = Config::default();
    assert_eq!(config.restore_token, None);
    assert!(!config.copy_on_select);
    assert_eq!(config.default_color_format, ColorFormat::Hex);
    assert_eq!(ColorFormat::default(), ColorFormat::Hex);
}

#[test]
fn formats_have_places() {
    for format in [ColorFormat::Hex, ColorFormat::Rgb, ColorFormat::Hsl] {
        assert_eq!(ColorFormat::at_position(format.position()), Some(format));
    }
    assert_eq!(ColorFormat::Rgb.position(), 1);
    assert_eq!(ColorFormat::at_position(3), None);
    assert_eq!(ColorFormat::at_position(usize::MAX), None);
}
