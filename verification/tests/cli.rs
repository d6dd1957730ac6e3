use crabbucket::cli::{Command, help, parse, plural, value, version};

fn args(list: &[&str]) -> Vec<String> {
    list.iter().map(|arg| arg.to_string()).collect()
}

#[test]
fn no_arguments_is_help() {
    assert_eq!(parse(&args(&[])).unwrap(), Command::Help);
}

#[test]
fn build_defaults_to_the_current_directory() {
    let Command::Build { dir, options } = parse(&args(&["build"])).unwrap() else {
        panic!("not a build");
    };
    assert_eq!(dir, ".");
    assert!(options.out_dir.is_none() && options.base.is_none());
}

#[test]
fn build_takes_a_directory_and_both_overrides() {
    let Command::Build { dir, options } =
        parse(&args(&["build", "site", "--out", "/tmp/x", "--base", "/repo/"])).unwrap()
    else {
        panic!("not a build");
    };
    assert_eq!(dir, "site");
    assert_eq!(options.out_dir.as_deref(), Some("/tmp/x"));
    assert_eq!(options.base.as_deref(), Some("/repo/"));
}

#[test]
fn a_double_dash_ends_option_processing() {
    let Command::Build { dir, .. } = parse(&args(&["build", "--", "--odd"])).unwrap() else {
        panic!("not a build");
    };
    assert_eq!(dir, "--odd");
}

#[test]
fn an_option_without_its_argument_is_a_usage_error() {
    assert!(parse(&args(&["build", "--out"])).is_err());
    assert_eq!(
        parse(&args(&["build", "--out"])).unwrap_err(),
        "option '--out' requires an argument"
    );
}

#[test]
fn unknown_options_and_commands_are_rejected() {
    assert!(parse(&args(&["build", "--nope"])).is_err());
    assert!(parse(&args(&["frobnicate"])).is_err());
    assert!(parse(&args(&["--nope"])).is_err());
    assert_eq!(parse(&args(&["frobnicate"])).unwrap_err(), "unrecognized command 'frobnicate'");
    assert_eq!(parse(&args(&["--nope"])).unwrap_err(), "unrecognized option '--nope'");
    assert_eq!(
        parse(&args(&["build", "a", "b"])).unwrap_err(),
        "unexpected argument 'b'"
    );
}

#[test]
fn dev_and_serve_both_point_at_turborust() {
    assert_eq!(parse(&args(&["dev"])).unwrap(), Command::NoDevServer);
    assert_eq!(parse(&args(&["serve"])).unwrap(), Command::NoDevServer);
}

#[test]
fn new_requires_a_directory() {
    assert!(parse(&args(&["new"])).is_err());
    assert!(parse(&args(&["new", "site"])).is_ok());
}

#[test]
fn new_takes_its_flags_in_any_order() {
    let Command::New(request) =
        parse(&args(&["new", "--router", "site", "--base", "/", "--force"])).unwrap()
    else {
        panic!("not a new");
    };
    assert_eq!(request.dir, "site");
    assert_eq!(request.base.as_deref(), Some("/"));
    assert!(request.router && request.force);
    assert!(request.theme.is_none());
}

#[test]
fn help_and_version_are_asked_for_in_gnu_spellings() {
    assert_eq!(parse(&args(&["-h"])).unwrap(), Command::Help);
    assert_eq!(parse(&args(&["help"])).unwrap(), Command::Help);
    assert_eq!(parse(&args(&["--version"])).unwrap(), Command::Version);
    assert!(version().starts_with("crab (crabbucket) "));
}

#[test]
fn help_documents_every_option_the_parser_accepts() {
    let text = help();
    for option in ["--out", "--base", "--router", "--force", "--help", "--version"] {
        assert!(text.contains(option), "{option} is not in --help");
    }
}

#[test]
fn a_value_is_the_next_argument() {
    let list = args(&["--out", "x"]);
    assert_eq!(value(&list, 0, "--out"), Ok("x".to_string()));
    assert!(value(&list, 1, "--out").is_err());
}

#[test]
fn one_is_singular() {
    assert_eq!(plural(1, "page", "pages"), "page");
    assert_eq!(plural(0, "page", "pages"), "pages");
    assert_eq!(plural(2, "page", "pages"), "pages");
}
