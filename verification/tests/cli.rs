use paladocs::cli::{parse_args, Command, Mode, USAGE};

fn argv(parts: &[&str]) -> Vec<String> {
    parts.iter().map(|s| s.to_string()).collect()
}

#[test]
fn parse_present() {
    assert_eq!(
        parse_args(&argv(&["present", "deck.typ"])),
        Ok(Command::Present { root: "deck.typ".to_string(), mode: Mode::Auto, cell_spans: true })
    );
}

#[test]
fn parse_preview_with_control() {
    assert_eq!(
        parse_args(&argv(&["preview", "deck.typ", "--control", "/tmp/p.sock"])),
        Ok(Command::Preview {
            root: "deck.typ".to_string(),
            control: Some("/tmp/p.sock".to_string()),
            mode: Mode::Auto,
            cell_spans: true,
        })
    );
}

#[test]
fn parse_preview_control_before_root() {
    assert_eq!(
        parse_args(&argv(&["preview", "--control", "s.sock", "deck.typ"])),
        Ok(Command::Preview {
            root: "deck.typ".to_string(),
            control: Some("s.sock".to_string()),
            mode: Mode::Auto,
            cell_spans: true,
        })
    );
}

#[test]
fn parse_present_mode_values() {
    for (arg, want) in [("auto", Mode::Auto), ("image", Mode::Image), ("cell", Mode::Cell)] {
        assert_eq!(
            parse_args(&argv(&["present", "deck.typ", "--mode", arg])),
            Ok(Command::Present { root: "deck.typ".to_string(), mode: want, cell_spans: true })
        );
    }
}

#[test]
fn parse_present_mode_before_root() {
    assert_eq!(
        parse_args(&argv(&["present", "--mode", "cell", "deck.typ"])),
        Ok(Command::Present { root: "deck.typ".to_string(), mode: Mode::Cell, cell_spans: true })
    );
}

#[test]
fn parse_preview_with_mode() {
    assert_eq!(
        parse_args(&argv(&["preview", "deck.typ", "--control", "s.sock", "--mode", "cell"])),
        Ok(Command::Preview {
            root: "deck.typ".to_string(),
            control: Some("s.sock".to_string()),
            mode: Mode::Cell,
            cell_spans: true,
        })
    );
}

#[test]
fn present_mode_default_is_auto() {
    let Ok(Command::Present { mode, .. }) = parse_args(&argv(&["present", "deck.typ"])) else {
        panic!("expected Present");
    };
    assert_eq!(mode, Mode::Auto);
}

#[test]
fn cell_spans_default_true_and_disabled_by_flag() {
    let Ok(Command::Present { cell_spans, .. }) = parse_args(&argv(&["present", "deck.typ"])) else {
        panic!("expected Present");
    };
    assert!(cell_spans);
    let Ok(Command::Present { cell_spans, .. }) = parse_args(&argv(&["present", "deck.typ", "--no-cell-spans"]))
    else {
        panic!("expected Present");
    };
    assert!(!cell_spans);
    let Ok(Command::Preview { cell_spans, .. }) = parse_args(&argv(&["preview", "deck.typ", "--no-cell-spans"]))
    else {
        panic!("expected Preview");
    };
    assert!(!cell_spans);
}

#[test]
fn unknown_mode_value_errors() {
    assert!(parse_args(&argv(&["present", "deck.typ", "--mode", "ascii"])).is_err());
}

#[test]
fn mode_missing_value_errors() {
    assert!(parse_args(&argv(&["present", "deck.typ", "--mode"])).is_err());
}

#[test]
fn mode_specified_twice_errors() {
    assert!(parse_args(&argv(&["present", "deck.typ", "--mode", "cell", "--mode", "image"])).is_err());
}

#[test]
fn parse_build() {
    assert_eq!(
        parse_args(&argv(&["build", "deck.typ", "-o", "out.pdf"])),
        Ok(Command::Build { root: "deck.typ".to_string(), out: "out.pdf".to_string() })
    );
}

#[test]
fn parse_preview_without_control_is_keyboard_only() {
    assert_eq!(
        parse_args(&argv(&["preview", "deck.typ"])),
        Ok(Command::Preview { root: "deck.typ".to_string(), control: None, mode: Mode::Auto, cell_spans: true })
    );
}

#[test]
fn build_missing_output_errors() {
    assert!(parse_args(&argv(&["build", "deck.typ"])).is_err());
}

#[test]
fn unknown_subcommand_errors() {
    assert!(parse_args(&argv(&["frobnicate"])).is_err());
}

#[test]
fn empty_args_errors() {
    assert!(parse_args(&[]).is_err());
}

#[test]
fn extra_positional_errors() {
    assert!(parse_args(&argv(&["present", "a.typ", "b.typ"])).is_err());
}

#[test]
fn error_messages_name_the_problem() {
    assert_eq!(parse_args(&[]), Err("missing subcommand".to_string()));
    assert_eq!(parse_args(&argv(&["frobnicate"])), Err("unknown subcommand: frobnicate".to_string()));
    assert_eq!(parse_args(&argv(&["present", "-x"])), Err("unknown flag: -x".to_string()));
    assert_eq!(
        parse_args(&argv(&["present", "a.typ", "b.typ"])),
        Err("unexpected extra argument: b.typ (already have ROOT.typ)".to_string())
    );
    assert_eq!(
        parse_args(&argv(&["present", "deck.typ", "--mode", "ascii"])),
        Err("unknown --mode value: ascii".to_string())
    );
    assert_eq!(
        parse_args(&argv(&["present", "deck.typ", "--mode"])),
        Err("--mode requires a value (auto|image|cell)".to_string())
    );
    assert_eq!(
        parse_args(&argv(&["present", "--mode", "cell", "--mode", "image"])),
        Err("--mode specified more than once".to_string())
    );
    assert_eq!(parse_args(&argv(&["present"])), Err("present: missing ROOT.typ".to_string()));
    assert_eq!(parse_args(&argv(&["build", "deck.typ"])), Err("build: missing -o <OUT.pdf>".to_string()));
    assert_eq!(parse_args(&argv(&["preview", "d.typ", "--control"])), Err("missing argument: SOCKET".to_string()));
    assert_eq!(parse_args(&argv(&["build", "d.typ", "--output"])), Err("missing argument: OUT.pdf".to_string()));
    assert_eq!(parse_args(&argv(&["--help"])), Err(USAGE.to_string()));
}

#[test]
fn flags_of_other_subcommands_are_unknown() {
    assert_eq!(parse_args(&argv(&["build", "d.typ", "--mode", "cell"])), Err("unknown flag: --mode".to_string()));
    assert_eq!(parse_args(&argv(&["present", "d.typ", "--control", "s"])), Err("unknown flag: --control".to_string()));
}

#[test]
fn mode_parse_is_lower_case_only() {
    assert_eq!(Mode::parse("cell"), Some(Mode::Cell));
    assert_eq!(Mode::parse("Cell"), None);
    assert_eq!(Mode::default(), Mode::Auto);
}
