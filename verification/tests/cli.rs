use std::path::PathBuf;
use typerlude::app::CustomTextSource;
use typerlude::cli::{
    file_startup, file_text, format_load_warning, is_input_error, is_windows_device_name, language_name,
    parse_args, reject_content_errors, run, stdin_startup, terminal_safe, validate_add_id,
    validate_disable_id, validate_text, Arg, CliError, Command, ContentCommand, Exit,
    PracticeArgs, Startup, Task,
};
use typerlude::content::ContentError;
use typerlude::diagnostic::format_content_error;
use typerlude::model::{Language, PracticeKind};
use typerlude::storage::LoadWarning;

fn args(values: &[&str]) -> Vec<Arg> {
    values
        .iter()
        .map(|value| Arg {
            text: Some((*value).to_string()),
            path: PathBuf::from(value),
        })
        .collect()
}

fn parse_error(values: &[&str]) -> CliError {
    parse_args(args(values)).unwrap_err()
}

#[test]
fn no_arguments_open_home() {
    assert_eq!(parse_args(Vec::new()).unwrap(), Command::Home);
}

#[test]
fn practice_modes_accept_language_and_allowed_durations() {
    assert_eq!(
        parse_args(args(&["quick"])).unwrap(),
        Command::Practice(PracticeArgs::new(PracticeKind::Quick))
    );
    assert_eq!(
        parse_args(args(&["quick", "--lang", "ko", "--time", "30"])).unwrap(),
        Command::Practice(PracticeArgs {
            kind: PracticeKind::Quick,
            language: Some(Language::Ko),
            seconds: Some(30),
            file: None,
        })
    );
    assert_eq!(
        parse_args(args(&["test", "--time", "+600", "--lang", "en"])).unwrap(),
        Command::Practice(PracticeArgs {
            kind: PracticeKind::Test,
            language: Some(Language::En),
            seconds: Some(600),
            file: None,
        })
    );
    for (word, kind) in [
        ("key", PracticeKind::Key),
        ("keys", PracticeKind::Key),
        ("word", PracticeKind::Words),
        ("words", PracticeKind::Words),
        ("sentence", PracticeKind::Sentence),
        ("sentences", PracticeKind::Sentence),
        ("long", PracticeKind::Long),
    ] {
        assert_eq!(
            parse_args(args(&[word])).unwrap(),
            Command::Practice(PracticeArgs::new(kind))
        );
    }
}

#[test]
fn practice_options_are_refused_with_their_reasons() {
    let cases: [(&[&str], &str); 11] = [
        (&["test", "--time", "90"], "invalid duration 90 for Test"),
        (&["quick", "--time", "60", "--time", "30"], "--time may be supplied only once"),
        (&["keys", "--time", "30"], "--time is not valid for Key"),
        (&["long", "--time", "30"], "--time is not valid for Long"),
        (
            &["quick", "--time", "abc"],
            "invalid duration \"abc\": invalid digit found in string",
        ),
        (
            &["quick", "--time", ""],
            "invalid duration \"\": cannot parse integer from empty string",
        ),
        (
            &["quick", "--time", "99999999999999999999"],
            "invalid duration \"99999999999999999999\": number too large to fit in target type",
        ),
        (&["quick", "--time"], "--time requires a duration"),
        (&["quick", "--lang", "fr"], "invalid language \"fr\"; expected ko or en"),
        (&["quick", "--lang", "ko", "--lang", "en"], "--lang may be supplied only once"),
        (&["quick", "extra"], "unknown or trailing option \"extra\""),
    ];
    for (values, message) in cases {
        let error = parse_error(values);
        assert_eq!(error.message, message, "{values:?}");
        assert!(!is_input_error(&error));
    }
    assert_eq!(parse_error(&["quick", "--lang"]).message, "--lang requires ko or en");
    assert_eq!(
        parse_error(&["quick", "--time", "-"]).message,
        "invalid duration \"-\": invalid digit found in string"
    );
}

#[test]
fn files_and_fixed_commands_take_exact_operands() {
    assert_eq!(
        parse_args(args(&["practice", "notes.txt"])).unwrap(),
        Command::Practice(PracticeArgs {
            kind: PracticeKind::Long,
            language: None,
            seconds: None,
            file: Some(PathBuf::from("notes.txt")),
        })
    );
    assert_eq!(
        parse_error(&["practice"]).message,
        "practice requires exactly one file path"
    );
    assert_eq!(
        parse_args(args(&["notes.txt"])).unwrap(),
        Command::File(PathBuf::from("notes.txt"))
    );
    assert_eq!(
        parse_error(&["notes.txt", "more"]).message,
        "a direct file path cannot have trailing operands"
    );
    assert_eq!(parse_error(&["-x"]).message, "unknown option \"-x\"");
    assert_eq!(parse_error(&["stats", "now"]).message, "unexpected trailing operand");
    for (word, command) in [
        ("stats", Command::Stats),
        ("history", Command::History),
        ("themes", Command::Themes),
        ("paths", Command::Paths),
        ("licenses", Command::Licenses),
        ("update", Command::Update),
        ("--version", Command::Version),
        ("-V", Command::Version),
        ("version", Command::Version),
        ("--help", Command::Help),
        ("-h", Command::Help),
        ("help", Command::Help),
        ("--smoke", Command::Smoke),
    ] {
        assert_eq!(parse_args(args(&[word])).unwrap(), command);
    }
    let not_unicode = vec![Arg {
        text: None,
        path: PathBuf::from("weird"),
    }];
    assert_eq!(
        parse_args(not_unicode).unwrap(),
        Command::File(PathBuf::from("weird"))
    );
}

#[test]
fn content_subcommands_parse_their_operands() {
    assert_eq!(
        parse_args(args(&["content", "list"])).unwrap(),
        Command::Content(ContentCommand::List)
    );
    assert_eq!(
        parse_args(args(&["content", "add", "p.toml"])).unwrap(),
        Command::Content(ContentCommand::Add(PathBuf::from("p.toml")))
    );
    assert_eq!(
        parse_args(args(&["content", "validate"])).unwrap(),
        Command::Content(ContentCommand::Validate(None))
    );
    assert_eq!(
        parse_args(args(&["content", "validate", "p.toml"])).unwrap(),
        Command::Content(ContentCommand::Validate(Some(PathBuf::from("p.toml"))))
    );
    assert_eq!(
        parse_args(args(&["content", "disable", "my-pack"])).unwrap(),
        Command::Content(ContentCommand::Disable("my-pack".into()))
    );
    assert_eq!(
        parse_error(&["content"]).message,
        "content requires list, add, validate, or disable"
    );
    assert_eq!(
        parse_error(&["content", "list", "extra"]).message,
        "invalid content command or operands: list"
    );
    assert_eq!(
        parse_error(&["content", "remove", "x"]).message,
        "invalid content command or operands: remove"
    );
}

#[test]
fn running_a_command_names_its_task() {
    assert_eq!(
        run(Command::Home).unwrap(),
        Task::Finish(Exit::Launch(Startup::Home))
    );
    let with_file = PracticeArgs {
        file: Some(PathBuf::from("a.txt")),
        ..PracticeArgs::new(PracticeKind::Long)
    };
    assert_eq!(
        run(Command::Practice(with_file)).unwrap(),
        Task::OpenFile(PathBuf::from("a.txt"))
    );
    assert_eq!(
        run(Command::Practice(PracticeArgs::new(PracticeKind::Words))).unwrap(),
        Task::Finish(Exit::Launch(Startup::Practice(PracticeArgs::new(
            PracticeKind::Words
        ))))
    );
    assert_eq!(
        run(Command::Content(ContentCommand::List)).unwrap(),
        Task::Content(ContentCommand::List)
    );
    assert_eq!(run(Command::Version).unwrap(), Task::PrintVersion);
    assert_eq!(
        run(Command::Stdin("one\r\ntwo".into())).unwrap(),
        Task::Finish(Exit::Launch(Startup::CustomText {
            source: CustomTextSource::Stdin,
            name: "stdin".into(),
            text: "one\ntwo".into(),
        }))
    );
    let error = run(Command::Stdin("bell\u{7}".into())).unwrap_err();
    assert!(is_input_error(&error));
    assert_eq!(
        error.message,
        "stdin contains a disallowed control character"
    );
}

#[test]
fn custom_text_is_checked_and_line_endings_are_normalized() {
    assert_eq!(validate_text(b"a\r\nb\r\nc".to_vec(), "x").unwrap(), "a\nb\nc");
    assert!(validate_text(b"a\r\r\nb".to_vec(), "x").is_err());
    let error = validate_text(b"a\r\nb\rc".to_vec(), "x").unwrap_err();
    assert_eq!(error.message, "x contains a disallowed control character");
    let error = validate_text(b" \n\t ".to_vec(), "x").unwrap_err();
    assert_eq!(error.message, "x contains a disallowed control character");
    let error = validate_text(b" \n ".to_vec(), "x").unwrap_err();
    assert_eq!(error.message, "x must not be empty");
    assert!(is_input_error(&error));
    let error = validate_text(vec![b'a', 0xff], "x").unwrap_err();
    assert_eq!(
        error.message,
        "x is not valid UTF-8: invalid utf-8 sequence of 1 bytes from index 1"
    );
    assert!(is_input_error(&error));
    let error = stdin_startup("   ".into()).unwrap_err();
    assert_eq!(error.message, "stdin must not be empty");
}

#[test]
fn file_text_is_named_safely_and_bounded() {
    let exit = file_startup(b"hello".to_vec(), "dir/a\u{1b}b.txt", "a\u{1b}b.txt").unwrap();
    assert_eq!(
        exit,
        Exit::Launch(Startup::CustomText {
            source: CustomTextSource::File,
            name: "a\\u{1b}b.txt".into(),
            text: "hello".into(),
        })
    );
    let too_big = vec![b'a'; 8 * 1024 * 1024 + 1];
    let error = file_startup(too_big, "big.txt", "big.txt").unwrap_err();
    assert_eq!(error.message, "big.txt exceeds the 8 MiB limit");
    assert!(is_input_error(&error));
}

#[test]
fn pack_ids_for_new_files_must_be_portable() {
    assert!(validate_add_id("good-id_1").is_ok());
    assert!(validate_add_id("com0").is_ok());
    assert!(validate_add_id(&"a".repeat(128)).is_ok());
    for id in ["", "a b", "con", "PRN", "Aux", "nul", "COM1", "lpt9", "é"] {
        let error = validate_add_id(id).unwrap_err();
        assert!(is_input_error(&error));
        assert_eq!(
            error.message,
            format!("pack ID {id:?} is not a portable filename")
        );
    }
    assert!(validate_add_id(&"a".repeat(129)).is_err());
    assert!(is_windows_device_name("cOm7"));
    assert!(!is_windows_device_name("COM10"));
    assert!(!is_windows_device_name("CONS"));
}

#[test]
fn pack_ids_to_disable_must_name_a_single_file() {
    assert!(validate_disable_id("any name.é").is_ok());
    for id in ["", ".", "..", "a/b", "a\\b", "a\u{7}"] {
        let error = validate_disable_id(id).unwrap_err();
        assert!(is_input_error(&error));
        assert_eq!(error.message, format!("invalid pack ID {id:?}"));
    }
    assert!(validate_disable_id("...").is_ok());
}

#[test]
fn content_errors_are_listed_on_one_line() {
    assert!(reject_content_errors(Vec::new()).is_ok());
    let errors = vec![
        ContentError {
            pack_id: "p".into(),
            item_id: Some("i\"1".into()),
            field: "text".into(),
            message: "bad\nvalue".into(),
        },
        ContentError {
            pack_id: "p".into(),
            item_id: None,
            field: "id".into(),
            message: "duplicate pack ID".into(),
        },
    ];
    assert_eq!(
        format_content_error(&errors[0]),
        "pack=p item=i\\\"1 field=text: bad\\nvalue"
    );
    let error = reject_content_errors(errors).unwrap_err();
    assert!(is_input_error(&error));
    assert_eq!(
        error.message,
        "pack=p item=i\\\"1 field=text: bad\\nvalue; pack=p field=id: duplicate pack ID"
    );
}

#[test]
fn terminal_safe_escapes_controls_but_keeps_layout() {
    assert_eq!(
        terminal_safe("a\tb\nc\rd\0e\u{1b}f\u{9f}g\u{7f}é"),
        "a\tb\nc\\rd\\0e\\u{1b}f\\u{9f}g\\u{7f}é"
    );
}

#[test]
fn warnings_and_language_names_are_formatted() {
    assert_eq!(language_name(Language::Ko), "ko");
    assert_eq!(language_name(Language::En), "en");
    let warning = LoadWarning {
        path: PathBuf::from("/tmp/config.toml"),
        message: "invalid config TOML".into(),
    };
    assert_eq!(
        format_load_warning("config", &warning),
        "config: /tmp/config.toml: invalid config TOML"
    );
}

#[test]
fn consecutive_blank_lines_are_collapsed_before_practice() {
    assert_eq!(validate_text(b"a\n\n\n\nb".to_vec(), "stdin").unwrap(), "a\n\nb");
    assert_eq!(validate_text(b"a\r\n\r\n\r\nb\n\nc".to_vec(), "x").unwrap(), "a\n\nb\n\nc");
    assert_eq!(validate_text(b"a\nb".to_vec(), "x").unwrap(), "a\nb");
}

#[test]
fn active_content_with_warnings_is_refused() {
    assert!(typerlude::cli::active_content_verdict(0).is_ok());
    let e = typerlude::cli::active_content_verdict(3).unwrap_err();
    assert!(e.input);
    assert_eq!(e.message, "3 active content pack warning(s)");
}

#[test]
fn only_enabled_user_packs_can_be_disabled() {
    let empty = typerlude::content::ContentCatalog::new();
    assert!(typerlude::cli::refuse_builtin(&empty, "ko-sentences").is_ok());
    let e = typerlude::cli::disable_target(&empty, &empty, "mine").unwrap_err();
    assert!(e.input);
    assert_eq!(e.message, "enabled user content pack \"mine\" was not found");
}

#[test]
fn file_text_decodes_utf8_or_reports_the_error() {
    assert_eq!(file_text("한글 ok".as_bytes().to_vec()), Ok("한글 ok".to_string()));
    assert_eq!(
        file_text(vec![b'a', 0xff]),
        Err("invalid utf-8 sequence of 1 bytes from index 1".to_string())
    );
}
