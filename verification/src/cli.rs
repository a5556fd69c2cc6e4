//! The command line: the commands, how the arguments are parsed into one, what each command
//! leads to, and the checks on custom practice text and on content pack IDs.
use crate::app::CustomTextSource;
use crate::app::summaries::{PackListing, PackListingView};
use crate::content::{ContentCatalog, ContentError, ContentErrorView, MAX_CONTENT_BYTES, error_views};
use crate::diagnostic::{content_error_line, format_content_error};
use crate::model::{Language, PracticeKind};
use crate::storage::LoadWarning;
use crate::text::{
    chars_of, contains_control_except_newline, is_blank, is_blank_str, is_control, push_char, push_str,
    spec_is_control, str_eq, string_views, utf8_len,
};
use std::path::PathBuf;
use vstd::prelude::*;
use vstd::utf8::{decode_utf8, valid_utf8};

pub use crate::diagnostic::terminal_safe;

verus! {

/// What the arguments ask for.
#[derive(Clone, Debug, PartialEq, Eq)]
pub enum Command {
    Home,
    Practice(PracticeArgs),
    File(PathBuf),
    Stdin(String),
    Stats,
    History,
    Content(ContentCommand),
    Themes,
    Paths,
    Licenses,
    Update,
    Version,
    Help,
    Smoke,
}

/// The `content` subcommands.
#[derive(Clone, Debug, PartialEq, Eq)]
pub enum ContentCommand {
    List,
    Add(PathBuf),
    Validate(Option<PathBuf>),
    Disable(String),
}

/// A practice mode with the options given for it.
#[derive(Clone, Debug, PartialEq, Eq)]
pub struct PracticeArgs {
    pub kind: PracticeKind,
    pub language: Option<Language>,
    pub seconds: Option<u64>,
    pub file: Option<PathBuf>,
}

impl PracticeArgs {
    /// A mode with no options.
    pub fn new(kind: PracticeKind) -> (r: Self)
        ensures
            r == (PracticeArgs { kind, language: None, seconds: None, file: None }),
    {
        PracticeArgs { kind, language: None, seconds: None, file: None }
    }
}

/// The screen the interactive application opens on.
#[derive(Clone, Debug, PartialEq, Eq)]
pub enum Startup {
    Home,
    Practice(PracticeArgs),
    CustomText { source: CustomTextSource, name: String, text: String },
    Stats,
    History,
    Themes,
}

/// How a command ends: done, or by opening the interactive application.
#[derive(Clone, Debug, PartialEq, Eq)]
pub enum Exit {
    Done,
    Launch(Startup),
}

/// A command-line failure: its message, and whether it was caused by the user's input
/// (which exits with status 2) rather than by the environment.
#[derive(Clone, Debug, PartialEq, Eq)]
pub struct CliError {
    pub message: String,
    pub input: bool,
}

/// Whether an error was caused by the user's input.
pub fn is_input_error(error: &CliError) -> (r: bool)
    ensures
        r == error.input,
{
    error.input
}

/// One command-line argument: its text when it is valid Unicode, and the path it names.
pub struct Arg {
    pub text: Option<String>,
    pub path: PathBuf,
}

/// The text of an argument, when it has one.
pub open spec fn arg_text(a: Arg) -> Option<Seq<char>> {
    match a.text {
        Some(t) => Some(t@),
        None => None,
    }
}

/// The model of a [`ContentCommand`].
pub enum ContentCommandView {
    List,
    Add(PathBuf),
    Validate(Option<PathBuf>),
    Disable(Seq<char>),
}

/// The model of a [`Command`].
pub enum CommandView {
    Home,
    Practice(PracticeArgs),
    File(PathBuf),
    Stdin(Seq<char>),
    Stats,
    History,
    Content(ContentCommandView),
    Themes,
    Paths,
    Licenses,
    Update,
    Version,
    Help,
    Smoke,
}

impl View for ContentCommand {
    type V = ContentCommandView;

    open spec fn view(&self) -> ContentCommandView {
        match self {
            ContentCommand::List => ContentCommandView::List,
            ContentCommand::Add(p) => ContentCommandView::Add(*p),
            ContentCommand::Validate(p) => ContentCommandView::Validate(*p),
            ContentCommand::Disable(id) => ContentCommandView::Disable(id@),
        }
    }
}

impl View for Command {
    type V = CommandView;

    open spec fn view(&self) -> CommandView {
        match self {
            Command::Home => CommandView::Home,
            Command::Practice(a) => CommandView::Practice(*a),
            Command::File(p) => CommandView::File(*p),
            Command::Stdin(t) => CommandView::Stdin(t@),
            Command::Stats => CommandView::Stats,
            Command::History => CommandView::History,
            Command::Content(c) => CommandView::Content(c@),
            Command::Themes => CommandView::Themes,
            Command::Paths => CommandView::Paths,
            Command::Licenses => CommandView::Licenses,
            Command::Update => CommandView::Update,
            Command::Version => CommandView::Version,
            Command::Help => CommandView::Help,
            Command::Smoke => CommandView::Smoke,
        }
    }
}

/// A string as `{:?}` writes it: quoted, with its special characters escaped.
pub uninterp spec fn debug_quoted(s: Seq<char>) -> Seq<char>;

/// Formats a string with `{:?}`. Claimed: the result is a function of the string alone.
#[verifier::external_body]
fn debug_quote(s: &str) -> (r: String)
    ensures
        r@ == debug_quoted(s@),
{
    format!("{:?}", s)
}

/// The decimal digit of a value below 10.
pub open spec fn decimal_digit(d: nat) -> char {
    (('0' as nat) + d) as char
}

/// The decimal form of a number, without leading zeros.
pub open spec fn decimal(n: nat) -> Seq<char>
    decreases n,
{
    if n < 10 {
        seq![decimal_digit(n)]
    } else {
        decimal(n / 10).push(decimal_digit(n % 10))
    }
}

/// The decimal digit of a value below 10.
fn decimal_digit_char(d: u64) -> (r: char)
    requires
        d < 10,
    ensures
        r == decimal_digit(d as nat),
{
    match d {
        0 => '0',
        1 => '1',
        2 => '2',
        3 => '3',
        4 => '4',
        5 => '5',
        6 => '6',
        7 => '7',
        8 => '8',
        _ => '9',
    }
}

/// Appends the decimal form of `n`.
pub fn push_decimal(out: &mut String, n: u64)
    ensures
        final(out)@ == old(out)@ + decimal(n as nat),
    decreases n,
{
    if n < 10 {
        push_char(out, decimal_digit_char(n));
    } else {
        push_decimal(out, n / 10);
        push_char(out, decimal_digit_char(n % 10));
    }
}

/// The name `{:?}` gives a practice mode.
pub open spec fn kind_name(kind: PracticeKind) -> Seq<char> {
    match kind {
        PracticeKind::Quick => "Quick"@,
        PracticeKind::Key => "Key"@,
        PracticeKind::Words => "Words"@,
        PracticeKind::Sentence => "Sentence"@,
        PracticeKind::Long => "Long"@,
        PracticeKind::Test => "Test"@,
    }
}

/// The name `{:?}` gives a practice mode.
fn kind_debug_name(kind: PracticeKind) -> (r: &'static str)
    ensures
        r@ == kind_name(kind),
{
    match kind {
        PracticeKind::Quick => "Quick",
        PracticeKind::Key => "Key",
        PracticeKind::Words => "Words",
        PracticeKind::Sentence => "Sentence",
        PracticeKind::Long => "Long",
        PracticeKind::Test => "Test",
    }
}

/// Whether a character is an ASCII decimal digit.
pub open spec fn is_digit(c: char) -> bool {
    '0' <= c && c <= '9'
}

/// The value of a decimal digit.
pub open spec fn digit_of(c: char) -> nat {
    ((c as int) - ('0' as int)) as nat
}

/// Reading the decimal digits of `d` from position `i` on, with `acc` read so far, as
/// `u64::from_str` does: the first character that is not a digit, or the first digit that
/// takes the value past `u64::MAX`, is the error.
pub open spec fn scan_digits(d: Seq<char>, i: nat, acc: nat) -> Result<u64, Seq<char>>
    decreases d.len() - i,
{
    if i >= d.len() {
        Ok(acc as u64)
    } else if !is_digit(d[i as int]) {
        Err("invalid digit found in string"@)
    } else if acc * 10 + digit_of(d[i as int]) > u64::MAX {
        Err("number too large to fit in target type"@)
    } else {
        scan_digits(d, i + 1, acc * 10 + digit_of(d[i as int]))
    }
}

/// `u64::from_str`: an optional `+`, then at least one decimal digit, with a value that fits;
/// an error carries the message of the `ParseIntError`.
pub open spec fn parse_u64(s: Seq<char>) -> Result<u64, Seq<char>> {
    if s.len() == 0 {
        Err("cannot parse integer from empty string"@)
    } else if s.len() == 1 && (s[0] == '+' || s[0] == '-') {
        Err("invalid digit found in string"@)
    } else if s[0] == '+' {
        scan_digits(s, 1, 0)
    } else {
        scan_digits(s, 0, 0)
    }
}

/// Parses a decimal `u64` as `str::parse::<u64>` does.
fn parse_u64_str(s: &str) -> (r: Result<u64, &'static str>)
    ensures
        match r {
            Ok(v) => parse_u64(s@) == Ok::<u64, Seq<char>>(v),
            Err(m) => parse_u64(s@) == Err::<u64, Seq<char>>(m@),
        },
{
    let d = chars_of(s);
    if d.len() == 0 {
        return Err("cannot parse integer from empty string");
    }
    if d.len() == 1 && (d[0] == '+' || d[0] == '-') {
        return Err("invalid digit found in string");
    }
    let mut i: usize = if d[0] == '+' {
        1
    } else {
        0
    };
    let ghost start = i as nat;
    let mut acc: u64 = 0;
    while i < d.len()
        invariant
            d@ == s@,
            start <= i <= d.len(),
            parse_u64(s@) == scan_digits(d@, start, 0),
            scan_digits(d@, start, 0) == scan_digits(d@, i as nat, acc as nat),
        decreases d.len() - i,
    {
        let c = d[i];
        if !('0' <= c && c <= '9') {
            return Err("invalid digit found in string");
        }
        let digit = (c as u32 - '0' as u32) as u64;
        match acc.checked_mul(10) {
            None => {
                return Err("number too large to fit in target type");
            },
            Some(m) => match m.checked_add(digit) {
                None => {
                    return Err("number too large to fit in target type");
                },
                Some(v) => {
                    acc = v;
                },
            },
        }
        i = i + 1;
    }
    Ok(acc)
}

/// Whether `--time` accepts a duration for a mode: 15, 30, 60 or 120 seconds for Quick,
/// 60, 180, 300 or 600 for Test, and none for the other modes.
pub open spec fn duration_allowed(kind: PracticeKind, seconds: u64) -> bool {
    match kind {
        PracticeKind::Quick => seconds == 15 || seconds == 30 || seconds == 60 || seconds == 120,
        PracticeKind::Test => seconds == 60 || seconds == 180 || seconds == 300 || seconds == 600,
        _ => false,
    }
}

/// Reading the options of a practice mode from position `index` on, with `parsed` so far:
/// `--lang ko|en` and, for Quick and Test, `--time SECONDS`, each at most once.
pub open spec fn practice_options(
    args: Seq<Arg>,
    kind: PracticeKind,
    index: nat,
    parsed: PracticeArgs,
) -> Result<PracticeArgs, Seq<char>>
    decreases args.len() - index,
{
    if index >= args.len() {
        Ok(parsed)
    } else {
        match arg_text(args[index as int]) {
            None => Err("option must be valid Unicode"@),
            Some(option) => if option == "--lang"@ {
                if parsed.language is Some {
                    Err("--lang may be supplied only once"@)
                } else if index + 1 >= args.len() {
                    Err("--lang requires ko or en"@)
                } else {
                    match arg_text(args[(index + 1) as int]) {
                        None => Err("--lang value must be valid Unicode"@),
                        Some(value) => if value == "ko"@ {
                            practice_options(
                                args,
                                kind,
                                index + 2,
                                PracticeArgs { language: Some(Language::Ko), ..parsed },
                            )
                        } else if value == "en"@ {
                            practice_options(
                                args,
                                kind,
                                index + 2,
                                PracticeArgs { language: Some(Language::En), ..parsed },
                            )
                        } else {
                            Err("invalid language "@ + debug_quoted(value) + "; expected ko or en"@)
                        },
                    }
                }
            } else if option == "--time"@ {
                if !(kind == PracticeKind::Quick || kind == PracticeKind::Test) {
                    Err("--time is not valid for "@ + kind_name(kind))
                } else if parsed.seconds is Some {
                    Err("--time may be supplied only once"@)
                } else if index + 1 >= args.len() {
                    Err("--time requires a duration"@)
                } else {
                    match arg_text(args[(index + 1) as int]) {
                        None => Err("--time value must be valid Unicode"@),
                        Some(value) => match parse_u64(value) {
                            Err(cause) => Err(
                                "invalid duration "@ + debug_quoted(value) + ": "@ + cause,
                            ),
                            Ok(seconds) => if !duration_allowed(kind, seconds) {
                                Err(
                                    "invalid duration "@ + decimal(seconds as nat) + " for "@
                                        + kind_name(kind),
                                )
                            } else {
                                practice_options(
                                    args,
                                    kind,
                                    index + 2,
                                    PracticeArgs { seconds: Some(seconds), ..parsed },
                                )
                            },
                        },
                    }
                }
            } else {
                Err("unknown or trailing option "@ + debug_quoted(option))
            },
        }
    }
}

/// A practice command for a mode, with its options read from the second argument on.
pub open spec fn practice_command(args: Seq<Arg>, kind: PracticeKind) -> Result<
    CommandView,
    Seq<char>,
> {
    match practice_options(
        args,
        kind,
        1,
        PracticeArgs { kind, language: None, seconds: None, file: None },
    ) {
        Ok(parsed) => Ok(CommandView::Practice(parsed)),
        Err(m) => Err(m),
    }
}

/// A command that takes no operands.
pub open spec fn exact_command(args: Seq<Arg>, command: CommandView) -> Result<
    CommandView,
    Seq<char>,
> {
    if args.len() != 1 {
        Err("unexpected trailing operand"@)
    } else {
        Ok(command)
    }
}

/// The `content` subcommands and their operands.
pub open spec fn content_command(args: Seq<Arg>) -> Result<CommandView, Seq<char>> {
    if args.len() < 2 {
        Err("content requires list, add, validate, or disable"@)
    } else {
        match arg_text(args[1]) {
            None => Err("content action must be valid Unicode"@),
            Some(action) => if action == "list"@ && args.len() == 2 {
                Ok(CommandView::Content(ContentCommandView::List))
            } else if action == "add"@ && args.len() == 3 {
                Ok(CommandView::Content(ContentCommandView::Add(args[2].path)))
            } else if action == "validate"@ && args.len() == 2 {
                Ok(CommandView::Content(ContentCommandView::Validate(None)))
            } else if action == "validate"@ && args.len() == 3 {
                Ok(CommandView::Content(ContentCommandView::Validate(Some(args[2].path))))
            } else if action == "disable"@ && args.len() == 3 {
                match arg_text(args[2]) {
                    None => Err("pack ID must be valid Unicode"@),
                    Some(id) => Ok(CommandView::Content(ContentCommandView::Disable(id))),
                }
            } else {
                Err("invalid content command or operands: "@ + action)
            },
        }
    }
}

/// A single operand that names a file to practise.
pub open spec fn file_command(args: Seq<Arg>) -> Result<CommandView, Seq<char>> {
    if args.len() != 1 {
        Err("a direct file path cannot have trailing operands"@)
    } else {
        Ok(CommandView::File(args[0].path))
    }
}

/// The command that a list of arguments asks for, or the message of why it is refused.
pub open spec fn parse_args_spec(args: Seq<Arg>) -> Result<CommandView, Seq<char>> {
    if args.len() == 0 {
        Ok(CommandView::Home)
    } else {
        match arg_text(args[0]) {
            None => file_command(args),
            Some(first) => if first == "quick"@ {
                practice_command(args, PracticeKind::Quick)
            } else if first == "key"@ || first == "keys"@ {
                practice_command(args, PracticeKind::Key)
            } else if first == "word"@ || first == "words"@ {
                practice_command(args, PracticeKind::Words)
            } else if first == "sentence"@ || first == "sentences"@ {
                practice_command(args, PracticeKind::Sentence)
            } else if first == "long"@ {
                practice_command(args, PracticeKind::Long)
            } else if first == "test"@ {
                practice_command(args, PracticeKind::Test)
            } else if first == "practice"@ {
                if args.len() != 2 {
                    Err("practice requires exactly one file path"@)
                } else {
                    Ok(
                        CommandView::Practice(
                            PracticeArgs {
                                kind: PracticeKind::Long,
                                language: None,
                                seconds: None,
                                file: Some(args[1].path),
                            },
                        ),
                    )
                }
            } else if first == "stats"@ {
                exact_command(args, CommandView::Stats)
            } else if first == "history"@ {
                exact_command(args, CommandView::History)
            } else if first == "themes"@ {
                exact_command(args, CommandView::Themes)
            } else if first == "paths"@ {
                exact_command(args, CommandView::Paths)
            } else if first == "licenses"@ {
                exact_command(args, CommandView::Licenses)
            } else if first == "update"@ {
                exact_command(args, CommandView::Update)
            } else if first == "content"@ {
                content_command(args)
            } else if first == "--version"@ || first == "-V"@ || first == "version"@ {
                exact_command(args, CommandView::Version)
            } else if first == "--help"@ || first == "-h"@ || first == "help"@ {
                exact_command(args, CommandView::Help)
            } else if first == "--smoke"@ {
                exact_command(args, CommandView::Smoke)
            } else if first.len() > 0 && first[0] == '-' {
                Err("unknown option "@ + debug_quoted(first))
            } else {
                file_command(args)
            },
        }
    }
}

/// A failure that the user's input did not cause.
pub fn usage_error(message: String) -> (r: CliError)
    ensures
        r.message@ == message@,
        !r.input,
{
    CliError { message, input: false }
}

/// A failure caused by the user's input.
pub fn input_error(message: String) -> (r: CliError)
    ensures
        r.message@ == message@,
        r.input,
{
    CliError { message, input: true }
}

/// `prefix` followed by `value` written with `{:?}`, then `suffix`.
fn quoted_message(prefix: &str, value: &str, suffix: &str) -> (r: String)
    ensures
        r@ == prefix@ + debug_quoted(value@) + suffix@,
{
    let mut m = prefix.to_owned();
    let q = debug_quote(value);
    push_str(&mut m, q.as_str());
    push_str(&mut m, suffix);
    m
}

/// The text of an argument, when it has one.
fn text_of(a: &Arg) -> (r: Option<&str>)
    ensures
        match r {
            Some(t) => arg_text(*a) == Some(t@),
            None => arg_text(*a) is None,
        },
{
    match &a.text {
        Some(t) => Some(t.as_str()),
        None => None,
    }
}

/// Reads the options of a practice mode.
fn parse_practice(args: &Vec<Arg>, kind: PracticeKind) -> (r: Result<Command, CliError>)
    ensures
        match r {
            Ok(c) => practice_command(args@, kind) == Ok::<CommandView, Seq<char>>(c@),
            Err(e) => !e.input && practice_command(args@, kind) == Err::<CommandView, Seq<char>>(
                e.message@,
            ),
        },
{
    let mut parsed = PracticeArgs::new(kind);
    let mut index: usize = 1;
    while index < args.len()
        invariant
            parsed.kind == kind,
            practice_command(args@, kind) == match practice_options(
                args@,
                kind,
                index as nat,
                parsed,
            ) {
                Ok(p) => Ok::<CommandView, Seq<char>>(CommandView::Practice(p)),
                Err(m) => Err(m),
            },
        decreases args.len() - index,
    {
        let option = match text_of(&args[index]) {
            Some(t) => t,
            None => {
                return Err(usage_error("option must be valid Unicode".to_owned()));
            },
        };
        if str_eq(option, "--lang") {
            if parsed.language.is_some() {
                return Err(usage_error("--lang may be supplied only once".to_owned()));
            }
            if index + 1 >= args.len() {
                return Err(usage_error("--lang requires ko or en".to_owned()));
            }
            let value = match text_of(&args[index + 1]) {
                Some(t) => t,
                None => {
                    return Err(usage_error("--lang value must be valid Unicode".to_owned()));
                },
            };
            if str_eq(value, "ko") {
                parsed.language = Some(Language::Ko);
            } else if str_eq(value, "en") {
                parsed.language = Some(Language::En);
            } else {
                return Err(
                    usage_error(quoted_message("invalid language ", value, "; expected ko or en")),
                );
            }
        } else if str_eq(option, "--time") {
            if !(kind == PracticeKind::Quick || kind == PracticeKind::Test) {
                let mut m = "--time is not valid for ".to_owned();
                push_str(&mut m, kind_debug_name(kind));
                return Err(usage_error(m));
            }
            if parsed.seconds.is_some() {
                return Err(usage_error("--time may be supplied only once".to_owned()));
            }
            if index + 1 >= args.len() {
                return Err(usage_error("--time requires a duration".to_owned()));
            }
            let value = match text_of(&args[index + 1]) {
                Some(t) => t,
                None => {
                    return Err(usage_error("--time value must be valid Unicode".to_owned()));
                },
            };
            let seconds = match parse_u64_str(value) {
                Ok(v) => v,
                Err(cause) => {
                    let mut m = quoted_message("invalid duration ", value, ": ");
                    push_str(&mut m, cause);
                    return Err(usage_error(m));
                },
            };
            let allowed = match kind {
                PracticeKind::Quick => seconds == 15 || seconds == 30 || seconds == 60 || seconds
                    == 120,
                PracticeKind::Test => seconds == 60 || seconds == 180 || seconds == 300 || seconds
                    == 600,
                _ => false,
            };
            if !allowed {
                let mut m = "invalid duration ".to_owned();
                push_decimal(&mut m, seconds);
                push_str(&mut m, " for ");
                push_str(&mut m, kind_debug_name(kind));
                return Err(usage_error(m));
            }
            parsed.seconds = Some(seconds);
        } else {
            proof {
                reveal_strlit("");
            }
            return Err(usage_error(quoted_message("unknown or trailing option ", option, "")));
        }
        index = index + 2;
    }
    Ok(Command::Practice(parsed))
}

/// Reads a `content` subcommand.
fn parse_content(args: &Vec<Arg>) -> (r: Result<Command, CliError>)
    ensures
        match r {
            Ok(c) => content_command(args@) == Ok::<CommandView, Seq<char>>(c@),
            Err(e) => !e.input && content_command(args@) == Err::<CommandView, Seq<char>>(
                e.message@,
            ),
        },
{
    if args.len() < 2 {
        return Err(usage_error("content requires list, add, validate, or disable".to_owned()));
    }
    let action = match text_of(&args[1]) {
        Some(t) => t,
        None => {
            return Err(usage_error("content action must be valid Unicode".to_owned()));
        },
    };
    if str_eq(action, "list") && args.len() == 2 {
        Ok(Command::Content(ContentCommand::List))
    } else if str_eq(action, "add") && args.len() == 3 {
        Ok(Command::Content(ContentCommand::Add(args[2].path.clone())))
    } else if str_eq(action, "validate") && args.len() == 2 {
        Ok(Command::Content(ContentCommand::Validate(None)))
    } else if str_eq(action, "validate") && args.len() == 3 {
        Ok(Command::Content(ContentCommand::Validate(Some(args[2].path.clone()))))
    } else if str_eq(action, "disable") && args.len() == 3 {
        match text_of(&args[2]) {
            Some(id) => Ok(Command::Content(ContentCommand::Disable(id.to_owned()))),
            None => Err(usage_error("pack ID must be valid Unicode".to_owned())),
        }
    } else {
        let mut m = "invalid content command or operands: ".to_owned();
        push_str(&mut m, action);
        Err(usage_error(m))
    }
}

/// A command without operands, refused when any follow.
fn exact(args: &Vec<Arg>, command: Command) -> (r: Result<Command, CliError>)
    ensures
        match r {
            Ok(c) => exact_command(args@, command@) == Ok::<CommandView, Seq<char>>(c@),
            Err(e) => !e.input && exact_command(args@, command@) == Err::<CommandView, Seq<char>>(
                e.message@,
            ),
        },
{
    if args.len() != 1 {
        return Err(usage_error("unexpected trailing operand".to_owned()));
    }
    Ok(command)
}

/// A file to practise, named by the only argument.
fn file_operand(args: &Vec<Arg>) -> (r: Result<Command, CliError>)
    requires
        args.len() > 0,
    ensures
        match r {
            Ok(c) => file_command(args@) == Ok::<CommandView, Seq<char>>(c@),
            Err(e) => !e.input && file_command(args@) == Err::<CommandView, Seq<char>>(e.message@),
        },
{
    if args.len() != 1 {
        return Err(usage_error("a direct file path cannot have trailing operands".to_owned()));
    }
    Ok(Command::File(args[0].path.clone()))
}

/// Whether a text starts with `-`.
fn starts_with_dash(s: &str) -> (r: bool)
    ensures
        r == (s@.len() > 0 && s@[0] == '-'),
{
    let d = chars_of(s);
    d.len() > 0 && d[0] == '-'
}

/// Parses the command-line arguments (without the program name) into a command.
pub fn parse_args(args: Vec<Arg>) -> (r: Result<Command, CliError>)
    ensures
        match r {
            Ok(c) => parse_args_spec(args@) == Ok::<CommandView, Seq<char>>(c@),
            Err(e) => !e.input && parse_args_spec(args@) == Err::<CommandView, Seq<char>>(
                e.message@,
            ),
        },
{
    if args.len() == 0 {
        return Ok(Command::Home);
    }
    let first = match text_of(&args[0]) {
        Some(t) => t,
        None => {
            return file_operand(&args);
        },
    };
    if str_eq(first, "quick") {
        parse_practice(&args, PracticeKind::Quick)
    } else if str_eq(first, "key") || str_eq(first, "keys") {
        parse_practice(&args, PracticeKind::Key)
    } else if str_eq(first, "word") || str_eq(first, "words") {
        parse_practice(&args, PracticeKind::Words)
    } else if str_eq(first, "sentence") || str_eq(first, "sentences") {
        parse_practice(&args, PracticeKind::Sentence)
    } else if str_eq(first, "long") {
        parse_practice(&args, PracticeKind::Long)
    } else if str_eq(first, "test") {
        parse_practice(&args, PracticeKind::Test)
    } else if str_eq(first, "practice") {
        if args.len() != 2 {
            return Err(usage_error("practice requires exactly one file path".to_owned()));
        }
        let mut parsed = PracticeArgs::new(PracticeKind::Long);
        parsed.file = Some(args[1].path.clone());
        Ok(Command::Practice(parsed))
    } else if str_eq(first, "stats") {
        exact(&args, Command::Stats)
    } else if str_eq(first, "history") {
        exact(&args, Command::History)
    } else if str_eq(first, "themes") {
        exact(&args, Command::Themes)
    } else if str_eq(first, "paths") {
        exact(&args, Command::Paths)
    } else if str_eq(first, "licenses") {
        exact(&args, Command::Licenses)
    } else if str_eq(first, "update") {
        exact(&args, Command::Update)
    } else if str_eq(first, "content") {
        parse_content(&args)
    } else if str_eq(first, "--version") || str_eq(first, "-V") || str_eq(first, "version") {
        exact(&args, Command::Version)
    } else if str_eq(first, "--help") || str_eq(first, "-h") || str_eq(first, "help") {
        exact(&args, Command::Help)
    } else if str_eq(first, "--smoke") {
        exact(&args, Command::Smoke)
    } else if starts_with_dash(first) {
        proof {
            reveal_strlit("");
        }
        Err(usage_error(quoted_message("unknown option ", first, "")))
    } else {
        file_operand(&args)
    }
}

/// Every `"\r\n"` of a text replaced by `"\n"`, left to right, as `str::replace` does.
pub open spec fn crlf_to_lf(s: Seq<char>) -> Seq<char>
    decreases s.len(),
{
    if s.len() == 0 {
        Seq::empty()
    } else if s.len() >= 2 && s[0] == '\r' && s[1] == '\n' {
        seq!['\n'] + crlf_to_lf(s.skip(2))
    } else {
        seq![s[0]] + crlf_to_lf(s.skip(1))
    }
}

/// Replaces every `"\r\n"` of a text by `"\n"`.
pub fn replace_crlf(s: &str) -> (r: String)
    ensures
        r@ == crlf_to_lf(s@),
{
    let cs = chars_of(s);
    let mut out = String::new();
    let mut i: usize = 0;
    proof {
        assert(cs@.skip(0) =~= cs@);
        assert(out@ + crlf_to_lf(cs@.skip(0)) =~= crlf_to_lf(cs@));
    }
    while i < cs.len()
        invariant
            cs@ == s@,
            i <= cs.len(),
            out@ + crlf_to_lf(cs@.skip(i as int)) == crlf_to_lf(cs@),
        decreases cs.len() - i,
    {
        let ghost rest = cs@.skip(i as int);
        if i + 1 < cs.len() && cs[i] == '\r' && cs[i + 1] == '\n' {
            proof {
                assert(rest.skip(2) =~= cs@.skip(i + 2));
                assert(out@.push('\n') + crlf_to_lf(cs@.skip(i + 2)) =~= out@ + crlf_to_lf(rest));
            }
            push_char(&mut out, '\n');
            i = i + 2;
        } else {
            proof {
                assert(rest.skip(1) =~= cs@.skip(i + 1));
                assert(out@.push(cs@[i as int]) + crlf_to_lf(cs@.skip(i + 1)) =~= out@ + crlf_to_lf(
                    rest,
                ));
            }
            push_char(&mut out, cs[i]);
            i = i + 1;
        }
    }
    proof {
        assert(cs@.skip(i as int) =~= Seq::<char>::empty());
        assert(out@ =~= out@ + crlf_to_lf(cs@.skip(i as int)));
    }
    out
}

/// The text with every run of blank lines collapsed into one blank line: a line feed is
/// dropped where the text kept so far already ends with two line feeds.
pub open spec fn collapse_blank_lines(t: Seq<char>) -> Seq<char>
    decreases t.len(),
{
    if t.len() == 0 {
        Seq::empty()
    } else {
        let kept = collapse_blank_lines(t.drop_last());
        if t.last() == '\n' && ends_with_blank_line(kept) {
            kept
        } else {
            kept.push(t.last())
        }
    }
}

/// The text ends with two line feeds: its last line is blank.
pub open spec fn ends_with_blank_line(t: Seq<char>) -> bool {
    t.len() >= 2 && t[t.len() - 1] == '\n' && t[t.len() - 2] == '\n'
}

/// Collapses every run of blank lines of a text into one blank line; see
/// [`collapse_blank_lines`].
pub fn collapse_blank_runs(s: &str) -> (r: String)
    ensures
        r@ == collapse_blank_lines(s@),
{
    let cs = chars_of(s);
    let mut out = String::new();
    let mut i: usize = 0;
    let mut ends_in_line_feed = false;
    let mut ends_in_blank_line = false;
    proof {
        assert(cs@.take(0) =~= Seq::<char>::empty());
    }
    while i < cs.len()
        invariant
            cs@ == s@,
            i <= cs.len(),
            out@ == collapse_blank_lines(cs@.take(i as int)),
            ends_in_line_feed == (out@.len() >= 1 && out@[out@.len() - 1] == '\n'),
            ends_in_blank_line == ends_with_blank_line(out@),
        decreases cs.len() - i,
    {
        proof {
            assert(cs@.take(i + 1).drop_last() =~= cs@.take(i as int));
            assert(cs@.take(i + 1).last() == cs@[i as int]);
        }
        let c = cs[i];
        if !(c == '\n' && ends_in_blank_line) {
            let ghost before = out@;
            push_char(&mut out, c);
            proof {
                assert(out@ == before.push(c));
            }
            ends_in_blank_line = c == '\n' && ends_in_line_feed;
            ends_in_line_feed = c == '\n';
        }
        i = i + 1;
    }
    proof {
        assert(cs@.take(cs.len() as int) =~= cs@);
    }
    out
}

/// Custom practice text, checked: line endings made `\n`, then refused when it holds a
/// control character other than `\n` or is blank; `name` says where the text came from. The
/// accepted text has its runs of blank lines collapsed into one.
pub open spec fn checked_text(text: Seq<char>, name: Seq<char>) -> Result<Seq<char>, Seq<char>> {
    let t = crlf_to_lf(text);
    if exists|i: int| 0 <= i < t.len() && t[i] != '\n' && spec_is_control(#[trigger] t[i]) {
        Err(name + " contains a disallowed control character"@)
    } else if is_blank(t) {
        Err(name + " must not be empty"@)
    } else {
        Ok(collapse_blank_lines(t))
    }
}

/// Checks custom practice text that is already a string.
pub fn validate_decoded(text: &str, name: &str) -> (r: Result<String, CliError>)
    ensures
        match r {
            Ok(t) => checked_text(text@, name@) == Ok::<Seq<char>, Seq<char>>(t@),
            Err(e) => e.input && checked_text(text@, name@) == Err::<Seq<char>, Seq<char>>(
                e.message@,
            ),
        },
{
    let text = replace_crlf(text);
    if contains_control_except_newline(text.as_str()) {
        let mut m = name.to_owned();
        push_str(&mut m, " contains a disallowed control character");
        return Err(input_error(m));
    }
    if is_blank_str(text.as_str()) {
        let mut m = name.to_owned();
        push_str(&mut m, " must not be empty");
        return Err(input_error(m));
    }
    Ok(collapse_blank_runs(text.as_str()))
}

/// The message that `String::from_utf8` gives for bytes that are not UTF-8.
pub uninterp spec fn utf8_error_text(bytes: Seq<u8>) -> Seq<char>;

/// Calls `String::from_utf8`. Claimed: it succeeds exactly on valid UTF-8, with the decoded
/// text; otherwise it gives the error's message, a function of the bytes alone.
#[verifier::external_body]
fn decode_utf8_bytes(bytes: Vec<u8>) -> (r: Result<String, String>)
    ensures
        match r {
            Ok(s) => valid_utf8(bytes@) && s@ == decode_utf8(bytes@),
            Err(m) => !valid_utf8(bytes@) && m@ == utf8_error_text(bytes@),
        },
{
    match String::from_utf8(bytes) {
        Ok(s) => Ok(s),
        Err(e) => Err(e.to_string()),
    }
}

/// The text of bytes read from a file: the decoded text when they are UTF-8, else the
/// decoding error's message.
pub fn file_text(bytes: Vec<u8>) -> (r: Result<String, String>)
    ensures
        match r {
            Ok(s) => valid_utf8(bytes@) && s@ == decode_utf8(bytes@),
            Err(m) => !valid_utf8(bytes@) && m@ == utf8_error_text(bytes@),
        },
{
    decode_utf8_bytes(bytes)
}

/// Custom practice bytes, checked: they must be UTF-8, and the text must pass
/// [`checked_text`].
pub open spec fn checked_bytes(bytes: Seq<u8>, name: Seq<char>) -> Result<Seq<char>, Seq<char>> {
    if !valid_utf8(bytes) {
        Err(name + " is not valid UTF-8: "@ + utf8_error_text(bytes))
    } else {
        checked_text(decode_utf8(bytes), name)
    }
}

/// Checks custom practice bytes read from `name`: UTF-8, no control characters other than
/// line feeds once `\r\n` is made `\n`, and not blank. Every refusal is an input error.
pub fn validate_text(bytes: Vec<u8>, name: &str) -> (r: Result<String, CliError>)
    ensures
        match r {
            Ok(t) => checked_bytes(bytes@, name@) == Ok::<Seq<char>, Seq<char>>(t@),
            Err(e) => e.input && checked_bytes(bytes@, name@) == Err::<Seq<char>, Seq<char>>(
                e.message@,
            ),
        },
{
    let ghost b = bytes@;
    match decode_utf8_bytes(bytes) {
        Ok(text) => validate_decoded(text.as_str(), name),
        Err(cause) => {
            let mut m = name.to_owned();
            push_str(&mut m, " is not valid UTF-8: ");
            push_str(&mut m, cause.as_str());
            Err(input_error(m))
        },
    }
}

/// Custom text given on standard input: at most `MAX_CONTENT_BYTES` bytes, then checked
/// under the name `stdin`, and practised under that name.
pub open spec fn stdin_outcome(text: Seq<char>) -> Result<Seq<char>, Seq<char>> {
    if utf8_len(text) > MAX_CONTENT_BYTES {
        Err("stdin exceeds the 8 MiB limit"@)
    } else {
        checked_text(text, "stdin"@)
    }
}

/// The custom text that an exit launches, if it launches custom text: its source, its name
/// and the text.
pub open spec fn custom_launch(exit: Exit) -> Option<(CustomTextSource, Seq<char>, Seq<char>)> {
    match exit {
        Exit::Launch(Startup::CustomText { source, name, text }) => Some((source, name@, text@)),
        _ => None,
    }
}

/// Starts practice on text given on standard input.
pub fn stdin_startup(text: String) -> (r: Result<Exit, CliError>)
    ensures
        match r {
            Ok(exit) => match stdin_outcome(text@) {
                Ok(t) => custom_launch(exit) == Some((CustomTextSource::Stdin, "stdin"@, t)),
                Err(_) => false,
            },
            Err(e) => e.input && stdin_outcome(text@) == Err::<Seq<char>, Seq<char>>(e.message@),
        },
{
    if text.as_str().len() > MAX_CONTENT_BYTES {
        return Err(input_error("stdin exceeds the 8 MiB limit".to_owned()));
    }
    match validate_decoded(text.as_str(), "stdin") {
        Ok(checked) => Ok(
            Exit::Launch(
                Startup::CustomText {
                    source: CustomTextSource::Stdin,
                    name: "stdin".to_owned(),
                    text: checked,
                },
            ),
        ),
        Err(e) => Err(e),
    }
}

/// Starts practice on the bytes of a file: at most `MAX_CONTENT_BYTES` of them, checked
/// under the file's displayed path, and practised under its file name made terminal-safe.
pub fn file_startup(bytes: Vec<u8>, display: &str, file_name: &str) -> (r: Result<
    Exit,
    CliError,
>)
    ensures
        match r {
            Ok(exit) => bytes@.len() <= MAX_CONTENT_BYTES && match checked_bytes(
                bytes@,
                display@,
            ) {
                Ok(t) => custom_launch(exit) == Some(
                    (CustomTextSource::File, crate::diagnostic::safe_text(file_name@), t),
                ),
                Err(_) => false,
            },
            Err(e) => e.input && if bytes@.len() > MAX_CONTENT_BYTES {
                e.message@ == display@ + " exceeds the 8 MiB limit"@
            } else {
                checked_bytes(bytes@, display@) == Err::<Seq<char>, Seq<char>>(e.message@)
            },
        },
{
    if bytes.len() > MAX_CONTENT_BYTES {
        let mut m = display.to_owned();
        push_str(&mut m, " exceeds the 8 MiB limit");
        return Err(input_error(m));
    }
    match validate_text(bytes, display) {
        Ok(text) => Ok(
            Exit::Launch(
                Startup::CustomText {
                    source: CustomTextSource::File,
                    name: terminal_safe(file_name),
                    text,
                },
            ),
        ),
        Err(e) => Err(e),
    }
}

/// What carrying out a command takes: an exit that is already decided, or the outside work
/// that decides it.
#[derive(Clone, Debug, PartialEq, Eq)]
pub enum Task {
    /// The command is decided: finish with this exit.
    Finish(Exit),
    /// Read the file to practise and hand its bytes to [`file_startup`].
    OpenFile(PathBuf),
    /// Run a `content` subcommand, then finish.
    Content(ContentCommand),
    PrintPaths,
    PrintLicenses,
    CheckUpdate,
    PrintVersion,
    PrintHelp,
    Smoke,
}

/// Decides what a command leads to. Only text given on standard input can be refused here.
pub fn run(command: Command) -> (r: Result<Task, CliError>)
    ensures
        match command {
            Command::Home => r == Ok::<Task, CliError>(Task::Finish(Exit::Launch(Startup::Home))),
            Command::Practice(args) => match args.file {
                Some(p) => r == Ok::<Task, CliError>(Task::OpenFile(p)),
                None => r == Ok::<Task, CliError>(
                    Task::Finish(Exit::Launch(Startup::Practice(args))),
                ),
            },
            Command::File(p) => r == Ok::<Task, CliError>(Task::OpenFile(p)),
            Command::Stdin(t) => match r {
                Ok(Task::Finish(exit)) => match stdin_outcome(t@) {
                    Ok(x) => custom_launch(exit) == Some((CustomTextSource::Stdin, "stdin"@, x)),
                    Err(_) => false,
                },
                Ok(_) => false,
                Err(e) => e.input && stdin_outcome(t@) == Err::<Seq<char>, Seq<char>>(e.message@),
            },
            Command::Stats => r == Ok::<Task, CliError>(Task::Finish(Exit::Launch(Startup::Stats))),
            Command::History => r == Ok::<Task, CliError>(
                Task::Finish(Exit::Launch(Startup::History)),
            ),
            Command::Themes => r == Ok::<Task, CliError>(
                Task::Finish(Exit::Launch(Startup::Themes)),
            ),
            Command::Content(c) => r == Ok::<Task, CliError>(Task::Content(c)),
            Command::Paths => r == Ok::<Task, CliError>(Task::PrintPaths),
            Command::Licenses => r == Ok::<Task, CliError>(Task::PrintLicenses),
            Command::Update => r == Ok::<Task, CliError>(Task::CheckUpdate),
            Command::Version => r == Ok::<Task, CliError>(Task::PrintVersion),
            Command::Help => r == Ok::<Task, CliError>(Task::PrintHelp),
            Command::Smoke => r == Ok::<Task, CliError>(Task::Smoke),
        },
{
    match command {
        Command::Home => Ok(Task::Finish(Exit::Launch(Startup::Home))),
        Command::Practice(args) => match args.file {
            Some(p) => Ok(Task::OpenFile(p)),
            None => Ok(Task::Finish(Exit::Launch(Startup::Practice(args)))),
        },
        Command::File(p) => Ok(Task::OpenFile(p)),
        Command::Stdin(t) => match stdin_startup(t) {
            Ok(exit) => Ok(Task::Finish(exit)),
            Err(e) => Err(e),
        },
        Command::Stats => Ok(Task::Finish(Exit::Launch(Startup::Stats))),
        Command::History => Ok(Task::Finish(Exit::Launch(Startup::History))),
        Command::Themes => Ok(Task::Finish(Exit::Launch(Startup::Themes))),
        Command::Content(c) => Ok(Task::Content(c)),
        Command::Paths => Ok(Task::PrintPaths),
        Command::Licenses => Ok(Task::PrintLicenses),
        Command::Update => Ok(Task::CheckUpdate),
        Command::Version => Ok(Task::PrintVersion),
        Command::Help => Ok(Task::PrintHelp),
        Command::Smoke => Ok(Task::Smoke),
    }
}

/// A character that a portable file name may hold: an ASCII letter or digit, `-` or `_`.
pub open spec fn portable_char(c: char) -> bool {
    ('a' <= c && c <= 'z') || ('A' <= c && c <= 'Z') || ('0' <= c && c <= '9') || c == '-' || c
        == '_'
}

/// The ASCII upper-case form of a character.
pub open spec fn ascii_upper(c: char) -> char {
    if 'a' <= c && c <= 'z' {
        ((c as int) - 32) as char
    } else {
        c
    }
}

/// Whether three characters spell, ignoring ASCII case, the given upper-case letters.
pub open spec fn spells3(s: Seq<char>, a: char, b: char, c: char) -> bool {
    ascii_upper(s[0]) == a && ascii_upper(s[1]) == b && ascii_upper(s[2]) == c
}

/// A name that Windows reserves for a device, ignoring ASCII case: `CON`, `PRN`, `AUX`,
/// `NUL`, or `COM` or `LPT` followed by one digit from 1 to 9.
pub open spec fn windows_device_name(s: Seq<char>) -> bool {
    (s.len() == 3 && (spells3(s, 'C', 'O', 'N') || spells3(s, 'P', 'R', 'N') || spells3(
        s,
        'A',
        'U',
        'X',
    ) || spells3(s, 'N', 'U', 'L'))) || (s.len() == 4 && (spells3(s, 'C', 'O', 'M') || spells3(
        s,
        'L',
        'P',
        'T',
    )) && '1' <= s[3] && s[3] <= '9')
}

/// The ASCII upper-case form of a character.
fn upper_char(c: char) -> (r: char)
    ensures
        r == ascii_upper(c),
{
    if 'a' <= c && c <= 'z' {
        ((c as u32) - 32) as u8 as char
    } else {
        c
    }
}

/// Whether a name is reserved for a device on Windows.
pub fn is_windows_device_name(id: &str) -> (r: bool)
    ensures
        r == windows_device_name(id@),
{
    let s = chars_of(id);
    if s.len() == 3 {
        let a = upper_char(s[0]);
        let b = upper_char(s[1]);
        let c = upper_char(s[2]);
        (a == 'C' && b == 'O' && c == 'N') || (a == 'P' && b == 'R' && c == 'N') || (a == 'A' && b
            == 'U' && c == 'X') || (a == 'N' && b == 'U' && c == 'L')
    } else if s.len() == 4 {
        let a = upper_char(s[0]);
        let b = upper_char(s[1]);
        let c = upper_char(s[2]);
        ((a == 'C' && b == 'O' && c == 'M') || (a == 'L' && b == 'P' && c == 'T')) && '1' <= s[3]
            && s[3] <= '9'
    } else {
        false
    }
}

/// Whether a pack ID may become a file name anywhere: 1 to 128 bytes of letters, digits,
/// `-` and `_`, and no name that Windows reserves.
pub open spec fn portable_id(id: Seq<char>) -> bool {
    id.len() > 0 && utf8_len(id) <= 128 && (forall|i: int|
        0 <= i < id.len() ==> portable_char(#[trigger] id[i])) && !windows_device_name(id)
}

/// Checks that a pack ID can name the file that `content add` writes.
pub fn validate_add_id(id: &str) -> (r: Result<(), CliError>)
    ensures
        match r {
            Ok(()) => portable_id(id@),
            Err(e) => !portable_id(id@) && e.input && e.message@ == "pack ID "@ + debug_quoted(id@)
                + " is not a portable filename"@,
        },
{
    let s = chars_of(id);
    let mut portable = true;
    for i in 0..s.len()
        invariant
            s@ == id@,
            portable == forall|k: int| 0 <= k < i ==> portable_char(#[trigger] s@[k]),
    {
        let c = s[i];
        if !(('a' <= c && c <= 'z') || ('A' <= c && c <= 'Z') || ('0' <= c && c <= '9') || c
            == '-' || c == '_') {
            portable = false;
        }
    }
    if s.len() == 0 || id.len() > 128 || !portable || is_windows_device_name(id) {
        return Err(input_error(quoted_message("pack ID ", id, " is not a portable filename")));
    }
    Ok(())
}

/// Whether a pack ID may be looked up for `content disable`: not empty, not `.` or `..`,
/// and without `/`, `\` or control characters.
pub open spec fn disable_id_ok(id: Seq<char>) -> bool {
    id.len() > 0 && id != seq!['.'] && id != seq!['.', '.'] && (forall|i: int|
        0 <= i < id.len() ==> id[i] != '/' && id[i] != '\\' && !spec_is_control(#[trigger] id[i]))
}

/// Checks a pack ID given to `content disable`.
pub fn validate_disable_id(id: &str) -> (r: Result<(), CliError>)
    ensures
        match r {
            Ok(()) => disable_id_ok(id@),
            Err(e) => !disable_id_ok(id@) && e.input && e.message@ == "invalid pack ID "@
                + debug_quoted(id@),
        },
{
    let s = chars_of(id);
    let mut clean = true;
    for i in 0..s.len()
        invariant
            s@ == id@,
            clean == forall|k: int|
                0 <= k < i ==> s@[k] != '/' && s@[k] != '\\' && !spec_is_control(#[trigger] s@[k]),
    {
        if s[i] == '/' || s[i] == '\\' || is_control(s[i]) {
            clean = false;
        }
    }
    let dots = (s.len() == 1 && s[0] == '.') || (s.len() == 2 && s[0] == '.' && s[1] == '.');
    proof {
        if s@.len() == 1 && s@[0] == '.' {
            assert(id@ =~= seq!['.']);
        }
        if s@.len() == 2 && s@[0] == '.' && s@[1] == '.' {
            assert(id@ =~= seq!['.', '.']);
        }
        if id@ == seq!['.'] {
            assert(s@.len() == 1 && s@[0] == '.');
        }
        if id@ == seq!['.', '.'] {
            assert(s@.len() == 2 && s@[0] == '.' && s@[1] == '.');
        }
    }
    if s.len() == 0 || dots || !clean {
        proof {
            reveal_strlit("");
        }
        return Err(input_error(quoted_message("invalid pack ID ", id, "")));
    }
    Ok(())
}

/// Refuses a candidate pack with errors, listing each on one line joined by `; `.
pub open spec fn joined_lines(errors: Seq<ContentErrorView>) -> Seq<char>
    decreases errors.len(),
{
    if errors.len() == 0 {
        Seq::empty()
    } else if errors.len() == 1 {
        content_error_line(errors[0])
    } else {
        joined_lines(errors.drop_last()) + "; "@ + content_error_line(errors.last())
    }
}

/// Succeeds when there are no errors; otherwise fails with every error on one line.
pub fn reject_content_errors(errors: Vec<ContentError>) -> (r: Result<(), CliError>)
    ensures
        match r {
            Ok(()) => errors@.len() == 0,
            Err(e) => errors@.len() > 0 && e.input && e.message@ == joined_lines(
                error_views(errors@),
            ),
        },
{
    if errors.len() == 0 {
        return Ok(());
    }
    let mut out = String::new();
    for i in 0..errors.len()
        invariant
            out@ == joined_lines(error_views(errors@.take(i as int))),
    {
        let ghost before = error_views(errors@.take(i as int));
        let ghost after = error_views(errors@.take(i + 1));
        proof {
            assert(after.drop_last() =~= before);
        }
        if i > 0 {
            push_str(&mut out, "; ");
        }
        let line = format_content_error(&errors[i]);
        push_str(&mut out, line.as_str());
        proof {
            if i == 0 {
                assert(out@ =~= joined_lines(after));
            } else {
                assert(out@ =~= joined_lines(after));
            }
        }
    }
    proof {
        assert(errors@.take(errors@.len() as int) =~= errors@);
    }
    Err(input_error(out))
}

/// The short name of a language.
pub fn language_name(language: Language) -> (r: &'static str)
    ensures
        r@ == match language {
            Language::Ko => "ko"@,
            Language::En => "en"@,
        },
{
    match language {
        Language::Ko => "ko",
        Language::En => "en",
    }
}

/// How a path reads as text, with anything that is not Unicode replaced.
pub uninterp spec fn lossy_path(p: PathBuf) -> Seq<char>;

/// Calls `Path::to_string_lossy`. Claimed: the text is a function of the path alone.
#[verifier::external_body]
fn path_text(p: &PathBuf) -> (r: String)
    ensures
        r@ == lossy_path(*p),
{
    p.to_string_lossy().into_owned()
}

/// A warning about a file that did not load, under the scope it belongs to.
pub fn format_load_warning(scope: &str, warning: &LoadWarning) -> (r: String)
    ensures
        r@ == scope@ + ": "@ + lossy_path(warning.path) + ": "@ + warning.message@,
{
    let mut out = scope.to_owned();
    push_str(&mut out, ": ");
    let path = path_text(&warning.path);
    push_str(&mut out, path.as_str());
    push_str(&mut out, ": ");
    push_str(&mut out, warning.message.as_str());
    out
}

/// The short name of a language.
pub open spec fn language_code(language: Language) -> Seq<char> {
    match language {
        Language::Ko => "ko"@,
        Language::En => "en"@,
    }
}

/// Texts joined with a separator between them.
pub open spec fn joined(parts: Seq<Seq<char>>, sep: Seq<char>) -> Seq<char>
    decreases parts.len(),
{
    if parts.len() == 0 {
        Seq::empty()
    } else if parts.len() == 1 {
        parts[0]
    } else {
        joined(parts.drop_last(), sep) + sep + parts.last()
    }
}

/// Appends texts joined with `,`.
fn push_joined(out: &mut String, parts: &Vec<String>)
    ensures
        final(out)@ == old(out)@ + joined(string_views(parts@), ","@),
{
    let ghost start = out@;
    for i in 0..parts.len()
        invariant
            out@ == start + joined(string_views(parts@).take(i as int), ","@),
    {
        let ghost before = string_views(parts@).take(i as int);
        let ghost after = string_views(parts@).take(i + 1);
        proof {
            assert(after.drop_last() =~= before);
            assert(after.last() == parts@[i as int]@);
        }
        if i > 0 {
            push_str(out, ",");
        }
        push_str(out, parts[i].as_str());
        proof {
            if i == 0 {
                assert(before =~= Seq::<Seq<char>>::empty());
                assert(out@ =~= start + joined(after, ","@));
            } else {
                assert(out@ =~= start + joined(after, ","@));
            }
        }
    }
    proof {
        assert(string_views(parts@).take(parts@.len() as int) =~= string_views(parts@));
    }
}

/// The line that `content list` prints for a pack.
pub open spec fn listing_text(l: PackListingView) -> Seq<char> {
    l.id + "\tlanguage="@ + language_code(l.language) + "\titems="@ + decimal(l.items as nat)
        + "\tlicense="@ + joined(l.licenses, ","@) + "\tsource="@ + joined(l.sources, ","@)
}

/// Formats what `content list` prints for a pack.
pub fn listing_line(listing: &PackListing) -> (r: String)
    ensures
        r@ == listing_text(listing@),
{
    let mut out = listing.id.clone();
    push_str(&mut out, "\tlanguage=");
    push_str(&mut out, language_name(listing.language));
    push_str(&mut out, "\titems=");
    push_decimal(&mut out, listing.items as u64);
    push_str(&mut out, "\tlicense=");
    push_joined(&mut out, &listing.licenses);
    push_str(&mut out, "\tsource=");
    push_joined(&mut out, &listing.sources);
    out
}

/// The verdict of validating the active content: refused, as an input error, when loading it
/// gave warnings.
pub fn active_content_verdict(warning_count: usize) -> (r: Result<(), CliError>)
    ensures
        match r {
            Ok(()) => warning_count == 0,
            Err(e) => warning_count > 0 && e.input && e.message@ == decimal(warning_count as nat)
                + " active content pack warning(s)"@,
        },
{
    if warning_count == 0 {
        return Ok(());
    }
    let mut m = String::new();
    push_decimal(&mut m, warning_count as u64);
    push_str(&mut m, " active content pack warning(s)");
    proof {
        assert(m@ =~= decimal(warning_count as nat) + " active content pack warning(s)"@);
    }
    Err(input_error(m))
}

/// Refuses to disable a built-in pack.
pub fn refuse_builtin(builtins: &ContentCatalog, id: &str) -> (r: Result<(), CliError>)
    ensures
        match r {
            Ok(()) => !builtins@.pack_ids.contains(id@),
            Err(e) => builtins@.pack_ids.contains(id@) && e.input && e.message@
                == "built-in content pack "@ + debug_quoted(id@) + " cannot be disabled"@,
        },
{
    if builtins.contains_pack(id) {
        return Err(input_error(quoted_message("built-in content pack ", id, " cannot be disabled")));
    }
    Ok(())
}

/// Checks that a pack may be disabled: a built-in pack cannot be, and the pack must be an
/// enabled user pack of `catalog`, whose file is given back.
pub fn disable_target<'a>(builtins: &ContentCatalog, catalog: &'a ContentCatalog, id: &str) -> (r:
    Result<&'a PathBuf, CliError>)
    requires
        catalog.wf(),
    ensures
        match r {
            Ok(p) => !builtins@.pack_ids.contains(id@) && catalog@.user_packs.contains_key(id@)
                && catalog@.user_packs[id@] == *p,
            Err(e) => e.input && if builtins@.pack_ids.contains(id@) {
                e.message@ == "built-in content pack "@ + debug_quoted(id@) + " cannot be disabled"@
            } else {
                !catalog@.user_packs.contains_key(id@) && e.message@ == "enabled user content pack "@
                    + debug_quoted(id@) + " was not found"@
            },
        },
{
    refuse_builtin(builtins, id)?;
    match catalog.active_user_path(id) {
        Some(p) => Ok(p),
        None => Err(input_error(quoted_message("enabled user content pack ", id, " was not found"))),
    }
}

/// `--time` accepts for a typing test exactly the test durations the program offers, for
/// Quick exactly the Quick time limits it offers, and no duration for any other mode.
pub proof fn lemma_cli_durations_are_the_presets(kind: PracticeKind, seconds: u64)
    ensures
        kind == PracticeKind::Test ==> (duration_allowed(kind, seconds)
            <==> crate::app::test_duration_presets().contains(seconds)),
        kind == PracticeKind::Quick ==> (duration_allowed(kind, seconds)
            <==> crate::app::quick_time_presets().contains(seconds)),
        kind != PracticeKind::Test && kind != PracticeKind::Quick ==> !duration_allowed(kind, seconds),
{
    let t = crate::app::test_duration_presets();
    let q = crate::app::quick_time_presets();
    if kind == PracticeKind::Test {
        if t.contains(seconds) {
            let k = choose|k: int| 0 <= k < t.len() && t[k] == seconds;
            assert(k == 0 || k == 1 || k == 2 || k == 3);
        }
        if duration_allowed(kind, seconds) {
            if seconds == 60 {
                assert(t[0] == seconds);
            } else if seconds == 180 {
                assert(t[1] == seconds);
            } else if seconds == 300 {
                assert(t[2] == seconds);
            } else {
                assert(t[3] == seconds);
            }
        }
    }
    if kind == PracticeKind::Quick {
        if q.contains(seconds) {
            let k = choose|k: int| 0 <= k < q.len() && q[k] == seconds;
            assert(k == 0 || k == 1 || k == 2 || k == 3);
        }
        if duration_allowed(kind, seconds) {
            if seconds == 15 {
                assert(q[0] == seconds);
            } else if seconds == 30 {
                assert(q[1] == seconds);
            } else if seconds == 60 {
                assert(q[2] == seconds);
            } else {
                assert(q[3] == seconds);
            }
        }
    }
}

} // verus!
