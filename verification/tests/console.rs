use roped::base_types::EmptyState;
use roped::bind::BindConfig;
use roped::command::execute;
use roped::command::wrap_outcome;
use roped::command::Command;
use roped::convert::FieldTy;
use roped::convert::Value;
use roped::error::ArgType;
use roped::error::Error;
use roped::error::ErrorType;
use roped::error::InternalError;
use roped::error::ParseErr;
use roped::parse::marker_text;
use roped::parse::parse_input;
use roped::tables::Extras;
use roped::tables::FieldSpec;
use roped::tables::FlagKind;
use roped::tables::FlagSpec;
use roped::tables::Handler;
use roped::tables::NameEntry;
use roped::tables::RouteTable;
use roped::text::usize_to_string;

fn line_chars(s: &str) -> Vec<char> {
    s.chars().collect()
}

fn cfg() -> BindConfig {
    BindConfig { advance_index_on_default: true }
}

const WS: [char; 1] = [' '];
const NL: [char; 2] = [';', '\n'];

fn console_table() -> Handler {
    Handler::Scope(RouteTable {
        prefixes: Vec::new(),
        names: vec![NameEntry {
            literal: "scope".chars().collect(),
            handler: Handler::Leaf(
                1,
                FieldSpec {
                    positionals: vec![FieldTy::Int, FieldTy::Str],
                    extras: Extras::Flags(vec![FlagSpec {
                        name: "flag".chars().collect(),
                        kind: FlagKind::Trigger,
                    }]),
                },
            ),
        }],
        fallback: Some(Box::new(Handler::Leaf(
            2,
            FieldSpec { positionals: Vec::new(), extras: Extras::Trail(FieldTy::Str) },
        ))),
    })
}

#[test]
fn multi_command_line_dispatches_independently_with_markers() {
    let h = console_table();
    let line = line_chars("scope 21 word --flag; other text");
    let outcomes = parse_input(&h, line.as_slice(), &WS, &NL, cfg());
    assert_eq!(outcomes.len(), 2);

    assert_eq!(outcomes[0].number, 1);
    assert!(outcomes[0].marker);
    let first = outcomes[0].result.as_ref().unwrap();
    assert_eq!(first.command, 1);
    assert_eq!(
        first.record,
        vec![
            Some(Value::Int(21)),
            Some(Value::Str("word".to_string())),
            Some(Value::Trigger),
        ]
    );

    assert_eq!(outcomes[1].number, 2);
    assert!(outcomes[1].marker);
    let second = outcomes[1].result.as_ref().unwrap();
    assert_eq!(second.command, 2);
    assert_eq!(second.record, vec![Some(Value::Str("other text".to_string()))]);
    assert_eq!(marker_text(outcomes[1].number, ". "), "2. ");
}

#[test]
fn single_command_has_no_marker() {
    let h = console_table();
    let line = line_chars("scope 5 x");
    let outcomes = parse_input(&h, line.as_slice(), &WS, &NL, cfg());
    assert_eq!(outcomes.len(), 1);
    assert_eq!(outcomes[0].number, 1);
    assert!(!outcomes[0].marker);
}

#[test]
fn trailing_separators_leave_single_command_unmarked() {
    let h = console_table();
    let line = line_chars("scope 5 x ; ; ");
    let outcomes = parse_input(&h, line.as_slice(), &WS, &NL, cfg());
    assert_eq!(outcomes.len(), 1);
    assert_eq!(outcomes[0].number, 1);
    assert!(!outcomes[0].marker);
}

#[test]
fn segment_line_terminators_are_trimmed() {
    let h = console_table();
    let line = line_chars("scope 5 x\r");
    let outcomes = parse_input(&h, line.as_slice(), &WS, &NL, cfg());
    assert_eq!(outcomes.len(), 1);
    let b = outcomes[0].result.as_ref().unwrap();
    assert_eq!(b.record[0], Some(Value::Int(5)));
}

#[test]
fn lone_terminator_segment_is_skipped() {
    let h = console_table();
    let line = line_chars(" \r ; scope 5 x");
    let outcomes = parse_input(&h, line.as_slice(), &WS, &NL, cfg());
    assert_eq!(outcomes.len(), 1);
    assert_eq!(outcomes[0].number, 1);
    assert!(!outcomes[0].marker);
    let b = outcomes[0].result.as_ref().unwrap();
    assert_eq!(b.command, 1);
}

#[test]
fn only_separators_yield_zero_commands() {
    let h = console_table();
    let line = line_chars(" ;;  ;  ");
    let outcomes = parse_input(&h, line.as_slice(), &WS, &NL, cfg());
    assert_eq!(outcomes.len(), 0);
}

#[test]
fn empty_line_yields_zero_commands() {
    let h = console_table();
    let line = line_chars("");
    let outcomes = parse_input(&h, line.as_slice(), &WS, &NL, cfg());
    assert_eq!(outcomes.len(), 0);
}

#[test]
fn empty_pieces_consume_no_number() {
    let h = console_table();
    let line = line_chars("; scope 5 x ;; scope 6 y");
    let outcomes = parse_input(&h, line.as_slice(), &WS, &NL, cfg());
    assert_eq!(outcomes.len(), 2);
    assert_eq!(outcomes[0].number, 1);
    assert_eq!(outcomes[1].number, 2);
}

#[test]
fn one_failing_command_leaves_the_others_alone() {
    let h = console_table();
    let line = line_chars("scope nope x; scope 7 ok");
    let outcomes = parse_input(&h, line.as_slice(), &WS, &NL, cfg());
    assert_eq!(outcomes.len(), 2);
    let e = outcomes[0].result.as_ref().unwrap_err();
    assert_eq!(e.index, 2);
    let ok = outcomes[1].result.as_ref().unwrap();
    assert_eq!(ok.record[0], Some(Value::Int(7)));
}

#[test]
fn marker_text_is_number_then_suffix() {
    assert_eq!(marker_text(1, " "), "1 ");
    assert_eq!(marker_text(12, "> "), "12> ");
    assert_eq!(marker_text(907, ""), "907");
}

#[test]
fn decimal_rendering_is_exact() {
    assert_eq!(usize_to_string(0), "0");
    assert_eq!(usize_to_string(9), "9");
    assert_eq!(usize_to_string(10), "10");
    assert_eq!(usize_to_string(65535), "65535");
}

#[test]
fn messages_match_the_console_format() {
    let e1 = InternalError { index: 3, variant: ErrorType::Expected(ArgType::Scope) };
    assert_eq!(e1.message(), "Expected a scope (3)");
    let e2 = InternalError { index: 1, variant: ErrorType::Expected(ArgType::Arg) };
    assert_eq!(e2.message(), "Expected an argument (1)");
    let e3 = InternalError { index: 2, variant: ErrorType::Expected(ArgType::Flag) };
    assert_eq!(e3.message(), "Expected a flag (2)");
    let e4 = InternalError {
        index: 1,
        variant: ErrorType::Parse(ParseErr { arg: "zzz".to_string(), parse_type: ArgType::Scope }),
    };
    assert_eq!(e4.message(), "Scope \"zzz\" does not exist (1)");
    let e5 = InternalError {
        index: 4,
        variant: ErrorType::Parse(ParseErr { arg: "x1".to_string(), parse_type: ArgType::Arg }),
    };
    assert_eq!(e5.message(), "Unable to cast argument \"x1\" (4)");
    let e6 = InternalError { index: 2, variant: ErrorType::InvalidFlag("zz".to_string()) };
    assert_eq!(e6.message(), "Flag \"--zz\" does not exist (2)");
    let e7 = InternalError { index: 5, variant: ErrorType::Unexpected("tail".to_string()) };
    assert_eq!(e7.message(), "Did not expect an argument \"tail\" (5)");
}

struct Doubler {
    n: u64,
}

impl Command for Doubler {
    type State = u64;
    type Error = String;

    fn action(self, state: &mut u64) -> Result<(), String> {
        if self.n > 1000 {
            return Err("too large".to_string());
        }
        *state += 2 * self.n;
        Ok(())
    }
}

#[test]
fn executor_passes_success_through() {
    let mut state: u64 = 1;
    let r = execute(Doubler { n: 20 }, &mut state);
    assert!(r.is_ok());
    assert_eq!(state, 41);
}

#[test]
fn executor_wraps_action_failure_as_user_error() {
    let mut state: u64 = 1;
    let r = execute(Doubler { n: 2000 }, &mut state);
    match r {
        Err(Error::User(msg)) => assert_eq!(msg, "too large"),
        _ => panic!("expected a user-level error"),
    }
    assert_eq!(state, 1);
}

struct Nop;

impl Command for Nop {
    type State = EmptyState;
    type Error = String;

    fn action(self, _state: &mut EmptyState) -> Result<(), String> {
        Ok(())
    }
}

#[test]
fn outcome_wrapping_is_exact() {
    let ok: Result<(), String> = Ok(());
    assert!(matches!(wrap_outcome(ok), Ok(())));
    let err: Result<(), String> = Err("boom".to_string());
    match wrap_outcome(err) {
        Err(Error::User(m)) => assert_eq!(m, "boom"),
        _ => panic!("expected a user-level error"),
    }
}

#[test]
fn executor_runs_against_the_empty_state() {
    let mut state = EmptyState;
    assert!(execute(Nop, &mut state).is_ok());
}
