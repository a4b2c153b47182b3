use roped::bind::BindConfig;
use roped::convert::FieldTy;
use roped::convert::Value;
use roped::error::ArgType;
use roped::error::ErrorType;
use roped::route::dispatch;
use roped::tables::Extras;
use roped::tables::FieldSpec;
use roped::tables::Handler;
use roped::tables::NameEntry;
use roped::tables::PrefixEntry;
use roped::tables::DefaultSpec;
use roped::tables::FlagKind;
use roped::tables::FlagSpec;
use roped::tables::RouteTable;
use roped::tables::well_formed;

fn route_chars(s: &str) -> Vec<char> {
    s.chars().collect()
}

fn cfg() -> BindConfig {
    BindConfig { advance_index_on_default: true }
}

fn trail_leaf(id: usize) -> Handler {
    Handler::Leaf(
        id,
        FieldSpec { positionals: Vec::new(), extras: Extras::Trail(FieldTy::Str) },
    )
}

const WS: [char; 1] = [' '];

fn prefix_and_name_table() -> Handler {
    Handler::Scope(RouteTable {
        prefixes: vec![PrefixEntry { literal: "$".chars().collect(), handler: trail_leaf(1) }],
        names: vec![NameEntry { literal: "cmd".chars().collect(), handler: trail_leaf(2) }],
        fallback: None,
    })
}

#[test]
fn prefix_routes_with_glued_residual() {
    let h = prefix_and_name_table();
    let input = route_chars("$5");
    let b = dispatch(&h, input.as_slice(), &WS, 1, cfg()).unwrap();
    assert_eq!(b.command, 1);
    assert_eq!(b.record, vec![Some(Value::Str("5".to_string()))]);
}

#[test]
fn name_routes_with_trailing_residual() {
    let h = prefix_and_name_table();
    let input = route_chars("cmd 5");
    let b = dispatch(&h, input.as_slice(), &WS, 1, cfg()).unwrap();
    assert_eq!(b.command, 2);
    assert_eq!(b.record, vec![Some(Value::Str("5".to_string()))]);
}

#[test]
fn empty_input_without_fallback_expects_scope() {
    let h = prefix_and_name_table();
    let input = route_chars("");
    let e = dispatch(&h, input.as_slice(), &WS, 1, cfg()).unwrap_err();
    assert_eq!(e.index, 1);
    assert!(matches!(e.variant, ErrorType::Expected(ArgType::Scope)));
}

#[test]
fn unknown_scope_without_fallback_is_parse_scope() {
    let h = prefix_and_name_table();
    let input = route_chars("zzz 1");
    let e = dispatch(&h, input.as_slice(), &WS, 1, cfg()).unwrap_err();
    assert_eq!(e.index, 1);
    match e.variant {
        ErrorType::Parse(p) => {
            assert_eq!(p.arg, "zzz");
            assert!(matches!(p.parse_type, ArgType::Scope));
        }
        _ => panic!("expected a scope parse error"),
    }
}

#[test]
fn fallback_receives_raw_untokenized_input() {
    let h = Handler::Scope(RouteTable {
        prefixes: Vec::new(),
        names: vec![NameEntry { literal: "a".chars().collect(), handler: trail_leaf(1) }],
        fallback: Some(Box::new(trail_leaf(9))),
    });
    let input = route_chars("b and  more");
    let b = dispatch(&h, input.as_slice(), &WS, 1, cfg()).unwrap();
    assert_eq!(b.command, 9);
    assert_eq!(b.record, vec![Some(Value::Str("b and  more".to_string()))]);
    assert_eq!(b.index, 1);
}

#[test]
fn fallback_receives_empty_input() {
    let h = Handler::Scope(RouteTable {
        prefixes: Vec::new(),
        names: Vec::new(),
        fallback: Some(Box::new(trail_leaf(9))),
    });
    let input = route_chars("");
    let b = dispatch(&h, input.as_slice(), &WS, 1, cfg()).unwrap();
    assert_eq!(b.command, 9);
    assert_eq!(b.record, vec![Some(Value::Str(String::new()))]);
}

#[test]
fn nested_scopes_advance_the_index_per_name() {
    let inner = Handler::Scope(RouteTable {
        prefixes: Vec::new(),
        names: vec![NameEntry {
            literal: "inner".chars().collect(),
            handler: Handler::Leaf(
                3,
                FieldSpec { positionals: vec![FieldTy::Int], extras: Extras::Exact },
            ),
        }],
        fallback: None,
    });
    let h = Handler::Scope(RouteTable {
        prefixes: Vec::new(),
        names: vec![NameEntry { literal: "outer".chars().collect(), handler: inner }],
        fallback: None,
    });
    let input = route_chars("outer inner 5");
    let b = dispatch(&h, input.as_slice(), &WS, 1, cfg()).unwrap();
    assert_eq!(b.command, 3);
    assert_eq!(b.record, vec![Some(Value::Int(5))]);
    assert_eq!(b.index, 4);
}

#[test]
fn prefix_consumes_no_dispatch_slot() {
    let h = Handler::Scope(RouteTable {
        prefixes: vec![PrefixEntry {
            literal: "$".chars().collect(),
            handler: Handler::Leaf(
                1,
                FieldSpec { positionals: vec![FieldTy::Int], extras: Extras::Exact },
            ),
        }],
        names: Vec::new(),
        fallback: None,
    });
    let input = route_chars("$5");
    let b = dispatch(&h, input.as_slice(), &WS, 1, cfg()).unwrap();
    assert_eq!(b.record, vec![Some(Value::Int(5))]);
    assert_eq!(b.index, 2);
}

#[test]
fn earlier_prefix_declaration_wins() {
    let h = Handler::Scope(RouteTable {
        prefixes: vec![
            PrefixEntry { literal: "$".chars().collect(), handler: trail_leaf(1) },
            PrefixEntry { literal: "$$".chars().collect(), handler: trail_leaf(2) },
        ],
        names: Vec::new(),
        fallback: None,
    });
    let input = route_chars("$$x");
    let b = dispatch(&h, input.as_slice(), &WS, 1, cfg()).unwrap();
    assert_eq!(b.command, 1);
    assert_eq!(b.record, vec![Some(Value::Str("$x".to_string()))]);
}

#[test]
fn well_formed_accepts_a_sound_table() {
    let h = prefix_and_name_table();
    assert!(well_formed(&h));
}

#[test]
fn well_formed_rejects_duplicate_names() {
    let h = Handler::Scope(RouteTable {
        prefixes: Vec::new(),
        names: vec![
            NameEntry { literal: "a".chars().collect(), handler: trail_leaf(1) },
            NameEntry { literal: "a".chars().collect(), handler: trail_leaf(2) },
        ],
        fallback: None,
    });
    assert!(!well_formed(&h));
}

#[test]
fn well_formed_rejects_empty_literals() {
    let h = Handler::Scope(RouteTable {
        prefixes: vec![PrefixEntry { literal: Vec::new(), handler: trail_leaf(1) }],
        names: Vec::new(),
        fallback: None,
    });
    assert!(!well_formed(&h));
}

#[test]
fn well_formed_rejects_a_name_shadowing_a_prefix() {
    let h = Handler::Scope(RouteTable {
        prefixes: vec![PrefixEntry { literal: "x".chars().collect(), handler: trail_leaf(1) }],
        names: vec![NameEntry { literal: "x".chars().collect(), handler: trail_leaf(2) }],
        fallback: None,
    });
    assert!(!well_formed(&h));
}

#[test]
fn well_formed_rejects_duplicate_flags_in_a_nested_leaf() {
    let h = Handler::Scope(RouteTable {
        prefixes: Vec::new(),
        names: vec![NameEntry {
            literal: "cmd".chars().collect(),
            handler: Handler::Leaf(
                1,
                FieldSpec {
                    positionals: Vec::new(),
                    extras: Extras::Flags(vec![
                        FlagSpec { name: "f".chars().collect(), kind: FlagKind::Trigger },
                        FlagSpec {
                            name: "f".chars().collect(),
                            kind: FlagKind::Value(FieldTy::Int),
                        },
                    ]),
                },
            ),
        }],
        fallback: None,
    });
    assert!(!well_formed(&h));
}

#[test]
fn well_formed_rejects_a_default_of_the_wrong_type() {
    let h = Handler::Leaf(
        1,
        FieldSpec {
            positionals: Vec::new(),
            extras: Extras::Defaults(vec![DefaultSpec {
                ty: FieldTy::Int,
                value: Value::Str("nope".to_string()),
            }]),
        },
    );
    assert!(!well_formed(&h));
}
