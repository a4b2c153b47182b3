use roped::bind::BindConfig;
use roped::convert::FieldTy;
use roped::convert::Value;
use roped::error::ArgType;
use roped::error::ErrorType;
use roped::route::dispatch;
use roped::tables::DefaultSpec;
use roped::tables::Extras;
use roped::tables::FieldSpec;
use roped::tables::FlagKind;
use roped::tables::FlagSpec;
use roped::tables::Handler;

fn bind_chars(s: &str) -> Vec<char> {
    s.chars().collect()
}

fn cfg() -> BindConfig {
    BindConfig { advance_index_on_default: true }
}

fn leaf(positionals: Vec<FieldTy>, extras: Extras) -> Handler {
    Handler::Leaf(0, FieldSpec { positionals, extras })
}

const WS: [char; 1] = [' '];

#[test]
fn three_positionals_bind_and_advance_index() {
    let h = leaf(vec![FieldTy::Int, FieldTy::Str, FieldTy::Bool], Extras::Exact);
    let input = bind_chars("21 bob true");
    let b = dispatch(&h, input.as_slice(), &WS, 1, cfg()).unwrap();
    assert_eq!(
        b.record,
        vec![
            Some(Value::Int(21)),
            Some(Value::Str("bob".to_string())),
            Some(Value::Bool(true)),
        ]
    );
    assert_eq!(b.index, 4);
}

#[test]
fn missing_positional_yields_expected_arg_at_one() {
    let h = leaf(vec![FieldTy::Int], Extras::Exact);
    let input = bind_chars("");
    let e = dispatch(&h, input.as_slice(), &WS, 1, cfg()).unwrap_err();
    assert_eq!(e.index, 1);
    assert!(matches!(e.variant, ErrorType::Expected(ArgType::Arg)));
}

#[test]
fn unconvertible_token_yields_parse_arg() {
    let h = leaf(vec![FieldTy::Int], Extras::Exact);
    let input = bind_chars("abc");
    let e = dispatch(&h, input.as_slice(), &WS, 1, cfg()).unwrap_err();
    assert_eq!(e.index, 1);
    match e.variant {
        ErrorType::Parse(p) => {
            assert_eq!(p.arg, "abc");
            assert!(matches!(p.parse_type, ArgType::Arg));
        }
        _ => panic!("expected a parse error"),
    }
}

#[test]
fn residual_token_with_no_trail_is_unexpected() {
    let h = leaf(vec![FieldTy::Int], Extras::Exact);
    let input = bind_chars("5 extra");
    let e = dispatch(&h, input.as_slice(), &WS, 1, cfg()).unwrap_err();
    assert_eq!(e.index, 2);
    match e.variant {
        ErrorType::Unexpected(tok) => assert_eq!(tok, "extra"),
        _ => panic!("expected an unexpected-argument error"),
    }
}

fn flags_record() -> Handler {
    leaf(
        vec![FieldTy::Int],
        Extras::Flags(vec![
            FlagSpec { name: "f1".chars().collect(), kind: FlagKind::Trigger },
            FlagSpec { name: "f2".chars().collect(), kind: FlagKind::Value(FieldTy::Int) },
        ]),
    )
}

#[test]
fn flag_order_is_immaterial() {
    let h = flags_record();
    let a = bind_chars("5 --f1 --f2 9");
    let b = bind_chars("5 --f2 9 --f1");
    let ra = dispatch(&h, a.as_slice(), &WS, 1, cfg()).unwrap();
    let rb = dispatch(&h, b.as_slice(), &WS, 1, cfg()).unwrap();
    assert_eq!(ra.record, rb.record);
    assert_eq!(
        ra.record,
        vec![Some(Value::Int(5)), Some(Value::Trigger), Some(Value::Int(9))]
    );
}

#[test]
fn absent_flags_stay_unset() {
    let h = flags_record();
    let input = bind_chars("5");
    let b = dispatch(&h, input.as_slice(), &WS, 1, cfg()).unwrap();
    assert_eq!(b.record, vec![Some(Value::Int(5)), None, None]);
    assert_eq!(b.index, 2);
}

#[test]
fn value_flag_without_value_yields_expected_flag() {
    let h = flags_record();
    let input = bind_chars("5 --f2");
    let e = dispatch(&h, input.as_slice(), &WS, 1, cfg()).unwrap_err();
    assert_eq!(e.index, 3);
    assert!(matches!(e.variant, ErrorType::Expected(ArgType::Flag)));
}

#[test]
fn unknown_flag_yields_invalid_flag() {
    let h = flags_record();
    let input = bind_chars("5 --zz");
    let e = dispatch(&h, input.as_slice(), &WS, 1, cfg()).unwrap_err();
    assert_eq!(e.index, 2);
    match e.variant {
        ErrorType::InvalidFlag(name) => assert_eq!(name, "zz"),
        _ => panic!("expected an invalid-flag error"),
    }
}

#[test]
fn bare_word_in_flag_position_is_unexpected() {
    let h = flags_record();
    let input = bind_chars("5 word");
    let e = dispatch(&h, input.as_slice(), &WS, 1, cfg()).unwrap_err();
    assert_eq!(e.index, 2);
    assert!(matches!(e.variant, ErrorType::Unexpected(_)));
}

#[test]
fn repeated_flag_keeps_last_value() {
    let h = flags_record();
    let input = bind_chars("5 --f2 9 --f2 8");
    let b = dispatch(&h, input.as_slice(), &WS, 1, cfg()).unwrap();
    assert_eq!(b.record[2], Some(Value::Int(8)));
}

fn defaults_record() -> Handler {
    leaf(
        vec![FieldTy::Int],
        Extras::Defaults(vec![
            DefaultSpec { ty: FieldTy::Str, value: Value::Str("abc".to_string()) },
            DefaultSpec { ty: FieldTy::Int, value: Value::Int(2) },
        ]),
    )
}

#[test]
fn defaults_substitute_when_input_runs_out() {
    let h = defaults_record();
    let input = bind_chars("21");
    let b = dispatch(&h, input.as_slice(), &WS, 1, cfg()).unwrap();
    assert_eq!(
        b.record,
        vec![
            Some(Value::Int(21)),
            Some(Value::Str("abc".to_string())),
            Some(Value::Int(2)),
        ]
    );
    assert_eq!(b.index, 4);
}

#[test]
fn defaults_consume_input_while_it_lasts() {
    let h = defaults_record();
    let input = bind_chars("21 xyz");
    let b = dispatch(&h, input.as_slice(), &WS, 1, cfg()).unwrap();
    assert_eq!(
        b.record,
        vec![
            Some(Value::Int(21)),
            Some(Value::Str("xyz".to_string())),
            Some(Value::Int(2)),
        ]
    );
}

#[test]
fn default_index_accounting_is_configurable() {
    let h = defaults_record();
    let input = bind_chars("21");
    let fixed = BindConfig { advance_index_on_default: false };
    let b = dispatch(&h, input.as_slice(), &WS, 1, fixed).unwrap();
    assert_eq!(b.index, 2);
}

#[test]
fn trail_absorbs_remaining_text_verbatim() {
    let h = leaf(vec![FieldTy::Int], Extras::Trail(FieldTy::Str));
    let input = bind_chars("21 a b  c");
    let b = dispatch(&h, input.as_slice(), &WS, 1, cfg()).unwrap();
    assert_eq!(
        b.record,
        vec![Some(Value::Int(21)), Some(Value::Str("a b  c".to_string()))]
    );
}

#[test]
fn trail_accepts_empty_input() {
    let h = leaf(vec![FieldTy::Int], Extras::Trail(FieldTy::Str));
    let input = bind_chars("21");
    let b = dispatch(&h, input.as_slice(), &WS, 1, cfg()).unwrap();
    assert_eq!(
        b.record,
        vec![Some(Value::Int(21)), Some(Value::Str(String::new()))]
    );
}

#[test]
fn bool_accepts_exactly_true_and_false() {
    let h = leaf(vec![FieldTy::Bool], Extras::Exact);
    let t = bind_chars("true");
    let f = bind_chars("false");
    let x = bind_chars("tru");
    assert_eq!(
        dispatch(&h, t.as_slice(), &WS, 1, cfg()).unwrap().record,
        vec![Some(Value::Bool(true))]
    );
    assert_eq!(
        dispatch(&h, f.as_slice(), &WS, 1, cfg()).unwrap().record,
        vec![Some(Value::Bool(false))]
    );
    assert!(dispatch(&h, x.as_slice(), &WS, 1, cfg()).is_err());
}

#[test]
fn int_bounds_and_sign() {
    let h = leaf(vec![FieldTy::Int], Extras::Exact);
    let max = bind_chars("18446744073709551615");
    let over = bind_chars("18446744073709551616");
    let plus = bind_chars("+5");
    let minus = bind_chars("-5");
    assert_eq!(
        dispatch(&h, max.as_slice(), &WS, 1, cfg()).unwrap().record,
        vec![Some(Value::Int(u64::MAX))]
    );
    assert!(dispatch(&h, over.as_slice(), &WS, 1, cfg()).is_err());
    assert_eq!(
        dispatch(&h, plus.as_slice(), &WS, 1, cfg()).unwrap().record,
        vec![Some(Value::Int(5))]
    );
    assert!(dispatch(&h, minus.as_slice(), &WS, 1, cfg()).is_err());
}
