use cmdtree::arg::ArgType;
use cmdtree::arg::ArgValue;
use cmdtree::error::ParseErrorKind;
use cmdtree::option::OptionType;
use cmdtree::option::OptionValue;

#[test]
fn bool_values_parse_exactly() {
    assert_eq!(ArgValue::parse(&ArgType::Bool, "true").unwrap().bool(), Some(true));
    assert_eq!(ArgValue::parse(&ArgType::Bool, "false").unwrap().bool(), Some(false));
    assert!(ArgValue::parse(&ArgType::Bool, "TRUE").is_err());
    assert!(ArgValue::parse(&ArgType::Bool, "1").is_err());
    assert!(ArgValue::parse(&ArgType::Bool, "").is_err());
}

#[test]
fn str_values_pass_through() {
    let v = ArgValue::parse(&ArgType::Str, "anything at all").unwrap();
    assert_eq!(v.str().unwrap().as_str(), "anything at all");
    assert_eq!(v.bool(), None);
    assert_eq!(v.int_value(), None);
}

#[test]
fn int_values_parse_in_range() {
    assert_eq!(ArgValue::parse(&ArgType::Int, "0").unwrap().int_value(), Some(0));
    assert_eq!(ArgValue::parse(&ArgType::Int, "42").unwrap().int_value(), Some(42));
    assert_eq!(ArgValue::parse(&ArgType::Int, "+42").unwrap().int_value(), Some(42));
    assert_eq!(ArgValue::parse(&ArgType::Int, "-42").unwrap().int_value(), Some(-42));
    assert_eq!(ArgValue::parse(&ArgType::Int, "007").unwrap().int_value(), Some(7));
    assert_eq!(
        ArgValue::parse(&ArgType::Int, "2147483647").unwrap().int_value(),
        Some(2147483647)
    );
    assert_eq!(
        ArgValue::parse(&ArgType::Int, "-2147483648").unwrap().int_value(),
        Some(-2147483648)
    );
}

#[test]
fn int_values_out_of_range_or_malformed_fail() {
    assert!(ArgValue::parse(&ArgType::Int, "2147483648").is_err());
    assert!(ArgValue::parse(&ArgType::Int, "-2147483649").is_err());
    assert!(ArgValue::parse(&ArgType::Int, "99999999999999999999").is_err());
    assert!(ArgValue::parse(&ArgType::Int, "").is_err());
    assert!(ArgValue::parse(&ArgType::Int, "-").is_err());
    assert!(ArgValue::parse(&ArgType::Int, "+").is_err());
    assert!(ArgValue::parse(&ArgType::Int, "12a").is_err());
    assert!(ArgValue::parse(&ArgType::Int, "1.5").is_err());
    let err = ArgValue::parse(&ArgType::Int, "12a").err().unwrap();
    match err.kind {
        ParseErrorKind::InvalidValue { raw, expected } => {
            assert_eq!(raw, "12a");
            assert_eq!(expected, ArgType::Int);
        }
        _ => panic!("expected an invalid value error"),
    }
}

#[test]
fn float_values_accept_the_written_grammar() {
    for ok in [
        "0", "1.5", "-1.5", "+1.5", ".5", "3.", "1e10", "1E10", "1e+10", "1e-10", "1.25e-3",
        ".5e2", "inf", "-inf", "Infinity", "NaN", "nan", "+inf",
    ] {
        let v = ArgValue::parse(&ArgType::Float, ok);
        assert!(v.is_ok(), "{} must parse as a float", ok);
        assert_eq!(v.unwrap().float_text().unwrap().as_str(), ok);
        // The grammar matches what machine parsing accepts.
        assert!(ok.parse::<f64>().is_ok());
    }
}

#[test]
fn float_values_reject_malformed_text() {
    for bad in [
        "", ".", "e5", "1e", "1e+", "1.2.3", "nan0", "in", "infinityy", "1,5", "--1", "1 ",
        "0x10", "1e5.2",
    ] {
        assert!(
            ArgValue::parse(&ArgType::Float, bad).is_err(),
            "{} must not parse as a float",
            bad
        );
        // The grammar matches what machine parsing rejects.
        assert!(bad.parse::<f64>().is_err());
    }
}

#[test]
fn option_values_parse_like_argument_values() {
    let t = OptionType::Int { default: 0 };
    assert_eq!(OptionValue::parse(&t, "-7").unwrap().int_value(), Some(-7));
    assert!(OptionValue::parse(&t, "x").is_err());
    let b = OptionType::Bool { default: false };
    assert_eq!(OptionValue::parse(&b, "true").unwrap().bool(), Some(true));
    let s = OptionType::Str { default: String::new() };
    assert_eq!(OptionValue::parse(&s, "-x-").unwrap().str().unwrap().as_str(), "-x-");
    let f = OptionType::Float { default: "0".to_string() };
    assert_eq!(
        OptionValue::parse(&f, "2.5e-1").unwrap().float_text().unwrap().as_str(),
        "2.5e-1"
    );
}

#[test]
fn defaults_instantiate_each_kind() {
    assert_eq!(
        OptionValue::from_default(&OptionType::Bool { default: true }).bool(),
        Some(true)
    );
    assert_eq!(
        OptionValue::from_default(&OptionType::Int { default: -3 }).int_value(),
        Some(-3)
    );
    assert_eq!(
        OptionValue::from_default(&OptionType::Str { default: "fallback".to_string() })
            .str()
            .unwrap()
            .as_str(),
        "fallback"
    );
    assert_eq!(
        OptionValue::from_default(&OptionType::Float { default: "1.25".to_string() })
            .float_text()
            .unwrap()
            .as_str(),
        "1.25"
    );
}

#[test]
fn kind_tags_name_the_types() {
    assert_eq!(ArgType::Bool.tag(), "boolean");
    assert_eq!(ArgType::Str.tag(), "string");
    assert_eq!(ArgType::Int.tag(), "integer");
    assert_eq!(ArgType::Float.tag(), "float");
}

#[test]
fn values_round_trip_through_text() {
    let cases: Vec<(ArgType, &str)> = vec![
        (ArgType::Bool, "true"),
        (ArgType::Bool, "false"),
        (ArgType::Str, "some text"),
        (ArgType::Int, "0"),
        (ArgType::Int, "42"),
        (ArgType::Int, "-2147483648"),
        (ArgType::Int, "2147483647"),
        (ArgType::Float, "1.25e-3"),
        (ArgType::Float, "-inf"),
    ];
    for (kind, text) in cases {
        let v = ArgValue::parse(&kind, text).unwrap();
        let rendered = v.to_text();
        let again = ArgValue::parse(&kind, rendered.as_str()).unwrap();
        assert_eq!(again.to_text(), rendered);
        match kind {
            ArgType::Bool => assert_eq!(again.bool(), v.bool()),
            ArgType::Str => assert_eq!(again.str(), v.str()),
            ArgType::Int => assert_eq!(again.int_value(), v.int_value()),
            ArgType::Float => assert_eq!(again.float_text(), v.float_text()),
        }
    }
    assert_eq!(ArgValue::parse(&ArgType::Int, "+007").unwrap().to_text(), "7");
    assert_eq!(
        OptionValue::parse(&OptionType::Int { default: 0 }, "-12").unwrap().to_text(),
        "-12"
    );
}

#[test]
fn messages_name_the_failure() {
    let err = ArgValue::parse(&ArgType::Int, "abc").err().unwrap();
    assert_eq!(err.message(), "Could not parse 'abc' as type 'integer'");
}
