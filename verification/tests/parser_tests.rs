use std::cell::Cell;
use std::cell::RefCell;
use std::rc::Rc;

use cmdtree::arg::ArgDescriptor;
use cmdtree::arg::ArgType;
use cmdtree::arg::ArgValue;
use cmdtree::error::ParseErrorKind;
use cmdtree::option::OptionDescriptor;
use cmdtree::option::OptionType;
use cmdtree::option::OptionValueLookup;
use cmdtree::parser::parse_from;
use cmdtree::parser::ParseOptions;
use cmdtree::Consumer;
use cmdtree::DefaultHelpPrinter;
use cmdtree::Group;

fn strings(parts: &[&str]) -> Vec<String> {
    parts.iter().map(|s| s.to_string()).collect()
}

type NoOpts = Option<&'static mut ParseOptions<DefaultHelpPrinter>>;

/// A consumer that records whether it ran, panicking when it must not.
struct Recorder {
    allowed: bool,
    called: Rc<Cell<bool>>,
}

impl Recorder {
    fn allowed(called: &Rc<Cell<bool>>) -> Recorder {
        Recorder { allowed: true, called: Rc::clone(called) }
    }

    fn forbidden() -> Recorder {
        Recorder { allowed: false, called: Rc::new(Cell::new(false)) }
    }
}

impl Consumer for Recorder {
    fn consume(&self, _arguments: &Vec<ArgValue>, _options: &OptionValueLookup) {
        if !self.allowed {
            panic!("a consumer ran that must not run");
        }
        self.called.set(true);
    }
}

/// A consumer asserting the values of the simple scenario.
struct SimpleConsumer {
    called: Rc<Cell<bool>>,
}

impl Consumer for SimpleConsumer {
    fn consume(&self, arguments: &Vec<ArgValue>, options: &OptionValueLookup) {
        let test = arguments[0].str().unwrap();
        assert_eq!(test.as_str(), "I am a test text!");

        let the_truth = options.get("the-truth").unwrap().int_value().unwrap();
        assert_eq!(the_truth, 42);
        self.called.set(true);
    }
}

#[test]
fn simple() {
    let called = Rc::new(Cell::new(false));
    let group = Group::new(
        SimpleConsumer { called: Rc::clone(&called) },
        "Simple group without nested sub-commands",
    )
    .add_option(OptionDescriptor::new(
        "the-truth",
        OptionType::Int { default: 42 },
        "The truth about everything",
    ))
    .add_argument(ArgDescriptor::new(ArgType::Str, "Test text"));

    let args = strings(&["dummy.exe", "I am a test text!"]);
    let result = parse_from(group, &args, None as NoOpts);

    assert!(result.is_ok());
    assert!(called.get());
}

#[test]
fn group_alias_test() {
    let called = Rc::new(Cell::new(false));
    let group = Group::new(Recorder::forbidden(), "Simple group").add_child(
        "test",
        Some(vec!["t"]),
        Group::new(Recorder::allowed(&called), "Group with aliases"),
    );

    let args = strings(&["dummy.exe", "t"]);
    let result = parse_from(group, &args, None as NoOpts);

    assert!(result.is_ok());
    assert!(called.get());
}

#[test]
fn child_reached_by_name() {
    let called = Rc::new(Cell::new(false));
    let group = Group::new(Recorder::forbidden(), "root").add_child(
        "test",
        Some(vec!["t"]),
        Group::new(Recorder::allowed(&called), "child"),
    );
    let result = parse_from(group, &strings(&["prog", "test"]), None as NoOpts);
    assert!(result.is_ok());
    assert!(called.get());
}

/// A consumer recording the resolved option values it is handed.
struct OptionProbe {
    verbose: Rc<Cell<bool>>,
    count: Rc<Cell<i32>>,
}

impl Consumer for OptionProbe {
    fn consume(&self, _arguments: &Vec<ArgValue>, options: &OptionValueLookup) {
        if let Some(v) = options.get("verbose") {
            self.verbose.set(v.bool().unwrap());
        }
        if let Some(c) = options.get("count") {
            self.count.set(c.int_value().unwrap());
        }
    }
}

fn probe_group(verbose: &Rc<Cell<bool>>, count: &Rc<Cell<i32>>) -> Group<OptionProbe> {
    Group::new(
        OptionProbe { verbose: Rc::clone(verbose), count: Rc::clone(count) },
        "probe",
    )
    .add_option(OptionDescriptor::new(
        "verbose",
        OptionType::Bool { default: false },
        "verbosity",
    ))
    .add_option(OptionDescriptor::new("count", OptionType::Int { default: 7 }, "a count"))
}

#[test]
fn bool_option_omitted_yields_default() {
    let verbose = Rc::new(Cell::new(true));
    let count = Rc::new(Cell::new(0));
    let group = probe_group(&verbose, &count);
    let result = parse_from(group, &strings(&["prog"]), None as NoOpts);
    assert!(result.is_ok());
    assert_eq!(verbose.get(), false);
    assert_eq!(count.get(), 7);
}

#[test]
fn bool_option_bare_yields_true() {
    let verbose = Rc::new(Cell::new(false));
    let count = Rc::new(Cell::new(0));
    let group = probe_group(&verbose, &count);
    let result = parse_from(group, &strings(&["prog", "--verbose"]), None as NoOpts);
    assert!(result.is_ok());
    assert_eq!(verbose.get(), true);
}

#[test]
fn bool_option_bare_before_other_option_yields_true() {
    let verbose = Rc::new(Cell::new(false));
    let count = Rc::new(Cell::new(0));
    let group = probe_group(&verbose, &count);
    let result = parse_from(group, &strings(&["prog", "--verbose", "--count=3"]), None as NoOpts);
    assert!(result.is_ok());
    assert_eq!(verbose.get(), true);
    assert_eq!(count.get(), 3);
}

#[test]
fn bool_option_false_form_yields_false() {
    let verbose = Rc::new(Cell::new(true));
    let count = Rc::new(Cell::new(0));
    let group = probe_group(&verbose, &count);
    let result = parse_from(group, &strings(&["prog", "--verbose=false"]), None as NoOpts);
    assert!(result.is_ok());
    assert_eq!(verbose.get(), false);
}

#[test]
fn option_order_is_irrelevant() {
    for order in [["--verbose=true", "--count=5"], ["--count=5", "--verbose=true"]] {
        let verbose = Rc::new(Cell::new(false));
        let count = Rc::new(Cell::new(0));
        let group = probe_group(&verbose, &count);
        let args = strings(&["prog", order[0], order[1]]);
        let result = parse_from(group, &args, None as NoOpts);
        assert!(result.is_ok());
        assert_eq!(verbose.get(), true);
        assert_eq!(count.get(), 5);
    }
}

#[test]
fn key_value_and_space_forms_are_equivalent() {
    for args in [vec!["prog", "--count=5"], vec!["prog", "--count", "5"]] {
        let verbose = Rc::new(Cell::new(false));
        let count = Rc::new(Cell::new(0));
        let group = probe_group(&verbose, &count);
        let result = parse_from(group, &strings(&args), None as NoOpts);
        assert!(result.is_ok());
        assert_eq!(count.get(), 5);
    }
}

#[test]
fn value_with_extra_separator_keeps_the_rest() {
    let texts: Rc<RefCell<Vec<String>>> = Rc::new(RefCell::new(Vec::new()));

    struct TextProbe {
        texts: Rc<RefCell<Vec<String>>>,
    }

    impl Consumer for TextProbe {
        fn consume(&self, _arguments: &Vec<ArgValue>, options: &OptionValueLookup) {
            let t = options.get("expr").unwrap().str().unwrap().clone();
            self.texts.borrow_mut().push(t);
        }
    }

    let group = Group::new(TextProbe { texts: Rc::clone(&texts) }, "root").add_option(
        OptionDescriptor::new(
            "expr",
            OptionType::Str { default: String::new() },
            "an expression",
        ),
    );
    let result = parse_from(group, &strings(&["prog", "--expr=a=b=c"]), None as NoOpts);
    assert!(result.is_ok());
    assert_eq!(texts.borrow()[0], "a=b=c");
}

#[test]
fn repeated_option_keeps_last_value() {
    let verbose = Rc::new(Cell::new(false));
    let count = Rc::new(Cell::new(0));
    let group = probe_group(&verbose, &count);
    let result = parse_from(group, &strings(&["prog", "--count=1", "--count=2"]), None as NoOpts);
    assert!(result.is_ok());
    assert_eq!(count.get(), 2);
}

fn positional_group(n: usize, called: &Rc<Cell<bool>>) -> Group<Recorder> {
    let mut g = Group::new(Recorder::allowed(called), "positional");
    for _ in 0..n {
        g = g.add_argument(ArgDescriptor::new(ArgType::Str, "text"));
    }
    g
}

#[test]
fn exact_arity_binds_in_order() {
    for n in 0..4usize {
        let called = Rc::new(Cell::new(false));
        let group = positional_group(n, &called);
        let mut args = vec!["prog".to_string()];
        for k in 0..n {
            args.push(format!("value{}", k));
        }
        let result = parse_from(group, &args, None as NoOpts);
        assert!(result.is_ok());
        assert!(called.get());
    }
}

#[test]
fn wrong_arity_fails_with_counts() {
    for n in 1..4usize {
        for actual in [n - 1, n + 1] {
            let called = Rc::new(Cell::new(false));
            let group = positional_group(n, &called);
            let mut args = vec!["prog".to_string()];
            for k in 0..actual {
                args.push(format!("value{}", k));
            }
            let result = parse_from(group, &args, None as NoOpts);
            let err = result.err().unwrap();
            match err.kind {
                ParseErrorKind::ArityMismatch { expected, actual: got } => {
                    assert_eq!(expected, n);
                    assert_eq!(got, actual);
                }
                _ => panic!("expected an arity error"),
            }
            assert!(!called.get());
        }
    }
}

#[test]
fn scenario_int_default_and_str_positional() {
    let called = Rc::new(Cell::new(false));

    struct Scenario {
        called: Rc<Cell<bool>>,
    }

    impl Consumer for Scenario {
        fn consume(&self, arguments: &Vec<ArgValue>, options: &OptionValueLookup) {
            assert_eq!(arguments.len(), 1);
            assert_eq!(arguments[0].str().unwrap().as_str(), "hello");
            assert_eq!(options.get("help").unwrap().bool().unwrap(), false);
            assert_eq!(options.get("the-truth").unwrap().int_value().unwrap(), 42);
            self.called.set(true);
        }
    }

    let group = Group::new(Scenario { called: Rc::clone(&called) }, "root")
        .add_option(OptionDescriptor::new(
            "the-truth",
            OptionType::Int { default: 42 },
            "The truth about everything",
        ))
        .add_argument(ArgDescriptor::new(ArgType::Str, "Test text"));
    let result = parse_from(group, &strings(&["prog", "hello"]), None as NoOpts);
    assert!(result.is_ok());
    assert!(called.get());
}

#[test]
fn scenario_type_mismatch_names_everything() {
    let group = Group::new(Recorder::forbidden(), "root")
        .add_option(OptionDescriptor::new(
            "the-truth",
            OptionType::Int { default: 42 },
            "The truth about everything",
        ))
        .add_argument(ArgDescriptor::new(ArgType::Str, "Test text"));
    let result = parse_from(
        group,
        &strings(&["prog", "--the-truth=notanumber", "hello"]),
        None as NoOpts,
    );
    let err = result.err().unwrap();
    match err.kind {
        ParseErrorKind::OptionTypeMismatch { name, raw, expected } => {
            assert_eq!(name, "the-truth");
            assert_eq!(raw, "notanumber");
            assert_eq!(expected, ArgType::Int);
        }
        _ => panic!("expected an option type mismatch"),
    }
}

#[test]
fn scenario_conflicting_declarations_fail_at_parse_time() {
    // The tree builds; only a parse that reaches the child fails.
    let child = Group::new(Recorder::forbidden(), "child").add_option(OptionDescriptor::new(
        "verbose",
        OptionType::Bool { default: false },
        "child verbosity",
    ));
    let group = Group::new(Recorder::forbidden(), "root")
        .add_option(OptionDescriptor::new(
            "verbose",
            OptionType::Bool { default: false },
            "root verbosity",
        ))
        .add_child("sub", None, child);
    let result = parse_from(group, &strings(&["prog", "sub"]), None as NoOpts);
    let err = result.err().unwrap();
    match err.kind {
        ParseErrorKind::DeclaredTwice { name } => {
            assert_eq!(name, "verbose");
        }
        _ => panic!("expected a declaration conflict"),
    }
}

#[test]
fn conflicting_declarations_do_not_fail_other_paths() {
    let called = Rc::new(Cell::new(false));
    let child = Group::new(Recorder::forbidden(), "child").add_option(OptionDescriptor::new(
        "verbose",
        OptionType::Bool { default: false },
        "child verbosity",
    ));
    let group = Group::new(Recorder::allowed(&called), "root")
        .add_option(OptionDescriptor::new(
            "verbose",
            OptionType::Bool { default: false },
            "root verbosity",
        ))
        .add_child("sub", None, child);
    // The conflicting child is never reached: the root context parses.
    let result = parse_from(group, &strings(&["prog"]), None as NoOpts);
    assert!(result.is_ok());
    assert!(called.get());
}

#[test]
fn unknown_option_is_reported() {
    let verbose = Rc::new(Cell::new(false));
    let count = Rc::new(Cell::new(0));
    let group = probe_group(&verbose, &count);
    let result = parse_from(group, &strings(&["prog", "--nope=1"]), None as NoOpts);
    let err = result.err().unwrap();
    match err.kind {
        ParseErrorKind::UnknownOption { name } => {
            assert_eq!(name, "nope");
        }
        _ => panic!("expected an unknown option error"),
    }
}

#[test]
fn missing_value_for_non_boolean_is_reported() {
    let verbose = Rc::new(Cell::new(false));
    let count = Rc::new(Cell::new(0));
    let group = probe_group(&verbose, &count);
    let result = parse_from(group, &strings(&["prog", "--count"]), None as NoOpts);
    let err = result.err().unwrap();
    match err.kind {
        ParseErrorKind::MissingOptionValue { name } => {
            assert_eq!(name, "count");
        }
        _ => panic!("expected a missing value error"),
    }
}

#[test]
fn positional_type_mismatch_is_reported_with_position() {
    let called = Rc::new(Cell::new(false));
    let group = Group::new(Recorder::allowed(&called), "root")
        .add_argument(ArgDescriptor::new(ArgType::Str, "text"))
        .add_argument(ArgDescriptor::new(ArgType::Int, "number"));
    let result = parse_from(group, &strings(&["prog", "fine", "bad"]), None as NoOpts);
    let err = result.err().unwrap();
    match err.kind {
        ParseErrorKind::ArgumentTypeMismatch { position, raw, expected } => {
            assert_eq!(position, 2);
            assert_eq!(raw, "bad");
            assert_eq!(expected, ArgType::Int);
        }
        _ => panic!("expected an argument type mismatch"),
    }
    assert!(!called.get());
}

#[test]
fn help_short_circuits_before_positional_validation() {
    // Arity is wrong and the consumer must not run; help still succeeds.
    let group = Group::new(Recorder::forbidden(), "root")
        .add_argument(ArgDescriptor::new(ArgType::Int, "number"));
    let result = parse_from(group, &strings(&["prog", "--help"]), None as NoOpts);
    assert!(result.is_ok());
}

#[test]
fn help_short_circuits_on_malformed_positionals() {
    let group = Group::new(Recorder::forbidden(), "root")
        .add_argument(ArgDescriptor::new(ArgType::Int, "number"));
    let result = parse_from(
        group,
        &strings(&["prog", "notanumber", "--help"]),
        None as NoOpts,
    );
    assert!(result.is_ok());
}

#[test]
fn help_equals_false_does_not_short_circuit() {
    let called = Rc::new(Cell::new(false));
    let group = positional_group(0, &called);
    let result = parse_from(group, &strings(&["prog", "--help=false"]), None as NoOpts);
    assert!(result.is_ok());
    assert!(called.get());
}

#[test]
fn error_messages_carry_the_reported_data() {
    let called = Rc::new(Cell::new(false));
    let group = positional_group(2, &called);
    let result = parse_from(group, &strings(&["prog", "only-one"]), None as NoOpts);
    let err = result.err().unwrap();
    assert_eq!(err.message(), "Expected to have 2 arguments but got 1");

    let verbose = Rc::new(Cell::new(false));
    let count = Rc::new(Cell::new(0));
    let group = probe_group(&verbose, &count);
    let result = parse_from(group, &strings(&["prog", "--count=ten"]), None as NoOpts);
    let err = result.err().unwrap();
    assert_eq!(
        err.message(),
        "Expected value 'ten' of option '--count' to be of type 'integer'"
    );
}

#[test]
fn option_order_is_irrelevant_among_positionals() {
    // The swapped pair sits between positional tokens.
    for order in [["--verbose=true", "--count=9"], ["--count=9", "--verbose=true"]] {
        let verbose = Rc::new(Cell::new(false));
        let count = Rc::new(Cell::new(0));
        let group = probe_group(&verbose, &count)
            .add_argument(ArgDescriptor::new(ArgType::Str, "first"))
            .add_argument(ArgDescriptor::new(ArgType::Str, "second"));
        let args = strings(&["prog", "one", order[0], order[1], "two"]);
        let result = parse_from(group, &args, None as NoOpts);
        assert!(result.is_ok());
        assert_eq!(verbose.get(), true);
        assert_eq!(count.get(), 9);
    }
}

#[test]
fn false_form_holds_among_positionals() {
    let verbose = Rc::new(Cell::new(true));
    let count = Rc::new(Cell::new(0));
    let group = probe_group(&verbose, &count)
        .add_argument(ArgDescriptor::new(ArgType::Str, "first"))
        .add_argument(ArgDescriptor::new(ArgType::Str, "second"));
    let args = strings(&["prog", "one", "--verbose=false", "two"]);
    let result = parse_from(group, &args, None as NoOpts);
    assert!(result.is_ok());
    assert_eq!(verbose.get(), false);
}

#[test]
fn help_equals_true_short_circuits() {
    let group = Group::new(Recorder::forbidden(), "root")
        .add_argument(ArgDescriptor::new(ArgType::Int, "number"));
    let result = parse_from(
        group,
        &strings(&["prog", "extra", "--help=true"]),
        None as NoOpts,
    );
    assert!(result.is_ok());
}
