use std::cell::Cell;
use std::rc::Rc;

use cmdtree::arg::ArgDescriptor;
use cmdtree::arg::ArgType;
use cmdtree::arg::ArgValue;
use cmdtree::option::OptionDescriptor;
use cmdtree::option::OptionType;
use cmdtree::option::OptionValueLookup;
use cmdtree::parser::parse_from;
use cmdtree::parser::ParseOptions;
use cmdtree::Consumer;
use cmdtree::DefaultHelpPrinter;
use cmdtree::Group;

fn strings(parts: &[&str]) -> Vec<String> {
    parts.iter().map(|s| s.to_string()).collect()
}

struct Panicking;

impl Consumer for Panicking {
    fn consume(&self, _arguments: &Vec<ArgValue>, _options: &OptionValueLookup) {
        panic!("the help path must not invoke the consumer");
    }
}

struct Quiet {
    called: Rc<Cell<bool>>,
}

impl Consumer for Quiet {
    fn consume(&self, _arguments: &Vec<ArgValue>, _options: &OptionValueLookup) {
        self.called.set(true);
    }
}

fn demo_group() -> Group<Panicking> {
    Group::new(Panicking, "The root command")
        .add_option(
            OptionDescriptor::new("verbose", OptionType::Bool { default: false }, "more output")
                .add_alias("v"),
        )
        .add_option(OptionDescriptor::new("count", OptionType::Int { default: 1 }, "a count"))
        .add_argument(ArgDescriptor::new(ArgType::Str, "the input"))
        .add_child("zeta", None, Group::new(Panicking, "the last child"))
        .add_child("alpha", Some(vec!["a"]), Group::new(Panicking, "the first child"))
}

#[test]
fn help_renders_the_three_sections() {
    let mut options = ParseOptions { help_printer: Some(DefaultHelpPrinter::new()) };
    let result = parse_from(demo_group(), &strings(&["prog", "--help"]), Some(&mut options));
    assert!(result.is_ok());
    let printer = options.help_printer.unwrap();
    let lines: Vec<&str> = printer.lines().iter().map(|l| l.as_str()).collect();
    assert!(lines.contains(&"### DESCRIPTION ###"));
    assert!(lines.contains(&"The root command"));
    assert!(lines.contains(&"### SUB-COMMANDS ###"));
    assert!(lines.contains(&"### OPTIONS ###"));
    assert!(lines.contains(&"### ARGUMENTS ###"));
}

#[test]
fn help_lists_subcommands_sorted_with_aliases() {
    let mut options = ParseOptions { help_printer: Some(DefaultHelpPrinter::new()) };
    let result = parse_from(demo_group(), &strings(&["prog", "--help"]), Some(&mut options));
    assert!(result.is_ok());
    let printer = options.help_printer.unwrap();
    let lines = printer.lines();
    let alpha = lines.iter().position(|l| l.contains("alpha")).unwrap();
    let zeta = lines.iter().position(|l| l.contains("zeta")).unwrap();
    assert!(alpha < zeta, "subcommands must be sorted by name");
    assert_eq!(lines[alpha], "  - alpha (a) | the first child");
    assert_eq!(lines[zeta], "  - zeta | the last child");
}

#[test]
fn help_lists_options_sorted_with_kind_and_aliases() {
    let mut options = ParseOptions { help_printer: Some(DefaultHelpPrinter::new()) };
    let result = parse_from(demo_group(), &strings(&["prog", "--help"]), Some(&mut options));
    assert!(result.is_ok());
    let printer = options.help_printer.unwrap();
    let lines = printer.lines();
    let count = lines.iter().position(|l| l.contains("--count")).unwrap();
    let help = lines.iter().position(|l| l.contains("--help")).unwrap();
    let verbose = lines.iter().position(|l| l.contains("--verbose")).unwrap();
    assert!(count < help && help < verbose, "options must be sorted by name");
    assert_eq!(lines[count], "  --count <integer> | a count");
    assert_eq!(lines[help], "  --help <boolean> | Get this information displayed");
    assert_eq!(lines[verbose], "  --verbose (-v) <boolean> | more output");
}

#[test]
fn help_lists_arguments_in_binding_order() {
    let mut options = ParseOptions { help_printer: Some(DefaultHelpPrinter::new()) };
    let group = Group::new(Panicking, "two arguments")
        .add_argument(ArgDescriptor::new(ArgType::Str, "first input"))
        .add_argument(ArgDescriptor::new(ArgType::Int, "second input"));
    let result = parse_from(group, &strings(&["prog", "--help"]), Some(&mut options));
    assert!(result.is_ok());
    let printer = options.help_printer.unwrap();
    let lines = printer.lines();
    let first = lines.iter().position(|l| l.contains("first input")).unwrap();
    assert_eq!(lines[first], "  1. <string> | first input");
    assert_eq!(lines[first + 1], "  2. <integer> | second input");
}

#[test]
fn help_marks_empty_listings() {
    let mut options = ParseOptions { help_printer: Some(DefaultHelpPrinter::new()) };
    let group = Group::new(Panicking, "bare command");
    let result = parse_from(group, &strings(&["prog", "--help"]), Some(&mut options));
    assert!(result.is_ok());
    let printer = options.help_printer.unwrap();
    let lines: Vec<&str> = printer.lines().iter().map(|l| l.as_str()).collect();
    assert!(lines.contains(&"(No sub-commands available...)"));
    assert!(lines.contains(&"(Command expects no arguments...)"));
}

#[test]
fn help_at_child_context_lists_inherited_options() {
    let mut options = ParseOptions { help_printer: Some(DefaultHelpPrinter::new()) };
    let child = Group::new(Panicking, "the child").add_option(OptionDescriptor::new(
        "local",
        OptionType::Bool { default: false },
        "child only",
    ));
    let group = Group::new(Panicking, "the root")
        .add_option(OptionDescriptor::new(
            "global",
            OptionType::Bool { default: false },
            "visible below",
        ))
        .add_child("sub", None, child);
    let result = parse_from(group, &strings(&["prog", "sub", "--help"]), Some(&mut options));
    assert!(result.is_ok());
    let printer = options.help_printer.unwrap();
    let lines = printer.lines();
    assert!(lines.iter().any(|l| l.contains("--global")));
    assert!(lines.iter().any(|l| l.contains("--local")));
    assert!(lines.iter().any(|l| l.as_str() == "the child"));
}

#[test]
fn default_printer_is_used_when_none_is_supplied() {
    // Nothing observable without a printer; the call still succeeds and
    // the consumer stays uninvoked.
    let result = parse_from(
        demo_group(),
        &strings(&["prog", "--help"]),
        None as Option<&mut ParseOptions<DefaultHelpPrinter>>,
    );
    assert!(result.is_ok());
}

#[test]
fn overridden_help_name_disables_the_short_circuit() {
    // A root option may shadow the implicit help; a non-boolean help
    // never triggers the listing.
    let called = Rc::new(Cell::new(false));
    let group = Group::new(Quiet { called: Rc::clone(&called) }, "root").add_option(
        OptionDescriptor::new("help", OptionType::Int { default: 0 }, "not a flag"),
    );
    let result = parse_from(
        group,
        &strings(&["prog", "--help=3"]),
        None as Option<&mut ParseOptions<DefaultHelpPrinter>>,
    );
    assert!(result.is_ok());
    assert!(called.get(), "the consumer must run: help is not boolean here");
}
