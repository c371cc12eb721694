//! The resolution-and-parsing engine: walking the group tree to the
//! invoked command context, splitting the remaining tokens into option
//! occurrences and positionals, converting them to typed values, and
//! binding positional arguments.

use vstd::prelude::*;
use vstd::string::*;
use crate::arg::ArgDescriptor;
use crate::arg::ArgDescriptorView;
use crate::arg::ArgValue;
use crate::error::ErrorView;
use crate::error::ParseErrorKind;
use crate::error::ParserError;
use crate::group::Consumer;
use crate::group::Group;
use crate::group::find_child;
use crate::help::DefaultHelpPrinter;
use crate::help::HelpPrinter;
use crate::help::collect_option_entries;
use crate::help::collect_subcommand_entries;
use crate::option::OptionDescriptor;
use crate::option::OptionDescriptorView;
use crate::option::OptionType;
use crate::option::OptionValue;
use crate::option::OptionValueLookup;
use crate::text::chars_of;
use crate::value::TypedValue;
use crate::value::find_char2;
use crate::value::first_index2;
use crate::value::spec_parse_value;

verus! {

/// Whether a raw token is an option occurrence: it starts with the
/// option prefix character.
pub open spec fn spec_is_option_token(t: Seq<char>) -> bool {
    t.len() > 0 && t[0] == '-'
}

/// A raw token with every leading prefix character removed.
pub open spec fn spec_strip_dashes(s: Seq<char>) -> Seq<char>
    decreases s.len(),
{
    if s.len() > 0 && s[0] == '-' {
        spec_strip_dashes(s.skip(1))
    } else {
        s
    }
}

/// The views of a sequence of borrowed option descriptors.
pub open spec fn opts_views(s: Seq<&OptionDescriptor>) -> Seq<OptionDescriptorView> {
    s.map_values(|d: &OptionDescriptor| d@)
}

/// The views of a sequence of owned option descriptors.
pub open spec fn owned_opts_views(s: Seq<OptionDescriptor>) -> Seq<OptionDescriptorView> {
    s.map_values(|d: OptionDescriptor| d@)
}

/// The views of a sequence of argument descriptors.
pub open spec fn arg_desc_views(s: Seq<ArgDescriptor>) -> Seq<ArgDescriptorView> {
    s.map_values(|d: ArgDescriptor| d@)
}

/// The views of a sequence of raw name and value pairs.
pub open spec fn pairs_view(s: Seq<(String, String)>) -> Seq<(Seq<char>, Seq<char>)> {
    s.map_values(|p: (String, String)| (p.0@, p.1@))
}

/// The views of a sequence of typed argument values.
pub open spec fn arg_values_view(s: Seq<ArgValue>) -> Seq<TypedValue> {
    s.map_values(|v: ArgValue| v@)
}

/// The index of the first anticipated option of a given name, if any.
pub open spec fn spec_find_opt(opts: Seq<OptionDescriptorView>, name: Seq<char>) -> Option<int>
    decreases opts.len(),
{
    if opts.len() == 0 {
        None
    } else if opts[0].name == name {
        Some(0)
    } else {
        match spec_find_opt(opts.skip(1), name) {
            Some(i) => Some(i + 1),
            None => None,
        }
    }
}

/// The first-match search over anticipated options, characterized by
/// position.
pub proof fn lemma_spec_find_opt(opts: Seq<OptionDescriptorView>, name: Seq<char>)
    ensures
        match spec_find_opt(opts, name) {
            None => forall|j: int| 0 <= j < opts.len() ==> opts[j].name != name,
            Some(i) => 0 <= i < opts.len() && opts[i].name == name && forall|j: int|
                0 <= j < i ==> opts[j].name != name,
        },
    decreases opts.len(),
{
    if opts.len() > 0 && opts[0].name != name {
        lemma_spec_find_opt(opts.skip(1), name);
        assert forall|j: int| 1 <= j < opts.len() implies opts.skip(1)[j - 1] == opts[j] by {}
    }
}

/// Adding a descriptor to a set: a descriptor of the same name is
/// replaced in place, otherwise the descriptor is appended.
pub open spec fn spec_upsert(s: Seq<OptionDescriptorView>, d: OptionDescriptorView) -> Seq<
    OptionDescriptorView,
> {
    match spec_find_opt(s, d.name) {
        None => s.push(d),
        Some(i) => s.update(i, d),
    }
}

/// Adding descriptors one by one, later ones replacing earlier ones of
/// the same name.
pub open spec fn spec_add_all(
    s: Seq<OptionDescriptorView>,
    more: Seq<OptionDescriptorView>,
) -> Seq<OptionDescriptorView>
    decreases more.len(),
{
    if more.len() == 0 {
        s
    } else {
        spec_add_all(spec_upsert(s, more[0]), more.skip(1))
    }
}

/// The option set visible at the root: the implicit help option, then
/// the root group's own options.
pub open spec fn spec_seed(
    root_opts: Seq<OptionDescriptorView>,
    help: OptionDescriptorView,
) -> Seq<OptionDescriptorView> {
    spec_add_all(seq![help], root_opts)
}

/// Merging a descended group's options into the visible set; a name
/// already visible is a declaration conflict.
pub open spec fn spec_merge(
    acc: Seq<OptionDescriptorView>,
    more: Seq<OptionDescriptorView>,
) -> Result<Seq<OptionDescriptorView>, ErrorView>
    decreases more.len(),
{
    if more.len() == 0 {
        Ok(acc)
    } else if spec_find_opt(acc, more[0].name) is Some {
        Err(ErrorView::DeclaredTwice { name: more[0].name })
    } else {
        spec_merge(acc.push(more[0]), more.skip(1))
    }
}

/// Walking the tree from a group: while the next token names a child,
/// descend into it and merge its options into the visible set.  The
/// first token that names no child ends the walk and starts option and
/// argument parsing.
pub open spec fn spec_resolve<C>(
    g: Group<C>,
    args: Seq<Seq<char>>,
    pos: int,
    acc: Seq<OptionDescriptorView>,
) -> Result<(Group<C>, Seq<OptionDescriptorView>, int), ErrorView>
    decreases args.len() - pos,
{
    if pos < 0 || pos >= args.len() {
        Ok((g, acc, pos))
    } else {
        match find_child(g.children@, args[pos]) {
            None => Ok((g, acc, pos)),
            Some(ci) => {
                let child = g.children@[ci].group;
                match spec_merge(acc, owned_opts_views(child.options@)) {
                    Err(e) => Err(e),
                    Ok(acc2) => spec_resolve(child, args, pos + 1, acc2),
                }
            },
        }
    }
}

/// Splitting the remaining raw tokens: a token starting with the option
/// prefix is an option occurrence, every other token is positional.  An
/// inline `name=value` carries its value; a bare name takes the next
/// token as its value unless that is absent or itself an option, in
/// which case the option must be boolean and the value is `true`.
pub open spec fn spec_split(
    toks: Seq<Seq<char>>,
    opts: Seq<OptionDescriptorView>,
    occs: Seq<(Seq<char>, Seq<char>)>,
    poss: Seq<Seq<char>>,
) -> Result<(Seq<(Seq<char>, Seq<char>)>, Seq<Seq<char>>), ErrorView>
    decreases toks.len(),
{
    if toks.len() == 0 {
        Ok((occs, poss))
    } else {
        let t = toks[0];
        if !spec_is_option_token(t) {
            spec_split(toks.skip(1), opts, occs, poss.push(t))
        } else {
            let stripped = spec_strip_dashes(t);
            match first_index2(stripped, '=', '=') {
                Some(j) => {
                    let name = stripped.take(j);
                    let raw = stripped.skip(j + 1);
                    if spec_find_opt(opts, name) is None {
                        Err(ErrorView::UnknownOption { name })
                    } else {
                        spec_split(toks.skip(1), opts, occs.push((name, raw)), poss)
                    }
                },
                None => {
                    let name = stripped;
                    match spec_find_opt(opts, name) {
                        None => Err(ErrorView::UnknownOption { name }),
                        Some(i) => {
                            if toks.len() == 1 || spec_is_option_token(toks[1]) {
                                if opts[i].kind() is Bool {
                                    spec_split(toks.skip(1), opts, occs.push((name, "true"@)), poss)
                                } else {
                                    Err(ErrorView::MissingOptionValue { name })
                                }
                            } else {
                                spec_split(toks.skip(2), opts, occs.push((name, toks[1])), poss)
                            }
                        },
                    }
                },
            }
        }
    }
}

/// Converting raw option occurrences in order, the first failure
/// aborting; a later occurrence of a name replaces an earlier value.
pub open spec fn spec_convert(
    occs: Seq<(Seq<char>, Seq<char>)>,
    opts: Seq<OptionDescriptorView>,
    acc: Map<Seq<char>, TypedValue>,
) -> Result<Map<Seq<char>, TypedValue>, ErrorView>
    decreases occs.len(),
{
    if occs.len() == 0 {
        Ok(acc)
    } else {
        let name = occs[0].0;
        let raw = occs[0].1;
        match spec_find_opt(opts, name) {
            None => Err(ErrorView::UnknownOption { name }),
            Some(i) => match spec_parse_value(opts[i].kind(), raw) {
                None => Err(
                    ErrorView::OptionTypeMismatch { name, raw, expected: opts[i].kind() },
                ),
                Some(v) => spec_convert(occs.skip(1), opts, acc.insert(name, v)),
            },
        }
    }
}

/// Filling every anticipated option the caller did not give with its
/// declared default.
pub open spec fn spec_add_defaults(
    m: Map<Seq<char>, TypedValue>,
    opts: Seq<OptionDescriptorView>,
) -> Map<Seq<char>, TypedValue>
    decreases opts.len(),
{
    if opts.len() == 0 {
        m
    } else {
        let m2 = if m.contains_key(opts[0].name) {
            m
        } else {
            m.insert(opts[0].name, opts[0].default)
        };
        spec_add_defaults(m2, opts.skip(1))
    }
}

/// Binding positional tokens to argument descriptors from a position
/// on, converting each; the position in an error is 1-based.
pub open spec fn spec_bind_from(
    descs: Seq<ArgDescriptorView>,
    raws: Seq<Seq<char>>,
    i: int,
    acc: Seq<TypedValue>,
) -> Result<Seq<TypedValue>, ErrorView>
    recommends
        descs.len() == raws.len(),
    decreases descs.len() - i,
{
    if i < 0 || i >= descs.len() {
        Ok(acc)
    } else {
        match spec_parse_value(descs[i].kind, raws[i]) {
            None => Err(
                ErrorView::ArgumentTypeMismatch {
                    position: i + 1,
                    raw: raws[i],
                    expected: descs[i].kind,
                },
            ),
            Some(v) => spec_bind_from(descs, raws, i + 1, acc.push(v)),
        }
    }
}

/// Binding positional tokens to the declared argument sequence: the
/// counts must agree exactly, and every token must convert.
pub open spec fn spec_bind_arguments(
    descs: Seq<ArgDescriptorView>,
    raws: Seq<Seq<char>>,
) -> Result<Seq<TypedValue>, ErrorView> {
    if descs.len() != raws.len() {
        Err(ErrorView::ArityMismatch { expected: descs.len() as int, actual: raws.len() as int })
    } else {
        spec_bind_from(descs, raws, 0, Seq::empty())
    }
}

/// Check whether the passed raw token is an option occurrence.
pub fn is_option(raw_arg: &str) -> (r: bool)
    ensures
        r == spec_is_option_token(raw_arg@),
{
    let n = raw_arg.unicode_len();
    if n == 0 {
        false
    } else {
        raw_arg.get_char(0) == '-'
    }
}

/// Stripping leading dashes reaches the suffix after the last of them.
proof fn lemma_strip_dashes_skip(s: Seq<char>, i: int)
    requires
        0 <= i <= s.len(),
        forall|j: int| 0 <= j < i ==> s[j] == '-',
        i < s.len() ==> s[i] != '-',
    ensures
        spec_strip_dashes(s) == s.skip(i),
    decreases i,
{
    if i == 0 {
        assert(s.skip(0) =~= s);
    } else {
        assert(s[0] == '-');
        let t = s.skip(1);
        assert forall|j: int| 0 <= j < i - 1 implies t[j] == '-' by {
            assert(t[j] == s[j + 1]);
        }
        assert(i - 1 < t.len() ==> t[i - 1] != '-');
        lemma_strip_dashes_skip(t, i - 1);
        assert(t.skip(i - 1) =~= s.skip(i));
    }
}

/// Strip the leading prefix characters from an option token.
#[verifier::loop_isolation(false)]
pub fn strip_option_prefix(arg: &str) -> (r: &str)
    ensures
        r@ == spec_strip_dashes(arg@),
{
    let n = arg.unicode_len();
    let mut i: usize = 0;
    while i < n && arg.get_char(i) == '-'
        invariant
            0 <= i <= n,
            forall|j: int| 0 <= j < i ==> arg@[j] == '-',
        decreases n - i,
    {
        i = i + 1;
    }
    let r = arg.substring_char(i, n);
    proof {
        lemma_strip_dashes_skip(arg@, i as int);
        assert(r@ =~= arg@.skip(i as int));
    }
    r
}

/// Get the option type for the passed option name from the anticipated
/// option set.
#[verifier::loop_isolation(false)]
pub fn get_option_type_for_name<'a>(
    option_name: &str,
    anticipated_options: &Vec<&'a OptionDescriptor>,
) -> (r: Result<&'a OptionType, ParserError>)
    ensures
        match spec_find_opt(opts_views(anticipated_options@), option_name@) {
            Some(i) => r matches Ok(t) && t@ == opts_views(anticipated_options@)[i].default,
            None => r matches Err(e) && e@ == (ErrorView::UnknownOption { name: option_name@ }),
        },
{
    let ghost ov = opts_views(anticipated_options@);
    proof {
        lemma_spec_find_opt(ov, option_name@);
    }
    let n = anticipated_options.len();
    let mut i: usize = 0;
    while i < n
        invariant
            0 <= i <= n,
            forall|j: int| 0 <= j < i ==> ov[j].name != option_name@,
        decreases n - i,
    {
        let d: &OptionDescriptor = anticipated_options[i];
        if crate::text::str_eq(d.name().as_str(), option_name) {
            proof {
                assert(ov[i as int] == d@);
                match spec_find_opt(ov, option_name@) {
                    None => {
                        assert(false);
                    },
                    Some(ip) => {
                        if ip < i as int {
                            assert(ov[ip].name != option_name@);
                        } else if ip > i as int {
                            assert(ov[i as int].name != option_name@);
                        }
                    },
                }
            }
            return Ok(d.value_type());
        }
        i = i + 1;
    }
    Err(
        ParserError {
            kind: ParseErrorKind::UnknownOption { name: String::from_str(option_name) },
        },
    )
}

/// Parse the passed option occurrence (name and raw value) to its typed
/// value.
pub fn parse_option(
    name: &str,
    raw_value: &str,
    anticipated_options: &Vec<&OptionDescriptor>,
) -> (r: Result<OptionValue, ParserError>)
    ensures
        ({
            let ov = opts_views(anticipated_options@);
            match spec_find_opt(ov, name@) {
                None => r matches Err(e) && e@ == (ErrorView::UnknownOption { name: name@ }),
                Some(i) => match spec_parse_value(ov[i].kind(), raw_value@) {
                    None => r matches Err(e) && e@ == (ErrorView::OptionTypeMismatch {
                        name: name@,
                        raw: raw_value@,
                        expected: ov[i].kind(),
                    }),
                    Some(tv) => r matches Ok(v) && v@ == tv,
                },
            }
        }),
{
    let option_type = match get_option_type_for_name(name, anticipated_options) {
        Ok(t) => t,
        Err(e) => {
            return Err(e);
        },
    };
    match OptionValue::parse(option_type, raw_value) {
        Ok(v) => Ok(v),
        Err(_) => Err(
            ParserError {
                kind: ParseErrorKind::OptionTypeMismatch {
                    name: String::from_str(name),
                    raw: String::from_str(raw_value),
                    expected: option_type.kind(),
                },
            },
        ),
    }
}

/// Parse raw option occurrences to their typed values, in order; the
/// first failure aborts the parse.
#[verifier::loop_isolation(false)]
pub fn parse_options(
    raw_options: Vec<(String, String)>,
    anticipated_options: &Vec<&OptionDescriptor>,
) -> (r: Result<OptionValueLookup, ParserError>)
    ensures
        ({
            let sr = spec_convert(
                pairs_view(raw_options@),
                opts_views(anticipated_options@),
                Map::empty(),
            );
            match r {
                Ok(l) => sr == Ok::<_, ErrorView>(l@),
                Err(e) => sr == Err::<Map<Seq<char>, TypedValue>, _>(e@),
            }
        }),
{
    let ghost all = pairs_view(raw_options@);
    let ghost ov = opts_views(anticipated_options@);
    let mut lookup = OptionValueLookup::new();
    let n = raw_options.len();
    let mut i: usize = 0;
    proof {
        assert(all.skip(0) =~= all);
    }
    while i < n
        invariant
            0 <= i <= n,
            spec_convert(all, ov, Map::empty()) == spec_convert(all.skip(i as int), ov, lookup@),
        decreases n - i,
    {
        let ghost rest = all.skip(i as int);
        proof {
            assert(rest[0] == (raw_options@[i as int].0@, raw_options@[i as int].1@));
        }
        let name: &String = &raw_options[i].0;
        let value: &String = &raw_options[i].1;
        match parse_option(name.as_str(), value.as_str(), anticipated_options) {
            Ok(v) => {
                let owned_name = name.clone();
                lookup.insert(owned_name, v);
            },
            Err(e) => {
                return Err(e);
            },
        }
        i = i + 1;
        proof {
            assert(all.skip(i - 1).skip(1) =~= all.skip(i as int));
        }
    }
    proof {
        assert(all.skip(n as int) =~= Seq::<(Seq<char>, Seq<char>)>::empty());
    }
    Ok(lookup)
}

/// Add every anticipated option the caller did not give with its
/// declared default value.
#[verifier::loop_isolation(false)]
pub fn fill_default_options(
    option_value_lookup: &mut OptionValueLookup,
    anticipated_options: &Vec<&OptionDescriptor>,
)
    ensures
        final(option_value_lookup)@ == spec_add_defaults(
            old(option_value_lookup)@,
            opts_views(anticipated_options@),
        ),
{
    let ghost ov = opts_views(anticipated_options@);
    let n = anticipated_options.len();
    let mut i: usize = 0;
    proof {
        assert(ov.skip(0) =~= ov);
    }
    while i < n
        invariant
            0 <= i <= n,
            spec_add_defaults(old(option_value_lookup)@, ov) == spec_add_defaults(
                option_value_lookup@,
                ov.skip(i as int),
            ),
        decreases n - i,
    {
        let d: &OptionDescriptor = anticipated_options[i];
        proof {
            assert(ov.skip(i as int)[0] == d@);
        }
        let absent = match option_value_lookup.get(d.name().as_str()) {
            Some(_) => false,
            None => true,
        };
        if absent {
            let owned_name = d.name().clone();
            let value = OptionValue::from_default(d.value_type());
            option_value_lookup.insert(owned_name, value);
        }
        i = i + 1;
        proof {
            assert(ov.skip(i - 1).skip(1) =~= ov.skip(i as int));
        }
    }
    proof {
        assert(ov.skip(n as int) =~= Seq::<OptionDescriptorView>::empty());
    }
}

/// Parse the collected positional tokens to typed argument values
/// against the context group's argument descriptors.
#[verifier::loop_isolation(false)]
pub fn parse_arguments(descriptors: &Vec<ArgDescriptor>, raw_arguments: Vec<String>) -> (r: Result<
    Vec<ArgValue>,
    ParserError,
>)
    ensures
        ({
            let sr = spec_bind_arguments(
                arg_desc_views(descriptors@),
                raw_arguments.deep_view(),
            );
            match r {
                Ok(vals) => sr == Ok::<_, ErrorView>(arg_values_view(vals@)),
                Err(e) => sr == Err::<Seq<TypedValue>, _>(e@),
            }
        }),
{
    let ghost dv = arg_desc_views(descriptors@);
    let ghost rv = raw_arguments.deep_view();
    let n = raw_arguments.len();
    if n != descriptors.len() {
        return Err(
            ParserError {
                kind: ParseErrorKind::ArityMismatch {
                    expected: descriptors.len(),
                    actual: n,
                },
            },
        );
    }
    let mut argument_values: Vec<ArgValue> = Vec::new();
    let mut i: usize = 0;
    proof {
        assert(arg_values_view(argument_values@) =~= Seq::<TypedValue>::empty());
    }
    while i < n
        invariant
            0 <= i <= n,
            n == dv.len() && n == rv.len(),
            argument_values@.len() == i,
            spec_bind_from(dv, rv, 0, Seq::empty()) == spec_bind_from(
                dv,
                rv,
                i as int,
                arg_values_view(argument_values@),
            ),
        decreases n - i,
    {
        let desc = &descriptors[i];
        let arg: &String = &raw_arguments[i];
        proof {
            assert(dv[i as int] == desc@);
            assert(rv[i as int] == arg@);
        }
        match ArgValue::parse(desc.value_type(), arg.as_str()) {
            Ok(v) => {
                let ghost before = arg_values_view(argument_values@);
                argument_values.push(v);
                proof {
                    assert(arg_values_view(argument_values@) =~= before.push(v@));
                }
            },
            Err(_) => {
                return Err(
                    ParserError {
                        kind: ParseErrorKind::ArgumentTypeMismatch {
                            position: i + 1,
                            raw: arg.clone(),
                            expected: *desc.value_type(),
                        },
                    },
                );
            },
        }
        i = i + 1;
    }
    Ok(argument_values)
}

/// Split the remaining raw tokens into option occurrences (name and raw
/// value, in token order) and positional tokens.
#[verifier::loop_isolation(false)]
pub fn split_raw_arguments(
    args: &Vec<String>,
    from: usize,
    anticipated_options: &Vec<&OptionDescriptor>,
) -> (r: Result<(Vec<(String, String)>, Vec<String>), ParserError>)
    requires
        from <= args@.len(),
    ensures
        ({
            let sr = spec_split(
                args.deep_view().skip(from as int),
                opts_views(anticipated_options@),
                Seq::empty(),
                Seq::empty(),
            );
            match r {
                Ok(p) => sr == Ok::<_, ErrorView>((pairs_view(p.0@), p.1.deep_view())),
                Err(e) => sr == Err::<(Seq<(Seq<char>, Seq<char>)>, Seq<Seq<char>>), _>(e@),
            }
        }),
{
    let ghost toks = args.deep_view();
    let ghost ov = opts_views(anticipated_options@);
    let mut raw_options: Vec<(String, String)> = Vec::new();
    let mut raw_arguments: Vec<String> = Vec::new();
    let n = args.len();
    let mut i: usize = from;
    proof {
        assert(pairs_view(raw_options@) =~= Seq::<(Seq<char>, Seq<char>)>::empty());
        assert(raw_arguments.deep_view() =~= Seq::<Seq<char>>::empty());
    }
    while i < n
        invariant
            from <= i <= n,
            spec_split(toks.skip(from as int), ov, Seq::empty(), Seq::empty()) == spec_split(
                toks.skip(i as int),
                ov,
                pairs_view(raw_options@),
                raw_arguments.deep_view(),
            ),
        decreases n - i,
    {
        let ghost oi = i as int;
        let ghost rest = toks.skip(oi);
        let arg: &String = &args[i];
        proof {
            assert(rest[0] == args@[oi]@);
        }
        if is_option(arg.as_str()) {
            let stripped = strip_option_prefix(arg.as_str());
            let schars = chars_of(stripped);
            proof {
                assert(schars@.skip(0) =~= schars@);
            }
            match find_char2(&schars, 0, '=', '=') {
                Some(j) => {
                    // Inline form: the value follows the first separator.
                    let slen = schars.len();
                    let name = stripped.substring_char(0, j);
                    let value = stripped.substring_char(j + 1, slen);
                    proof {
                        assert(name@ =~= spec_strip_dashes(rest[0]).take(j as int));
                        assert(value@ =~= spec_strip_dashes(rest[0]).skip(j + 1));
                    }
                    match get_option_type_for_name(name, anticipated_options) {
                        Ok(_) => {},
                        Err(e) => {
                            return Err(e);
                        },
                    }
                    let ghost occs_before = pairs_view(raw_options@);
                    raw_options.push((String::from_str(name), String::from_str(value)));
                    i = i + 1;
                    proof {
                        assert(pairs_view(raw_options@) =~= occs_before.push((name@, value@)));
                        assert(toks.skip(oi).skip(1) =~= toks.skip(i as int));
                    }
                },
                None => {
                    // Bare form: the value is the next token, or the
                    // implicit `true` of a boolean option.
                    let name = stripped;
                    let option_type = match get_option_type_for_name(name, anticipated_options) {
                        Ok(t) => t,
                        Err(e) => {
                            return Err(e);
                        },
                    };
                    let next_exists = i + 1 < n;
                    let next_is_option = if next_exists {
                        proof {
                            assert(rest[1] == args@[oi + 1]@);
                        }
                        is_option(args[i + 1].as_str())
                    } else {
                        false
                    };
                    if !next_exists || next_is_option {
                        match option_type {
                            OptionType::Bool { .. } => {
                                let ghost occs_before = pairs_view(raw_options@);
                                raw_options.push(
                                    (String::from_str(name), String::from_str("true")),
                                );
                                i = i + 1;
                                proof {
                                    assert(pairs_view(raw_options@) =~= occs_before.push(
                                        (name@, "true"@),
                                    ));
                                    assert(toks.skip(oi).skip(1) =~= toks.skip(i as int));
                                }
                            },
                            _ => {
                                return Err(
                                    ParserError {
                                        kind: ParseErrorKind::MissingOptionValue {
                                            name: String::from_str(name),
                                        },
                                    },
                                );
                            },
                        }
                    } else {
                        let value: &String = &args[i + 1];
                        proof {
                            assert(rest[1] == args@[oi + 1]@);
                        }
                        let ghost occs_before = pairs_view(raw_options@);
                        raw_options.push((String::from_str(name), value.clone()));
                        i = i + 2;
                        proof {
                            assert(pairs_view(raw_options@) =~= occs_before.push(
                                (name@, value@),
                            ));
                            assert(toks.skip(oi).skip(2) =~= toks.skip(i as int));
                        }
                    }
                },
            }
        } else {
            let ghost poss_before = raw_arguments.deep_view();
            raw_arguments.push(arg.clone());
            i = i + 1;
            proof {
                assert(raw_arguments.deep_view() =~= poss_before.push(arg@));
                assert(toks.skip(oi).skip(1) =~= toks.skip(i as int));
            }
        }
    }
    proof {
        assert(toks.skip(n as int) =~= Seq::<Seq<char>>::empty());
    }
    Ok((raw_options, raw_arguments))
}

/// Whether the anticipated option set already holds a given name.
fn contains_option_name(acc: &Vec<&OptionDescriptor>, name: &str) -> (r: bool)
    ensures
        r == (spec_find_opt(opts_views(acc@), name@) is Some),
{
    match get_option_type_for_name(name, acc) {
        Ok(_) => true,
        Err(_) => false,
    }
}

/// Add one descriptor to the anticipated set, replacing a descriptor of
/// the same name in place.
#[verifier::loop_isolation(false)]
fn upsert_option<'a>(acc: &mut Vec<&'a OptionDescriptor>, d: &'a OptionDescriptor)
    ensures
        opts_views(final(acc)@) == spec_upsert(opts_views(old(acc)@), d@),
{
    let ghost ov = opts_views(old(acc)@);
    proof {
        lemma_spec_find_opt(ov, d@.name);
    }
    let n = acc.len();
    let mut i: usize = 0;
    while i < n
        invariant
            0 <= i <= n,
            acc@ == old(acc)@,
            forall|j: int| 0 <= j < i ==> ov[j].name != d@.name,
        decreases n - i,
    {
        if crate::text::str_eq(acc[i].name().as_str(), d.name().as_str()) {
            proof {
                assert(ov[i as int] == acc@[i as int]@);
                match spec_find_opt(ov, d@.name) {
                    None => {
                        assert(false);
                    },
                    Some(ip) => {
                        if ip < i as int {
                            assert(ov[ip].name != d@.name);
                        } else if ip > i as int {
                            assert(ov[i as int].name != d@.name);
                        }
                    },
                }
            }
            acc[i] = d;
            proof {
                assert(opts_views(acc@) =~= ov.update(i as int, d@));
            }
            return ;
        }
        i = i + 1;
    }
    acc.push(d);
    proof {
        assert(opts_views(acc@) =~= ov.push(d@));
    }
}

/// Add a group's own descriptors to the anticipated set in order, later
/// ones replacing earlier ones of the same name.
#[verifier::loop_isolation(false)]
fn add_all_options<'a>(acc: &mut Vec<&'a OptionDescriptor>, more: &'a Vec<OptionDescriptor>)
    ensures
        opts_views(final(acc)@) == spec_add_all(opts_views(old(acc)@), owned_opts_views(more@)),
{
    let ghost mv = owned_opts_views(more@);
    let n = more.len();
    let mut i: usize = 0;
    proof {
        assert(mv.skip(0) =~= mv);
    }
    while i < n
        invariant
            0 <= i <= n,
            spec_add_all(opts_views(old(acc)@), mv) == spec_add_all(
                opts_views(acc@),
                mv.skip(i as int),
            ),
        decreases n - i,
    {
        proof {
            assert(mv.skip(i as int)[0] == more@[i as int]@);
        }
        upsert_option(acc, &more[i]);
        i = i + 1;
        proof {
            assert(mv.skip(i - 1).skip(1) =~= mv.skip(i as int));
        }
    }
    proof {
        assert(mv.skip(n as int) =~= Seq::<OptionDescriptorView>::empty());
    }
}

/// Merge a descended group's descriptors into the anticipated set; a
/// name already visible is a declaration conflict.
#[verifier::loop_isolation(false)]
fn merge_options<'a>(acc: &mut Vec<&'a OptionDescriptor>, more: &'a Vec<OptionDescriptor>) -> (r:
    Result<(), ParserError>)
    ensures
        match spec_merge(opts_views(old(acc)@), owned_opts_views(more@)) {
            Ok(s) => r is Ok && opts_views(final(acc)@) == s,
            Err(e) => r matches Err(pe) && pe@ == e,
        },
{
    let ghost mv = owned_opts_views(more@);
    let n = more.len();
    let mut i: usize = 0;
    proof {
        assert(mv.skip(0) =~= mv);
    }
    while i < n
        invariant
            0 <= i <= n,
            spec_merge(opts_views(old(acc)@), mv) == spec_merge(
                opts_views(acc@),
                mv.skip(i as int),
            ),
        decreases n - i,
    {
        let d: &OptionDescriptor = &more[i];
        proof {
            assert(mv.skip(i as int)[0] == d@);
        }
        if contains_option_name(acc, d.name().as_str()) {
            return Err(
                ParserError { kind: ParseErrorKind::DeclaredTwice { name: d.name().clone() } },
            );
        }
        let ghost before = opts_views(acc@);
        acc.push(d);
        i = i + 1;
        proof {
            assert(opts_views(acc@) =~= before.push(d@));
            assert(mv.skip(i - 1).skip(1) =~= mv.skip(i as int));
        }
    }
    proof {
        assert(mv.skip(n as int) =~= Seq::<OptionDescriptorView>::empty());
    }
    Ok(())
}

/// Walk the tree from a group: while the next token names a child,
/// descend into it, merging its options into the anticipated set.
fn resolve_walk<'a, C>(
    cur: &'a Group<C>,
    args: &Vec<String>,
    pos: usize,
    anticipated_options: &mut Vec<&'a OptionDescriptor>,
) -> (r: Result<(&'a Group<C>, usize), ParserError>)
    requires
        pos <= args@.len(),
    ensures
        match spec_resolve(
            *cur,
            args.deep_view(),
            pos as int,
            opts_views(old(anticipated_options)@),
        ) {
            Ok(t) => r matches Ok(rr) && *rr.0 == t.0 && rr.1 as int == t.2 && opts_views(
                final(anticipated_options)@,
            ) == t.1 && pos <= rr.1 <= args@.len(),
            Err(e) => r matches Err(pe) && pe@ == e,
        },
    decreases args@.len() - pos,
{
    let ghost toks = args.deep_view();
    if pos >= args.len() {
        return Ok((cur, pos));
    }
    proof {
        assert(toks[pos as int] == args@[pos as int]@);
    }
    match cur.child_index_for(args[pos].as_str()) {
        None => Ok((cur, pos)),
        Some(ci) => {
            let child = &cur.children[ci].group;
            match merge_options(anticipated_options, &child.options) {
                Err(e) => Err(e),
                Ok(_) => resolve_walk(child, args, pos + 1, anticipated_options),
            }
        },
    }
}

/// Prepare the parsing context: resolve the command context group from
/// the raw tokens (token 0 is the program name and takes no part), and
/// accumulate the anticipated options visible there, starting from the
/// implicit help option and the root group's own options.
pub fn prepare_parsing_context<'a, C>(
    group: &'a Group<C>,
    help_descriptor: &'a OptionDescriptor,
    args: &Vec<String>,
) -> (r: Result<(&'a Group<C>, Vec<&'a OptionDescriptor>, usize), ParserError>)
    requires
        args@.len() >= 1,
    ensures
        match spec_resolve(
            *group,
            args.deep_view(),
            1,
            spec_seed(owned_opts_views(group.options@), help_descriptor@),
        ) {
            Ok(t) => r matches Ok(rr) && *rr.0 == t.0 && opts_views(rr.1@) == t.1 && rr.2 as int
                == t.2 && 1 <= rr.2 <= args@.len(),
            Err(e) => r matches Err(pe) && pe@ == e,
        },
{
    let mut anticipated_options: Vec<&OptionDescriptor> = Vec::new();
    anticipated_options.push(help_descriptor);
    proof {
        assert(opts_views(anticipated_options@) =~= seq![help_descriptor@]);
    }
    add_all_options(&mut anticipated_options, &group.options);
    match resolve_walk(group, args, 1, &mut anticipated_options) {
        Ok((ctx, pos)) => Ok((ctx, anticipated_options, pos)),
        Err(e) => Err(e),
    }
}

/// What a parse settles to when it does not fail.
pub enum SpecOutcome {
    /// The help short-circuit fired; the consumer is not invoked.
    Help,
    /// The consumer is invoked with these typed positional values and
    /// this fully populated option mapping.
    Run { arguments: Seq<TypedValue>, options: Map<Seq<char>, TypedValue> },
}

/// The implicit help option, declared at every context.
pub open spec fn spec_help_descriptor() -> OptionDescriptorView {
    OptionDescriptorView {
        name: "help"@,
        aliases: Seq::empty(),
        default: TypedValue::Bool { value: false },
        description: "Get this information displayed"@,
    }
}

/// The whole parse, one atomic pass: resolve the context, split the
/// remaining tokens, convert the option occurrences, fill defaults,
/// short-circuit on help, and bind the positional arguments.
pub open spec fn spec_parse_outcome<C>(g: Group<C>, args: Seq<Seq<char>>) -> Result<
    SpecOutcome,
    ErrorView,
> {
    match spec_resolve(g, args, 1, spec_seed(owned_opts_views(g.options@), spec_help_descriptor())) {
        Err(e) => Err(e),
        Ok(t) => {
            let ctx = t.0;
            let opts = t.1;
            let pos = t.2;
            match spec_split(args.skip(pos), opts, Seq::empty(), Seq::empty()) {
                Err(e) => Err(e),
                Ok(sp) => match spec_convert(sp.0, opts, Map::empty()) {
                    Err(e) => Err(e),
                    Ok(m0) => {
                        let m = spec_add_defaults(m0, opts);
                        if m.contains_key("help"@) && m["help"@] == (TypedValue::Bool {
                            value: true,
                        }) {
                            Ok(SpecOutcome::Help)
                        } else {
                            match spec_bind_arguments(arg_desc_views(ctx.arguments@), sp.1) {
                                Err(e) => Err(e),
                                Ok(vals) => Ok(
                                    SpecOutcome::Run { arguments: vals, options: m },
                                ),
                            }
                        }
                    },
                },
            }
        },
    }
}

/// Options to customize the parser.
pub struct ParseOptions<P> {
    /// A custom help printer; the default printer is used when absent.
    pub help_printer: Option<P>,
}

/// Show help for the resolved context: its subcommands and options as
/// sorted listings, and its argument descriptors in binding order.
fn show_help<C, P: HelpPrinter<C>>(
    group: &Group<C>,
    option_descriptors: &Vec<&OptionDescriptor>,
    arg_descriptors: &Vec<ArgDescriptor>,
    options: Option<&mut ParseOptions<P>>,
) {
    let subcommand_entries = collect_subcommand_entries(group);
    let option_entries = collect_option_entries(option_descriptors);
    match options {
        Some(po) => match &mut po.help_printer {
            Some(p) => p.print(group, &subcommand_entries, &option_entries, arg_descriptors),
            None => {
                let mut printer = DefaultHelpPrinter::new();
                printer.print(group, &subcommand_entries, &option_entries, arg_descriptors);
            },
        },
        None => {
            let mut printer = DefaultHelpPrinter::new();
            printer.print(group, &subcommand_entries, &option_entries, arg_descriptors);
        },
    }
}

/// Parse the passed command line arguments using the passed group.
/// Token 0 is the invoked program name and takes no part in matching.
/// The call returns without error exactly when the parse settles, to
/// the help listing or to one invocation of the resolved context's
/// consumer; otherwise it returns the first failure.
pub fn parse_from<C: Consumer, P: HelpPrinter<C>>(
    group: Group<C>,
    args: &Vec<String>,
    options: Option<&mut ParseOptions<P>>,
) -> (r: Result<(), ParserError>)
    requires
        args@.len() >= 1,
    ensures
        match spec_parse_outcome(group, args.deep_view()) {
            Ok(_) => r is Ok,
            Err(e) => r matches Err(pe) && pe@ == e,
        },
{
    let help_descriptor = OptionDescriptor::new(
        "help",
        OptionType::Bool { default: false },
        "Get this information displayed",
    );
    proof {
        assert(help_descriptor@ == spec_help_descriptor());
    }
    let (ctx_group, anticipated_options, parse_start_pos) = match prepare_parsing_context(
        &group,
        &help_descriptor,
        args,
    ) {
        Ok(t) => t,
        Err(e) => {
            return Err(e);
        },
    };
    let arg_descriptors = ctx_group.get_arguments();
    let (raw_options, raw_arguments) = match split_raw_arguments(
        args,
        parse_start_pos,
        &anticipated_options,
    ) {
        Ok(t) => t,
        Err(e) => {
            return Err(e);
        },
    };
    let mut option_value_lookup = match parse_options(raw_options, &anticipated_options) {
        Ok(l) => l,
        Err(e) => {
            return Err(e);
        },
    };
    fill_default_options(&mut option_value_lookup, &anticipated_options);
    // Show help if it resolved to a boolean true.
    let help_requested = match option_value_lookup.get("help") {
        Some(v) => match v.bool() {
            Some(b) => b,
            None => false,
        },
        None => false,
    };
    if help_requested {
        show_help(ctx_group, &anticipated_options, arg_descriptors, options);
        return Ok(());
    }
    let argument_values = match parse_arguments(arg_descriptors, raw_arguments) {
        Ok(v) => v,
        Err(e) => {
            return Err(e);
        },
    };
    // Call the group consumer.
    ctx_group.get_consumer().consume(&argument_values, &option_value_lookup);
    Ok(())
}

} // verus!
