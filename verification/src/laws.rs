//! Laws of the parsing engine, stated over the specification pipeline
//! and proved once and for all.

use vstd::prelude::*;
use crate::arg::ArgDescriptorView;
use crate::arg::ArgType;
use crate::error::ErrorView;
use crate::group::Group;
use crate::group::find_child;
use crate::option::OptionDescriptorView;
use crate::parser::SpecOutcome;
use crate::parser::owned_opts_views;
use crate::parser::spec_add_defaults;
use crate::parser::spec_bind_arguments;
use crate::parser::spec_bind_from;
use crate::parser::spec_convert;
use crate::parser::spec_find_opt;
use crate::parser::spec_help_descriptor;
use crate::parser::spec_merge;
use crate::parser::spec_is_option_token;
use crate::parser::spec_parse_outcome;
use crate::parser::spec_resolve;
use crate::parser::spec_seed;
use crate::parser::spec_split;
use crate::parser::spec_strip_dashes;
use crate::parser::lemma_spec_find_opt;
use crate::value::TypedValue;
use crate::value::first_index2;
use crate::value::lemma_first_index2;
use crate::value::spec_parse_value;

verus! {

/// The final option mapping a token list resolves to against an
/// anticipated option set, where the list parses.
pub open spec fn spec_option_mapping(
    toks: Seq<Seq<char>>,
    opts: Seq<OptionDescriptorView>,
) -> Option<Map<Seq<char>, TypedValue>> {
    match spec_split(toks, opts, Seq::empty(), Seq::empty()) {
        Err(_) => None,
        Ok(sp) => match spec_convert(sp.0, opts, Map::empty()) {
            Err(_) => None,
            Ok(m0) => Some(spec_add_defaults(m0, opts)),
        },
    }
}

/// Converting occurrences never touches a name none of them carries.
proof fn lemma_convert_other(
    occs: Seq<(Seq<char>, Seq<char>)>,
    opts: Seq<OptionDescriptorView>,
    acc: Map<Seq<char>, TypedValue>,
    name: Seq<char>,
)
    requires
        forall|k: int| 0 <= k < occs.len() ==> (#[trigger] occs[k]).0 != name,
        spec_convert(occs, opts, acc) is Ok,
    ensures
        match spec_convert(occs, opts, acc) {
            Ok(m) => m.contains_key(name) == acc.contains_key(name) && (acc.contains_key(name)
                ==> m[name] == acc[name]),
            Err(_) => true,
        },
    decreases occs.len(),
{
    if occs.len() > 0 {
        let rest = occs.skip(1);
        assert forall|k: int| 0 <= k < rest.len() implies (#[trigger] rest[k]).0 != name by {
            assert(rest[k] == occs[k + 1]);
        }
        let i = spec_find_opt(opts, occs[0].0)->0;
        let v = spec_parse_value(opts[i].kind(), occs[0].1)->0;
        lemma_convert_other(rest, opts, acc.insert(occs[0].0, v), name);
    }
}

/// Filling defaults never changes a name the mapping already holds.
proof fn lemma_add_defaults_preserves(
    m: Map<Seq<char>, TypedValue>,
    opts: Seq<OptionDescriptorView>,
    name: Seq<char>,
)
    requires
        m.contains_key(name),
    ensures
        spec_add_defaults(m, opts).contains_key(name),
        spec_add_defaults(m, opts)[name] == m[name],
    decreases opts.len(),
{
    if opts.len() > 0 {
        let m2 = if m.contains_key(opts[0].name) {
            m
        } else {
            m.insert(opts[0].name, opts[0].default)
        };
        lemma_add_defaults_preserves(m2, opts.skip(1), name);
    }
}

/// Filling defaults gives an absent name the default of the first
/// visible descriptor of that name.
proof fn lemma_add_defaults_supplies(
    m: Map<Seq<char>, TypedValue>,
    opts: Seq<OptionDescriptorView>,
    i: int,
)
    requires
        0 <= i < opts.len(),
        !m.contains_key(opts[i].name),
        forall|j: int| 0 <= j < i ==> (#[trigger] opts[j]).name != opts[i].name,
    ensures
        spec_add_defaults(m, opts).contains_key(opts[i].name),
        spec_add_defaults(m, opts)[opts[i].name] == opts[i].default,
    decreases opts.len(),
{
    let name = opts[i].name;
    if i == 0 {
        let m2 = m.insert(name, opts[0].default);
        lemma_add_defaults_preserves(m2, opts.skip(1), name);
    } else {
        let m2 = if m.contains_key(opts[0].name) {
            m
        } else {
            m.insert(opts[0].name, opts[0].default)
        };
        let rest = opts.skip(1);
        assert(rest[i - 1] == opts[i]);
        assert forall|j: int| 0 <= j < i - 1 implies (#[trigger] rest[j]).name != rest[i
            - 1].name by {
            assert(rest[j] == opts[j + 1]);
        }
        lemma_add_defaults_supplies(m2, rest, i - 1);
    }
}

/// Omitting an option yields its declared default: where no occurrence
/// carries a visible option's name, the final mapping holds that
/// option's default value.
pub proof fn lemma_omitted_option_yields_default(
    occs: Seq<(Seq<char>, Seq<char>)>,
    opts: Seq<OptionDescriptorView>,
    m0: Map<Seq<char>, TypedValue>,
    name: Seq<char>,
    i: int,
)
    requires
        spec_find_opt(opts, name) == Some(i),
        forall|k: int| 0 <= k < occs.len() ==> (#[trigger] occs[k]).0 != name,
        spec_convert(occs, opts, Map::empty()) == Ok::<Map<Seq<char>, TypedValue>, ErrorView>(m0),
    ensures
        spec_add_defaults(m0, opts).contains_key(name),
        spec_add_defaults(m0, opts)[name] == opts[i].default,
{
    lemma_spec_find_opt(opts, name);
    lemma_convert_other(occs, opts, Map::empty(), name);
    lemma_add_defaults_supplies(m0, opts, i);
}

/// A boolean option supplied bare, as the last token or followed by
/// another option, resolves to true.
pub proof fn lemma_bool_option_bare_is_true(
    t: Seq<char>,
    opts: Seq<OptionDescriptorView>,
    name: Seq<char>,
    i: int,
)
    requires
        spec_is_option_token(t),
        spec_strip_dashes(t) == name,
        first_index2(name, '=', '=') is None,
        spec_find_opt(opts, name) == Some(i),
        opts[i].kind() == ArgType::Bool,
    ensures
        match spec_option_mapping(seq![t], opts) {
            Some(m) => m.contains_key(name) && m[name] == (TypedValue::Bool { value: true }),
            None => false,
        },
{
    reveal_with_fuel(spec_split, 3);
    reveal_with_fuel(spec_convert, 3);
    let toks = seq![t];
    assert(toks.skip(1) =~= Seq::<Seq<char>>::empty());
    let occs = Seq::<(Seq<char>, Seq<char>)>::empty().push((name, "true"@));
    assert(spec_split(toks, opts, Seq::empty(), Seq::empty()) == Ok::<
        (Seq<(Seq<char>, Seq<char>)>, Seq<Seq<char>>),
        ErrorView,
    >((occs, Seq::empty())));
    assert(spec_parse_value(opts[i].kind(), "true"@) == Some(TypedValue::Bool { value: true }));
    assert(occs.skip(1) =~= Seq::<(Seq<char>, Seq<char>)>::empty());
    let m0 = Map::<Seq<char>, TypedValue>::empty().insert(
        name,
        TypedValue::Bool { value: true },
    );
    assert(spec_convert(occs, opts, Map::empty()) == Ok::<
        Map<Seq<char>, TypedValue>,
        ErrorView,
    >(m0));
    lemma_add_defaults_preserves(m0, opts, name);
}

/// A bare boolean token, followed by the end of input or by another
/// option token, contributes the occurrence `true` and consumes no
/// further token, wherever it stands in the token list.
pub proof fn lemma_bare_bool_step(
    t: Seq<char>,
    rest: Seq<Seq<char>>,
    opts: Seq<OptionDescriptorView>,
    occs: Seq<(Seq<char>, Seq<char>)>,
    poss: Seq<Seq<char>>,
    name: Seq<char>,
    i: int,
)
    requires
        spec_is_option_token(t),
        spec_strip_dashes(t) == name,
        first_index2(name, '=', '=') is None,
        spec_find_opt(opts, name) == Some(i),
        opts[i].kind() == ArgType::Bool,
        rest.len() > 0 ==> spec_is_option_token(rest[0]),
    ensures
        spec_split(seq![t] + rest, opts, occs, poss) == spec_split(
            rest,
            opts,
            occs.push((name, "true"@)),
            poss,
        ),
{
    let toks = seq![t] + rest;
    assert(toks[0] == t);
    assert(toks.skip(1) =~= rest);
    if rest.len() > 0 {
        assert(toks[1] == rest[0]);
    }
}

/// A boolean option supplied as `name=false` resolves to false.
pub proof fn lemma_bool_option_false_form(
    t: Seq<char>,
    opts: Seq<OptionDescriptorView>,
    name: Seq<char>,
    i: int,
    j: int,
)
    requires
        spec_is_option_token(t),
        first_index2(spec_strip_dashes(t), '=', '=') == Some(j),
        spec_strip_dashes(t).take(j) == name,
        spec_strip_dashes(t).skip(j + 1) == "false"@,
        spec_find_opt(opts, name) == Some(i),
        opts[i].kind() == ArgType::Bool,
    ensures
        match spec_option_mapping(seq![t], opts) {
            Some(m) => m.contains_key(name) && m[name] == (TypedValue::Bool { value: false }),
            None => false,
        },
{
    reveal_strlit("true");
    reveal_strlit("false");
    reveal_with_fuel(spec_split, 3);
    reveal_with_fuel(spec_convert, 3);
    let toks = seq![t];
    assert(toks.skip(1) =~= Seq::<Seq<char>>::empty());
    let occs = Seq::<(Seq<char>, Seq<char>)>::empty().push((name, "false"@));
    assert(spec_split(toks, opts, Seq::empty(), Seq::empty()) == Ok::<
        (Seq<(Seq<char>, Seq<char>)>, Seq<Seq<char>>),
        ErrorView,
    >((occs, Seq::empty())));
    assert("false"@.len() == 5 && "true"@.len() == 4);
    assert(spec_parse_value(opts[i].kind(), "false"@) == Some(
        TypedValue::Bool { value: false },
    ));
    assert(occs.skip(1) =~= Seq::<(Seq<char>, Seq<char>)>::empty());
    let m0 = Map::<Seq<char>, TypedValue>::empty().insert(
        name,
        TypedValue::Bool { value: false },
    );
    assert(spec_convert(occs, opts, Map::empty()) == Ok::<
        Map<Seq<char>, TypedValue>,
        ErrorView,
    >(m0));
    lemma_add_defaults_preserves(m0, opts, name);
}

/// Binding from a position onward succeeds when every remaining token
/// converts, and binds in order after the accumulator.
proof fn lemma_bind_from_ok(
    descs: Seq<ArgDescriptorView>,
    raws: Seq<Seq<char>>,
    i: int,
    acc: Seq<TypedValue>,
)
    requires
        descs.len() == raws.len(),
        0 <= i <= descs.len(),
        forall|k: int|
            i <= k < descs.len() ==> spec_parse_value((#[trigger] descs[k]).kind, raws[k]) is Some,
    ensures
        match spec_bind_from(descs, raws, i, acc) {
            Ok(res) => res.len() == acc.len() + (descs.len() - i) && (forall|k: int|
                0 <= k < acc.len() ==> res[k] == acc[k]) && (forall|k: int|
                i <= k < descs.len() ==> res[acc.len() + (k - i)] == spec_parse_value(
                    (#[trigger] descs[k]).kind,
                    raws[k],
                )->0),
            Err(_) => false,
        },
    decreases descs.len() - i,
{
    if i < descs.len() {
        let v = spec_parse_value(descs[i].kind, raws[i])->0;
        lemma_bind_from_ok(descs, raws, i + 1, acc.push(v));
    }
}

/// Supplying exactly as many well-typed positional tokens as declared
/// binds them to the descriptors in order.
pub proof fn lemma_arity_exact_binds_in_order(descs: Seq<ArgDescriptorView>, raws: Seq<Seq<char>>)
    requires
        descs.len() == raws.len(),
        forall|k: int|
            0 <= k < descs.len() ==> spec_parse_value((#[trigger] descs[k]).kind, raws[k]) is Some,
    ensures
        match spec_bind_arguments(descs, raws) {
            Ok(vals) => vals.len() == descs.len() && forall|k: int|
                0 <= k < descs.len() ==> vals[k] == spec_parse_value(
                    (#[trigger] descs[k]).kind,
                    raws[k],
                )->0,
            Err(_) => false,
        },
{
    lemma_bind_from_ok(descs, raws, 0, Seq::empty());
}

/// Supplying any other number of positional tokens than declared fails
/// with an arity error stating both counts, whatever the tokens hold.
pub proof fn lemma_arity_mismatch_fails(descs: Seq<ArgDescriptorView>, raws: Seq<Seq<char>>)
    requires
        descs.len() != raws.len(),
    ensures
        spec_bind_arguments(descs, raws) == Err::<Seq<TypedValue>, ErrorView>(
            ErrorView::ArityMismatch {
                expected: descs.len() as int,
                actual: raws.len() as int,
            },
        ),
{
}

/// Option resolution is order-independent: two inline option tokens of
/// distinct names yield the same final mapping in either order, with no
/// positional tokens either way.
pub proof fn lemma_option_order_independent(
    t1: Seq<char>,
    t2: Seq<char>,
    opts: Seq<OptionDescriptorView>,
    n1: Seq<char>,
    n2: Seq<char>,
    i1: int,
    i2: int,
    j1: int,
    j2: int,
)
    requires
        spec_is_option_token(t1),
        first_index2(spec_strip_dashes(t1), '=', '=') == Some(j1),
        spec_strip_dashes(t1).take(j1) == n1,
        spec_is_option_token(t2),
        first_index2(spec_strip_dashes(t2), '=', '=') == Some(j2),
        spec_strip_dashes(t2).take(j2) == n2,
        n1 != n2,
        spec_find_opt(opts, n1) == Some(i1),
        spec_find_opt(opts, n2) == Some(i2),
        spec_parse_value(opts[i1].kind(), spec_strip_dashes(t1).skip(j1 + 1)) is Some,
        spec_parse_value(opts[i2].kind(), spec_strip_dashes(t2).skip(j2 + 1)) is Some,
    ensures
        spec_option_mapping(seq![t1, t2], opts) is Some,
        spec_option_mapping(seq![t1, t2], opts) == spec_option_mapping(seq![t2, t1], opts),
{
    let v1 = spec_strip_dashes(t1).skip(j1 + 1);
    let v2 = spec_strip_dashes(t2).skip(j2 + 1);
    let tv1 = spec_parse_value(opts[i1].kind(), v1)->0;
    let tv2 = spec_parse_value(opts[i2].kind(), v2)->0;
    reveal_with_fuel(spec_split, 4);
    reveal_with_fuel(spec_convert, 4);
    let toks12 = seq![t1, t2];
    let toks21 = seq![t2, t1];
    assert(toks12.skip(1) =~= seq![t2]);
    assert(toks21.skip(1) =~= seq![t1]);
    assert(seq![t2].skip(1) =~= Seq::<Seq<char>>::empty());
    assert(seq![t1].skip(1) =~= Seq::<Seq<char>>::empty());
    let occs12 = Seq::<(Seq<char>, Seq<char>)>::empty().push((n1, v1)).push((n2, v2));
    let occs21 = Seq::<(Seq<char>, Seq<char>)>::empty().push((n2, v2)).push((n1, v1));
    assert(spec_split(toks12, opts, Seq::empty(), Seq::empty()) == Ok::<
        (Seq<(Seq<char>, Seq<char>)>, Seq<Seq<char>>),
        ErrorView,
    >((occs12, Seq::empty())));
    assert(spec_split(toks21, opts, Seq::empty(), Seq::empty()) == Ok::<
        (Seq<(Seq<char>, Seq<char>)>, Seq<Seq<char>>),
        ErrorView,
    >((occs21, Seq::empty())));
    assert(occs12.skip(1) =~= Seq::<(Seq<char>, Seq<char>)>::empty().push((n2, v2)));
    assert(occs21.skip(1) =~= Seq::<(Seq<char>, Seq<char>)>::empty().push((n1, v1)));
    assert(occs12.skip(1).skip(1) =~= Seq::<(Seq<char>, Seq<char>)>::empty());
    assert(occs21.skip(1).skip(1) =~= Seq::<(Seq<char>, Seq<char>)>::empty());
    let m12 = Map::<Seq<char>, TypedValue>::empty().insert(n1, tv1).insert(n2, tv2);
    let m21 = Map::<Seq<char>, TypedValue>::empty().insert(n2, tv2).insert(n1, tv1);
    assert(spec_convert(occs12, opts, Map::empty()) == Ok::<
        Map<Seq<char>, TypedValue>,
        ErrorView,
    >(m12));
    assert(spec_convert(occs21, opts, Map::empty()) == Ok::<
        Map<Seq<char>, TypedValue>,
        ErrorView,
    >(m21));
    assert(m12 =~= m21);
}

/// Splitting never reads the accumulated occurrences: starting from two
/// accumulators, the outcomes agree, the positionals agree, and each
/// result is its own accumulator followed by one shared suffix.
proof fn lemma_split_occs_opaque(
    toks: Seq<Seq<char>>,
    opts: Seq<OptionDescriptorView>,
    occs_a: Seq<(Seq<char>, Seq<char>)>,
    occs_b: Seq<(Seq<char>, Seq<char>)>,
    poss: Seq<Seq<char>>,
)
    ensures
        match (spec_split(toks, opts, occs_a, poss), spec_split(toks, opts, occs_b, poss)) {
            (Ok(a), Ok(b)) => {
                &&& a.1 == b.1
                &&& a.0.len() >= occs_a.len()
                &&& b.0.len() >= occs_b.len()
                &&& a.0.len() - occs_a.len() == b.0.len() - occs_b.len()
                &&& a.0.take(occs_a.len() as int) == occs_a
                &&& b.0.take(occs_b.len() as int) == occs_b
                &&& a.0.skip(occs_a.len() as int) == b.0.skip(occs_b.len() as int)
            },
            (Err(ea), Err(eb)) => ea == eb,
            _ => false,
        },
    decreases toks.len(),
{
    if toks.len() == 0 {
        assert(occs_a.take(occs_a.len() as int) =~= occs_a);
        assert(occs_b.take(occs_b.len() as int) =~= occs_b);
        assert(occs_a.skip(occs_a.len() as int) =~= occs_b.skip(occs_b.len() as int));
    } else {
        let t = toks[0];
        if !spec_is_option_token(t) {
            lemma_split_occs_opaque(toks.skip(1), opts, occs_a, occs_b, poss.push(t));
        } else {
            let stripped = spec_strip_dashes(t);
            match first_index2(stripped, '=', '=') {
                Some(j) => {
                    if spec_find_opt(opts, stripped.take(j)) is Some {
                        let p = (stripped.take(j), stripped.skip(j + 1));
                        lemma_split_occs_opaque(
                            toks.skip(1),
                            opts,
                            occs_a.push(p),
                            occs_b.push(p),
                            poss,
                        );
                        lemma_lift_pushed_prefix(toks, opts, occs_a, occs_b, poss, p, 1);
                    }
                },
                None => {
                    match spec_find_opt(opts, stripped) {
                        None => {},
                        Some(oi) => {
                            if toks.len() == 1 || spec_is_option_token(toks[1]) {
                                if opts[oi].kind() is Bool {
                                    let p = (stripped, "true"@);
                                    lemma_split_occs_opaque(
                                        toks.skip(1),
                                        opts,
                                        occs_a.push(p),
                                        occs_b.push(p),
                                        poss,
                                    );
                                    lemma_lift_pushed_prefix(toks, opts, occs_a, occs_b, poss, p, 1);
                                }
                            } else {
                                let p = (stripped, toks[1]);
                                lemma_split_occs_opaque(
                                    toks.skip(2),
                                    opts,
                                    occs_a.push(p),
                                    occs_b.push(p),
                                    poss,
                                );
                                lemma_lift_pushed_prefix(toks, opts, occs_a, occs_b, poss, p, 2);
                            }
                        },
                    }
                },
            }
        }
    }
}

/// Lifting the two-accumulator facts over one pushed occurrence.
proof fn lemma_lift_pushed_prefix(
    toks: Seq<Seq<char>>,
    opts: Seq<OptionDescriptorView>,
    occs_a: Seq<(Seq<char>, Seq<char>)>,
    occs_b: Seq<(Seq<char>, Seq<char>)>,
    poss: Seq<Seq<char>>,
    p: (Seq<char>, Seq<char>),
    consumed: int,
)
    requires
        1 <= consumed <= 2,
        consumed <= toks.len(),
        spec_split(toks, opts, occs_a, poss) == spec_split(
            toks.skip(consumed),
            opts,
            occs_a.push(p),
            poss,
        ),
        spec_split(toks, opts, occs_b, poss) == spec_split(
            toks.skip(consumed),
            opts,
            occs_b.push(p),
            poss,
        ),
        match (
            spec_split(toks.skip(consumed), opts, occs_a.push(p), poss),
            spec_split(toks.skip(consumed), opts, occs_b.push(p), poss),
        ) {
            (Ok(a), Ok(b)) => {
                &&& a.1 == b.1
                &&& a.0.len() >= occs_a.len() + 1
                &&& b.0.len() >= occs_b.len() + 1
                &&& a.0.len() - occs_a.len() == b.0.len() - occs_b.len()
                &&& a.0.take((occs_a.len() + 1) as int) == occs_a.push(p)
                &&& b.0.take((occs_b.len() + 1) as int) == occs_b.push(p)
                &&& a.0.skip((occs_a.len() + 1) as int) == b.0.skip((occs_b.len() + 1) as int)
            },
            (Err(ea), Err(eb)) => ea == eb,
            _ => false,
        },
    ensures
        match (spec_split(toks, opts, occs_a, poss), spec_split(toks, opts, occs_b, poss)) {
            (Ok(a), Ok(b)) => {
                &&& a.1 == b.1
                &&& a.0.len() >= occs_a.len()
                &&& b.0.len() >= occs_b.len()
                &&& a.0.len() - occs_a.len() == b.0.len() - occs_b.len()
                &&& a.0.take(occs_a.len() as int) == occs_a
                &&& b.0.take(occs_b.len() as int) == occs_b
                &&& a.0.skip(occs_a.len() as int) == b.0.skip(occs_b.len() as int)
            },
            (Err(ea), Err(eb)) => ea == eb,
            _ => false,
        },
{
    let la = occs_a.len() as int;
    let lb = occs_b.len() as int;
    match (spec_split(toks, opts, occs_a, poss), spec_split(toks, opts, occs_b, poss)) {
        (Ok(a), Ok(b)) => {
            assert(a.0.take(la) =~= occs_a) by {
                assert forall|i: int| 0 <= i < la implies a.0[i] == occs_a[i] by {
                    assert(a.0[i] == a.0.take(la + 1)[i]);
                }
            }
            assert(b.0.take(lb) =~= occs_b) by {
                assert forall|i: int| 0 <= i < lb implies b.0[i] == occs_b[i] by {
                    assert(b.0[i] == b.0.take(lb + 1)[i]);
                }
            }
            assert forall|k: int|
                0 <= k < a.0.len() - la implies #[trigger] a.0.skip(la)[k] == b.0.skip(lb)[k] by {
                assert(a.0.skip(la)[k] == a.0[la + k]);
                assert(b.0.skip(lb)[k] == b.0[lb + k]);
                if k == 0 {
                    assert(a.0[la] == a.0.take(la + 1)[la]);
                    assert(b.0[lb] == b.0.take(lb + 1)[lb]);
                } else {
                    assert(a.0[la + k] == a.0.skip(la + 1)[k - 1]);
                    assert(b.0[lb + k] == b.0.skip(lb + 1)[k - 1]);
                }
            }
            assert(a.0.skip(la) =~= b.0.skip(lb));
        },
        _ => {},
    }
}

/// Swapping two adjacent inline option tokens of distinct visible names
/// does not change whether splitting succeeds, the positional tokens,
/// or the occurrences but for the same adjacent swap.
proof fn lemma_split_swap(
    toks1: Seq<Seq<char>>,
    toks2: Seq<Seq<char>>,
    q: int,
    opts: Seq<OptionDescriptorView>,
    occs: Seq<(Seq<char>, Seq<char>)>,
    poss: Seq<Seq<char>>,
    n1: Seq<char>,
    n2: Seq<char>,
    j1: int,
    j2: int,
)
    requires
        0 <= q,
        q + 1 < toks1.len(),
        toks2 == toks1.update(q, toks1[q + 1]).update(q + 1, toks1[q]),
        spec_is_option_token(toks1[q]),
        first_index2(spec_strip_dashes(toks1[q]), '=', '=') == Some(j1),
        spec_strip_dashes(toks1[q]).take(j1) == n1,
        spec_is_option_token(toks1[q + 1]),
        first_index2(spec_strip_dashes(toks1[q + 1]), '=', '=') == Some(j2),
        spec_strip_dashes(toks1[q + 1]).take(j2) == n2,
        n1 != n2,
        spec_find_opt(opts, n1) is Some,
        spec_find_opt(opts, n2) is Some,
    ensures
        match (spec_split(toks1, opts, occs, poss), spec_split(toks2, opts, occs, poss)) {
            (Ok(a), Ok(b)) => {
                &&& a.1 == b.1
                &&& exists|k: int|
                    0 <= k && k + 1 < a.0.len() && (#[trigger] a.0[k]).0 != a.0[k + 1].0 && b.0
                        == a.0.update(k, a.0[k + 1]).update(k + 1, a.0[k])
            },
            (Err(ea), Err(eb)) => ea == eb,
            _ => false,
        },
    decreases q,
{
    reveal_with_fuel(spec_split, 4);
    let v1 = spec_strip_dashes(toks1[q]).skip(j1 + 1);
    let v2 = spec_strip_dashes(toks1[q + 1]).skip(j2 + 1);
    let p1 = (n1, v1);
    let p2 = (n2, v2);
    if q == 0 {
        assert(toks2[0] == toks1[1] && toks2[1] == toks1[0]);
        assert(toks1.skip(1)[0] == toks1[1]);
        assert(toks2.skip(1)[0] == toks1[0]);
        assert(toks1.skip(1).skip(1) =~= toks1.skip(2));
        assert(toks2.skip(1).skip(1) =~= toks2.skip(2));
        assert(toks2.skip(2) =~= toks1.skip(2));
        let big_a = occs.push(p1).push(p2);
        let big_b = occs.push(p2).push(p1);
        assert(spec_split(toks1, opts, occs, poss) == spec_split(
            toks1.skip(1),
            opts,
            occs.push(p1),
            poss,
        ));
        assert(spec_split(toks1.skip(1), opts, occs.push(p1), poss) == spec_split(
            toks1.skip(2),
            opts,
            big_a,
            poss,
        ));
        assert(spec_split(toks2, opts, occs, poss) == spec_split(
            toks2.skip(1),
            opts,
            occs.push(p2),
            poss,
        ));
        assert(spec_split(toks2.skip(1), opts, occs.push(p2), poss) == spec_split(
            toks1.skip(2),
            opts,
            big_b,
            poss,
        ));
        lemma_split_occs_opaque(toks1.skip(2), opts, big_a, big_b, poss);
        match (spec_split(toks1, opts, occs, poss), spec_split(toks2, opts, occs, poss)) {
            (Ok(a), Ok(b)) => {
                let k = occs.len() as int;
                assert(a.0[k] == a.0.take(k + 2)[k]);
                assert(a.0[k + 1] == a.0.take(k + 2)[k + 1]);
                assert(b.0[k] == b.0.take(k + 2)[k]);
                assert(b.0[k + 1] == b.0.take(k + 2)[k + 1]);
                assert(a.0[k] == p1 && a.0[k + 1] == p2);
                assert(b.0[k] == p2 && b.0[k + 1] == p1);
                assert(b.0 =~= a.0.update(k, a.0[k + 1]).update(k + 1, a.0[k])) by {
                    assert forall|i: int|
                        0 <= i < b.0.len() implies b.0[i] == a.0.update(
                        k,
                        a.0[k + 1],
                    ).update(k + 1, a.0[k])[i] by {
                        if i < k {
                            assert(a.0[i] == a.0.take(k + 2)[i]);
                            assert(b.0[i] == b.0.take(k + 2)[i]);
                            assert(a.0.take(k + 2)[i] == big_a[i]);
                            assert(b.0.take(k + 2)[i] == big_b[i]);
                        } else if i > k + 1 {
                            assert(a.0[i] == a.0.skip(k + 2)[i - k - 2]);
                            assert(b.0[i] == b.0.skip(k + 2)[i - k - 2]);
                        }
                    }
                }
            },
            _ => {},
        }
    } else {
        assert(toks2[0] == toks1[0]);
        assert(toks2.len() == toks1.len());
        let t = toks1[0];
        assert(toks1.skip(1)[q - 1] == toks1[q]);
        assert(toks1.skip(1)[q] == toks1[q + 1]);
        assert(toks2.skip(1) =~= toks1.skip(1).update(q - 1, toks1.skip(1)[q]).update(
            q,
            toks1.skip(1)[q - 1],
        )) by {
            assert forall|i: int|
                0 <= i < toks2.len() - 1 implies toks2.skip(1)[i] == toks1.skip(1).update(
                q - 1,
                toks1.skip(1)[q],
            ).update(q, toks1.skip(1)[q - 1])[i] by {
                assert(toks2.skip(1)[i] == toks2[i + 1]);
            }
        }
        if !spec_is_option_token(t) {
            lemma_split_swap(
                toks1.skip(1),
                toks2.skip(1),
                q - 1,
                opts,
                occs,
                poss.push(t),
                n1,
                n2,
                j1,
                j2,
            );
        } else {
            let stripped = spec_strip_dashes(t);
            match first_index2(stripped, '=', '=') {
                Some(j) => {
                    if spec_find_opt(opts, stripped.take(j)) is Some {
                        lemma_split_swap(
                            toks1.skip(1),
                            toks2.skip(1),
                            q - 1,
                            opts,
                            occs.push((stripped.take(j), stripped.skip(j + 1))),
                            poss,
                            n1,
                            n2,
                            j1,
                            j2,
                        );
                    }
                },
                None => {
                    match spec_find_opt(opts, stripped) {
                        None => {},
                        Some(oi) => {
                            let next_is_option_1 = spec_is_option_token(toks1[1]);
                            let next_is_option_2 = spec_is_option_token(toks2[1]);
                            assert(next_is_option_1 == next_is_option_2) by {
                                if q == 1 {
                                    assert(toks1[1] == toks1[q] && toks2[1] == toks1[q + 1]);
                                }
                            }
                            if next_is_option_1 {
                                if opts[oi].kind() is Bool {
                                    lemma_split_swap(
                                        toks1.skip(1),
                                        toks2.skip(1),
                                        q - 1,
                                        opts,
                                        occs.push((stripped, "true"@)),
                                        poss,
                                        n1,
                                        n2,
                                        j1,
                                        j2,
                                    );
                                }
                            } else {
                                // Two tokens are consumed; the pair sits
                                // past them, since both its tokens are
                                // options and the consumed value is not.
                                assert(q != 1);
                                assert(toks2[1] == toks1[1]);
                                assert(toks1.skip(2)[q - 2] == toks1[q]);
                                assert(toks1.skip(2)[q - 1] == toks1[q + 1]);
                                assert(toks2.skip(2) =~= toks1.skip(2).update(
                                    q - 2,
                                    toks1.skip(2)[q - 1],
                                ).update(q - 1, toks1.skip(2)[q - 2])) by {
                                    assert forall|i: int|
                                        0 <= i < toks2.len() - 2 implies toks2.skip(2)[i]
                                        == toks1.skip(2).update(q - 2, toks1.skip(2)[q - 1]).update(
                                        q - 1,
                                        toks1.skip(2)[q - 2],
                                    )[i] by {
                                        assert(toks2.skip(2)[i] == toks2[i + 2]);
                                    }
                                }
                                lemma_split_swap(
                                    toks1.skip(2),
                                    toks2.skip(2),
                                    q - 2,
                                    opts,
                                    occs.push((stripped, toks1[1])),
                                    poss,
                                    n1,
                                    n2,
                                    j1,
                                    j2,
                                );
                            }
                        },
                    }
                },
            }
        }
    }
}

/// Tokens that are all positional split to themselves, in order, with
/// no occurrence.
proof fn lemma_split_all_positional(
    toks: Seq<Seq<char>>,
    opts: Seq<OptionDescriptorView>,
    occs: Seq<(Seq<char>, Seq<char>)>,
    poss: Seq<Seq<char>>,
)
    requires
        forall|i: int| 0 <= i < toks.len() ==> !spec_is_option_token(#[trigger] toks[i]),
    ensures
        spec_split(toks, opts, occs, poss) == Ok::<
            (Seq<(Seq<char>, Seq<char>)>, Seq<Seq<char>>),
            ErrorView,
        >((occs, poss + toks)),
    decreases toks.len(),
{
    if toks.len() == 0 {
        assert(poss + toks =~= poss);
    } else {
        let rest = toks.skip(1);
        assert forall|i: int|
            0 <= i < rest.len() implies !spec_is_option_token(#[trigger] rest[i]) by {
            assert(rest[i] == toks[i + 1]);
        }
        lemma_split_all_positional(rest, opts, occs, poss.push(toks[0]));
        assert(poss.push(toks[0]) + rest =~= poss + toks);
    }
}

/// One inline option token among otherwise positional tokens splits to
/// exactly that occurrence, the other tokens standing as positionals in
/// their order.
proof fn lemma_split_single_kv(
    toks: Seq<Seq<char>>,
    q: int,
    opts: Seq<OptionDescriptorView>,
    occs: Seq<(Seq<char>, Seq<char>)>,
    poss: Seq<Seq<char>>,
    name: Seq<char>,
    j: int,
)
    requires
        0 <= q < toks.len(),
        spec_is_option_token(toks[q]),
        first_index2(spec_strip_dashes(toks[q]), '=', '=') == Some(j),
        spec_strip_dashes(toks[q]).take(j) == name,
        spec_find_opt(opts, name) is Some,
        forall|i: int|
            0 <= i < toks.len() && i != q ==> !spec_is_option_token(#[trigger] toks[i]),
    ensures
        spec_split(toks, opts, occs, poss) == Ok::<
            (Seq<(Seq<char>, Seq<char>)>, Seq<Seq<char>>),
            ErrorView,
        >(
            (
                occs.push((name, spec_strip_dashes(toks[q]).skip(j + 1))),
                poss + toks.take(q) + toks.skip(q + 1),
            ),
        ),
    decreases toks.len(),
{
    let raw = spec_strip_dashes(toks[q]).skip(j + 1);
    if q == 0 {
        let rest = toks.skip(1);
        assert forall|i: int|
            0 <= i < rest.len() implies !spec_is_option_token(#[trigger] rest[i]) by {
            assert(rest[i] == toks[i + 1]);
        }
        lemma_split_all_positional(rest, opts, occs.push((name, raw)), poss);
        assert(toks.take(0) =~= Seq::<Seq<char>>::empty());
        assert(poss + toks.take(0) + toks.skip(1) =~= poss + rest);
    } else {
        let t = toks[0];
        assert(!spec_is_option_token(t));
        let rest = toks.skip(1);
        assert(rest[q - 1] == toks[q]);
        assert forall|i: int|
            0 <= i < rest.len() && i != q - 1 implies !spec_is_option_token(
            #[trigger] rest[i],
        ) by {
            assert(rest[i] == toks[i + 1]);
        }
        lemma_split_single_kv(rest, q - 1, opts, occs, poss.push(t), name, j);
        assert(rest.take(q - 1) =~= toks.take(q).skip(1));
        assert(poss.push(t) + rest.take(q - 1) + rest.skip(q) =~= poss + toks.take(q)
            + toks.skip(q + 1)) by {
            assert forall|i: int|
                0 <= i < poss.len() + q + (toks.len() - q - 1) implies #[trigger] (poss.push(t)
                + rest.take(q - 1) + rest.skip(q))[i] == (poss + toks.take(q) + toks.skip(
                q + 1,
            ))[i] by {
                if i < poss.len() {
                } else if i == poss.len() {
                    assert((poss + toks.take(q) + toks.skip(q + 1))[i] == toks.take(q)[0]);
                } else if i < poss.len() + q {
                    assert((poss.push(t) + rest.take(q - 1) + rest.skip(q))[i] == rest.take(
                        q - 1,
                    )[i - poss.len() - 1]);
                    assert((poss + toks.take(q) + toks.skip(q + 1))[i] == toks.take(q)[i
                        - poss.len()]);
                    assert(rest.take(q - 1)[i - poss.len() - 1] == toks[i - poss.len() + 1
                        - 1]);
                } else {
                    assert((poss.push(t) + rest.take(q - 1) + rest.skip(q))[i] == rest.skip(
                        q,
                    )[i - poss.len() - q]);
                    assert((poss + toks.take(q) + toks.skip(q + 1))[i] == toks.skip(q + 1)[i
                        - poss.len() - q]);
                    assert(rest.skip(q)[i - poss.len() - q] == toks[i - poss.len() + 1]);
                }
            }
        }
    }
}

/// One inline option occurrence among otherwise positional tokens: the
/// split keeps the other tokens as positionals in order, and where the
/// value converts, the final mapping holds it under the option's name.
/// In particular a boolean option given as `name=false` resolves to
/// false whatever well-formed positionals surround it.
pub proof fn lemma_kv_option_among_positionals(
    toks: Seq<Seq<char>>,
    q: int,
    opts: Seq<OptionDescriptorView>,
    name: Seq<char>,
    i: int,
    j: int,
)
    requires
        0 <= q < toks.len(),
        spec_is_option_token(toks[q]),
        first_index2(spec_strip_dashes(toks[q]), '=', '=') == Some(j),
        spec_strip_dashes(toks[q]).take(j) == name,
        spec_find_opt(opts, name) == Some(i),
        spec_parse_value(opts[i].kind(), spec_strip_dashes(toks[q]).skip(j + 1)) is Some,
        forall|k: int|
            0 <= k < toks.len() && k != q ==> !spec_is_option_token(#[trigger] toks[k]),
    ensures
        spec_split(toks, opts, Seq::empty(), Seq::empty()) == Ok::<
            (Seq<(Seq<char>, Seq<char>)>, Seq<Seq<char>>),
            ErrorView,
        >(
            (
                seq![(name, spec_strip_dashes(toks[q]).skip(j + 1))],
                toks.take(q) + toks.skip(q + 1),
            ),
        ),
        match spec_option_mapping(toks, opts) {
            Some(m) => m.contains_key(name) && m[name] == spec_parse_value(
                opts[i].kind(),
                spec_strip_dashes(toks[q]).skip(j + 1),
            )->0,
            None => false,
        },
{
    reveal_with_fuel(spec_convert, 3);
    let raw = spec_strip_dashes(toks[q]).skip(j + 1);
    let v = spec_parse_value(opts[i].kind(), raw)->0;
    lemma_split_single_kv(toks, q, opts, Seq::empty(), Seq::empty(), name, j);
    assert(Seq::<(Seq<char>, Seq<char>)>::empty().push((name, raw)) =~= seq![(name, raw)]);
    assert(Seq::<Seq<char>>::empty() + toks.take(q) + toks.skip(q + 1) =~= toks.take(q)
        + toks.skip(q + 1));
    let occs = seq![(name, raw)];
    assert(occs.skip(1) =~= Seq::<(Seq<char>, Seq<char>)>::empty());
    let m0 = Map::<Seq<char>, TypedValue>::empty().insert(name, v);
    assert(spec_convert(occs, opts, Map::empty()) == Ok::<
        Map<Seq<char>, TypedValue>,
        ErrorView,
    >(m0));
    lemma_add_defaults_preserves(m0, opts, name);
}

/// Converting occurrences that differ only by swapping two adjacent
/// entries of distinct names gives the same outcome and the same map.
proof fn lemma_convert_swap(
    a: Seq<(Seq<char>, Seq<char>)>,
    b: Seq<(Seq<char>, Seq<char>)>,
    k: int,
    opts: Seq<OptionDescriptorView>,
    acc: Map<Seq<char>, TypedValue>,
)
    requires
        0 <= k,
        k + 1 < a.len(),
        a[k].0 != a[k + 1].0,
        b == a.update(k, a[k + 1]).update(k + 1, a[k]),
    ensures
        match (spec_convert(a, opts, acc), spec_convert(b, opts, acc)) {
            (Ok(ma), Ok(mb)) => ma == mb,
            (Err(_), Err(_)) => true,
            _ => false,
        },
    decreases k,
{
    reveal_with_fuel(spec_convert, 4);
    if k == 0 {
        let x = a[0];
        let y = a[1];
        assert(b[0] == y && b[1] == x);
        assert(a.skip(1)[0] == y);
        assert(b.skip(1)[0] == x);
        assert(a.skip(1).skip(1) =~= a.skip(2));
        assert(b.skip(1).skip(1) =~= b.skip(2));
        assert(b.skip(2) =~= a.skip(2));
        match (spec_find_opt(opts, x.0), spec_find_opt(opts, y.0)) {
            (Some(xi), Some(yi)) => {
                match (
                    spec_parse_value(opts[xi].kind(), x.1),
                    spec_parse_value(opts[yi].kind(), y.1),
                ) {
                    (Some(vx), Some(vy)) => {
                        let acc_a = acc.insert(x.0, vx).insert(y.0, vy);
                        let acc_b = acc.insert(y.0, vy).insert(x.0, vx);
                        assert(acc_a =~= acc_b);
                        assert(spec_convert(a, opts, acc) == spec_convert(
                            a.skip(2),
                            opts,
                            acc_a,
                        ));
                        assert(spec_convert(b, opts, acc) == spec_convert(
                            a.skip(2),
                            opts,
                            acc_b,
                        ));
                    },
                    _ => {},
                }
            },
            _ => {},
        }
    } else {
        assert(b[0] == a[0]);
        assert(a.skip(1)[k - 1] == a[k]);
        assert(a.skip(1)[k] == a[k + 1]);
        assert(b.skip(1) =~= a.skip(1).update(k - 1, a.skip(1)[k]).update(
            k,
            a.skip(1)[k - 1],
        )) by {
            assert forall|i: int|
                0 <= i < b.len() - 1 implies b.skip(1)[i] == a.skip(1).update(
                k - 1,
                a.skip(1)[k],
            ).update(k, a.skip(1)[k - 1])[i] by {
                assert(b.skip(1)[i] == b[i + 1]);
            }
        }
        match spec_find_opt(opts, a[0].0) {
            None => {},
            Some(hi) => {
                match spec_parse_value(opts[hi].kind(), a[0].1) {
                    None => {},
                    Some(v) => {
                        lemma_convert_swap(
                            a.skip(1),
                            b.skip(1),
                            k - 1,
                            opts,
                            acc.insert(a[0].0, v),
                        );
                    },
                }
            },
        }
    }
}

/// Option resolution is order-independent in general: swapping two
/// adjacent inline option tokens of distinct visible names, wherever
/// they stand among other tokens, leaves the split outcome, the
/// positional tokens and the final option mapping unchanged.
pub proof fn lemma_order_independent_in_context(
    toks1: Seq<Seq<char>>,
    toks2: Seq<Seq<char>>,
    q: int,
    opts: Seq<OptionDescriptorView>,
    n1: Seq<char>,
    n2: Seq<char>,
    j1: int,
    j2: int,
)
    requires
        0 <= q,
        q + 1 < toks1.len(),
        toks2 == toks1.update(q, toks1[q + 1]).update(q + 1, toks1[q]),
        spec_is_option_token(toks1[q]),
        first_index2(spec_strip_dashes(toks1[q]), '=', '=') == Some(j1),
        spec_strip_dashes(toks1[q]).take(j1) == n1,
        spec_is_option_token(toks1[q + 1]),
        first_index2(spec_strip_dashes(toks1[q + 1]), '=', '=') == Some(j2),
        spec_strip_dashes(toks1[q + 1]).take(j2) == n2,
        n1 != n2,
        spec_find_opt(opts, n1) is Some,
        spec_find_opt(opts, n2) is Some,
    ensures
        spec_split(toks1, opts, Seq::empty(), Seq::empty()) is Ok <==> spec_split(
            toks2,
            opts,
            Seq::empty(),
            Seq::empty(),
        ) is Ok,
        match (
            spec_split(toks1, opts, Seq::empty(), Seq::empty()),
            spec_split(toks2, opts, Seq::empty(), Seq::empty()),
        ) {
            (Ok(a), Ok(b)) => a.1 == b.1,
            _ => true,
        },
        spec_option_mapping(toks1, opts) == spec_option_mapping(toks2, opts),
{
    lemma_split_swap(toks1, toks2, q, opts, Seq::empty(), Seq::empty(), n1, n2, j1, j2);
    match (
        spec_split(toks1, opts, Seq::empty(), Seq::empty()),
        spec_split(toks2, opts, Seq::empty(), Seq::empty()),
    ) {
        (Ok(a), Ok(b)) => {
            let k = choose|k: int|
                0 <= k && k + 1 < a.0.len() && (#[trigger] a.0[k]).0 != a.0[k + 1].0 && b.0
                    == a.0.update(k, a.0[k + 1]).update(k + 1, a.0[k]);
            lemma_convert_swap(a.0, b.0, k, opts, Map::empty());
        },
        _ => {},
    }
}

/// The inline `name=value` form and the space-separated `name value`
/// form of the same option and value are equivalent: they split into
/// the same single occurrence, and resolve to the same final mapping.
pub proof fn lemma_value_forms_equivalent(
    t_inline: Seq<char>,
    t_name: Seq<char>,
    value: Seq<char>,
    opts: Seq<OptionDescriptorView>,
    name: Seq<char>,
    i: int,
    j: int,
)
    requires
        spec_is_option_token(t_inline),
        first_index2(spec_strip_dashes(t_inline), '=', '=') == Some(j),
        spec_strip_dashes(t_inline).take(j) == name,
        spec_strip_dashes(t_inline).skip(j + 1) == value,
        spec_is_option_token(t_name),
        spec_strip_dashes(t_name) == name,
        first_index2(name, '=', '=') is None,
        !spec_is_option_token(value),
        spec_find_opt(opts, name) == Some(i),
    ensures
        spec_split(seq![t_inline], opts, Seq::empty(), Seq::empty()) == spec_split(
            seq![t_name, value],
            opts,
            Seq::empty(),
            Seq::empty(),
        ),
        spec_option_mapping(seq![t_inline], opts) == spec_option_mapping(
            seq![t_name, value],
            opts,
        ),
{
    reveal_with_fuel(spec_split, 4);
    reveal_with_fuel(spec_convert, 4);
    let toks1 = seq![t_inline];
    let toks2 = seq![t_name, value];
    assert(toks1.skip(1) =~= Seq::<Seq<char>>::empty());
    assert(toks2.skip(2) =~= Seq::<Seq<char>>::empty());
    let occs = Seq::<(Seq<char>, Seq<char>)>::empty().push((name, value));
    assert(spec_split(toks1, opts, Seq::empty(), Seq::empty()) == Ok::<
        (Seq<(Seq<char>, Seq<char>)>, Seq<Seq<char>>),
        ErrorView,
    >((occs, Seq::empty())));
    assert(spec_split(toks2, opts, Seq::empty(), Seq::empty()) == Ok::<
        (Seq<(Seq<char>, Seq<char>)>, Seq<Seq<char>>),
        ErrorView,
    >((occs, Seq::empty())));
}

/// Resolution only moves the cut forward, never past the end.
proof fn lemma_resolve_pos_bounds<C>(
    g: Group<C>,
    args: Seq<Seq<char>>,
    pos: int,
    acc: Seq<OptionDescriptorView>,
)
    requires
        0 <= pos <= args.len(),
    ensures
        match spec_resolve(g, args, pos, acc) {
            Ok(t) => pos <= t.2 <= args.len(),
            Err(_) => true,
        },
    decreases args.len() - pos,
{
    if pos < args.len() {
        match find_child(g.children@, args[pos]) {
            None => {},
            Some(ci) => {
                match spec_merge(acc, owned_opts_views(g.children@[ci].group.options@)) {
                    Err(_) => {},
                    Ok(acc2) => {
                        lemma_resolve_pos_bounds(g.children@[ci].group, args, pos + 1, acc2);
                    },
                }
            },
        }
    }
}

/// The name of the implicit help option holds no key-value separator.
proof fn lemma_help_name_plain()
    ensures
        first_index2("help"@, '=', '=') is None,
{
    reveal_strlit("help");
    lemma_first_index2("help"@, '=', '=');
    match first_index2("help"@, '=', '=') {
        None => {},
        Some(k) => {
            assert("help"@[k] == '=');
        },
    }
}

/// Whether a token spells the help flag with the value true: the bare
/// form, or the inline `help=true` form.
pub open spec fn spec_is_help_true_token(t: Seq<char>) -> bool {
    &&& spec_is_option_token(t)
    &&& {
        let stripped = spec_strip_dashes(t);
        match first_index2(stripped, '=', '=') {
            None => stripped == "help"@,
            Some(j) => stripped.take(j) == "help"@ && stripped.skip(j + 1) == "true"@,
        }
    }
}

/// A trailing help-true flag survives splitting as the last occurrence,
/// carrying the value `true`, whatever stands before it: an option
/// token is never consumed as another option's value.
proof fn lemma_split_trailing_help_true(
    toks: Seq<Seq<char>>,
    opts: Seq<OptionDescriptorView>,
    occs: Seq<(Seq<char>, Seq<char>)>,
    poss: Seq<Seq<char>>,
    i: int,
)
    requires
        toks.len() >= 1,
        spec_is_help_true_token(toks.last()),
        spec_find_opt(opts, "help"@) == Some(i),
        opts[i].kind() == ArgType::Bool,
    ensures
        match spec_split(toks, opts, occs, poss) {
            Ok(sp) => sp.0.len() >= 1 && sp.0.last() == ("help"@, "true"@),
            Err(_) => true,
        },
    decreases toks.len(),
{
    reveal_with_fuel(spec_split, 3);
    lemma_help_name_plain();
    let t = toks[0];
    if toks.len() == 1 {
        assert(toks.last() == t);
        assert(toks.skip(1) =~= Seq::<Seq<char>>::empty());
        match first_index2(spec_strip_dashes(t), '=', '=') {
            None => {
                assert(occs.push(("help"@, "true"@)).last() == ("help"@, "true"@));
            },
            Some(j) => {
                assert(spec_strip_dashes(t).take(j) == "help"@);
                assert(occs.push(("help"@, "true"@)).last() == ("help"@, "true"@));
            },
        }
    } else {
        assert(toks.skip(1).last() == toks.last());
        assert(toks.skip(1).len() >= 1);
        if !spec_is_option_token(t) {
            lemma_split_trailing_help_true(toks.skip(1), opts, occs, poss.push(t), i);
        } else {
            let stripped = spec_strip_dashes(t);
            match first_index2(stripped, '=', '=') {
                Some(j) => {
                    if spec_find_opt(opts, stripped.take(j)) is Some {
                        lemma_split_trailing_help_true(
                            toks.skip(1),
                            opts,
                            occs.push((stripped.take(j), stripped.skip(j + 1))),
                            poss,
                            i,
                        );
                    }
                },
                None => {
                    match spec_find_opt(opts, stripped) {
                        None => {},
                        Some(oi) => {
                            if spec_is_option_token(toks[1]) {
                                if opts[oi].kind() is Bool {
                                    lemma_split_trailing_help_true(
                                        toks.skip(1),
                                        opts,
                                        occs.push((stripped, "true"@)),
                                        poss,
                                        i,
                                    );
                                }
                            } else {
                                // The next token is no option, so it is
                                // consumed as this option's value; the
                                // trailing help flag is an option, so
                                // at least one token follows the pair.
                                assert(toks.len() != 2) by {
                                    if toks.len() == 2 {
                                        assert(toks[1] == toks.last());
                                    }
                                }
                                assert(toks.skip(2).last() == toks.last());
                                assert(toks.skip(2).len() >= 1);
                                lemma_split_trailing_help_true(
                                    toks.skip(2),
                                    opts,
                                    occs.push((stripped, toks[1])),
                                    poss,
                                    i,
                                );
                            }
                        },
                    }
                },
            }
        }
    }
}

/// The last occurrence of a name decides its converted value.
proof fn lemma_convert_last(
    occs: Seq<(Seq<char>, Seq<char>)>,
    opts: Seq<OptionDescriptorView>,
    acc: Map<Seq<char>, TypedValue>,
    i: int,
)
    requires
        occs.len() >= 1,
        spec_find_opt(opts, occs.last().0) == Some(i),
        spec_parse_value(opts[i].kind(), occs.last().1) is Some,
    ensures
        match spec_convert(occs, opts, acc) {
            Ok(m) => m.contains_key(occs.last().0) && m[occs.last().0] == spec_parse_value(
                opts[i].kind(),
                occs.last().1,
            )->0,
            Err(_) => true,
        },
    decreases occs.len(),
{
    reveal_with_fuel(spec_convert, 3);
    if occs.len() == 1 {
        assert(occs[0] == occs.last());
        assert(occs.skip(1) =~= Seq::<(Seq<char>, Seq<char>)>::empty());
    } else {
        assert(occs.skip(1).last() == occs.last());
        match spec_find_opt(opts, occs[0].0) {
            None => {},
            Some(hi) => {
                match spec_parse_value(opts[hi].kind(), occs[0].1) {
                    None => {},
                    Some(v) => {
                        lemma_convert_last(occs.skip(1), opts, acc.insert(occs[0].0, v), i);
                    },
                }
            },
        }
    }
}

/// A help flag as the last token — bare or as `help=true` — forces the
/// help listing: where the resolution cut leaves that token to option
/// parsing, the visible `help` option is the boolean one, and the
/// option phase succeeds, the parse settles to the help listing —
/// whatever positional tokens were supplied and whether or not they
/// are well-formed.
pub proof fn lemma_trailing_help_flag_shows_help<C>(g: Group<C>, args: Seq<Seq<char>>)
    requires
        args.len() >= 2,
        spec_is_help_true_token(args.last()),
        ({
            match spec_resolve(
                g,
                args,
                1,
                spec_seed(owned_opts_views(g.options@), spec_help_descriptor()),
            ) {
                Err(_) => false,
                Ok(t) => {
                    &&& t.2 < args.len()
                    &&& match spec_find_opt(t.1, "help"@) {
                        Some(i) => t.1[i].kind() == ArgType::Bool,
                        None => false,
                    }
                    &&& match spec_split(args.skip(t.2), t.1, Seq::empty(), Seq::empty()) {
                        Ok(sp) => spec_convert(sp.0, t.1, Map::empty()) is Ok,
                        Err(_) => false,
                    }
                },
            }
        }),
    ensures
        spec_parse_outcome(g, args) == Ok::<SpecOutcome, ErrorView>(SpecOutcome::Help),
{
    let seed = spec_seed(owned_opts_views(g.options@), spec_help_descriptor());
    lemma_resolve_pos_bounds(g, args, 1, seed);
    match spec_resolve(g, args, 1, seed) {
        Err(_) => {},
        Ok(t) => {
            let rem = args.skip(t.2);
            assert(rem.len() >= 1);
            assert(rem.last() == args[args.len() - 1]);
            assert(rem.last() == args.last());
            match spec_find_opt(t.1, "help"@) {
                None => {},
                Some(i) => {
                    lemma_split_trailing_help_true(rem, t.1, Seq::empty(), Seq::empty(), i);
                    match spec_split(rem, t.1, Seq::empty(), Seq::empty()) {
                        Err(_) => {},
                        Ok(sp) => {
                            assert(sp.0.last() == ("help"@, "true"@));
                            assert(spec_parse_value(t.1[i].kind(), "true"@) == Some(
                                TypedValue::Bool { value: true },
                            ));
                            lemma_convert_last(sp.0, t.1, Map::empty(), i);
                            match spec_convert(sp.0, t.1, Map::empty()) {
                                Err(_) => {},
                                Ok(m0) => {
                                    lemma_add_defaults_preserves(m0, t.1, "help"@);
                                },
                            }
                        },
                    }
                },
            }
        },
    }
}

/// The help short-circuit: whenever the resolved option mapping holds
/// `help` as the boolean true, the parse settles to the help listing,
/// whatever positional tokens were supplied and whether or not they
/// are well-formed; the consumer is not invoked.
pub proof fn lemma_help_short_circuit<C>(g: Group<C>, args: Seq<Seq<char>>)
    requires
        ({
            match spec_resolve(
                g,
                args,
                1,
                spec_seed(owned_opts_views(g.options@), spec_help_descriptor()),
            ) {
                Err(_) => false,
                Ok(t) => match spec_option_mapping(args.skip(t.2), t.1) {
                    None => false,
                    Some(m) => m.contains_key("help"@) && m["help"@] == (TypedValue::Bool {
                        value: true,
                    }),
                },
            }
        }),
    ensures
        spec_parse_outcome(g, args) == Ok::<SpecOutcome, ErrorView>(SpecOutcome::Help),
{
}

} // verus!
