//! The help listings: the resolved context's subcommands, options and
//! positional arguments, each listing sorted by name, with an explicit
//! marker where a listing is empty.  A printer decides the layout; the
//! default printer collects the rendered lines for the caller to emit.

use vstd::prelude::*;
use vstd::string::*;
use crate::arg::ArgDescriptor;
use crate::arg::ArgDescriptorView;
use crate::group::ChildEntry;
use crate::group::Group;
use crate::group::find_child_by_name;
use crate::option::OptionDescriptor;
use crate::value::dec_text;
use crate::value::usize_to_text;
use crate::text::lemma_lex_le_total;
use crate::text::lemma_lex_le_trans;
use crate::text::lex_le;
use crate::text::str_lex_le;

verus! {

/// Entry in the help documentation.
pub struct HelpEntry<K, V> {
    pub key: K,
    pub value: V,
}

/// Whether help entries are in lexicographic key order.
pub open spec fn sorted_entries<V>(s: Seq<HelpEntry<&String, V>>) -> bool {
    forall|i: int, j: int| 0 <= i < j < s.len() ==> lex_le(s[i].key@, s[j].key@)
}

/// Help formatter to use when rendering the help documentation.
pub trait HelpPrinter<C> {
    /// Render the help documentation for the resolved group from its
    /// sorted subcommand and option listings and its argument
    /// descriptors.
    fn print(
        &mut self,
        group: &Group<C>,
        subcommand_entries: &Vec<HelpEntry<&String, &Group<C>>>,
        option_entries: &Vec<HelpEntry<&String, &OptionDescriptor>>,
        arg_entries: &Vec<ArgDescriptor>,
    );
}

/// Insert an entry into a sorted entry list, keeping it sorted.
#[verifier::loop_isolation(false)]
fn insert_sorted<'a, V>(
    entries: &mut Vec<HelpEntry<&'a String, V>>,
    entry: HelpEntry<&'a String, V>,
)
    requires
        sorted_entries(old(entries)@),
    ensures
        sorted_entries(final(entries)@),
        exists|k: int|
            0 <= k <= old(entries)@.len() && final(entries)@ == old(entries)@.insert(k, entry),
{
    let n = entries.len();
    let mut pos: usize = 0;
    while pos < n && str_lex_le(entries[pos].key.as_str(), entry.key.as_str())
        invariant
            0 <= pos <= n,
            entries@ == old(entries)@,
            forall|j: int| 0 <= j < pos ==> lex_le(entries@[j].key@, entry.key@),
        decreases n - pos,
    {
        pos = pos + 1;
    }
    proof {
        if (pos as int) < n {
            lemma_lex_le_total(entries@[pos as int].key@, entry.key@);
        }
    }
    let ghost before = entries@;
    let ghost p = pos as int;
    entries.insert(pos, entry);
    proof {
        assert forall|i: int, j: int|
            0 <= i < j < entries@.len() implies lex_le(entries@[i].key@, entries@[j].key@) by {
            if i < p && j < p {
                assert(entries@[i] == before[i]);
                assert(entries@[j] == before[j]);
            } else if i < p && j == p {
                assert(entries@[i] == before[i]);
            } else if i < p && j > p {
                assert(entries@[i] == before[i]);
                assert(entries@[j] == before[j - 1]);
            } else if i == p && j > p {
                assert(entries@[j] == before[j - 1]);
                if p < j - 1 {
                    lemma_lex_le_trans(entry.key@, before[p].key@, before[j - 1].key@);
                }
            } else {
                assert(entries@[i] == before[i - 1]);
                assert(entries@[j] == before[j - 1]);
            }
        }
    }
}

/// Whether a help entry lists a given child.
pub open spec fn entry_matches_child<C>(e: HelpEntry<&String, &Group<C>>, c: ChildEntry<C>) -> bool {
    e.key@ == c.name@ && *e.value == c.group
}

/// Whether a help entry lists a given option descriptor.
pub open spec fn entry_matches_option(
    e: HelpEntry<&String, &OptionDescriptor>,
    d: &OptionDescriptor,
) -> bool {
    e.key@ == d@.name && e.value == d
}

/// Whether a help entry lists one of the given children.
pub open spec fn listed_in_children<C>(
    e: HelpEntry<&String, &Group<C>>,
    children: Seq<ChildEntry<C>>,
) -> bool {
    exists|j: int| 0 <= j < children.len() && entry_matches_child(e, #[trigger] children[j])
}

/// Whether a child is listed by one of the given help entries.
pub open spec fn child_is_listed<C>(
    c: ChildEntry<C>,
    entries: Seq<HelpEntry<&String, &Group<C>>>,
) -> bool {
    exists|i: int| 0 <= i < entries.len() && entry_matches_child(#[trigger] entries[i], c)
}

/// Whether a help entry lists one of the given option descriptors.
pub open spec fn listed_in_options(
    e: HelpEntry<&String, &OptionDescriptor>,
    opts: Seq<&OptionDescriptor>,
) -> bool {
    exists|j: int| 0 <= j < opts.len() && entry_matches_option(e, #[trigger] opts[j])
}

/// Whether an option descriptor is listed by one of the given entries.
pub open spec fn option_is_listed(
    d: &OptionDescriptor,
    entries: Seq<HelpEntry<&String, &OptionDescriptor>>,
) -> bool {
    exists|i: int| 0 <= i < entries.len() && entry_matches_option(#[trigger] entries[i], d)
}

/// Collect the resolved group's children as help entries, sorted by
/// name.  Every child appears once and everything listed is a child.
#[verifier::loop_isolation(false)]
pub fn collect_subcommand_entries<'a, C>(group: &'a Group<C>) -> (r: Vec<
    HelpEntry<&'a String, &'a Group<C>>,
>)
    ensures
        sorted_entries(r@),
        r@.len() == group.children@.len(),
        forall|i: int|
            0 <= i < r@.len() ==> listed_in_children(#[trigger] r@[i], group.children@),
        forall|j: int|
            0 <= j < group.children@.len() ==> child_is_listed(
                #[trigger] group.children@[j],
                r@,
            ),
{
    let mut entries: Vec<HelpEntry<&String, &Group<C>>> = Vec::new();
    let n = group.children.len();
    let mut i: usize = 0;
    while i < n
        invariant
            0 <= i <= n,
            sorted_entries(entries@),
            entries@.len() == i,
            forall|k: int|
                0 <= k < entries@.len() ==> listed_in_children(
                    #[trigger] entries@[k],
                    group.children@.take(i as int),
                ),
            forall|j: int|
                0 <= j < i ==> child_is_listed(#[trigger] group.children@[j], entries@),
        decreases n - i,
    {
        let child = &group.children[i];
        let ghost before = entries@;
        insert_sorted(&mut entries, HelpEntry { key: &child.name, value: &child.group });
        i = i + 1;
        proof {
            let ghost taken = group.children@.take(i as int);
            let k = choose|k: int|
                0 <= k <= before.len() && entries@ == before.insert(
                    k,
                    HelpEntry { key: &child.name, value: &child.group },
                );
            assert(taken[i - 1] == group.children@[i - 1]);
            assert(entry_matches_child(entries@[k], taken[i - 1]));
            assert forall|m: int|
                0 <= m < entries@.len() implies listed_in_children(
                #[trigger] entries@[m],
                taken,
            ) by {
                if m < k {
                    assert(entries@[m] == before[m]);
                    let j0 = choose|j0: int|
                        0 <= j0 < group.children@.take(i - 1).len() && entry_matches_child(
                            before[m],
                            #[trigger] group.children@.take(i - 1)[j0],
                        );
                    assert(taken[j0] == group.children@.take(i - 1)[j0]);
                } else if m > k {
                    assert(entries@[m] == before[m - 1]);
                    let j0 = choose|j0: int|
                        0 <= j0 < group.children@.take(i - 1).len() && entry_matches_child(
                            before[m - 1],
                            #[trigger] group.children@.take(i - 1)[j0],
                        );
                    assert(taken[j0] == group.children@.take(i - 1)[j0]);
                }
            }
            assert forall|j: int|
                0 <= j < i implies child_is_listed(#[trigger] group.children@[j], entries@) by {
                if j < i - 1 {
                    let m0 = choose|m0: int|
                        0 <= m0 < before.len() && entry_matches_child(
                            #[trigger] before[m0],
                            group.children@[j],
                        );
                    if m0 < k {
                        assert(entries@[m0] == before[m0]);
                    } else {
                        assert(entries@[m0 + 1] == before[m0]);
                    }
                }
            }
        }
    }
    proof {
        assert(group.children@.take(n as int) =~= group.children@);
    }
    entries
}

/// Collect the anticipated options as help entries, sorted by name.
/// Every visible option appears once and everything listed is visible.
#[verifier::loop_isolation(false)]
pub fn collect_option_entries<'a>(option_descriptors: &Vec<&'a OptionDescriptor>) -> (r: Vec<
    HelpEntry<&'a String, &'a OptionDescriptor>,
>)
    ensures
        sorted_entries(r@),
        r@.len() == option_descriptors@.len(),
        forall|i: int|
            0 <= i < r@.len() ==> listed_in_options(#[trigger] r@[i], option_descriptors@),
        forall|j: int|
            0 <= j < option_descriptors@.len() ==> option_is_listed(
                #[trigger] option_descriptors@[j],
                r@,
            ),
{
    let mut entries: Vec<HelpEntry<&String, &OptionDescriptor>> = Vec::new();
    let n = option_descriptors.len();
    let mut i: usize = 0;
    while i < n
        invariant
            0 <= i <= n,
            sorted_entries(entries@),
            entries@.len() == i,
            forall|k: int|
                0 <= k < entries@.len() ==> listed_in_options(
                    #[trigger] entries@[k],
                    option_descriptors@.take(i as int),
                ),
            forall|j: int|
                0 <= j < i ==> option_is_listed(#[trigger] option_descriptors@[j], entries@),
        decreases n - i,
    {
        let d: &OptionDescriptor = option_descriptors[i];
        let dname = d.name();
        let ghost before = entries@;
        insert_sorted(&mut entries, HelpEntry { key: dname, value: d });
        i = i + 1;
        proof {
            let ghost taken = option_descriptors@.take(i as int);
            let k = choose|k: int|
                0 <= k <= before.len() && entries@ == before.insert(
                    k,
                    HelpEntry { key: dname, value: d },
                );
            assert(taken[i - 1] == option_descriptors@[i - 1]);
            assert(entry_matches_option(entries@[k], taken[i - 1]));
            assert forall|m: int|
                0 <= m < entries@.len() implies listed_in_options(
                #[trigger] entries@[m],
                taken,
            ) by {
                if m < k {
                    assert(entries@[m] == before[m]);
                    let j0 = choose|j0: int|
                        0 <= j0 < option_descriptors@.take(i - 1).len() && entry_matches_option(
                            before[m],
                            #[trigger] option_descriptors@.take(i - 1)[j0],
                        );
                    assert(taken[j0] == option_descriptors@.take(i - 1)[j0]);
                } else if m > k {
                    assert(entries@[m] == before[m - 1]);
                    let j0 = choose|j0: int|
                        0 <= j0 < option_descriptors@.take(i - 1).len() && entry_matches_option(
                            before[m - 1],
                            #[trigger] option_descriptors@.take(i - 1)[j0],
                        );
                    assert(taken[j0] == option_descriptors@.take(i - 1)[j0]);
                }
            }
            assert forall|j: int|
                0 <= j < i implies option_is_listed(
                #[trigger] option_descriptors@[j],
                entries@,
            ) by {
                if j < i - 1 {
                    let m0 = choose|m0: int|
                        0 <= m0 < before.len() && entry_matches_option(
                            #[trigger] before[m0],
                            option_descriptors@[j],
                        );
                    if m0 < k {
                        assert(entries@[m0] == before[m0]);
                    } else {
                        assert(entries@[m0 + 1] == before[m0]);
                    }
                }
            }
        }
    }
    proof {
        assert(option_descriptors@.take(n as int) =~= option_descriptors@);
    }
    entries
}

/// The aliases a group has recorded for a child name; empty where the
/// name names no child.
pub open spec fn spec_child_aliases<C>(children: Seq<ChildEntry<C>>, name: Seq<char>) -> Seq<
    Seq<char>,
> {
    match find_child_by_name(children, name) {
        None => Seq::empty(),
        Some(i) => children[i].aliases.deep_view(),
    }
}

/// Joining texts: a separator between any two, a prefix before each.
pub open spec fn spec_join(
    parts: Seq<Seq<char>>,
    separator: Seq<char>,
    prefix: Seq<char>,
) -> Seq<char>
    decreases parts.len(),
{
    if parts.len() == 0 {
        Seq::empty()
    } else if parts.len() == 1 {
        prefix + parts[0]
    } else {
        spec_join(parts.drop_last(), separator, prefix) + separator + prefix + parts.last()
    }
}

/// The line the default printer renders for one subcommand entry: its
/// name, its recorded aliases where there are any, its description.
pub open spec fn spec_subcommand_line<C>(g: Group<C>, e: HelpEntry<&String, &Group<C>>) -> Seq<
    char,
> {
    let aliases = spec_child_aliases(g.children@, e.key@);
    let alias_part = if aliases.len() > 0 {
        " ("@ + spec_join(aliases, ", "@, ""@) + ")"@
    } else {
        Seq::<char>::empty()
    };
    "  - "@ + e.key@ + alias_part + " | "@ + e.value.description@
}

/// The line the default printer renders for one option entry: its
/// prefixed name, its aliases where there are any, its type tag in
/// angle brackets, its description.
pub open spec fn spec_option_line(e: HelpEntry<&String, &OptionDescriptor>) -> Seq<char> {
    let d = e.value@;
    let alias_part = if d.aliases.len() > 0 {
        " ("@ + spec_join(d.aliases, ", "@, "-"@) + ")"@
    } else {
        Seq::<char>::empty()
    };
    "  --"@ + e.key@ + alias_part + " <"@ + d.kind().spec_tag() + ">"@ + " | "@ + d.description
}

/// The line the default printer renders for one positional argument:
/// its 1-based position, its type tag in angle brackets, its
/// description.
pub open spec fn spec_argument_line(position: int, d: ArgDescriptorView) -> Seq<char> {
    "  "@ + dec_text(position) + ". <"@ + d.kind.spec_tag() + ">"@ + " | "@ + d.description
}

/// The subcommand lines, in the order of the given entries.
pub open spec fn spec_subcommand_lines<C>(
    g: Group<C>,
    subs: Seq<HelpEntry<&String, &Group<C>>>,
) -> Seq<Seq<char>> {
    Seq::new(subs.len(), |i: int| spec_subcommand_line(g, subs[i]))
}

/// The option lines, in the order of the given entries.
pub open spec fn spec_option_lines(opts: Seq<HelpEntry<&String, &OptionDescriptor>>) -> Seq<
    Seq<char>,
> {
    Seq::new(opts.len(), |i: int| spec_option_line(opts[i]))
}

/// The argument lines, 1-based, in binding order.
pub open spec fn spec_argument_lines(args: Seq<ArgDescriptor>) -> Seq<Seq<char>> {
    Seq::new(args.len(), |i: int| spec_argument_line(i + 1, args[i]@))
}

/// Everything the default printer renders: the description, then the
/// three listings in the order given, each empty listing replaced by
/// an explicit marker line.
pub open spec fn spec_help_lines<C>(
    g: Group<C>,
    subs: Seq<HelpEntry<&String, &Group<C>>>,
    opts: Seq<HelpEntry<&String, &OptionDescriptor>>,
    args: Seq<ArgDescriptor>,
) -> Seq<Seq<char>> {
    seq!["### DESCRIPTION ###"@, g.description@, "### SUB-COMMANDS ###"@] + (if subs.len() == 0 {
        seq!["(No sub-commands available...)"@]
    } else {
        spec_subcommand_lines(g, subs)
    }) + seq!["### OPTIONS ###"@] + (if opts.len() == 0 {
        seq!["(No options available...)"@]
    } else {
        spec_option_lines(opts)
    }) + seq!["### ARGUMENTS ###"@] + (if args.len() == 0 {
        seq!["(Command expects no arguments...)"@]
    } else {
        spec_argument_lines(args)
    })
}

/// Join strings with a separator between any two and a prefix before
/// each.
#[verifier::loop_isolation(false)]
fn join_strs(parts: &Vec<String>, separator: &str, prefix: &str) -> (r: String)
    ensures
        r@ == spec_join(parts.deep_view(), separator@, prefix@),
{
    let ghost pv = parts.deep_view();
    let mut s = String::new();
    let n = parts.len();
    let mut i: usize = 0;
    proof {
        assert(s@ =~= spec_join(pv.take(0), separator@, prefix@));
    }
    while i < n
        invariant
            0 <= i <= n,
            s@ == spec_join(pv.take(i as int), separator@, prefix@),
        decreases n - i,
    {
        if i > 0 {
            s.append(separator);
        }
        s.append(prefix);
        s.append(parts[i].as_str());
        i = i + 1;
        proof {
            let t = pv.take(i as int);
            assert(t.last() == pv[i - 1]);
            assert(pv[i - 1] == parts@[i - 1].deep_view());
            if i > 1 {
                assert(t.drop_last() =~= pv.take(i - 1));
                assert(s@ =~= spec_join(t, separator@, prefix@));
            } else {
                assert(s@ =~= prefix@ + t[0]);
            }
        }
    }
    proof {
        assert(pv.take(n as int) =~= pv);
    }
    s
}

/// Append one rendered line.
fn push_line(lines: &mut Vec<String>, line: String)
    ensures
        final(lines).deep_view() == old(lines).deep_view().push(line@),
{
    let ghost before = lines.deep_view();
    let ghost lv = line@;
    lines.push(line);
    proof {
        assert forall|j: int|
            0 <= j < lines.deep_view().len() implies lines.deep_view()[j] == before.push(lv)[j] by {
            assert(lines.deep_view()[j] == lines@[j].deep_view());
            if j < before.len() {
                assert(lines@[j] == old(lines)@[j]);
            }
        }
        assert(lines.deep_view() =~= before.push(lv));
    }
}

/// The default help printer: it renders each listing into a line buffer
/// that the caller reads back and emits.  The layout is plain: one line
/// per entry, an explicit marker for an empty listing.
pub struct DefaultHelpPrinter {
    lines: Vec<String>,
}

impl DefaultHelpPrinter {
    /// The rendered lines, at the specification level.
    pub closed spec fn spec_lines(&self) -> Seq<Seq<char>> {
        self.lines.deep_view()
    }

    /// Create a printer with an empty line buffer.
    pub fn new() -> (r: Self)
        ensures
            r.spec_lines().len() == 0,
    {
        DefaultHelpPrinter { lines: Vec::new() }
    }

    /// The rendered lines.
    pub fn lines(&self) -> (r: &Vec<String>)
        ensures
            r.deep_view() == self.spec_lines(),
    {
        &self.lines
    }
}

impl<C> HelpPrinter<C> for DefaultHelpPrinter {
    /// Render the full content contract into the line buffer: the
    /// description, then the three listings in the passed order, each
    /// empty one replaced by an explicit marker.
    #[verifier::loop_isolation(false)]
    fn print(
        &mut self,
        group: &Group<C>,
        subcommand_entries: &Vec<HelpEntry<&String, &Group<C>>>,
        option_entries: &Vec<HelpEntry<&String, &OptionDescriptor>>,
        arg_entries: &Vec<ArgDescriptor>,
    )
        ensures
            final(self).spec_lines() == old(self).spec_lines() + spec_help_lines(
                *group,
                subcommand_entries@,
                option_entries@,
                arg_entries@,
            ),
    {
        let mut rendered: Vec<String> = Vec::new();
        push_line(&mut rendered, String::from_str("### DESCRIPTION ###"));
        push_line(&mut rendered, group.description().clone());
        push_line(&mut rendered, String::from_str("### SUB-COMMANDS ###"));
        let ghost head = seq!["### DESCRIPTION ###"@, group.description@, "### SUB-COMMANDS ###"@];
        proof {
            assert(rendered.deep_view() =~= head);
        }
        let ghost sub_lines = if subcommand_entries@.len() == 0 {
            seq!["(No sub-commands available...)"@]
        } else {
            spec_subcommand_lines(*group, subcommand_entries@)
        };
        if subcommand_entries.len() == 0 {
            push_line(&mut rendered, String::from_str("(No sub-commands available...)"));
            proof {
                assert(rendered.deep_view() =~= head + sub_lines);
            }
        } else {
            let n = subcommand_entries.len();
            let mut i: usize = 0;
            proof {
                assert(rendered.deep_view() =~= head + spec_subcommand_lines(
                    *group,
                    subcommand_entries@,
                ).take(0));
            }
            while i < n
                invariant
                    0 <= i <= n,
                    rendered.deep_view() == head + spec_subcommand_lines(
                        *group,
                        subcommand_entries@,
                    ).take(i as int),
                decreases n - i,
            {
                let entry = &subcommand_entries[i];
                let mut line = String::from_str("  - ");
                line.append(entry.key.as_str());
                match group.get_aliases_for_group_name(entry.key) {
                    Some(aliases) => {
                        line.append(" (");
                        let joined = join_strs(aliases, ", ", "");
                        line.append(joined.as_str());
                        line.append(")");
                    },
                    None => {},
                }
                line.append(" | ");
                line.append(entry.value.description().as_str());
                proof {
                    assert(line@ =~= spec_subcommand_line(*group, subcommand_entries@[i as int]));
                }
                push_line(&mut rendered, line);
                i = i + 1;
                proof {
                    assert(rendered.deep_view() =~= head + spec_subcommand_lines(
                        *group,
                        subcommand_entries@,
                    ).take(i as int));
                }
            }
            proof {
                assert(spec_subcommand_lines(*group, subcommand_entries@).take(n as int)
                    =~= sub_lines);
                assert(rendered.deep_view() =~= head + sub_lines);
            }
        }
        push_line(&mut rendered, String::from_str("### OPTIONS ###"));
        let ghost part2 = head + sub_lines + seq!["### OPTIONS ###"@];
        proof {
            assert(rendered.deep_view() =~= part2);
        }
        let ghost opt_lines = if option_entries@.len() == 0 {
            seq!["(No options available...)"@]
        } else {
            spec_option_lines(option_entries@)
        };
        if option_entries.len() == 0 {
            push_line(&mut rendered, String::from_str("(No options available...)"));
            proof {
                assert(rendered.deep_view() =~= part2 + opt_lines);
            }
        } else {
            let n = option_entries.len();
            let mut i: usize = 0;
            proof {
                assert(rendered.deep_view() =~= part2 + spec_option_lines(
                    option_entries@,
                ).take(0));
            }
            while i < n
                invariant
                    0 <= i <= n,
                    rendered.deep_view() == part2 + spec_option_lines(option_entries@).take(
                        i as int,
                    ),
                decreases n - i,
            {
                let entry = &option_entries[i];
                let mut line = String::from_str("  --");
                line.append(entry.key.as_str());
                let aliases = entry.value.get_aliases();
                if aliases.len() > 0 {
                    line.append(" (");
                    let joined = join_strs(aliases, ", ", "-");
                    line.append(joined.as_str());
                    line.append(")");
                }
                line.append(" <");
                line.append(entry.value.value_type().kind().tag());
                line.append(">");
                line.append(" | ");
                line.append(entry.value.description().as_str());
                proof {
                    assert(line@ =~= spec_option_line(option_entries@[i as int]));
                }
                push_line(&mut rendered, line);
                i = i + 1;
                proof {
                    assert(rendered.deep_view() =~= part2 + spec_option_lines(
                        option_entries@,
                    ).take(i as int));
                }
            }
            proof {
                assert(spec_option_lines(option_entries@).take(n as int) =~= opt_lines);
                assert(rendered.deep_view() =~= part2 + opt_lines);
            }
        }
        push_line(&mut rendered, String::from_str("### ARGUMENTS ###"));
        let ghost part3 = part2 + opt_lines + seq!["### ARGUMENTS ###"@];
        proof {
            assert(rendered.deep_view() =~= part3);
        }
        let ghost arg_lines = if arg_entries@.len() == 0 {
            seq!["(Command expects no arguments...)"@]
        } else {
            spec_argument_lines(arg_entries@)
        };
        if arg_entries.len() == 0 {
            push_line(&mut rendered, String::from_str("(Command expects no arguments...)"));
            proof {
                assert(rendered.deep_view() =~= part3 + arg_lines);
            }
        } else {
            let n = arg_entries.len();
            let mut i: usize = 0;
            proof {
                assert(rendered.deep_view() =~= part3 + spec_argument_lines(arg_entries@).take(
                    0,
                ));
            }
            while i < n
                invariant
                    0 <= i <= n,
                    rendered.deep_view() == part3 + spec_argument_lines(arg_entries@).take(
                        i as int,
                    ),
                decreases n - i,
            {
                let arg_d = &arg_entries[i];
                let mut line = String::from_str("  ");
                let num = usize_to_text(i + 1);
                line.append(num.as_str());
                line.append(". <");
                line.append(arg_d.value_type().tag());
                line.append(">");
                line.append(" | ");
                line.append(arg_d.description().as_str());
                proof {
                    assert(line@ =~= spec_argument_line(i + 1, arg_entries@[i as int]@));
                }
                push_line(&mut rendered, line);
                i = i + 1;
                proof {
                    assert(rendered.deep_view() =~= part3 + spec_argument_lines(
                        arg_entries@,
                    ).take(i as int));
                }
            }
            proof {
                assert(spec_argument_lines(arg_entries@).take(n as int) =~= arg_lines);
                assert(rendered.deep_view() =~= part3 + arg_lines);
            }
        }
        let ghost target = spec_help_lines(
            *group,
            subcommand_entries@,
            option_entries@,
            arg_entries@,
        );
        proof {
            assert(rendered.deep_view() =~= target);
        }
        let ghost own_before = self.lines.deep_view();
        let ghost added = rendered@;
        self.lines.append(&mut rendered);
        proof {
            assert forall|j: int|
                0 <= j < self.lines.deep_view().len() implies self.lines.deep_view()[j] == (
            own_before + target)[j] by {
                assert(self.lines.deep_view()[j] == self.lines@[j].deep_view());
                if j < own_before.len() {
                    assert(self.lines@[j] == old(self).lines@[j]);
                } else {
                    assert(self.lines@[j] == added[j - own_before.len()]);
                    assert(added[j - own_before.len()].deep_view() == target[j
                        - own_before.len()]);
                }
            }
            assert(self.lines.deep_view() =~= own_before + target);
        }
    }
}

} // verus!
