//! The command tree: a group holds its own option descriptors, its
//! positional argument descriptors, its child groups and the consumer
//! invoked on a successful parse.
//!
//! Options declared on a group are visible to the group itself and to
//! every group below it; whether two visible options collide is checked
//! at parse time, because visibility depends on the resolved path.

use vstd::prelude::*;
use vstd::string::*;
use crate::arg::ArgDescriptor;
use crate::arg::ArgValue;
use crate::option::OptionDescriptor;
use crate::option::OptionValueLookup;
use crate::text::str_eq;

verus! {

/// Consumer for the parsed result: the typed positional values and the
/// fully populated option value lookup.
pub trait Consumer {
    /// Called exactly once when a parse succeeds without the help
    /// short-circuit.
    fn consume(&self, arguments: &Vec<ArgValue>, options: &OptionValueLookup);
}

/// A child group, reachable by its name and by each of its aliases.
pub struct ChildEntry<C> {
    pub name: String,
    pub aliases: Vec<String>,
    pub group: Group<C>,
}

/// A group is a collection of possible options and arguments: the
/// context of one command reachable over the command line.
pub struct Group<C> {
    /// Descriptors for all anticipated options declared on this group.
    pub options: Vec<OptionDescriptor>,
    /// Descriptors for all anticipated positional arguments, in binding
    /// order.
    pub arguments: Vec<ArgDescriptor>,
    /// Child groups, each with its aliases.
    pub children: Vec<ChildEntry<C>>,
    /// Consumer called with the parsed arguments and options for this
    /// group.
    pub consumer: C,
    /// Description of the group.
    pub description: String,
}

/// Whether a token names a child entry, by its name or by an alias.
pub open spec fn child_matches<C>(entry: ChildEntry<C>, tok: Seq<char>) -> bool {
    entry.name@ == tok || entry.aliases.deep_view().contains(tok)
}

/// The first child entry a token names, if any.
pub open spec fn find_child<C>(children: Seq<ChildEntry<C>>, tok: Seq<char>) -> Option<int>
    decreases children.len(),
{
    if children.len() == 0 {
        None
    } else if child_matches(children[0], tok) {
        Some(0)
    } else {
        match find_child(children.skip(1), tok) {
            Some(i) => Some(i + 1),
            None => None,
        }
    }
}

/// The first child entry of a given canonical name, if any.
pub open spec fn find_child_by_name<C>(children: Seq<ChildEntry<C>>, name: Seq<char>) -> Option<
    int,
>
    decreases children.len(),
{
    if children.len() == 0 {
        None
    } else if children[0].name@ == name {
        Some(0)
    } else {
        match find_child_by_name(children.skip(1), name) {
            Some(i) => Some(i + 1),
            None => None,
        }
    }
}

/// The first-match search over children, characterized by position.
pub proof fn lemma_find_child<C>(children: Seq<ChildEntry<C>>, tok: Seq<char>)
    ensures
        match find_child(children, tok) {
            None => forall|j: int| 0 <= j < children.len() ==> !child_matches(children[j], tok),
            Some(i) => 0 <= i < children.len() && child_matches(children[i], tok) && forall|j: int|
                0 <= j < i ==> !child_matches(children[j], tok),
        },
    decreases children.len(),
{
    if children.len() > 0 && !child_matches(children[0], tok) {
        lemma_find_child(children.skip(1), tok);
        assert forall|j: int| 1 <= j < children.len() implies children.skip(1)[j - 1] == children[j] by {}
    }
}

/// The by-name search over children, characterized by position.
pub proof fn lemma_find_child_by_name<C>(children: Seq<ChildEntry<C>>, name: Seq<char>)
    ensures
        match find_child_by_name(children, name) {
            None => forall|j: int| 0 <= j < children.len() ==> children[j].name@ != name,
            Some(i) => 0 <= i < children.len() && children[i].name@ == name && forall|j: int|
                0 <= j < i ==> children[j].name@ != name,
        },
    decreases children.len(),
{
    if children.len() > 0 && children[0].name@ != name {
        lemma_find_child_by_name(children.skip(1), name);
        assert forall|j: int| 1 <= j < children.len() implies children.skip(1)[j - 1] == children[j] by {}
    }
}

/// Whether a vector of strings holds the given text.
#[verifier::loop_isolation(false)]
pub fn strings_contain(v: &Vec<String>, tok: &str) -> (r: bool)
    ensures
        r == v.deep_view().contains(tok@),
{
    let n = v.len();
    let mut i: usize = 0;
    while i < n
        invariant
            0 <= i <= n,
            forall|j: int| 0 <= j < i ==> v.deep_view()[j] != tok@,
        decreases n - i,
    {
        if str_eq(v[i].as_str(), tok) {
            assert(v.deep_view()[i as int] == tok@);
            return true;
        }
        i = i + 1;
    }
    proof {
        if v.deep_view().contains(tok@) {
            let k = choose|k: int| 0 <= k < v.deep_view().len() && v.deep_view()[k] == tok@;
            assert(v.deep_view()[k] == tok@);
        }
    }
    false
}

impl<C> Group<C> {
    /// Create a new group with the given consumer and description.
    pub fn new(consumer: C, description: &str) -> (r: Self)
        ensures
            r.options@.len() == 0,
            r.arguments@.len() == 0,
            r.children@.len() == 0,
            r.consumer == consumer,
            r.description@ == description@,
    {
        Group {
            options: Vec::new(),
            arguments: Vec::new(),
            children: Vec::new(),
            consumer,
            description: String::from_str(description),
        }
    }

    /// Add a positional argument to this group.
    pub fn add_argument(self, argument: ArgDescriptor) -> (r: Self)
        ensures
            r.arguments@ == self.arguments@.push(argument),
            r.options == self.options,
            r.children == self.children,
            r.consumer == self.consumer,
            r.description == self.description,
    {
        let mut this = self;
        this.arguments.push(argument);
        this
    }

    /// Get the argument descriptors, in binding order.
    pub fn get_arguments(&self) -> (r: &Vec<ArgDescriptor>)
        ensures
            r@ == self.arguments@,
    {
        &self.arguments
    }

    /// Add an option to this group.  Its name must not repeat a name
    /// already declared on this same group.
    pub fn add_option(self, option: OptionDescriptor) -> (r: Self)
        requires
            forall|i: int| 0 <= i < self.options@.len() ==> self.options@[i]@.name != option@.name,
        ensures
            r.options@ == self.options@.push(option),
            r.arguments == self.arguments,
            r.children == self.children,
            r.consumer == self.consumer,
            r.description == self.description,
    {
        let mut this = self;
        this.options.push(option);
        this
    }

    /// Get the option descriptors declared on this group.
    pub fn get_options(&self) -> (r: &Vec<OptionDescriptor>)
        ensures
            r@ == self.options@,
    {
        &self.options
    }

    /// Add a child group under a name, with optional aliases.  Neither
    /// the name nor an alias may repeat a key some child is already
    /// known for, and the aliases must be pairwise distinct.
    #[verifier::loop_isolation(false)]
    pub fn add_child(self, name: &str, aliases: Option<Vec<&str>>, group: Group<C>) -> (r: Self)
        requires
            find_child(self.children@, name@) is None,
            match aliases {
                None => true,
                Some(al) => forall|i: int|
                    0 <= i < al@.len() ==> find_child(self.children@, al@[i]@) is None && al@[i]@
                        != name@ && (forall|j: int| 0 <= j < i ==> al@[j]@ != al@[i]@),
            },
        ensures
            r.children@.len() == self.children@.len() + 1,
            r.children@.take(self.children@.len() as int) == self.children@,
            r.children@.last().name@ == name@,
            r.children@.last().aliases.deep_view() == (match aliases {
                None => Seq::<Seq<char>>::empty(),
                Some(al) => al.deep_view(),
            }),
            r.children@.last().group == group,
            r.options == self.options,
            r.arguments == self.arguments,
            r.consumer == self.consumer,
            r.description == self.description,
    {
        let owned_name = String::from_str(name);
        let mut owned_aliases: Vec<String> = Vec::new();
        match &aliases {
            None => {
                proof {
                    assert(owned_aliases.deep_view() =~= Seq::<Seq<char>>::empty());
                }
            },
            Some(al) => {
                let m = al.len();
                let mut i: usize = 0;
                while i < m
                    invariant
                        0 <= i <= m,
                        m == al@.len(),
                        owned_aliases.deep_view() =~= al.deep_view().take(i as int),
                    decreases m - i,
                {
                    let ghost prev = owned_aliases.deep_view();
                    let s = String::from_str(al[i]);
                    owned_aliases.push(s);
                    proof {
                        assert forall|j: int| 0 <= j <= i implies owned_aliases.deep_view()[j]
                            == al.deep_view().take(i + 1)[j] by {
                            if j < i {
                                assert(owned_aliases.deep_view()[j] == owned_aliases@[
                                    j].deep_view());
                                assert(owned_aliases@[j].deep_view() == prev[j]);
                            } else {
                                assert(owned_aliases.deep_view()[j] == s.deep_view());
                                assert(s@ == al@[j]@);
                            }
                        }
                        assert(owned_aliases.deep_view() =~= al.deep_view().take(i + 1));
                    }
                    i = i + 1;
                }
                proof {
                    assert(owned_aliases.deep_view() =~= al.deep_view());
                }
            },
        }
        let mut this = self;
        let ghost before = this.children@;
        this.children.push(ChildEntry { name: owned_name, aliases: owned_aliases, group });
        proof {
            assert(this.children@.take(before.len() as int) =~= before);
        }
        this
    }

    /// The index of the first child entry a token names, if any.
    #[verifier::loop_isolation(false)]
    pub fn child_index_for(&self, tok: &str) -> (r: Option<usize>)
        ensures
            match r {
                None => find_child(self.children@, tok@) is None,
                Some(i) => i < self.children@.len() && find_child(self.children@, tok@) == Some(
                    i as int,
                ),
            },
    {
        proof {
            lemma_find_child(self.children@, tok@);
        }
        let n = self.children.len();
        let mut i: usize = 0;
        while i < n
            invariant
                0 <= i <= n,
                forall|j: int| 0 <= j < i ==> !child_matches(self.children@[j], tok@),
            decreases n - i,
        {
            let entry = &self.children[i];
            if str_eq(entry.name.as_str(), tok) || strings_contain(&entry.aliases, tok) {
                proof {
                    assert(child_matches(self.children@[i as int], tok@));
                    match find_child(self.children@, tok@) {
                        None => {
                            assert(false);
                        },
                        Some(ip) => {
                            if ip < i as int {
                                assert(!child_matches(self.children@[ip], tok@));
                            } else if ip > i as int {
                                assert(!child_matches(self.children@[i as int], tok@));
                            }
                        },
                    }
                }
                return Some(i);
            }
            i = i + 1;
        }
        None
    }

    /// Get known aliases for the passed group name, where some were
    /// declared.
    #[verifier::loop_isolation(false)]
    pub fn get_aliases_for_group_name(&self, group_name: &String) -> (r: Option<&Vec<String>>)
        ensures
            match find_child_by_name(self.children@, group_name@) {
                Some(i) => if self.children@[i].aliases.deep_view().len() > 0 {
                    r matches Some(al) && al.deep_view() == self.children@[i].aliases.deep_view()
                } else {
                    r is None
                },
                None => r is None,
            },
    {
        proof {
            lemma_find_child_by_name(self.children@, group_name@);
        }
        let n = self.children.len();
        let mut i: usize = 0;
        while i < n
            invariant
                0 <= i <= n,
                forall|j: int| 0 <= j < i ==> self.children@[j].name@ != group_name@,
            decreases n - i,
        {
            let entry = &self.children[i];
            if str_eq(entry.name.as_str(), group_name.as_str()) {
                proof {
                    match find_child_by_name(self.children@, group_name@) {
                        None => {
                            assert(false);
                        },
                        Some(ip) => {
                            if ip < i as int {
                                assert(self.children@[ip].name@ != group_name@);
                            } else if ip > i as int {
                                assert(self.children@[i as int].name@ != group_name@);
                            }
                        },
                    }
                }
                if entry.aliases.len() > 0 {
                    return Some(&entry.aliases);
                } else {
                    return None;
                }
            }
            i = i + 1;
        }
        None
    }

    /// Get the children of the group.
    pub fn get_children(&self) -> (r: &Vec<ChildEntry<C>>)
        ensures
            r@ == self.children@,
    {
        &self.children
    }

    /// Get the child known for the passed name or alias.
    pub fn get_child_known_for(&self, alias: &str) -> (r: Option<&Group<C>>)
        ensures
            match find_child(self.children@, alias@) {
                Some(i) => r matches Some(g) && *g == self.children@[i].group,
                None => r is None,
            },
    {
        match self.child_index_for(alias) {
            Some(i) => Some(&self.children[i].group),
            None => None,
        }
    }

    /// Get the consumer registered for this group.
    pub fn get_consumer(&self) -> (r: &C)
        ensures
            *r == self.consumer,
    {
        &self.consumer
    }

    /// Get the description of the group.
    pub fn description(&self) -> (r: &String)
        ensures
            r@ == self.description@,
    {
        &self.description
    }
}

} // verus!
