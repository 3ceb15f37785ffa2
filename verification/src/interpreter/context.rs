//! The evaluation context: the state of the variables and the table of
//! definitions, which are statements bound to names.
use vstd::prelude::*;
use crate::ast::{Ast, AstView};
use crate::interpreter::state::{lookup, State};
use crate::text::same_text;

verus! {

/// The mathematical model of a [`Context`].
pub struct ContextView {
    /// The value of every variable that was assigned.
    pub state: Map<Seq<char>, i32>,
    /// The statement behind every defined name.
    pub definitions: Map<Seq<char>, AstView>,
}

impl ContextView {
    /// The context in which nothing is assigned and nothing defined.
    pub open spec fn empty() -> ContextView {
        ContextView { state: Map::empty(), definitions: Map::empty() }
    }

    /// The context after an assignment.
    pub open spec fn assign(self, name: Seq<char>, value: i32) -> ContextView {
        ContextView { state: self.state.insert(name, value), definitions: self.definitions }
    }

    /// The context after a definition.
    pub open spec fn define(self, name: Seq<char>, body: AstView) -> ContextView {
        ContextView { state: self.state, definitions: self.definitions.insert(name, body) }
    }
}

/// The table that a list of definitions denotes: of two definitions under
/// one name the later one counts.
pub open spec fn table_of(entries: Seq<(Seq<char>, AstView)>) -> Map<Seq<char>, AstView>
    decreases entries.len(),
{
    if entries.len() == 0 {
        Map::empty()
    } else {
        table_of(entries.drop_last()).insert(entries.last().0, entries.last().1)
    }
}

/// Replacing the last definition under a name redefines the name.
pub proof fn lemma_table_redefine(
    entries: Seq<(Seq<char>, AstView)>,
    i: int,
    name: Seq<char>,
    body: AstView,
)
    requires
        0 <= i < entries.len(),
        entries[i].0 == name,
        forall|j: int| i < j < entries.len() ==> (#[trigger] entries[j]).0 != name,
    ensures
        table_of(entries.update(i, (name, body))) == table_of(entries).insert(name, body),
    decreases entries.len(),
{
    let after = entries.update(i, (name, body));
    if i == entries.len() - 1 {
        assert(after.drop_last() =~= entries.drop_last());
        assert(table_of(after) =~= table_of(entries).insert(name, body));
    } else {
        let last = entries.last();
        assert(after.drop_last() =~= entries.drop_last().update(i, (name, body)));
        lemma_table_redefine(entries.drop_last(), i, name, body);
        assert(last.0 != name);
        assert(table_of(after) =~= table_of(entries).insert(name, body));
    }
}

/// A name that no definition of a list carries is not in its table.
pub proof fn lemma_table_absent(entries: Seq<(Seq<char>, AstView)>, name: Seq<char>)
    requires
        forall|j: int| 0 <= j < entries.len() ==> (#[trigger] entries[j]).0 != name,
    ensures
        !table_of(entries).contains_key(name),
    decreases entries.len(),
{
    if entries.len() > 0 {
        assert(entries.last().0 != name);
        assert forall|j: int| 0 <= j < entries.drop_last().len() implies (
        #[trigger] entries.drop_last()[j]).0 != name by {
            assert(entries.drop_last()[j] == entries[j]);
        }
        lemma_table_absent(entries.drop_last(), name);
    }
}

/// The table binds a name to the last definition that carries it.
pub proof fn lemma_table_entry(entries: Seq<(Seq<char>, AstView)>, i: int)
    requires
        0 <= i < entries.len(),
        forall|j: int| i < j < entries.len() ==> (#[trigger] entries[j]).0 != entries[i].0,
    ensures
        table_of(entries).contains_key(entries[i].0),
        table_of(entries)[entries[i].0] == entries[i].1,
    decreases entries.len(),
{
    if i < entries.len() - 1 {
        assert(entries.last().0 != entries[i].0);
        assert forall|j: int| i < j < entries.drop_last().len() implies (
        #[trigger] entries.drop_last()[j]).0 != entries.drop_last()[i].0 by {
            assert(entries.drop_last()[j] == entries[j]);
        }
        lemma_table_entry(entries.drop_last(), i);
    }
}

/// A context for the interpreter: the state, and the definitions, which are
/// statements bound to identifiers.
pub struct Context {
    state: State,
    definitions: Vec<(String, Ast)>,
}

impl View for Context {
    type V = ContextView;

    closed spec fn view(&self) -> ContextView {
        ContextView { state: self.state@, definitions: table_of(self.entries()) }
    }
}

impl Context {
    /// The definitions in the order in which their names were first defined.
    pub closed spec fn entries(&self) -> Seq<(Seq<char>, AstView)> {
        Seq::new(self.definitions@.len(), |i: int| (self.definitions@[i].0@, self.definitions@[i].1@))
    }

    /// Creates the context in which nothing is assigned and nothing defined.
    pub fn new() -> (context: Context)
        ensures
            context@ == ContextView::empty(),
    {
        let context = Context { state: State::new(), definitions: Vec::new() };
        assert(context.entries() =~= Seq::empty());
        context
    }

    /// The place of the definition under a name, if there is one.
    fn find(&self, name: &str) -> (found: Option<usize>)
        ensures
            match found {
                Some(i) => i < self.entries().len() && self.entries()[i as int].0 == name@
                    && self@.definitions.contains_key(name@) && self@.definitions[name@]
                    == self.entries()[i as int].1 && forall|j: int|
                    i < j < self.entries().len() ==> (#[trigger] self.entries()[j]).0 != name@,
                None => !self@.definitions.contains_key(name@),
            },
    {
        let mut i: usize = self.definitions.len();
        while i > 0
            invariant
                i <= self.definitions.len(),
                forall|j: int| i <= j < self.entries().len() ==> (#[trigger] self.entries()[j]).0 != name@,
            decreases i,
        {
            i -= 1;
            if same_text(self.definitions[i].0.as_str(), name) {
                proof {
                    lemma_table_entry(self.entries(), i as int);
                }
                return Some(i);
            }
        }
        proof {
            lemma_table_absent(self.entries(), name@);
        }
        None
    }

    /// Binds a name to a statement, replacing the statement it had.
    pub fn add_definition(&mut self, name: String, definition: Ast)
        ensures
            final(self)@ == old(self)@.define(name@, definition@),
    {
        let ghost before = self.entries();
        match self.find(name.as_str()) {
            Some(i) => {
                self.definitions.set(i, (name, definition));
                proof {
                    assert(self.entries() =~= before.update(i as int, (name@, definition@)));
                    lemma_table_redefine(before, i as int, name@, definition@);
                }
            },
            None => {
                self.definitions.push((name, definition));
                proof {
                    assert(self.entries() =~= before.push((name@, definition@)));
                    assert(self.entries().drop_last() =~= before);
                }
            },
        }
    }

    /// The statement bound to a name, if there is one.
    pub fn get_definition(&self, name: &str) -> (definition: Option<&Ast>)
        ensures
            match definition {
                Some(body) => self@.definitions.contains_key(name@) && body@
                    == self@.definitions[name@],
                None => !self@.definitions.contains_key(name@),
            },
    {
        match self.find(name) {
            Some(i) => Some(&self.definitions[i].1),
            None => None,
        }
    }

    /// The state of the variables.
    pub fn state(&self) -> (state: &State)
        ensures
            state@ == self@.state,
    {
        &self.state
    }

    /// Assigns a value to a variable.
    pub fn set_variable(&mut self, name: String, value: i32)
        ensures
            final(self)@ == old(self)@.assign(name@, value),
    {
        self.state.set(name, value);
    }

    /// Reads a variable. A variable that was never assigned reads as zero.
    pub fn get_variable(&self, name: &str) -> (value: i32)
        ensures
            value == lookup(self@.state, name@),
    {
        self.state.get(name)
    }
}

} // verus!
