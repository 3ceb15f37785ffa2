//! The state of a While program: a mapping from variable names to integers
//! in which every name that was never assigned reads as zero.
use vstd::prelude::*;
use vstd::string::StringExecFns;
use crate::text::{
    integer_text,
    lemma_bytes_precede_transitive,
    lemma_name_order,
    name_precedes,
    precedes,
    render_integer,
    same_text,
};

verus! {

/// Whether the names of a listing are strictly increasing.
pub open spec fn sorted_listing(l: Seq<(Seq<char>, i32)>) -> bool {
    forall|i: int, j: int| 0 <= i < j < l.len() ==> name_precedes(#[trigger] l[i].0, #[trigger] l[j].0)
}

/// Whether a listing has an entry for the name.
pub open spec fn listed(l: Seq<(Seq<char>, i32)>, name: Seq<char>) -> bool {
    exists|i: int| 0 <= i < l.len() && #[trigger] l[i].0 == name
}

/// The place of a listed name in a listing.
pub open spec fn entry_index(l: Seq<(Seq<char>, i32)>, name: Seq<char>) -> int {
    choose|i: int| 0 <= i < l.len() && #[trigger] l[i].0 == name
}

/// The mapping that a listing denotes.
pub open spec fn listing_map(l: Seq<(Seq<char>, i32)>) -> Map<Seq<char>, i32> {
    Map::new(|name: Seq<char>| listed(l, name), |name: Seq<char>| l[entry_index(l, name)].1)
}

/// Reading a name from a mapping: the bound value, or zero where there is none.
pub open spec fn lookup(m: Map<Seq<char>, i32>, name: Seq<char>) -> i32 {
    if m.contains_key(name) {
        m[name]
    } else {
        0
    }
}

/// In a sorted listing every name occurs once.
pub proof fn lemma_sorted_listing_unique(l: Seq<(Seq<char>, i32)>, i: int, j: int)
    requires
        sorted_listing(l),
        0 <= i < l.len(),
        0 <= j < l.len(),
        l[i].0 == l[j].0,
    ensures
        i == j,
{
    lemma_name_order(l[i].0, l[j].0);
}

/// The mapping of a sorted listing binds each listed name to its value.
pub proof fn lemma_listing_map_entry(l: Seq<(Seq<char>, i32)>, i: int)
    requires
        sorted_listing(l),
        0 <= i < l.len(),
    ensures
        listing_map(l).contains_key(l[i].0),
        listing_map(l)[l[i].0] == l[i].1,
{
    let name = l[i].0;
    assert(listed(l, name));
    let k = entry_index(l, name);
    lemma_sorted_listing_unique(l, i, k);
}

/// A mapping has one sorted listing: sorted listings that denote the same
/// mapping are the same listing. So two states are equal exactly when they
/// bind the same names to the same values.
pub proof fn lemma_sorted_listing_is_unique(a: Seq<(Seq<char>, i32)>, b: Seq<(Seq<char>, i32)>)
    requires
        sorted_listing(a),
        sorted_listing(b),
        listing_map(a) == listing_map(b),
    ensures
        a == b,
    decreases a.len(),
{
    if a.len() == 0 {
        if b.len() > 0 {
            lemma_listing_map_entry(b, 0);
            assert(listed(a, b[0].0));
        }
        assert(a =~= b);
    } else {
        let last = a.len() - 1;
        lemma_listing_map_entry(a, last);
        assert(listed(b, a[last].0));
        let j = entry_index(b, a[last].0);
        lemma_listing_map_entry(b, j);
        let end = b.len() - 1;
        lemma_listing_map_entry(b, end);
        assert(listed(a, b[end].0));
        let i = entry_index(a, b[end].0);
        if j < end {
            // a.last is before b.last, which stands in a at or before a.last.
            lemma_name_order(a[last].0, a[last].0);
            if i < last {
                lemma_bytes_precede_transitive(
                    vstd::utf8::encode_utf8(a[i].0),
                    vstd::utf8::encode_utf8(a[last].0),
                    vstd::utf8::encode_utf8(b[end].0),
                );
                lemma_name_order(a[i].0, a[i].0);
            }
        }
        assert(j == end);
        assert(a[last] == b[end]);
        let front_a = a.drop_last();
        let front_b = b.drop_last();
        assert forall|x: int, y: int| 0 <= x < y < front_a.len() implies name_precedes(
            #[trigger] front_a[x].0,
            #[trigger] front_a[y].0,
        ) by {
            assert(front_a[x] == a[x] && front_a[y] == a[y]);
        }
        assert forall|x: int, y: int| 0 <= x < y < front_b.len() implies name_precedes(
            #[trigger] front_b[x].0,
            #[trigger] front_b[y].0,
        ) by {
            assert(front_b[x] == b[x] && front_b[y] == b[y]);
        }
        lemma_front_listing(a);
        lemma_front_listing(b);
        lemma_sorted_listing_is_unique(front_a, front_b);
        assert(a =~= front_a.push(a[last]));
        assert(b =~= front_b.push(b[end]));
    }
}

/// The listing without its last entry denotes the mapping without the last
/// name.
proof fn lemma_front_listing(l: Seq<(Seq<char>, i32)>)
    requires
        sorted_listing(l),
        l.len() > 0,
    ensures
        listing_map(l.drop_last()) == listing_map(l).remove(l.last().0),
{
    let front = l.drop_last();
    let name = l.last().0;
    assert forall|x: int, y: int| 0 <= x < y < front.len() implies name_precedes(
        #[trigger] front[x].0,
        #[trigger] front[y].0,
    ) by {
        assert(front[x] == l[x] && front[y] == l[y]);
    }
    assert forall|k: Seq<char>| listed(front, k) <==> (listed(l, k) && k != name) by {
        if listed(front, k) {
            let x = entry_index(front, k);
            assert(l[x].0 == k);
            lemma_name_order(k, name);
        }
        if listed(l, k) && k != name {
            let x = entry_index(l, k);
            assert(front[x].0 == k);
        }
    }
    assert forall|k: Seq<char>| listed(front, k) implies #[trigger] listing_map(front)[k]
        == listing_map(l)[k] by {
        let x = entry_index(front, k);
        lemma_listing_map_entry(front, x);
        assert(l[x] == front[x]);
        lemma_listing_map_entry(l, x);
    }
    assert(listing_map(front) =~= listing_map(l).remove(name));
}

/// How a binding is shown: the name, an arrow and the value.
pub open spec fn entry_text(entry: (Seq<char>, i32)) -> Seq<char> {
    entry.0 + " -> "@ + integer_text(entry.1 as int)
}

/// How the bindings of a listing are shown: one after the other, with a
/// comma and a space between them.
pub open spec fn entries_text(l: Seq<(Seq<char>, i32)>) -> Seq<char>
    decreases l.len(),
{
    if l.len() == 0 {
        Seq::empty()
    } else if l.len() == 1 {
        entry_text(l[0])
    } else {
        entries_text(l.drop_last()) + ", "@ + entry_text(l.last())
    }
}

/// How a listing is shown: its bindings between square brackets.
pub open spec fn listing_text(l: Seq<(Seq<char>, i32)>) -> Seq<char> {
    "["@ + entries_text(l) + "]"@
}

/// The mapping after a sequence of assignments, made one after the other
/// to a state in which nothing is bound.
pub open spec fn assigned(writes: Seq<(Seq<char>, i32)>) -> Map<Seq<char>, i32>
    decreases writes.len(),
{
    if writes.len() == 0 {
        Map::empty()
    } else {
        assigned(writes.drop_last()).insert(writes.last().0, writes.last().1)
    }
}

/// A name that was never assigned reads as zero.
pub proof fn lemma_unassigned_reads_zero(writes: Seq<(Seq<char>, i32)>, name: Seq<char>)
    requires
        forall|i: int| 0 <= i < writes.len() ==> (#[trigger] writes[i]).0 != name,
    ensures
        lookup(assigned(writes), name) == 0,
    decreases writes.len(),
{
    if writes.len() > 0 {
        assert(writes.last().0 != name);
        assert forall|i: int| 0 <= i < writes.drop_last().len() implies (
        #[trigger] writes.drop_last()[i]).0 != name by {
            assert(writes.drop_last()[i] == writes[i]);
        }
        lemma_unassigned_reads_zero(writes.drop_last(), name);
    }
}

/// The state of a program: variable names bound to 32-bit integers.
///
/// The bindings are kept sorted by name, so two states are equal exactly
/// when they bind the same names to the same values.
#[derive(Debug)]
pub struct State {
    entries: Vec<(String, i32)>,
}

impl View for State {
    type V = Map<Seq<char>, i32>;

    /// The mapping from names to values.
    open spec fn view(&self) -> Map<Seq<char>, i32> {
        listing_map(self.listing())
    }
}

impl State {
    /// The bindings in the order of their names.
    pub closed spec fn listing(&self) -> Seq<(Seq<char>, i32)> {
        Seq::new(self.entries@.len(), |i: int| (self.entries@[i].0@, self.entries@[i].1))
    }

    #[verifier::type_invariant]
    spec fn well_formed(&self) -> bool {
        sorted_listing(self.listing())
    }

    /// Creates the state in which nothing is bound.
    pub fn new() -> (state: State)
        ensures
            state.listing() == Seq::<(Seq<char>, i32)>::empty(),
            state@ == Map::<Seq<char>, i32>::empty(),
    {
        let state = State { entries: Vec::new() };
        assert(state.listing() =~= Seq::empty());
        assert(state@ =~= Map::empty());
        state
    }

    /// Reads a variable. A name that is not bound reads as zero.
    pub fn get(&self, ident: &str) -> (value: i32)
        ensures
            value == lookup(self@, ident@),
    {
        proof {
            use_type_invariant(self);
        }
        let mut i: usize = 0;
        while i < self.entries.len()
            invariant
                i <= self.entries.len(),
                sorted_listing(self.listing()),
                forall|j: int| 0 <= j < i ==> (#[trigger] self.listing()[j]).0 != ident@,
            decreases self.entries.len() - i,
        {
            if same_text(self.entries[i].0.as_str(), ident) {
                proof {
                    lemma_listing_map_entry(self.listing(), i as int);
                }
                return self.entries[i].1;
            }
            i += 1;
        }
        0
    }

    /// Binds a variable to a value, replacing the value it had.
    pub fn set(&mut self, ident: String, val: i32)
        ensures
            final(self)@ == old(self)@.insert(ident@, val),
            sorted_listing(final(self).listing()),
    {
        proof {
            use_type_invariant(&*self);
        }
        let ghost before = self.listing();
        let mut taken = State::new();
        core::mem::swap(self, &mut taken);
        let mut entries = taken.entries;
        let mut i: usize = 0;
        while i < entries.len() && precedes(entries[i].0.as_str(), ident.as_str())
            invariant
                i <= entries.len(),
                before == Seq::new(entries@.len(), |k: int| (entries@[k].0@, entries@[k].1)),
                forall|j: int| 0 <= j < i ==> name_precedes((#[trigger] before[j]).0, ident@),
            decreases entries.len() - i,
        {
            i += 1;
        }
        if i < entries.len() && same_text(entries[i].0.as_str(), ident.as_str()) {
            entries.set(i, (ident, val));
            proof {
                lemma_update_listing(before, i as int, val);
            }
        } else {
            proof {
                if i < before.len() {
                    lemma_name_order(before[i as int].0, ident@);
                }
                lemma_insert_listing(before, i as int, ident@, val);
            }
            entries.insert(i, (ident, val));
        }
        let ghost after = Seq::new(entries@.len(), |k: int| (entries@[k].0@, entries@[k].1));
        assert(after =~= before.update(i as int, (ident@, val)) || after =~= before.insert(
            i as int,
            (ident@, val),
        ));
        *self = State { entries };
    }
}

impl State {
    /// Renders the state for display: the bindings in the order of their
    /// names, as in `[x -> 1, y -> 2]`.
    pub fn to_string(&self) -> (text: String)
        ensures
            text@ == listing_text(self.listing()),
    {
        let mut text = String::from_str("[");
        let mut i: usize = 0;
        while i < self.entries.len()
            invariant
                i <= self.entries.len(),
                text@ == "["@ + entries_text(self.listing().take(i as int)),
            decreases self.entries.len() - i,
        {
            let ghost shown = self.listing().take(i as int);
            let ghost next = self.listing().take(i + 1);
            proof {
                assert(next.drop_last() =~= shown);
                assert(next.last() == self.listing()[i as int]);
            }
            if i > 0 {
                text.append(", ");
            }
            text.append(self.entries[i].0.as_str());
            text.append(" -> ");
            text.append(render_integer(self.entries[i].1).as_str());
            proof {
                let entry = self.listing()[i as int];
                if i == 0 {
                    assert(text@ =~= "["@ + entry_text(entry));
                } else {
                    assert(text@ =~= "["@ + (entries_text(shown) + ", "@ + entry_text(entry)));
                }
            }
            i += 1;
        }
        proof {
            assert(self.listing().take(i as int) =~= self.listing());
        }
        text.append("]");
        text
    }
}

impl Clone for State {
    /// Copies the state.
    fn clone(&self) -> (copy: State)
        ensures
            copy.listing() == self.listing(),
            copy@ == self@,
            sorted_listing(copy.listing()),
    {
        proof {
            use_type_invariant(self);
        }
        let mut entries: Vec<(String, i32)> = Vec::new();
        let mut i: usize = 0;
        while i < self.entries.len()
            invariant
                i <= self.entries.len(),
                entries@.len() == i,
                forall|k: int|
                    0 <= k < i ==> (#[trigger] entries@[k]).0@ == self.entries@[k].0@
                        && entries@[k].1 == self.entries@[k].1,
            decreases self.entries.len() - i,
        {
            let name = self.entries[i].0.clone();
            entries.push((name, self.entries[i].1));
            i += 1;
        }
        assert(Seq::new(entries@.len(), |k: int| (entries@[k].0@, entries@[k].1))
            =~= self.listing());
        State { entries }
    }
}

impl Default for State {
    /// The state in which nothing is bound.
    fn default() -> (state: State)
        ensures
            state@ == Map::<Seq<char>, i32>::empty(),
    {
        State::new()
    }
}

impl PartialEq for State {
    /// Whether two states bind the same names to the same values.
    fn eq(&self, other: &State) -> (equal: bool) {
        if self.entries.len() != other.entries.len() {
            assert(self.listing().len() != other.listing().len());
            return false;
        }
        let mut i: usize = 0;
        while i < self.entries.len()
            invariant
                i <= self.entries.len(),
                self.entries.len() == other.entries.len(),
                forall|k: int| 0 <= k < i ==> #[trigger] self.listing()[k] == other.listing()[k],
            decreases self.entries.len() - i,
        {
            if !same_text(self.entries[i].0.as_str(), other.entries[i].0.as_str())
                || self.entries[i].1 != other.entries[i].1 {
                assert(self.listing()[i as int] != other.listing()[i as int]);
                return false;
            }
            i += 1;
        }
        assert(self.listing() =~= other.listing());
        true
    }
}

impl Eq for State {

}

impl vstd::std_specs::cmp::PartialEqSpecImpl for State {
    open spec fn obeys_eq_spec() -> bool {
        true
    }

    open spec fn eq_spec(&self, other: &State) -> bool {
        self.listing() == other.listing()
    }
}

/// Replacing the value of an entry of a sorted listing rebinds its name.
pub proof fn lemma_update_listing(l: Seq<(Seq<char>, i32)>, i: int, val: i32)
    requires
        sorted_listing(l),
        0 <= i < l.len(),
    ensures
        sorted_listing(l.update(i, (l[i].0, val))),
        listing_map(l.update(i, (l[i].0, val))) == listing_map(l).insert(l[i].0, val),
{
    let name = l[i].0;
    let after = l.update(i, (name, val));
    assert forall|a: int, b: int| 0 <= a < b < after.len() implies name_precedes(
        #[trigger] after[a].0,
        #[trigger] after[b].0,
    ) by {
        assert(after[a].0 == l[a].0);
        assert(after[b].0 == l[b].0);
    }
    assert forall|k: Seq<char>| listed(after, k) <==> (listed(l, k) || k == name) by {
        if listed(after, k) {
            let a = entry_index(after, k);
            assert(l[a].0 == k);
        }
        if listed(l, k) {
            let a = entry_index(l, k);
            assert(after[a].0 == k);
        }
        if k == name {
            assert(after[i].0 == k);
        }
    }
    assert forall|k: Seq<char>| listed(after, k) implies #[trigger] listing_map(after)[k]
        == listing_map(l).insert(name, val)[k] by {
        let a = entry_index(after, k);
        lemma_listing_map_entry(after, a);
        if a != i {
            assert(after[a] == l[a]);
            lemma_listing_map_entry(l, a);
            if k == name {
                lemma_sorted_listing_unique(l, a, i);
            }
        }
    }
    assert(listing_map(after) =~= listing_map(l).insert(name, val));
}

/// Inserting a new name at its place in a sorted listing binds it.
pub proof fn lemma_insert_listing(l: Seq<(Seq<char>, i32)>, i: int, name: Seq<char>, val: i32)
    requires
        sorted_listing(l),
        0 <= i <= l.len(),
        forall|j: int| 0 <= j < i ==> name_precedes((#[trigger] l[j]).0, name),
        i < l.len() ==> name_precedes(name, l[i].0),
    ensures
        sorted_listing(l.insert(i, (name, val))),
        listing_map(l.insert(i, (name, val))) == listing_map(l).insert(name, val),
{
    let after = l.insert(i, (name, val));
    assert forall|a: int, b: int| 0 <= a < b < after.len() implies name_precedes(
        #[trigger] after[a].0,
        #[trigger] after[b].0,
    ) by {
        if b < i {
            assert(after[a] == l[a] && after[b] == l[b]);
        } else if b == i {
            assert(after[a] == l[a]);
        } else if a < i {
            assert(after[a] == l[a] && after[b] == l[b - 1]);
        } else if a == i {
            assert(after[b] == l[b - 1]);
            if b - 1 > i {
                lemma_bytes_precede_transitive(
                    vstd::utf8::encode_utf8(name),
                    vstd::utf8::encode_utf8(l[i].0),
                    vstd::utf8::encode_utf8(l[b - 1].0),
                );
            }
        } else {
            assert(after[a] == l[a - 1] && after[b] == l[b - 1]);
        }
    }
    assert forall|k: Seq<char>| listed(after, k) <==> (listed(l, k) || k == name) by {
        if listed(after, k) {
            let a = entry_index(after, k);
            if a < i {
                assert(l[a].0 == k);
            } else if a > i {
                assert(l[a - 1].0 == k);
            }
        }
        if listed(l, k) {
            let a = entry_index(l, k);
            if a < i {
                assert(after[a].0 == k);
            } else {
                assert(after[a + 1].0 == k);
            }
        }
        if k == name {
            assert(after[i].0 == k);
        }
    }
    assert forall|k: Seq<char>| listed(after, k) implies #[trigger] listing_map(after)[k]
        == listing_map(l).insert(name, val)[k] by {
        let a = entry_index(after, k);
        lemma_listing_map_entry(after, a);
        if a < i {
            assert(l[a].0 == k);
            lemma_listing_map_entry(l, a);
            lemma_name_order(k, name);
        } else if a > i {
            assert(l[a - 1].0 == k);
            lemma_listing_map_entry(l, a - 1);
            if a - 1 > i {
                lemma_bytes_precede_transitive(
                    vstd::utf8::encode_utf8(name),
                    vstd::utf8::encode_utf8(l[i].0),
                    vstd::utf8::encode_utf8(l[a - 1].0),
                );
            }
            lemma_name_order(k, name);
        }
    }
    assert(listing_map(after) =~= listing_map(l).insert(name, val));
}

} // verus!
