//! The help menu: documented commands in the order in which they were first
//! registered, each with its description and its guard.
//!
//! The order and the lookup by name are kept by an `indexmap::IndexMap` from
//! the command's name to a slot number; the description and the guard of a
//! command stand in that slot of a plain vector.

use indexmap::IndexMap;
use std::collections::hash_map::RandomState;
use vstd::prelude::*;

verus! {

/// `indexmap::IndexMap`, held as a value whose inside is not looked into.
#[verifier::external_type_specification]
#[verifier::external_body]
#[verifier::reject_recursive_types(K)]
#[verifier::reject_recursive_types(V)]
#[verifier::reject_recursive_types(S)]
pub struct ExIndexMap<K, V, S>(IndexMap<K, V, S>);

/// The pairs that an `IndexMap` from names to slot numbers holds, in the
/// order in which it hands them out. Nothing is proved of it: the functions
/// below say what each `IndexMap` method does to it.
pub uninterp spec fn index_entries(index: IndexMap<String, usize, RandomState>) -> Seq<
    (Seq<char>, usize),
>;

/// The first position at which `name` stands among `names`, if any.
pub open spec fn first_named(names: Seq<Seq<char>>, name: Seq<char>) -> Option<int>
    decreases names.len(),
{
    if names.len() == 0 {
        None
    } else if names[0] == name {
        Some(0)
    } else {
        match first_named(names.skip(1), name) {
            Some(i) => Some(i + 1),
            None => None,
        }
    }
}

/// The names of the pairs of an index.
pub open spec fn entry_names(entries: Seq<(Seq<char>, usize)>) -> Seq<Seq<char>> {
    Seq::new(entries.len(), |i: int| entries[i].0)
}

/// The pairs of an index after `name` has been given the slot `slot`: a name
/// that is there keeps its place and gets the new slot, a new name goes last.
pub open spec fn entries_with(entries: Seq<(Seq<char>, usize)>, name: Seq<char>, slot: usize) -> Seq<
    (Seq<char>, usize),
> {
    match first_named(entry_names(entries), name) {
        Some(i) => entries.update(i, (name, slot)),
        None => entries.push((name, slot)),
    }
}

/// `first_named` finds the first position that holds the name, and none
/// where no position holds it.
pub proof fn lemma_first_named(names: Seq<Seq<char>>, name: Seq<char>)
    ensures
        match first_named(names, name) {
            Some(i) => 0 <= i < names.len() && names[i] == name && forall|j: int|
                0 <= j < i ==> names[j] != name,
            None => forall|j: int| 0 <= j < names.len() ==> names[j] != name,
        },
    decreases names.len(),
{
    if names.len() > 0 && names[0] != name {
        let rest = names.skip(1);
        lemma_first_named(rest, name);
        match first_named(rest, name) {
            Some(i) => {
                assert(names[i + 1] == rest[i]);
                assert forall|j: int| 0 <= j < i + 1 implies names[j] != name by {
                    if j > 0 {
                        assert(names[j] == rest[j - 1]);
                    }
                }
            },
            None => {
                assert forall|j: int| 0 <= j < names.len() implies names[j] != name by {
                    if j > 0 {
                        assert(names[j] == rest[j - 1]);
                    }
                }
            },
        }
    }
}

/// `IndexMap::new`: the new index holds no pair.
#[verifier::external_body]
fn index_new() -> (index: IndexMap<String, usize, RandomState>)
    ensures
        index_entries(index) == Seq::<(Seq<char>, usize)>::empty(),
{
    IndexMap::new()
}

/// `IndexMap::insert`: a key that the map holds stays in its place and gets
/// the new value; a key that it does not hold is added last.
#[verifier::external_body]
fn index_insert(index: &mut IndexMap<String, usize, RandomState>, name: String, slot: usize)
    ensures
        index_entries(*final(index)) == entries_with(index_entries(*old(index)), name@, slot),
{
    index.insert(name, slot);
}

/// `IndexMap::len`: the number of pairs.
#[verifier::external_body]
fn index_len(index: &IndexMap<String, usize, RandomState>) -> (n: usize)
    ensures
        n == index_entries(*index).len(),
{
    index.len()
}

/// `IndexMap::get_index`: the pair at position `i`, and `None` from the
/// length of the map on.
#[verifier::external_body]
fn index_get(index: &IndexMap<String, usize, RandomState>, i: usize) -> (r: Option<(&String, usize)>)
    ensures
        match r {
            Some((name, slot)) => i < index_entries(*index).len() && index_entries(*index)[i as int]
                == (name@, slot),
            None => i >= index_entries(*index).len(),
        },
{
    match index.get_index(i) {
        Some((name, slot)) => Some((name, *slot)),
        None => None,
    }
}

/// `IndexMap::get_index_of`: the position of the pair whose key is `name`,
/// and `None` where no pair has that key.
#[verifier::external_body]
fn index_position(index: &IndexMap<String, usize, RandomState>, name: &str) -> (r: Option<usize>)
    ensures
        match r {
            Some(i) => first_named(entry_names(index_entries(*index)), name@) == Some(i as int),
            None => first_named(entry_names(index_entries(*index)), name@) is None,
        },
{
    index.get_index_of(name)
}

/// One documented command, as the menu shows it.
pub struct MenuEntry<G> {
    /// The command's name, trigger marker included.
    pub name: Seq<char>,
    /// What the command is said to do.
    pub description: Seq<char>,
    /// Who may use the command; `None` stands for everybody.
    pub guard: Option<G>,
}

/// The names of menu entries.
pub open spec fn menu_names<G>(entries: Seq<MenuEntry<G>>) -> Seq<Seq<char>> {
    Seq::new(entries.len(), |i: int| entries[i].name)
}

/// The menu `entries` after `entry` has been listed: an entry of the same
/// name is replaced where it stands, a new name goes last.
pub open spec fn listed<G>(entries: Seq<MenuEntry<G>>, entry: MenuEntry<G>) -> Seq<MenuEntry<G>> {
    match first_named(menu_names(entries), entry.name) {
        Some(i) => entries.update(i, entry),
        None => entries.push(entry),
    }
}

/// No name stands twice among `names`.
pub open spec fn distinct_names(names: Seq<Seq<char>>) -> bool {
    forall|i: int, j: int| 0 <= i < j < names.len() ==> names[i] != names[j]
}

/// Listing an entry leaves the names and their order as they are, but for a
/// new name, which goes last; the entry listed is then the one of its name,
/// every other entry is as before, and names that were distinct stay so.
pub proof fn lemma_listed<G>(entries: Seq<MenuEntry<G>>, entry: MenuEntry<G>)
    ensures
        menu_names(listed(entries, entry)) == (match first_named(menu_names(entries), entry.name) {
            Some(_) => menu_names(entries),
            None => menu_names(entries).push(entry.name),
        }),
        match first_named(menu_names(listed(entries, entry)), entry.name) {
            Some(i) => 0 <= i < listed(entries, entry).len() && listed(entries, entry)[i] == entry,
            None => false,
        },
        forall|i: int|
            0 <= i < entries.len() && entries[i].name != entry.name ==> #[trigger] listed(
                entries,
                entry,
            )[i] == entries[i],
        distinct_names(menu_names(entries)) ==> distinct_names(menu_names(listed(entries, entry))),
{
    let names = menu_names(entries);
    let after = listed(entries, entry);
    lemma_first_named(names, entry.name);
    match first_named(names, entry.name) {
        Some(i) => {
            assert(menu_names(after) =~= names) by {
                assert forall|j: int| 0 <= j < names.len() implies menu_names(after)[j]
                    == names[j] by {
                    assert(names[j] == entries[j].name);
                }
            }
            assert forall|j: int|
                0 <= j < entries.len() && entries[j].name != entry.name implies #[trigger] after[j]
                == entries[j] by {
                assert(names[j] == entries[j].name);
            }
        },
        None => {
            assert(menu_names(after) =~= names.push(entry.name));
        },
    }
    lemma_first_named(menu_names(after), entry.name);
    match first_named(menu_names(after), entry.name) {
        Some(k) => {
            match first_named(names, entry.name) {
                Some(i) => {
                    assert(menu_names(after)[i] == entry.name);
                    assert(k == i) by {
                        if k < i {
                            assert(names[k] == entry.name);
                        }
                    }
                },
                None => {
                    assert(k == entries.len()) by {
                        if k < entries.len() {
                            assert(names[k] == menu_names(after)[k]);
                        }
                    }
                },
            }
        },
        None => {
            let last = after.len() - 1;
            match first_named(names, entry.name) {
                Some(i) => {
                    assert(menu_names(after)[i] == entry.name);
                },
                None => {
                    assert(menu_names(after)[last] == entry.name);
                },
            }
        },
    }
    if distinct_names(names) {
        assert forall|i: int, j: int| 0 <= i < j < menu_names(after).len() implies menu_names(
            after,
        )[i] != menu_names(after)[j] by {
            if j < names.len() {
                assert(names[i] != names[j]);
            } else {
                assert(names[i] == menu_names(after)[i]);
            }
        }
    }
}

/// What the menu keeps of a command besides its name.
struct Detail<G> {
    description: String,
    guard: Option<G>,
}

/// The help menu.
pub struct Menu<G> {
    index: IndexMap<String, usize, RandomState>,
    details: Vec<Detail<G>>,
}

impl<G> View for Menu<G> {
    type V = Seq<MenuEntry<G>>;

    closed spec fn view(&self) -> Seq<MenuEntry<G>> {
        let entries = index_entries(self.index);
        Seq::new(
            entries.len(),
            |i: int|
                MenuEntry {
                    name: entries[i].0,
                    description: self.details[entries[i].1 as int].description@,
                    guard: self.details[entries[i].1 as int].guard,
                },
        )
    }
}

impl<G> Menu<G> {
    #[verifier::type_invariant]
    spec fn inv(&self) -> bool {
        &&& forall|i: int|
            0 <= i < index_entries(self.index).len() ==> (#[trigger] index_entries(self.index)[i]).1
                < self.details.len()
        &&& distinct_names(entry_names(index_entries(self.index)))
    }

    /// A menu without entries.
    pub fn new() -> (menu: Self)
        ensures
            menu@ == Seq::<MenuEntry<G>>::empty(),
    {
        let index = index_new();
        assert(entry_names(index_entries(index)) =~= Seq::<Seq<char>>::empty());
        let menu = Menu { index, details: Vec::new() };
        assert(menu@ =~= Seq::<MenuEntry<G>>::empty());
        menu
    }

    /// This menu with the command `name` listed under `description` and
    /// `guard`. A command listed before keeps its place and gets the new
    /// description and guard.
    pub fn with(self, name: &str, description: &str, guard: Option<G>) -> (menu: Self)
        ensures
            menu@ == listed(
                self@,
                MenuEntry { name: name@, description: description@, guard: guard },
            ),
    {
        proof {
            use_type_invariant(&self);
        }
        let ghost before = self@;
        let ghost entry = MenuEntry { name: name@, description: description@, guard: guard };
        let Menu { mut index, mut details } = self;
        let ghost old_entries = index_entries(index);
        let ghost old_details = details@;
        let slot = details.len();
        details.push(Detail { description: description.to_owned(), guard });
        index_insert(&mut index, name.to_owned(), slot);
        proof {
            let entries = index_entries(index);
            assert(entry_names(old_entries) =~= menu_names(before));
            lemma_first_named(menu_names(before), name@);
            assert forall|i: int| 0 <= i < entries.len() implies (#[trigger] entries[i]).1
                < details.len() by {
                if i < old_entries.len() && entries[i] == old_entries[i] {
                    assert(old_entries[i].1 < old_details.len());
                }
            }
            lemma_listed(before, entry);
            assert(entry_names(entries) =~= menu_names(listed(before, entry))) by {
                assert forall|i: int| 0 <= i < entries.len() implies entry_names(entries)[i]
                    == menu_names(listed(before, entry))[i] by {
                    if i < old_entries.len() {
                        assert(entry_names(old_entries)[i] == old_entries[i].0);
                    }
                }
            }
        }
        let menu = Menu { index, details };
        proof {
            let entries = index_entries(menu.index);
            assert(menu@ =~= listed(before, entry)) by {
                assert forall|i: int| 0 <= i < entries.len() implies menu@[i] == listed(
                    before,
                    entry,
                )[i] by {
                    if i < old_entries.len() && entries[i] == old_entries[i] {
                        assert(old_entries[i].1 < old_details.len());
                        assert(menu.details@[entries[i].1 as int] == old_details[entries[i].1 as int]);
                        assert(before[i].name == old_entries[i].0);
                    }
                }
            }
        }
        menu
    }

    /// The number of entries. No two entries have the same name.
    pub fn len(&self) -> (n: usize)
        ensures
            n == self@.len(),
            distinct_names(menu_names(self@)),
    {
        proof {
            use_type_invariant(self);
            assert(entry_names(index_entries(self.index)) =~= menu_names(self@));
        }
        index_len(&self.index)
    }

    /// Whether the menu has no entry.
    pub fn is_empty(&self) -> (r: bool)
        ensures
            r == (self@.len() == 0),
    {
        index_len(&self.index) == 0
    }

    /// The entry at position `i`: name, description and guard. `None` from
    /// the length of the menu on.
    pub fn entry(&self, i: usize) -> (r: Option<(&str, &str, Option<&G>)>)
        ensures
            match r {
                Some((name, description, guard)) => {
                    &&& i < self@.len()
                    &&& name@ == self@[i as int].name
                    &&& description@ == self@[i as int].description
                    &&& match guard {
                        Some(g) => self@[i as int].guard == Some(*g),
                        None => self@[i as int].guard is None,
                    }
                },
                None => i >= self@.len(),
            },
    {
        proof {
            use_type_invariant(self);
        }
        match index_get(&self.index, i) {
            Some((name, slot)) => {
                let detail = &self.details[slot];
                Some((name.as_str(), detail.description.as_str(), detail.guard.as_ref()))
            },
            None => None,
        }
    }

    /// The position of the entry named `name`, if there is one. No other
    /// entry has that name.
    pub fn find(&self, name: &str) -> (r: Option<usize>)
        ensures
            match r {
                Some(i) => i < self@.len() && forall|j: int|
                    0 <= j < self@.len() ==> ((#[trigger] self@[j]).name == name@ <==> j == i),
                None => forall|j: int| 0 <= j < self@.len() ==> (#[trigger] self@[j]).name != name@,
            },
    {
        proof {
            use_type_invariant(self);
            let names = menu_names(self@);
            assert(entry_names(index_entries(self.index)) =~= names);
            lemma_first_named(names, name@);
            assert forall|j: int| 0 <= j < self@.len() implies names[j] == (#[trigger] self@[j]).name by {}
        }
        index_position(&self.index, name)
    }
}

} // verus!
