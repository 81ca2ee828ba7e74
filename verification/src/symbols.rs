//! The symbol table: names of colonies and directions, interned as small integers.

use crate::errors::SimulationError;
use lasso::{Key, Rodeo, Spur};
use std::hash::RandomState;
use vstd::prelude::*;

verus! {

/// An interned name. A handle is the position of its string in the table that issued it.
pub type Handle = u32;

/// The largest number of strings that one table can hold.
pub const MAX_SYMBOLS: usize = 0xffff_ffff;

/// `lasso::Rodeo`, the interner that holds the strings. Opaque to the verifier.
#[verifier::external_type_specification]
#[verifier::external_body]
#[verifier::reject_recursive_types(K)]
#[verifier::reject_recursive_types(S)]
pub struct ExRodeo<K, S>(Rodeo<K, S>);

/// `lasso::Spur`, the key type of the interner. Opaque to the verifier.
#[verifier::external_type_specification]
#[verifier::external_body]
pub struct ExSpur(Spur);

/// The strings that an interner holds, in the order in which they were first interned.
/// The string at position `i` is the one whose key converts to `i`.
pub uninterp spec fn interned(rodeo: Rodeo<Spur, RandomState>) -> Seq<Seq<char>>;

/// The table after `name` has been interned into `table`.
pub open spec fn table_with(table: Seq<Seq<char>>, name: Seq<char>) -> Seq<Seq<char>> {
    if table.contains(name) {
        table
    } else {
        table.push(name)
    }
}

/// The handle that interning `name` into `table` yields.
pub open spec fn handle_in(table: Seq<Seq<char>>, name: Seq<char>) -> int {
    if table.contains(name) {
        table.index_of(name)
    } else {
        table.len() as int
    }
}

/// What resolving `handle` against `table` yields: the string at that position, if any.
pub open spec fn name_of(table: Seq<Seq<char>>, handle: int) -> Option<Seq<char>> {
    if 0 <= handle < table.len() {
        Some(table[handle])
    } else {
        None
    }
}

/// `Rodeo::new`: a fresh interner holds no string.
#[verifier::external_body]
fn rodeo_new() -> (rodeo: Rodeo<Spur, RandomState>)
    ensures
        interned(rodeo) == Seq::<Seq<char>>::empty(),
{
    Rodeo::new()
}

/// `Rodeo::len`: the number of strings held.
#[verifier::external_body]
fn rodeo_len(rodeo: &Rodeo<Spur, RandomState>) -> (count: usize)
    ensures
        count == interned(*rodeo).len(),
{
    rodeo.len()
}

/// `Rodeo::get`: the key of a string that is held, converted to its position; `None` for a
/// string that is not held.
#[verifier::external_body]
fn rodeo_get(rodeo: &Rodeo<Spur, RandomState>, name: &str) -> (found: Option<u32>)
    ensures
        found matches Some(position) ==> position < interned(*rodeo).len() && interned(
            *rodeo,
        )[position as int] == name@,
        found is None ==> !interned(*rodeo).contains(name@),
{
    let key = rodeo.get(name)?;
    Some(key.into_usize() as u32)
}

/// `Rodeo::get_or_intern`: a string that is held keeps its key and the interner is left as it
/// was; a new string is appended and gets the next position as its key. The call panics when
/// the key space is used up, which the precondition leaves out.
#[verifier::external_body]
fn rodeo_get_or_intern(rodeo: &mut Rodeo<Spur, RandomState>, name: &str) -> (position: u32)
    requires
        interned(*old(rodeo)).contains(name@) || interned(*old(rodeo)).len() < MAX_SYMBOLS,
    ensures
        interned(*final(rodeo)) == table_with(interned(*old(rodeo)), name@),
        position < interned(*final(rodeo)).len(),
        interned(*final(rodeo))[position as int] == name@,
        !interned(*old(rodeo)).contains(name@) ==> position == interned(*old(rodeo)).len(),
{
    rodeo.get_or_intern(name).into_usize() as u32
}

/// `Rodeo::try_resolve`, on the key that `Key::try_from_usize` makes of `position`: the
/// string at that position, or `None` where the interner holds no string there.
#[verifier::external_body]
fn rodeo_try_resolve(rodeo: &Rodeo<Spur, RandomState>, position: u32) -> (name: Option<String>)
    requires
        position < MAX_SYMBOLS,
    ensures
        name matches Some(text) ==> position < interned(*rodeo).len() && text@ == interned(
            *rodeo,
        )[position as int],
        name is None ==> position >= interned(*rodeo).len(),
{
    let key = Spur::try_from_usize(position as usize)?;
    rodeo.try_resolve(&key).map(String::from)
}

/// The round trip of a name: once interned, it resolves to itself through its handle, and
/// interning it again yields the same handle and leaves the table as it is. The handles
/// issued before keep their names.
pub proof fn lemma_intern_round_trip(table: Seq<Seq<char>>, name: Seq<char>)
    requires
        table.no_duplicates(),
    ensures
        table_with(table, name).no_duplicates(),
        name_of(table_with(table, name), handle_in(table, name)) == Some(name),
        table_with(table_with(table, name), name) == table_with(table, name),
        handle_in(table_with(table, name), name) == handle_in(table, name),
        forall|handle: int|
            0 <= handle < table.len() ==> name_of(table_with(table, name), handle) == name_of(
                table,
                handle,
            ),
{
    let grown = table_with(table, name);
    if table.contains(name) {
        let first = table.index_of(name);
        assert(0 <= first < table.len() && table[first] == name);
    } else {
        assert(grown[table.len() as int] == name);
        assert(grown.contains(name));
        let found = grown.index_of(name);
        assert(0 <= found < grown.len() && grown[found] == name);
        if found < table.len() {
            assert(table[found] == name);
        }
        assert forall|i: int, j: int|
            0 <= i < grown.len() && 0 <= j < grown.len() && i != j implies grown[i]
            != grown[j] by {
            if i < table.len() {
                assert(table.contains(table[i]));
            }
            if j < table.len() {
                assert(table.contains(table[j]));
            }
        }
    }
}

/// The two-way mapping between names and handles.
pub struct SymbolTable {
    rodeo: Rodeo<Spur, RandomState>,
}

impl View for SymbolTable {
    type V = Seq<Seq<char>>;

    /// The interned names; the handle of a name is its position.
    closed spec fn view(&self) -> Seq<Seq<char>> {
        interned(self.rodeo)
    }
}

impl SymbolTable {
    /// No name is held twice, and every position fits a handle.
    pub open spec fn wf(&self) -> bool {
        &&& self@.no_duplicates()
        &&& self@.len() <= MAX_SYMBOLS
    }

    /// Interning `name` cannot run out of handles.
    pub open spec fn has_room_for(&self, name: Seq<char>) -> bool {
        self@.contains(name) || self@.len() < MAX_SYMBOLS
    }

    /// An empty table.
    pub fn new() -> (table: SymbolTable)
        ensures
            table.wf(),
            table@ == Seq::<Seq<char>>::empty(),
    {
        SymbolTable { rodeo: rodeo_new() }
    }

    /// The number of names held.
    pub fn len(&self) -> (count: usize)
        ensures
            count == self@.len(),
    {
        rodeo_len(&self.rodeo)
    }

    /// The handle of `name`, if it has been interned.
    pub fn lookup(&self, name: &str) -> (found: Option<Handle>)
        requires
            self.wf(),
        ensures
            found == (if self@.contains(name@) {
                Some(self@.index_of(name@) as Handle)
            } else {
                None
            }),
    {
        let found = rodeo_get(&self.rodeo, name);
        proof {
            if let Some(position) = found {
                assert(self@[position as int] == name@);
                let first = self@.index_of(name@);
                assert(self@[first] == name@);
            }
        }
        found
    }

    /// The handle of `name`. A name seen before keeps its handle and leaves the table as it
    /// was; a new name gets the next handle.
    pub fn intern(&mut self, name: &str) -> (handle: Handle)
        requires
            old(self).wf(),
            old(self).has_room_for(name@),
        ensures
            final(self).wf(),
            final(self)@ == table_with(old(self)@, name@),
            handle == handle_in(old(self)@, name@),
            name_of(final(self)@, handle as int) == Some(name@),
    {
        let handle = rodeo_get_or_intern(&mut self.rodeo, name);
        proof {
            let before = old(self)@;
            if before.contains(name@) {
                let first = before.index_of(name@);
                assert(before[first] == name@);
                assert(before[handle as int] == name@);
            } else {
                assert forall|i: int, j: int|
                    0 <= i < j < before.push(name@).len() implies before.push(name@)[i]
                    != before.push(name@)[j] by {
                    if j == before.len() {
                        assert(before[i] == before.push(name@)[i]);
                        assert(before.contains(before[i]));
                    }
                }
            }
        }
        handle
    }

    /// The handle of `name`, or `None` where the name is new and the table is full.
    pub fn try_intern(&mut self, name: &str) -> (handle: Option<Handle>)
        requires
            old(self).wf(),
        ensures
            final(self).wf(),
            handle is Some <==> old(self).has_room_for(name@),
            handle matches Some(issued) ==> final(self)@ == table_with(old(self)@, name@)
                && issued == handle_in(old(self)@, name@),
            handle is None ==> final(self)@ == old(self)@,
    {
        match self.lookup(name) {
            Some(issued) => Some(issued),
            None => {
                if self.len() < MAX_SYMBOLS {
                    Some(self.intern(name))
                } else {
                    None
                }
            },
        }
    }

    /// The name behind `handle`; `UnknownHandle` for a handle that this table never issued.
    pub fn resolve(&self, handle: Handle) -> (name: Result<String, SimulationError>)
        requires
            self.wf(),
        ensures
            match name {
                Ok(text) => name_of(self@, handle as int) == Some(text@),
                Err(e) => e == SimulationError::UnknownHandle && name_of(self@, handle as int)
                    is None,
            },
    {
        if handle as usize >= MAX_SYMBOLS {
            return Err(SimulationError::UnknownHandle);
        }
        match rodeo_try_resolve(&self.rodeo, handle) {
            Some(text) => Ok(text),
            None => Err(SimulationError::UnknownHandle),
        }
    }
}

} // verus!
