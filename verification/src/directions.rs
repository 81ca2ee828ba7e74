//! The table of opposite directions, by which a tunnel is matched with the tunnel that
//! leads back.

use crate::symbols::Handle;
use vstd::prelude::*;

verus! {

/// The reverse of a direction name: north and south are each other's reverse, and so are
/// east and west. Any other name has none.
pub open spec fn opposite_name(name: Seq<char>) -> Option<Seq<char>> {
    if name == "north"@ {
        Some("south"@)
    } else if name == "south"@ {
        Some("north"@)
    } else if name == "east"@ {
        Some("west"@)
    } else if name == "west"@ {
        Some("east"@)
    } else {
        None
    }
}

/// The handle under which `table` holds the reverse of the direction behind `direction`.
/// There is none where the handle is unknown to the table, where the direction has no
/// reverse, or where the reverse has not been interned.
pub open spec fn opposite_handle(table: Seq<Seq<char>>, direction: Handle) -> Option<Handle> {
    if direction < table.len() {
        match opposite_name(table[direction as int]) {
            Some(reverse) => if table.contains(reverse) {
                Some(table.index_of(reverse) as Handle)
            } else {
                None
            },
            None => None,
        }
    } else {
        None
    }
}

/// The four direction names are pairwise different.
pub proof fn lemma_direction_names_differ()
    ensures
        "north"@ != "south"@,
        "north"@ != "east"@,
        "north"@ != "west"@,
        "south"@ != "east"@,
        "south"@ != "west"@,
        "east"@ != "west"@,
{
    reveal_strlit("north");
    reveal_strlit("south");
    reveal_strlit("east");
    reveal_strlit("west");
    assert("north"@[0] == 'n');
    assert("south"@[0] == 's');
    assert("east"@[0] == 'e');
    assert("west"@[0] == 'w');
}

/// Reversing a direction twice gives the direction back.
pub proof fn lemma_opposite_is_involution(name: Seq<char>)
    ensures
        opposite_name(name) matches Some(reverse) ==> opposite_name(reverse) == Some(name),
{
    lemma_direction_names_differ();
}

/// The reverse of a direction name, looked up in the fixed table.
pub fn opposite_direction(name: &str) -> (reverse: Option<&'static str>)
    ensures
        match reverse {
            Some(text) => opposite_name(name@) == Some(text@),
            None => opposite_name(name@) is None,
        },
{
    let given = name.to_owned();
    if given == "north".to_owned() {
        Some("south")
    } else if given == "south".to_owned() {
        Some("north")
    } else if given == "east".to_owned() {
        Some("west")
    } else if given == "west".to_owned() {
        Some("east")
    } else {
        None
    }
}

} // verus!
