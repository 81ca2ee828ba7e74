//! What the simulation tells in words: the destruction of a colony, and the colonies
//! that are left at the end.

use crate::agents::Destruction;
use crate::errors::SimulationError;
use crate::graph::{has_tunnel, GraphModel, WorldGraph};
use crate::symbols::{name_of, Handle, SymbolTable};
use vstd::prelude::*;
use vstd::string::StringExecFns;

verus! {

/// The character of a decimal digit.
pub open spec fn digit(value: nat) -> char {
    if value == 0 {
        '0'
    } else if value == 1 {
        '1'
    } else if value == 2 {
        '2'
    } else if value == 3 {
        '3'
    } else if value == 4 {
        '4'
    } else if value == 5 {
        '5'
    } else if value == 6 {
        '6'
    } else if value == 7 {
        '7'
    } else if value == 8 {
        '8'
    } else {
        '9'
    }
}

/// A number written in decimal digits, without leading zeros.
pub open spec fn decimal(number: nat) -> Seq<char>
    decreases number,
{
    if number < 10 {
        seq![digit(number)]
    } else {
        decimal(number / 10).push(digit(number % 10))
    }
}

/// The text that tells of a destruction: the name of the colony, and the two ants.
pub open spec fn destruction_text(colony: Seq<char>, first: nat, second: nat) -> Seq<char> {
    colony + " has been destroyed by ant "@ + decimal(first) + " and ant "@ + decimal(second)
        + "!"@
}

/// The part of a colony's line that tells of its tunnel in the direction named
/// `direction`: the direction, an equals sign, the name of the destination and a space.
/// It is empty where the table does not hold the direction or the colony has no tunnel
/// in it. There is none where the destination has no name.
pub open spec fn tunnel_text(
    graph: GraphModel,
    table: Seq<Seq<char>>,
    colony: Handle,
    direction: Seq<char>,
) -> Option<Seq<char>> {
    if table.contains(direction) && has_tunnel(
        graph,
        colony,
        table.index_of(direction) as Handle,
    ) {
        match name_of(table, graph[colony][table.index_of(direction) as Handle] as int) {
            Some(destination) => Some(direction + "="@ + destination + " "@),
            None => None,
        }
    } else {
        Some(Seq::empty())
    }
}

/// The line that tells of a colony: its name and a space, then its tunnels to the north,
/// south, east and west, in this order. There is none where the colony or one of these
/// destinations has no name.
pub open spec fn colony_text(graph: GraphModel, table: Seq<Seq<char>>, colony: Handle) -> Option<
    Seq<char>,
> {
    match (
        name_of(table, colony as int),
        tunnel_text(graph, table, colony, "north"@),
        tunnel_text(graph, table, colony, "south"@),
        tunnel_text(graph, table, colony, "east"@),
        tunnel_text(graph, table, colony, "west"@),
    ) {
        (Some(name), Some(north), Some(south), Some(east), Some(west)) => Some(
            name + " "@ + north + south + east + west,
        ),
        _ => None,
    }
}

/// The character of a decimal digit.
pub fn digit_char(value: usize) -> (c: char)
    requires
        value < 10,
    ensures
        c == digit(value as nat),
{
    if value == 0 {
        '0'
    } else if value == 1 {
        '1'
    } else if value == 2 {
        '2'
    } else if value == 3 {
        '3'
    } else if value == 4 {
        '4'
    } else if value == 5 {
        '5'
    } else if value == 6 {
        '6'
    } else if value == 7 {
        '7'
    } else if value == 8 {
        '8'
    } else {
        '9'
    }
}

/// Appends a number in decimal digits to a text.
pub fn push_decimal(text: &mut String, number: usize)
    ensures
        final(text)@ == old(text)@ + decimal(number as nat),
    decreases number,
{
    if number >= 10 {
        push_decimal(text, number / 10);
    }
    text.push(digit_char(number % 10));
    assert(final(text)@ =~= old(text)@ + decimal(number as nat));
}

/// Tells of a destruction in words. That fails where the table has no name for the
/// colony.
pub fn describe_destruction(record: &Destruction, symbols: &SymbolTable) -> (told: Result<
    String,
    SimulationError,
>)
    requires
        symbols.wf(),
    ensures
        match told {
            Ok(text) => match name_of(symbols@, record.colony as int) {
                Some(colony) => text@ == destruction_text(
                    colony,
                    record.first as nat,
                    record.second as nat,
                ),
                None => false,
            },
            Err(e) => e == SimulationError::UnknownHandle && name_of(
                symbols@,
                record.colony as int,
            ) is None,
        },
{
    let mut text = match symbols.resolve(record.colony) {
        Ok(name) => name,
        Err(e) => {
            return Err(e);
        },
    };
    text.append(" has been destroyed by ant ");
    push_decimal(&mut text, record.first);
    text.append(" and ant ");
    push_decimal(&mut text, record.second);
    text.append("!");
    Ok(text)
}

/// Appends to a line what tells of the colony's tunnel in one direction, if it has one.
/// That fails, and leaves the line as it is, where the destination has no name.
pub fn push_tunnel(
    line: &mut String,
    graph: &WorldGraph,
    symbols: &SymbolTable,
    colony: Handle,
    direction: &str,
) -> (pushed: Result<(), SimulationError>)
    requires
        symbols.wf(),
    ensures
        match pushed {
            Ok(_) => match tunnel_text(graph@, symbols@, colony, direction@) {
                Some(text) => final(line)@ == old(line)@ + text,
                None => false,
            },
            Err(e) => e == SimulationError::UnknownHandle && tunnel_text(
                graph@,
                symbols@,
                colony,
                direction@,
            ) is None && final(line)@ == old(line)@,
        },
{
    let found = match symbols.lookup(direction) {
        Some(handle) => graph.destination(colony, handle),
        None => None,
    };
    match found {
        Some(end) => {
            let name = match symbols.resolve(end) {
                Ok(name) => name,
                Err(e) => {
                    return Err(e);
                },
            };
            line.append(direction);
            line.append("=");
            line.append(name.as_str());
            line.append(" ");
            assert(final(line)@ =~= old(line)@ + (direction@ + "="@ + name@ + " "@));
        },
        None => {
            assert(final(line)@ =~= old(line)@ + Seq::<char>::empty());
        },
    }
    Ok(())
}

/// Tells of a colony in one line: its name, and its tunnels to the north, south, east and
/// west. That fails where the table has no name for the colony or for the destination of
/// one of these tunnels.
pub fn describe_colony(graph: &WorldGraph, symbols: &SymbolTable, colony: Handle) -> (told: Result<
    String,
    SimulationError,
>)
    requires
        symbols.wf(),
    ensures
        match told {
            Ok(text) => colony_text(graph@, symbols@, colony) == Some(text@),
            Err(e) => e == SimulationError::UnknownHandle && colony_text(graph@, symbols@, colony)
                is None,
        },
{
    let mut line = match symbols.resolve(colony) {
        Ok(name) => name,
        Err(e) => {
            return Err(e);
        },
    };
    line.append(" ");
    match push_tunnel(&mut line, graph, symbols, colony, "north") {
        Ok(_) => {},
        Err(e) => {
            return Err(e);
        },
    }
    match push_tunnel(&mut line, graph, symbols, colony, "south") {
        Ok(_) => {},
        Err(e) => {
            return Err(e);
        },
    }
    match push_tunnel(&mut line, graph, symbols, colony, "east") {
        Ok(_) => {},
        Err(e) => {
            return Err(e);
        },
    }
    match push_tunnel(&mut line, graph, symbols, colony, "west") {
        Ok(_) => {},
        Err(e) => {
            return Err(e);
        },
    }
    Ok(line)
}

} // verus!
