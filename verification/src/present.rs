//! Laying out the result line: `{name=fields, name=fields}`.
//!
//! The fields of a station are text that the caller has made; this module
//! only puts names and fields together in a given order.

use vstd::prelude::*;
use crate::dispatch::contents;
use crate::table::StationTable;

verus! {

/// The byte that opens the line, `{`.
pub const OPEN: u8 = 123;

/// The byte that closes the line, `}`.
pub const CLOSE: u8 = 125;

/// The byte between a name and its fields, `=`.
pub const EQUALS: u8 = 61;

/// The first byte between two entries, `,`.
pub const COMMA: u8 = 44;

/// The second byte between two entries, a space.
pub const SPACE: u8 = 32;

/// What stands before entry number `i`: nothing before the first, a comma
/// and a space before the others.
pub open spec fn gap(i: int) -> Seq<u8> {
    if i > 0 {
        seq![COMMA, SPACE]
    } else {
        Seq::<u8>::empty()
    }
}

/// The first `upto` entries of the line: for each slot of `order` in turn the
/// station's name, `=` and its fields.
pub open spec fn entries_text(
    names: Seq<Seq<u8>>,
    fields: Seq<Seq<u8>>,
    order: Seq<usize>,
    upto: int,
) -> Seq<u8>
    decreases upto,
{
    if upto <= 0 {
        Seq::<u8>::empty()
    } else {
        entries_text(names, fields, order, upto - 1) + gap(upto - 1) + names[order[upto
            - 1] as int] + seq![EQUALS] + fields[order[upto - 1] as int]
    }
}

/// The whole line: the entries between braces.
pub open spec fn result_line(names: Seq<Seq<u8>>, fields: Seq<Seq<u8>>, order: Seq<usize>) -> Seq<
    u8,
> {
    seq![OPEN] + entries_text(names, fields, order, order.len() as int) + seq![CLOSE]
}

/// Writes the result line for the stations of `table` in the order `order`,
/// with `fields[slot]` as the text after the name of the station in `slot`.
pub fn render_line(table: &StationTable, order: &[usize], fields: &[Vec<u8>]) -> (line: Vec<u8>)
    requires
        forall|i: int|
            0 <= i < order@.len() ==> order@[i] < table.names().len() && order@[i] < fields@.len(),
    ensures
        line@ == result_line(table.names(), contents(fields@), order@),
{
    let mut line: Vec<u8> = Vec::new();
    line.push(OPEN);
    let mut i: usize = 0;
    while i < order.len()
        invariant
            i <= order@.len(),
            forall|i: int|
                0 <= i < order@.len() ==> order@[i] < table.names().len() && order@[i]
                    < fields@.len(),
            line@ == seq![OPEN] + entries_text(
                table.names(),
                contents(fields@),
                order@,
                i as int,
            ),
        decreases order@.len() - i,
    {
        let slot = order[i];
        let ghost before = line@;
        if i > 0 {
            line.push(COMMA);
            line.push(SPACE);
        }
        line.extend_from_slice(table.name(slot));
        line.push(EQUALS);
        line.extend_from_slice(fields[slot].as_slice());
        proof {
            assert(contents(fields@)[slot as int] == fields@[slot as int]@);
            assert(line@ =~= before + gap(i as int) + table.names()[slot as int] + seq![EQUALS]
                + fields@[slot as int]@);
            assert(line@ =~= seq![OPEN] + entries_text(
                table.names(),
                contents(fields@),
                order@,
                i + 1,
            ));
        }
        i = i + 1;
    }
    line.push(CLOSE);
    line
}

} // verus!
