//! Paths lead through the nodes of a device tree one by one.

use vstd::prelude::*;
use crate::bytes::be32_bytes;
use crate::dtb_change::clone_pages;
use crate::fdt_nodes::{
    child_named, descendant, node_at, node_at_path, parts_are_some, parts_from, path_names,
    path_parts, property_number, property_of, NodeSpan,
};
use crate::records::{be32_stored, stored};

verus! {

/// Whether a name can be part of a path.
pub open spec fn part_of_path(name: Seq<u8>) -> bool {
    &&& name.len() > 0
    &&& forall|i: int| 0 <= i < name.len() ==> name[i] != 0x2f
}

/// What has no slash is one part.
proof fn plain_tail_is_one_part(path: Seq<u8>, start: int, cursor: int)
    requires
        0 <= start <= cursor <= path.len(),
        forall|i: int| cursor <= i < path.len() ==> path[i] != 0x2f,
    ensures
        parts_from(path, start, cursor) == seq![path.subrange(start, path.len() as int)],
    decreases path.len() - cursor,
{
    if cursor < path.len() {
        plain_tail_is_one_part(path, start, cursor + 1);
    }
}

/// A slash and a name behind a path make one more part.
proof fn name_is_one_more_part(path: Seq<u8>, name: Seq<u8>, start: int, cursor: int)
    requires
        0 <= start <= cursor <= path.len(),
        part_of_path(name),
    ensures
        parts_from(path + seq![0x2fu8] + name, start, cursor) == parts_from(
            path,
            start,
            cursor,
        ).push(name),
    decreases path.len() - cursor,
{
    let whole = path + seq![0x2fu8] + name;
    if cursor < path.len() {
        assert(whole[cursor] == path[cursor]);
        if path[cursor] == 0x2f {
            name_is_one_more_part(path, name, cursor + 1, cursor + 1);
            let part = seq![path.subrange(start, cursor)];
            let rest = parts_from(path, cursor + 1, cursor + 1);
            assert(whole.subrange(start, cursor) =~= path.subrange(start, cursor));
            assert(part + rest.push(name) =~= (part + rest).push(name));
        } else {
            name_is_one_more_part(path, name, start, cursor + 1);
        }
    } else {
        let end = path.len() as int;
        assert(whole[end] == 0x2f);
        assert forall|i: int| end + 1 <= i < whole.len() implies whole[i] != 0x2f by {
            assert(whole[i] == name[i - end - 1]);
        }
        plain_tail_is_one_part(whole, end + 1, end + 1);
        assert(whole.subrange(end + 1, whole.len() as int) =~= name);
        assert(whole.subrange(start, end) =~= path.subrange(start, end));
        assert(seq![path.subrange(start, end)] + seq![name] =~= seq![path.subrange(start, end)].push(
            name,
        ));
    }
}

/// One more name leads to one more child.
proof fn name_leads_to_child(structure: Seq<u8>, node: NodeSpan, names: Seq<Seq<u8>>, name: Seq<u8>)
    requires
        part_of_path(name),
    ensures
        descendant(structure, node, names.push(name)) == match descendant(structure, node, names) {
            Some(found) => child_named(structure, found, name),
            None => None,
        },
    decreases names.len(),
{
    let all = names.push(name);
    if names.len() == 0 {
        assert(all.drop_first() =~= Seq::empty());
        if let Some(child) = child_named(structure, node, name) {
            assert(descendant(structure, child, all.drop_first()) == Some(child));
        }
    } else {
        assert(all[0] == names[0]);
        assert(all.drop_first() =~= names.drop_first().push(name));
        if let Some(child) = child_named(structure, node, names[0]) {
            name_leads_to_child(structure, child, names.drop_first(), name);
        }
    }
}

/// The path `/` leads to the root, and a name behind it to a child of the root.
pub proof fn path_starts_at_root(structure: Seq<u8>, name: Seq<u8>)
    requires
        part_of_path(name),
    ensures
        node_at_path(structure, seq![0x2fu8]) == node_at(structure, 0),
        node_at_path(structure, seq![0x2fu8] + name) == match node_at(structure, 0) {
            Some(root) => child_named(structure, root, name),
            None => None,
        },
{
    let none = Seq::<u8>::empty();
    let path = seq![0x2fu8] + name;
    name_is_one_more_part(none, name, 0, 0);
    assert(none + seq![0x2fu8] + name =~= path);
    assert(path_parts(path)[0].len() == 0);
    assert(path_parts(path).drop_first() =~= Seq::empty().push(name));
    assert(path.len() > 1);
    if let Some(root) = node_at(structure, 0) {
        assert(descendant(structure, root, Seq::empty()) == Some(root));
        name_leads_to_child(structure, root, Seq::empty(), name);
    }
}

/// A slash and a name behind a path lead from the node at the path to its child of that name.
pub proof fn path_leads_to_child(structure: Seq<u8>, path: Seq<u8>, name: Seq<u8>)
    requires
        path.len() > 1,
        path[0] == 0x2f,
        part_of_path(name),
    ensures
        node_at_path(structure, path + seq![0x2fu8] + name) == match node_at_path(structure, path) {
            Some(node) => child_named(structure, node, name),
            None => None,
        },
{
    let whole = path + seq![0x2fu8] + name;
    name_is_one_more_part(path, name, 0, 0);
    parts_are_some(path, 0, 0);
    assert(path_parts(path)[0] =~= Seq::empty());
    assert(path_parts(whole)[0] =~= Seq::empty());
    let names = path_parts(path).drop_first();
    assert(path_parts(whole).drop_first() =~= names.push(name));
    assert(path != seq![0x2fu8] && whole != seq![0x2fu8]);
    assert(path_names(path) == Some(names));
    if let Some(root) = node_at(structure, 0) {
        name_leads_to_child(structure, root, names, name);
    }
}

/// A path that does not begin with a slash leads nowhere.
pub proof fn relative_path_leads_nowhere(structure: Seq<u8>, path: Seq<u8>)
    requires
        path.len() > 0,
        path[0] != 0x2f,
    ensures
        node_at_path(structure, path) is None,
{
    first_part_has_first_byte(path, 1);
}

proof fn first_part_has_first_byte(path: Seq<u8>, cursor: int)
    requires
        0 < cursor <= path.len(),
    ensures
        parts_from(path, 0, cursor).len() > 0,
        parts_from(path, 0, cursor)[0].len() > 0,
    decreases path.len() - cursor,
{
    if cursor < path.len() && path[cursor] != 0x2f {
        first_part_has_first_byte(path, cursor + 1);
    }
}

/// A property that begins with a stored number has that number, and one with fewer than four
/// bytes has none.
pub proof fn stored_number_is_read(
    structure: Seq<u8>,
    strings: Seq<u8>,
    node: NodeSpan,
    name: Seq<u8>,
    number: u32,
    rest: Seq<u8>,
)
    ensures
        property_of(structure, strings, node, name) == Some(be32_bytes(number) + rest)
            ==> property_number(structure, strings, node, name) == Some(number),
        property_of(structure, strings, node, name) matches Some(value) && value.len() < 4
            ==> property_number(structure, strings, node, name) is None,
        property_of(structure, strings, node, name) is None ==> property_number(
            structure,
            strings,
            node,
            name,
        ) is None,
{
    let value = be32_bytes(number) + rest;
    assert(stored(value, 0, be32_bytes(number))) by {
        reveal(stored);
        assert(value.subrange(0, be32_bytes(number).len() as int) =~= be32_bytes(number));
    }
    be32_stored(value, 0, number);
}

/// A copy gets the fewest pages that hold it.
pub proof fn copy_fills_its_pages(size: int)
    requires
        0 <= size,
    ensures
        size <= clone_pages(size) * 4096 < size + 4096,
{
}

} // verus!
