//! Paths lead through their components.

use vstd::prelude::*;
use vstd::string::*;
use vstd::utf8::*;
use crate::ext4_format::{
    after_component, component_length, directory_listing, ext4_file_at, first_component,
    inode_contents, inode_of, leading_slashes, number_from, number_in_directory, path_inode,
    requested_inode, rest_inode, symlink_path, symlink_target, trimmed, Ext4Error, Ext4Layout,
    Ext4Listing, Ext4Named, InodeRecord,
};
use crate::fat::{
    chain_data, entry_found, file_at, listing_of, match_from, path_resolved, DirectoryLocation,
    FatDirectoryEntry, FatError, FatLayout, FatNamed,
};
use crate::path::{
    components_from, components_of, same_ignoring_case, slash_from, slash_from_is_ahead,
};

verus! {

/// Whether a byte string is a name that can stand between slashes.
pub open spec fn is_component(name: Seq<u8>) -> bool {
    name.len() > 0 && forall|i: int| 0 <= i < name.len() ==> name[i] != 0x2f
}

/// The first slash behind a place, where there is one inside of the first part.
proof fn slash_is_found(path: Seq<u8>, from: int, at: int)
    requires
        0 <= from <= at <= path.len(),
        forall|i: int| from <= i < at ==> path[i] != 0x2f,
        at < path.len() ==> path[at] == 0x2f,
    ensures
        slash_from(path, from) == at,
    decreases at - from,
{
    if from < at {
        slash_is_found(path, from + 1, at);
    }
}

/// A name without slashes is its only component, and an empty path has none.
pub proof fn name_is_component(name: Seq<u8>)
    ensures
        is_component(name) ==> components_of(name) == seq![name],
        name.len() == 0 ==> components_of(name).len() == 0,
{
    if is_component(name) {
        slash_is_found(name, 0, name.len() as int);
        assert(name.subrange(0, name.len() as int) =~= name);
        assert(components_from(name, name.len() as int) =~= Seq::empty());
        assert(components_of(name) =~= seq![name]);
    }
}

/// The components of two paths with a slash between are those of the first and then those of
/// the second.
pub proof fn components_join(first: Seq<u8>, second: Seq<u8>)
    ensures
        components_of(first + seq![0x2fu8] + second) == components_of(first) + components_of(
            second,
        ),
{
    components_join_from(first, second, 0);
}

proof fn components_join_from(first: Seq<u8>, second: Seq<u8>, from: int)
    requires
        0 <= from <= first.len(),
    ensures
        components_from(first + seq![0x2fu8] + second, from) == components_from(first, from)
            + components_of(second),
    decreases first.len() - from,
{
    let path = first + seq![0x2fu8] + second;
    if from == first.len() {
        assert(path[from] == 0x2f);
        components_shift(path, second, from + 1, 0);
        assert(components_from(first, from) + components_of(second) =~= components_of(second));
    } else if first[from] == 0x2f {
        assert(path[from] == 0x2f);
        components_join_from(first, second, from + 1);
    } else {
        assert(path[from] == first[from]);
        slash_from_is_ahead(first, from);
        let end = slash_from(first, from);
        slash_is_first(first, from);
        assert forall|i: int| from <= i < end implies path[i] != 0x2f by {
            assert(path[i] == first[i]);
        }
        assert(path[end] == 0x2f) by {
            if end < first.len() {
                assert(path[end] == first[end]);
            }
        }
        slash_is_found(path, from, end);
        assert(path.subrange(from, end) =~= first.subrange(from, end));
        components_join_from(first, second, end);
        let part = seq![first.subrange(from, end)];
        assert(part + (components_from(first, end) + components_of(second)) =~= (part
            + components_from(first, end)) + components_of(second));
    }
}

/// Nothing before the first slash is one.
proof fn slash_is_first(path: Seq<u8>, from: int)
    requires
        0 <= from <= path.len(),
    ensures
        forall|i: int| from <= i < slash_from(path, from) ==> path[i] != 0x2f,
        slash_from(path, from) < path.len() ==> path[slash_from(path, from)] == 0x2f,
        from < path.len() && path[from] != 0x2f ==> from < slash_from(path, from),
    decreases path.len() - from,
{
    if from < path.len() && path[from] != 0x2f {
        slash_is_first(path, from + 1);
        slash_from_is_ahead(path, from + 1);
    }
}

/// The components of the end of a path are those of that end.
proof fn components_shift(path: Seq<u8>, tail: Seq<u8>, at: int, from: int)
    requires
        0 <= at,
        0 <= from <= tail.len(),
        path.len() == at + tail.len(),
        forall|i: int| 0 <= i < tail.len() ==> #[trigger] path[at + i] == tail[i],
    ensures
        components_from(path, at + from) == components_from(tail, from),
    decreases tail.len() - from,
{
    if from < tail.len() {
        assert(path[at + from] == tail[from]);
        if tail[from] == 0x2f {
            components_shift(path, tail, at, from + 1);
        } else {
            slash_from_is_ahead(tail, from);
            slash_is_first(tail, from);
            let end = slash_from(tail, from);
            assert forall|i: int| at + from <= i < at + end implies path[i] != 0x2f by {
                assert(path[at + (i - at)] == tail[i - at]);
            }
            if end < tail.len() {
                assert(path[at + end] == tail[end]);
            }
            slash_is_found(path, at + from, at + end);
            let left = path.subrange(at + from, at + end);
            let right = tail.subrange(from, end);
            assert forall|i: int| 0 <= i < left.len() implies left[i] == right[i] by {
                assert(path[at + (from + i)] == tail[from + i]);
            }
            assert(left =~= right);
            components_shift(path, tail, at, end);
        }
    }
}

/// Two names are the same without regard to case exactly when they have the same length and
/// each byte is the same, or is the same letter in the other case.
pub proof fn case_is_that_of_letters(left: Seq<u8>, right: Seq<u8>)
    ensures
        same_ignoring_case(left, right) <==> left.len() == right.len() && forall|i: int|
            0 <= i < left.len() ==> (#[trigger] left[i] == right[i] || (0x41 <= left[i] <= 0x5a
                && right[i] == left[i] + 0x20) || (0x41 <= right[i] <= 0x5a && left[i] == right[i]
                + 0x20)),
{
    if left.len() == right.len() {
        assert forall|i: int| 0 <= i < left.len() implies (crate::path::ascii_lower(left[i])
            == crate::path::ascii_lower(right[i])) == (#[trigger] left[i] == right[i] || (0x41
            <= left[i] <= 0x5a && right[i] == left[i] + 0x20) || (0x41 <= right[i] <= 0x5a
            && left[i] == right[i] + 0x20)) by {}
    }
}

/// A name of a FAT directory leads to the first entry of that name, without regard to case.
pub proof fn first_entry_of_name_is_found(
    medium: Seq<u8>,
    layout: FatLayout,
    location: DirectoryLocation,
    name: Seq<u8>,
    index: int,
)
    requires
        ({
            let entries = listing_of(medium, layout, location).entries;
            &&& 0 <= index < entries.len()
            &&& same_ignoring_case(entries[index].name, name)
            &&& forall|i: int| 0 <= i < index ==> !same_ignoring_case(
                (#[trigger] entries[i]).name,
                name,
            )
        }),
    ensures
        entry_found(medium, layout, location, name) == Ok::<FatDirectoryEntry, FatError>(
            listing_of(medium, layout, location).entries[index].entry,
        ),
{
    match_is_first(listing_of(medium, layout, location).entries, name, 0, index);
}

proof fn match_is_first(entries: Seq<FatNamed>, name: Seq<u8>, from: int, index: int)
    requires
        0 <= from <= index < entries.len(),
        same_ignoring_case(entries[index].name, name),
        forall|i: int| 0 <= i < index ==> !same_ignoring_case((#[trigger] entries[i]).name, name),
    ensures
        match_from(entries, name, from) == Some(entries[index].entry),
    decreases index - from,
{
    if from < index {
        match_is_first(entries, name, from + 1, index);
    }
}

/// A name that no entry of a FAT directory has is not found, where the directory could be read
/// to its end.
pub proof fn missing_name_is_not_found(
    medium: Seq<u8>,
    layout: FatLayout,
    location: DirectoryLocation,
    name: Seq<u8>,
)
    requires
        ({
            let listing = listing_of(medium, layout, location);
            &&& listing.end == Some(Ok::<(), FatError>(()))
            &&& forall|i: int| 0 <= i < listing.entries.len() ==> !same_ignoring_case(
                (#[trigger] listing.entries[i]).name,
                name,
            )
        }),
    ensures
        entry_found(medium, layout, location, name) == Err::<FatDirectoryEntry, FatError>(
            FatError::NotFound,
        ),
{
    match_is_none(listing_of(medium, layout, location).entries, name, 0);
}

proof fn match_is_none(entries: Seq<FatNamed>, name: Seq<u8>, from: int)
    requires
        0 <= from <= entries.len(),
        forall|i: int| 0 <= i < entries.len() ==> !same_ignoring_case(
            (#[trigger] entries[i]).name,
            name,
        ),
    ensures
        match_from(entries, name, from) is None,
    decreases entries.len() - from,
{
    if from < entries.len() {
        match_is_none(entries, name, from + 1);
    }
}

/// Components that go on behind a directory of a FAT volume lead from that directory on.
pub proof fn resolution_goes_on(
    medium: Seq<u8>,
    layout: FatLayout,
    location: DirectoryLocation,
    first: Seq<Seq<u8>>,
    second: Seq<Seq<u8>>,
)
    requires
        second.len() > 0,
    ensures
        match path_resolved(medium, layout, location, first) {
            Ok(entry) => path_resolved(medium, layout, location, first + second)
                == if entry.names_directory() {
                path_resolved(
                    medium,
                    layout,
                    DirectoryLocation::ClusterChain(entry.first_cluster),
                    second,
                )
            } else {
                Err(FatError::NotDirectory)
            },
            Err(error) => first.len() > 0 ==> path_resolved(
                medium,
                layout,
                location,
                first + second,
            ) == Err::<FatDirectoryEntry, FatError>(error),
        },
    decreases first.len(),
{
    let both = first + second;
    if first.len() > 0 {
        assert(both[0] == first[0]);
        assert(both.drop_first() =~= first.drop_first() + second);
        if let Ok(entry) = entry_found(medium, layout, location, first[0]) {
            if first.len() > 1 {
                resolution_goes_on(
                    medium,
                    layout,
                    DirectoryLocation::ClusterChain(entry.first_cluster),
                    first.drop_first(),
                    second,
                );
            } else {
                assert(first.drop_first() + second =~= second);
            }
        }
    }
}

/// A file of a FAT volume is read through the path of the directory that holds it: what the
/// first path leads to has to be a directory, in which the name has to be one of a file.
pub proof fn file_in_directory_is_read(
    medium: Seq<u8>,
    layout: FatLayout,
    directory: Seq<u8>,
    name: Seq<u8>,
)
    requires
        is_component(name),
        name != ".".spec_bytes(),
        name != "..".spec_bytes(),
    ensures
        ({
            let location = if components_of(directory).len() == 0 {
                Ok::<DirectoryLocation, FatError>(DirectoryLocation::RootDirectory)
            } else {
                match path_resolved(
                    medium,
                    layout,
                    DirectoryLocation::RootDirectory,
                    components_of(directory),
                ) {
                    Ok(entry) => if entry.names_directory() {
                        Ok(DirectoryLocation::ClusterChain(entry.first_cluster))
                    } else {
                        Err(FatError::NotDirectory)
                    },
                    Err(error) => Err(error),
                }
            };
            let read = file_at(medium, layout, directory + seq![0x2fu8] + name);
            match location {
                Err(error) => read == Err::<Seq<u8>, FatError>(error),
                Ok(place) => match entry_found(medium, layout, place, name) {
                    Err(error) => read == Err::<Seq<u8>, FatError>(error),
                    Ok(entry) => read == if entry.names_directory() {
                        Err(FatError::IsDirectory)
                    } else {
                        chain_data(medium, layout, entry.first_cluster, entry.file_size as nat)
                    },
                },
            }
        }),
{
    components_join(directory, name);
    name_is_component(name);
    let first = components_of(directory);
    let root = DirectoryLocation::RootDirectory;
    if first.len() == 0 {
        assert(first + seq![name] =~= seq![name]);
    } else {
        resolution_goes_on(medium, layout, root, first, seq![name]);
    }
    assert(seq![name][0] == name);
}

/// Slashes at the start of a path do not count, and nothing else is left out there.
pub proof fn leading_slash_is_trimmed(path: Seq<u8>)
    ensures
        trimmed(seq![0x2fu8] + path) == trimmed(path),
        path.len() == 0 || path[0] != 0x2f ==> trimmed(path) == path,
{
    let longer = seq![0x2fu8] + path;
    assert(longer.drop_first() =~= path);
    crate::ext4_format::trimming_shortens(path);
    assert(longer.skip((1 + leading_slashes(path)) as int) =~= path.skip(
        leading_slashes(path) as int,
    ));
    if path.len() == 0 || path[0] != 0x2f {
        assert(path.skip(0) =~= path);
    }
}

proof fn component_is_measured(path: Seq<u8>, length: int)
    requires
        0 <= length <= path.len(),
        forall|i: int| 0 <= i < length ==> path[i] != 0x2f,
        length < path.len() ==> path[length] == 0x2f,
    ensures
        component_length(path) == length,
    decreases length,
{
    if length > 0 {
        assert(path[0] != 0x2f);
        let rest = path.drop_first();
        assert forall|i: int| 0 <= i < length - 1 implies rest[i] != 0x2f by {
            assert(rest[i] == path[i + 1]);
        }
        component_is_measured(rest, length - 1);
    }
}

/// A path that starts with a name and a slash has that name as its first component, and goes
/// on behind the slashes.
pub proof fn first_component_is_split_off(name: Seq<u8>, rest: Seq<u8>)
    requires
        is_component(name),
    ensures
        first_component(name) == name,
        after_component(name).len() == 0,
        first_component(name + seq![0x2fu8] + rest) == name,
        after_component(name + seq![0x2fu8] + rest) == trimmed(rest),
{
    let path = name + seq![0x2fu8] + rest;
    component_is_measured(name, name.len() as int);
    assert(name.take(name.len() as int) =~= name);
    assert(name.skip(name.len() as int) =~= Seq::empty());
    assert(trimmed(Seq::<u8>::empty()) =~= Seq::empty());
    component_is_measured(path, name.len() as int);
    assert(path.take(name.len() as int) =~= name);
    assert(path.skip(name.len() as int) =~= seq![0x2fu8] + rest);
    leading_slash_is_trimmed(rest);
}

/// What the first component of a path is in its directory.
#[verifier::spinoff_prover]
#[verifier::rlimit(40)]
proof fn component_leads_on(
    medium: Seq<u8>,
    layout: Ext4Layout,
    current: u32,
    path: Seq<u8>,
    expansions: nat,
    directory: InodeRecord,
    number: u32,
    child: InodeRecord,
)
    requires
        path.len() > 0,
        path[0] != 0x2f,
        first_component(path) != ".".spec_bytes(),
        first_component(path) != "..".spec_bytes(),
        inode_of(medium, layout, current) == Ok::<InodeRecord, Ext4Error>(directory),
        directory.directory(),
        number_in_directory(medium, layout, directory, first_component(path)) == Ok::<
            u32,
            Ext4Error,
        >(number),
        inode_of(medium, layout, number) == Ok::<InodeRecord, Ext4Error>(child),
    ensures
        !child.symlink() ==> path_inode(medium, layout, current, path, expansions) == rest_inode(
            medium,
            layout,
            number,
            after_component(path),
            expansions,
        ),
        child.symlink() && expansions >= 8 ==> path_inode(
            medium,
            layout,
            current,
            path,
            expansions,
        ) == Err::<InodeRecord, Ext4Error>(Ext4Error::SymlinkLoop),
        child.symlink() && expansions < 8 ==> match symlink_path(
            medium,
            layout,
            child,
            after_component(path),
        ) {
            Err(error) => path_inode(medium, layout, current, path, expansions) == Err::<
                InodeRecord,
                Ext4Error,
            >(error),
            Ok(expanded) => valid_utf8(expanded) ==> path_inode(
                medium,
                layout,
                current,
                path,
                expansions,
            ) == path_inode(medium, layout, current, expanded, expansions + 1),
        },
{
    leading_slash_is_trimmed(path);
}

/// A path of an ext4 volume leads from a directory to what its first name is in that
/// directory, and from there on.
#[verifier::spinoff_prover]
#[verifier::rlimit(40)]
pub proof fn name_leads_on(
    medium: Seq<u8>,
    layout: Ext4Layout,
    current: u32,
    name: Seq<u8>,
    rest: Seq<u8>,
    expansions: nat,
    directory: InodeRecord,
    number: u32,
    child: InodeRecord,
)
    requires
        is_component(name),
        name != ".".spec_bytes(),
        name != "..".spec_bytes(),
        inode_of(medium, layout, current) == Ok::<InodeRecord, Ext4Error>(directory),
        directory.directory(),
        number_in_directory(medium, layout, directory, name) == Ok::<u32, Ext4Error>(number),
        inode_of(medium, layout, number) == Ok::<InodeRecord, Ext4Error>(child),
        !child.symlink(),
    ensures
        path_inode(medium, layout, current, name + seq![0x2fu8] + rest, expansions) == rest_inode(
            medium,
            layout,
            number,
            trimmed(rest),
            expansions,
        ),
        path_inode(medium, layout, current, name, expansions) == Ok::<InodeRecord, Ext4Error>(
            child,
        ),
{
    let path = name + seq![0x2fu8] + rest;
    first_component_is_split_off(name, rest);
    assert(path[0] == name[0]);
    component_leads_on(medium, layout, current, path, expansions, directory, number, child);
    component_leads_on(medium, layout, current, name, expansions, directory, number, child);
}

/// A symlink in a path of an ext4 volume leads to its target first, which is looked for in the
/// same directory, or from the root where it starts with a slash. What followed the symlink
/// follows the target. At most eight symlinks are followed.
#[verifier::spinoff_prover]
#[verifier::rlimit(40)]
pub proof fn symlink_leads_to_target(
    medium: Seq<u8>,
    layout: Ext4Layout,
    current: u32,
    name: Seq<u8>,
    rest: Seq<u8>,
    expansions: nat,
    directory: InodeRecord,
    number: u32,
    child: InodeRecord,
    target: Seq<u8>,
)
    requires
        is_component(name),
        name != ".".spec_bytes(),
        name != "..".spec_bytes(),
        inode_of(medium, layout, current) == Ok::<InodeRecord, Ext4Error>(directory),
        directory.directory(),
        number_in_directory(medium, layout, directory, name) == Ok::<u32, Ext4Error>(number),
        inode_of(medium, layout, number) == Ok::<InodeRecord, Ext4Error>(child),
        child.symlink(),
        symlink_target(medium, layout, child) == Ok::<Seq<u8>, Ext4Error>(target),
        target.len() > 0,
        target.last() != 0x2f,
        trimmed(rest).len() > 0,
        target.len() + 1 + trimmed(rest).len() <= 1024,
        valid_utf8(target),
        valid_utf8(target + seq![0x2fu8] + trimmed(rest)),
    ensures
        expansions >= 8 ==> path_inode(medium, layout, current, name, expansions) == Err::<
            InodeRecord,
            Ext4Error,
        >(Ext4Error::SymlinkLoop),
        expansions < 8 ==> path_inode(medium, layout, current, name, expansions) == path_inode(
            medium,
            layout,
            current,
            target,
            expansions + 1,
        ),
        expansions < 8 ==> path_inode(
            medium,
            layout,
            current,
            name + seq![0x2fu8] + rest,
            expansions,
        ) == path_inode(
            medium,
            layout,
            current,
            target + seq![0x2fu8] + trimmed(rest),
            expansions + 1,
        ),
{
    let path = name + seq![0x2fu8] + rest;
    first_component_is_split_off(name, rest);
    assert(path[0] == name[0]);
    component_leads_on(medium, layout, current, path, expansions, directory, number, child);
    component_leads_on(medium, layout, current, name, expansions, directory, number, child);
    assert(target.push(0x2fu8) + trimmed(rest) =~= target + seq![0x2fu8] + trimmed(rest));
}

/// A path of an ext4 volume that starts with slashes leads from the root directory, which is
/// inode two; a path of nothing but slashes leads to it.
pub proof fn absolute_path_starts_at_root(
    medium: Seq<u8>,
    layout: Ext4Layout,
    start: u32,
    path: Seq<u8>,
    expansions: nat,
)
    ensures
        path_inode(medium, layout, start, seq![0x2fu8] + path, expansions) == rest_inode(
            medium,
            layout,
            2,
            trimmed(path),
            expansions,
        ),
        requested_inode(medium, layout, seq![0x2fu8]) == inode_of(medium, layout, 2),
        path.len() > 0 && path[0] != 0x2f ==> requested_inode(medium, layout, path)
            == requested_inode(medium, layout, seq![0x2fu8] + path),
{
    leading_slash_is_trimmed(path);
    leading_slash_is_trimmed(Seq::<u8>::empty());
    assert(seq![0x2fu8] + Seq::<u8>::empty() =~= seq![0x2fu8]);
    assert(trimmed(Seq::<u8>::empty()) =~= Seq::<u8>::empty());
}

/// A component `.` stays in its directory, and `..` is refused.
pub proof fn dots_in_paths(
    medium: Seq<u8>,
    layout: Ext4Layout,
    current: u32,
    rest: Seq<u8>,
    expansions: nat,
)
    requires
        inode_of(medium, layout, current) matches Ok(inode) && inode.directory(),
    ensures
        path_inode(medium, layout, current, seq![0x2eu8, 0x2fu8] + rest, expansions) == rest_inode(
            medium,
            layout,
            current,
            trimmed(rest),
            expansions,
        ),
        path_inode(medium, layout, current, seq![0x2eu8, 0x2eu8, 0x2fu8] + rest, expansions)
            == Err::<InodeRecord, Ext4Error>(Ext4Error::InvalidPath),
{
    reveal_strlit(".");
    reveal_strlit("..");
    crate::linux::literal_bytes(".");
    crate::linux::literal_bytes("..");
    let dot = seq![0x2eu8];
    let dots = seq![0x2eu8, 0x2eu8];
    assert(".".spec_bytes() =~= dot) by {
        assert(".".spec_bytes()[0] == "."@[0] as u8);
    }
    assert("..".spec_bytes() =~= dots) by {
        assert("..".spec_bytes()[0] == ".."@[0] as u8);
        assert("..".spec_bytes()[1] == ".."@[1] as u8);
    }
    first_component_is_split_off(dot, rest);
    first_component_is_split_off(dots, rest);
    assert(seq![0x2eu8, 0x2fu8] + rest =~= dot + seq![0x2fu8] + rest);
    assert(seq![0x2eu8, 0x2eu8, 0x2fu8] + rest =~= dots + seq![0x2fu8] + rest);
    leading_slash_is_trimmed(dot + seq![0x2fu8] + rest);
    leading_slash_is_trimmed(dots + seq![0x2fu8] + rest);
}

/// A name of an ext4 directory leads to the first entry with that very name.
pub proof fn first_number_of_name_is_found(
    entries: Seq<Ext4Named>,
    name: Seq<u8>,
    from: int,
    index: int,
)
    requires
        0 <= from <= index < entries.len(),
        entries[index].name == name,
        forall|i: int| 0 <= i < index ==> (#[trigger] entries[i]).name != name,
    ensures
        number_from(entries, name, from) == Some(entries[index].inode_number),
    decreases index - from,
{
    if from < index {
        first_number_of_name_is_found(entries, name, from + 1, index);
    }
}

/// A name that no entry of an ext4 directory has leads to none.
pub proof fn missing_number_is_not_found(entries: Seq<Ext4Named>, name: Seq<u8>, from: int)
    requires
        0 <= from <= entries.len(),
        forall|i: int| 0 <= i < entries.len() ==> (#[trigger] entries[i]).name != name,
    ensures
        number_from(entries, name, from) is None,
    decreases entries.len() - from,
{
    if from < entries.len() {
        missing_number_is_not_found(entries, name, from + 1);
    }
}

/// A file of an ext4 volume is what the inode that its path leads to holds.
pub proof fn path_leads_to_contents(
    medium: Seq<u8>,
    layout: Ext4Layout,
    path: Seq<u8>,
    inode: InodeRecord,
)
    requires
        path.len() > 0,
        path_inode(medium, layout, 2, path, 0) == Ok::<InodeRecord, Ext4Error>(inode),
    ensures
        ext4_file_at(medium, layout, path) == inode_contents(medium, layout, inode),
{
}

/// The target of a symlink that ends with a slash is followed by the rest of the path as it
/// is, and a target with nothing to follow is taken alone.
#[verifier::spinoff_prover]
#[verifier::rlimit(40)]
pub proof fn slash_of_target_is_kept(
    medium: Seq<u8>,
    layout: Ext4Layout,
    child: InodeRecord,
    target: Seq<u8>,
    rest: Seq<u8>,
)
    requires
        symlink_target(medium, layout, child) == Ok::<Seq<u8>, Ext4Error>(target),
    ensures
        rest.len() == 0 ==> symlink_path(medium, layout, child, rest) == Ok::<Seq<u8>, Ext4Error>(
            target,
        ),
        rest.len() > 0 && target.len() > 0 && target.last() == 0x2f && target.len() + rest.len()
            <= 1024 ==> symlink_path(medium, layout, child, rest) == Ok::<Seq<u8>, Ext4Error>(
            target + rest,
        ),
        rest.len() > 0 && target.len() + 1 + rest.len() > 1025 ==> symlink_path(
            medium,
            layout,
            child,
            rest,
        ) == Err::<Seq<u8>, Ext4Error>(Ext4Error::NameTooLong),
{
}

/// A name that a directory has is found there even where records behind it are malformed; one
/// that it does not have is missing, or cannot be told where a record is malformed.
pub proof fn names_before_damage_are_found(
    medium: Seq<u8>,
    layout: Ext4Layout,
    directory: InodeRecord,
    name: Seq<u8>,
    listing: Ext4Listing,
    index: int,
)
    requires
        directory_listing(medium, layout, directory) == Ok::<Ext4Listing, Ext4Error>(listing),
        0 <= index <= listing.entries.len(),
        forall|i: int| 0 <= i < index ==> (#[trigger] listing.entries[i]).name != name,
        index < listing.entries.len() ==> listing.entries[index].name == name,
    ensures
        number_in_directory(medium, layout, directory, name) == if index < listing.entries.len() {
            Ok(listing.entries[index].inode_number)
        } else if listing.malformed {
            Err(Ext4Error::InvalidDirectoryEntry)
        } else {
            Err(Ext4Error::NotFound)
        },
{
    if index < listing.entries.len() {
        first_number_of_name_is_found(listing.entries, name, 0, index);
    } else {
        missing_number_is_not_found(listing.entries, name, 0);
    }
}

/// A path of a FAT volume that goes through `.` or `..`, or through nothing, is refused.
pub proof fn dots_are_refused(
    medium: Seq<u8>,
    layout: FatLayout,
    location: DirectoryLocation,
    components: Seq<Seq<u8>>,
)
    requires
        components.len() == 0 || components[0] == seq![0x2eu8] || components[0] == seq![
            0x2eu8,
            0x2eu8,
        ],
    ensures
        path_resolved(medium, layout, location, components) == Err::<FatDirectoryEntry, FatError>(
            FatError::InvalidPath,
        ),
{
    reveal_strlit(".");
    reveal_strlit("..");
    crate::linux::literal_bytes(".");
    crate::linux::literal_bytes("..");
    assert(".".spec_bytes() =~= seq![0x2eu8]) by {
        assert(".".spec_bytes()[0] == "."@[0] as u8);
    }
    assert("..".spec_bytes() =~= seq![0x2eu8, 0x2eu8]) by {
        assert("..".spec_bytes()[0] == ".."@[0] as u8);
        assert("..".spec_bytes()[1] == ".."@[1] as u8);
    }
}

} // verus!
