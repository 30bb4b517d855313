//! Filesystem abstractions shared by FAT and ext4.
//!
//! The filesystem-independent file operations that higher layers need when
//! opening, inspecting, and loading files from different on-disk formats.

use vstd::prelude::*;
use vstd::string::*;
use crate::linux::BootPath;
use crate::memory::{
    allocation, pages_needed, size_allocation, PageAllocator, EFI_ALLOCATE_TYPE, EFI_MEMORY_TYPE,
};
use crate::memory_map::EFI_MEMORY_DESCRIPTOR;
use crate::print::{rendered, FormatArgument};
use crate::virtio::VirtioError;

verus! {

/// Type of object referenced by one filesystem path.
#[derive(Clone, Copy, Debug, PartialEq, Eq, Structural)]
pub enum FileType {
    /// Regular file containing loadable bytes.
    File,
    /// Directory containing child entries.
    Directory,
}

/// Filesystem-independent metadata for one opened path.
#[derive(Clone, Copy, Debug, PartialEq, Eq, Structural)]
pub struct FileInfo {
    /// Whether the path resolves to a file or a directory.
    pub file_type: FileType,
    /// Size in bytes associated with the opened path.
    pub size_bytes: usize,
}

impl FileInfo {
    /// Creates one filesystem-independent file metadata record.
    pub fn new(file_type: FileType, size_bytes: usize) -> (info: Self)
        ensures
            info == (FileInfo { file_type, size_bytes }),
    {
        FileInfo { file_type, size_bytes }
    }
}

/// Shared metadata operations supported by opened filesystem paths.
pub trait FileInfoView: Sized {
    /// Metadata of the opened path.
    spec fn metadata(&self) -> FileInfo;

    /// Returns whether the opened path is a file or a directory.
    fn file_type(&self) -> (kind: FileType)
        ensures
            kind == self.metadata().file_type,
    ;

    /// Returns the size in bytes associated with the opened path.
    fn size_bytes(&self) -> (size: usize)
        ensures
            size == self.metadata().size_bytes,
    ;

    /// Returns a detached metadata snapshot for the opened path.
    fn info(&self) -> (info: FileInfo)
        ensures
            info == self.metadata(),
    {
        FileInfo::new(self.file_type(), self.size_bytes())
    }
}

impl FileInfoView for FileInfo {
    open spec fn metadata(&self) -> FileInfo {
        *self
    }

    /// Returns whether the described path is a file or a directory.
    fn file_type(&self) -> (kind: FileType) {
        self.file_type
    }

    /// Returns the recorded size in bytes.
    fn size_bytes(&self) -> (size: usize) {
        self.size_bytes
    }
}

/// File contents loaded into EFI-style pages.
pub struct LoadedFile {
    /// Page-aligned physical start address of the allocation.
    pub physical_start: u64,
    /// Number of 4 KiB pages backing the allocation.
    pub page_count: usize,
    /// Exact file size copied into the allocation.
    pub size_bytes: usize,
    /// Bytes of the whole allocation.
    pub contents: Vec<u8>,
}

impl LoadedFile {
    /// Whether the contents fill the pages and the file fits into them.
    pub open spec fn sound(&self) -> bool {
        self.contents@.len() == self.page_count * 4096 && self.size_bytes <= self.contents@.len()
    }

    /// The bytes of the file.
    pub open spec fn data(&self) -> Seq<u8> {
        self.contents@.take(self.size_bytes as int)
    }

    /// Creates one page-backed loaded file.
    pub fn new(physical_start: u64, page_count: usize, size_bytes: usize, contents: Vec<u8>) -> (
    file: Self)
        ensures
            file == (LoadedFile { physical_start, page_count, size_bytes, contents }),
    {
        LoadedFile { physical_start, page_count, size_bytes, contents }
    }

    /// Returns the page-aligned physical start address of the allocation.
    pub fn physical_start(&self) -> (address: u64)
        ensures
            address == self.physical_start,
    {
        self.physical_start
    }

    /// Returns the number of allocated 4 KiB pages.
    pub fn page_count(&self) -> (count: usize)
        ensures
            count == self.page_count,
    {
        self.page_count
    }

    /// Returns the exact file size stored in the allocation.
    pub fn size_bytes(&self) -> (size: usize)
        ensures
            size == self.size_bytes,
    {
        self.size_bytes
    }

    /// Returns the loaded file contents as a byte slice.
    pub fn bytes(&self) -> (bytes: &[u8])
        requires
            self.sound(),
        ensures
            bytes@ == self.data(),
    {
        let bytes = &self.contents.as_slice()[0..self.size_bytes];
        assert(bytes@ =~= self.data());
        bytes
    }
}

/// Whether a list of files is another one with a beginning of the walked files added.
pub open spec fn partly_listed<T>(before: Seq<T>, after: Seq<T>, walked: Seq<T>) -> bool {
    exists|count: int| 0 <= count <= walked.len() && after == before + #[trigger] walked.take(count)
}

/// A list with a beginning of the walked files added is partly listed.
pub proof fn beginning_is_partly_listed<T>(before: Seq<T>, part: Seq<T>, walked: Seq<T>)
    requires
        part.len() <= walked.len(),
        part == walked.take(part.len() as int),
    ensures
        partly_listed(before, before + part, walked),
{
}

/// Files that a walk adds behind those of its beginning are partly listed.
pub proof fn deeper_is_partly_listed<T>(
    before: Seq<T>,
    first: Seq<T>,
    deeper: Seq<T>,
    after: Seq<T>,
    walked: Seq<T>,
)
    requires
        partly_listed(before + first, after, deeper),
        first.len() + deeper.len() <= walked.len(),
        first + deeper == walked.take((first.len() + deeper.len()) as int),
    ensures
        partly_listed(before, after, walked),
{
    let count = choose|count: int|
        0 <= count <= deeper.len() && after == before + first + #[trigger] deeper.take(count);
    let part = first + deeper.take(count);
    assert(part =~= (first + deeper).take(part.len() as int));
    assert(part =~= walked.take(part.len() as int));
    assert(after =~= before + part);
    beginning_is_partly_listed(before, part, walked);
}

/// What a path of a mounted filesystem leads to.
pub struct FileState {
    /// Metadata of the path.
    pub metadata: FileInfo,
    /// Whether loading is refused before any memory is taken.
    pub refused: bool,
    /// Contents, where they can be read.
    pub data: Option<Seq<u8>>,
}

/// The bytes of a file followed by zeros up to whole pages.
pub open spec fn in_pages(data: Seq<u8>, pages: int) -> Seq<u8> {
    data + Seq::new((pages * 4096 - data.len()) as nat, |i: int| 0u8)
}

/// Whether `file` is what loading gives for a file in its state, in memory that
/// starts at `start`.
pub open spec fn loads_as(state: FileState, start: u64, file: LoadedFile) -> bool {
    &&& state.data == Some(file.data())
    &&& file.sound()
    &&& file.physical_start == start
    &&& file.size_bytes == state.metadata.size_bytes
    &&& file.page_count == pages_needed(state.metadata.size_bytes as int)
    &&& file.contents@ == in_pages(file.data(), file.page_count as int)
}

/// Filesystem that has been mounted.
pub trait MountedVolume<'d>: Sized {
    /// Error type returned by this filesystem implementation.
    type Error;

    /// What the filesystem holds.
    type Holding;

    /// What the filesystem is read from.
    type Source;

    /// Where the filesystem is read from. What is borrowed there is given back when
    /// the filesystem is not used any more.
    spec fn source(&self) -> &'d mut Self::Source;

    /// Whether the filesystem can be read from.
    spec fn readable(&self) -> bool;

    /// What the filesystem holds.
    spec fn holding(&self) -> Self::Holding;

    /// Errors that the device under the filesystem reported so far.
    spec fn device_faults(&self) -> Seq<VirtioError>;

    /// What a path leads to, if it leads anywhere.
    spec fn state_at(holding: Self::Holding, path: Seq<u8>) -> Option<FileState>;

    /// Type of the memory that files are loaded into.
    spec fn load_type() -> EFI_MEMORY_TYPE;
}

/// Whether the device reported one more error.
pub open spec fn one_more(before: Seq<VirtioError>, after: Seq<VirtioError>) -> bool {
    after.len() == before.len() + 1 && after == before.push(after[before.len() as int])
}

/// Whether a request to load a file went as it must. `granted` is the address and
/// the map that the request for memory gets. Memory that was granted stays taken
/// when the contents then cannot be read.
pub open spec fn load_kept<E>(
    state: FileState,
    granted: Result<(u64, Seq<EFI_MEMORY_DESCRIPTOR>), crate::memory::MemoryError>,
    map_before: Seq<EFI_MEMORY_DESCRIPTOR>,
    map_after: Seq<EFI_MEMORY_DESCRIPTOR>,
    faults_before: Seq<VirtioError>,
    faults_after: Seq<VirtioError>,
    outcome: Result<LoadedFile, E>,
) -> bool {
    match outcome {
        Ok(file) => faults_after == faults_before && !state.refused && (granted matches Ok((start, map))
            && map_after == map && loads_as(state, start, file)),
        Err(_) => if one_more(faults_before, faults_after) {
            !state.refused && (granted matches Ok((_, map)) && map_after == map)
        } else {
            faults_after == faults_before && if state.refused || granted is Err {
                map_after == map_before
            } else {
                state.data is None && (granted matches Ok((_, map)) && map_after == map)
            }
        },
    }
}

/// Filesystem-independent handle for one opened file or directory. The volume that
/// the path was opened in is handed to the operations that read from it.
pub trait FileHandle<'d, V: MountedVolume<'d>>: FileInfoView {
    /// What the handle stands for in a volume that holds `holding`.
    spec fn state_in(&self, holding: V::Holding) -> FileState;

    /// Loads the file into page-aligned EFI-style memory.
    fn load(&self, volume: &mut V, allocator: &mut PageAllocator<'_>) -> (outcome: Result<
        LoadedFile,
        V::Error,
    >)
        requires
            old(volume).readable(),
            old(allocator).well_formed(),
        ensures
            final(volume).readable(),
            final(volume).holding() == old(volume).holding(),
            *final(final(volume).source()) == *final(old(volume).source()),
            final(allocator).well_formed(),
            final(allocator).capacity() == old(allocator).capacity(),
            final(final(allocator).buffer())@ == final(old(allocator).buffer())@,
            load_kept(
                self.state_in(old(volume).holding()),
                size_allocation(
                    old(allocator).map(),
                    V::load_type(),
                    self.state_in(old(volume).holding()).metadata.size_bytes,
                    old(allocator).capacity(),
                ),
                old(allocator).map(),
                final(allocator).map(),
                old(volume).device_faults(),
                final(volume).device_faults(),
                outcome,
            ),
    ;

    /// Loads the file into page-aligned EFI-style memory at one fixed address.
    fn load_at(
        &self,
        volume: &mut V,
        allocator: &mut PageAllocator<'_>,
        physical_start: u64,
    ) -> (outcome: Result<LoadedFile, V::Error>)
        requires
            old(volume).readable(),
            old(allocator).well_formed(),
        ensures
            final(volume).readable(),
            final(volume).holding() == old(volume).holding(),
            *final(final(volume).source()) == *final(old(volume).source()),
            final(allocator).well_formed(),
            final(allocator).capacity() == old(allocator).capacity(),
            final(final(allocator).buffer())@ == final(old(allocator).buffer())@,
            load_kept(
                self.state_in(old(volume).holding()),
                allocation(
                    old(allocator).map(),
                    EFI_ALLOCATE_TYPE::AllocateAddress,
                    V::load_type(),
                    pages_needed(
                        self.state_in(old(volume).holding()).metadata.size_bytes as int,
                    ) as usize,
                    physical_start,
                    old(allocator).capacity(),
                ),
                old(allocator).map(),
                final(allocator).map(),
                old(volume).device_faults(),
                final(volume).device_faults(),
                outcome,
            ),
    ;
}

/// Filesystem that can open path-based file handles.
pub trait FileSystem<'d>: MountedVolume<'d> {
    /// File handle type returned by `open`.
    type File: FileHandle<'d, Self>;

    /// Opens one path as a filesystem file handle.
    fn open(&mut self, path: &str) -> (file: Result<Self::File, Self::Error>)
        requires
            old(self).readable(),
        ensures
            final(self).readable(),
            final(self).holding() == old(self).holding(),
            *final(final(self).source()) == *final(old(self).source()),
            match file {
                Ok(handle) => final(self).device_faults() == old(self).device_faults()
                    && Self::state_at(old(self).holding(), path.spec_bytes()) == Some(
                    handle.state_in(old(self).holding()),
                ) && handle.metadata() == handle.state_in(old(self).holding()).metadata,
                Err(_) => one_more(old(self).device_faults(), final(self).device_faults()) || (
                final(self).device_faults() == old(self).device_faults() && Self::state_at(
                    old(self).holding(),
                    path.spec_bytes(),
                ) is None),
            },
    ;
}

/// A loaded file: where it is and what it holds.
pub struct LoadedView {
    pub start: u64,
    pub data: Seq<u8>,
}

impl LoadedFile {
    /// Where the file is and what it holds.
    pub open spec fn shown(&self) -> LoadedView {
        LoadedView { start: self.physical_start, data: self.data() }
    }

    /// Whether the file takes the pages that it needs.
    pub open spec fn tight(&self) -> bool {
        &&& self.sound()
        &&& self.page_count == pages_needed(self.size_bytes as int)
        &&& self.contents@ == in_pages(self.data(), self.page_count as int)
    }
}

/// The first of the paths from `from` on whose file is loaded, and the memory map
/// afterwards, when the device reports no error. A path that leads nowhere, a file
/// that is refused or for which there is no memory, and a file that cannot be read
/// are passed over; the last of these keeps its memory.
pub open spec fn first_loaded<'d, V: MountedVolume<'d>>(
    holding: V::Holding,
    paths: Seq<Seq<u8>>,
    map: Seq<EFI_MEMORY_DESCRIPTOR>,
    capacity: nat,
    from: int,
) -> (Option<(int, LoadedView)>, Seq<EFI_MEMORY_DESCRIPTOR>)
    decreases paths.len() - from,
{
    if from < 0 || from >= paths.len() {
        (None, map)
    } else {
        match V::state_at(holding, paths[from]) {
            None => first_loaded::<V>(holding, paths, map, capacity, from + 1),
            Some(state) => if state.refused {
                first_loaded::<V>(holding, paths, map, capacity, from + 1)
            } else {
                match size_allocation(map, V::load_type(), state.metadata.size_bytes, capacity) {
                    Err(_) => first_loaded::<V>(holding, paths, map, capacity, from + 1),
                    Ok((start, taken)) => match state.data {
                        None => first_loaded::<V>(holding, paths, taken, capacity, from + 1),
                        Some(data) => (Some((from, LoadedView { start, data })), taken),
                    },
                }
            },
        }
    }
}

/// What trying candidates changes: the errors that the device reported so far, and the
/// memory map.
pub struct Trial {
    pub faults: Seq<VirtioError>,
    pub map: Seq<EFI_MEMORY_DESCRIPTOR>,
}

/// Whether a candidate was opened and loaded once, and this failed.
pub open spec fn candidate_failed<'d, V: MountedVolume<'d>>(
    holding: V::Holding,
    path: Seq<u8>,
    capacity: nat,
    before: Trial,
    after: Trial,
) -> bool {
    let state = V::state_at(holding, path);
    ||| {
        &&& one_more(before.faults, after.faults) || (after.faults == before.faults && state
            is None)
        &&& after.map == before.map
    }
    ||| state matches Some(state) && load_kept(
        state,
        size_allocation(before.map, V::load_type(), state.metadata.size_bytes, capacity),
        before.map,
        after.map,
        before.faults,
        after.faults,
        Err::<LoadedFile, ()>(()),
    )
}

/// Whether a candidate was opened and loaded once, and this gave `file`.
pub open spec fn candidate_loaded<'d, V: MountedVolume<'d>>(
    holding: V::Holding,
    path: Seq<u8>,
    capacity: nat,
    before: Trial,
    after: Trial,
    file: LoadedFile,
) -> bool {
    V::state_at(holding, path) matches Some(state) && load_kept(
        state,
        size_allocation(before.map, V::load_type(), state.metadata.size_bytes, capacity),
        before.map,
        after.map,
        before.faults,
        after.faults,
        Ok::<LoadedFile, ()>(file),
    )
}

/// Whether the first candidates failed one after the other; `steps` is what there was
/// before the first one and after each.
pub open spec fn candidates_failed<'d, V: MountedVolume<'d>>(
    holding: V::Holding,
    paths: Seq<Seq<u8>>,
    capacity: nat,
    steps: Seq<Trial>,
) -> bool {
    &&& 1 <= steps.len() <= paths.len() + 1
    &&& forall|i: int|
        0 <= i && i + 1 < steps.len() ==> candidate_failed::<V>(
            holding,
            paths[i],
            capacity,
            #[trigger] steps[i],
            steps[i + 1],
        )
}

/// Whether candidates were tried in order, each once, up to the first that loaded.
pub open spec fn candidates_tried<'d, V: MountedVolume<'d>>(
    holding: V::Holding,
    paths: Seq<Seq<u8>>,
    capacity: nat,
    before: Trial,
    after: Trial,
    loaded: Option<(usize, LoadedFile)>,
) -> bool {
    exists|steps: Seq<Trial>| #[trigger]
        candidates_failed::<V>(holding, paths, capacity, steps) && steps[0] == before
            && match loaded {
            None => steps.len() == paths.len() + 1 && steps.last() == after,
            Some((index, file)) => steps.len() == index + 1 && index < paths.len()
                && candidate_loaded::<V>(
                holding,
                paths[index as int],
                capacity,
                steps.last(),
                after,
                file,
            ),
        }
}

/// The texts of candidate paths.
pub open spec fn texts_of(candidates: Seq<BootPath>) -> Seq<Seq<u8>> {
    Seq::new(candidates.len(), |i: int| candidates[i].text())
}

/// Whether all candidates hold a path.
pub open spec fn all_texts(candidates: Seq<BootPath>) -> bool {
    forall|i: int| 0 <= i < candidates.len() ==> (#[trigger] candidates[i]).sound()
}

/// Loads the first file that can be opened and loaded from one filesystem and returns
/// its place among the candidates. Each candidate is tried once, and none behind the
/// one that loaded.
pub fn load_first_file<'d, F: FileSystem<'d>>(
    volume: &mut F,
    candidates: &Vec<BootPath>,
    allocator: &mut PageAllocator<'_>,
) -> (loaded: Option<(usize, LoadedFile)>)
    requires
        old(volume).readable(),
        old(allocator).well_formed(),
        all_texts(candidates@),
    ensures
        final(volume).readable(),
        final(volume).holding() == old(volume).holding(),
        *final(final(volume).source()) == *final(old(volume).source()),
        final(allocator).well_formed(),
        final(allocator).capacity() == old(allocator).capacity(),
        final(final(allocator).buffer())@ == final(old(allocator).buffer())@,
        final(volume).device_faults().len() >= old(volume).device_faults().len(),
        loaded matches Some((index, file)) ==> index < candidates@.len() && file.tight() && (
        F::state_at(old(volume).holding(), candidates@[index as int].text()) matches Some(state)
            && state.data == Some(file.data())),
        candidates_tried::<F>(
            old(volume).holding(),
            texts_of(candidates@),
            old(allocator).capacity(),
            (Trial { faults: old(volume).device_faults(), map: old(allocator).map() }),
            (Trial { faults: final(volume).device_faults(), map: final(allocator).map() }),
            loaded,
        ),
        final(volume).device_faults().len() == old(volume).device_faults().len() ==> final(
            volume
        ).device_faults() == old(volume).device_faults() && ({
            let (first, map) = first_loaded::<F>(
                old(volume).holding(),
                texts_of(candidates@),
                old(allocator).map(),
                old(allocator).capacity(),
                0,
            );
            final(allocator).map() == map && match loaded {
                Some((index, file)) => first == Some((index as int, file.shown())),
                None => first is None,
            }
        }),
{
    let ghost holding = volume.holding();
    let ghost paths = texts_of(candidates@);
    let ghost capacity = allocator.capacity();
    let ghost whole = first_loaded::<F>(holding, paths, allocator.map(), capacity, 0);
    let mut index: usize = 0;
    let ghost mut steps = seq![
        Trial { faults: volume.device_faults(), map: allocator.map() },
    ];
    while index < candidates.len()
        invariant
            candidates_failed::<F>(holding, paths, capacity, steps),
            steps.len() == index + 1,
            steps[0] == (Trial { faults: old(volume).device_faults(), map: old(allocator).map() }),
            steps.last() == (Trial { faults: volume.device_faults(), map: allocator.map() }),
            volume.readable(),
            volume.holding() == holding,
            holding == old(volume).holding(),
            *final(volume.source()) == *final(old(volume).source()),
            allocator.well_formed(),
            allocator.capacity() == capacity,
            capacity == old(allocator).capacity(),
            final(allocator.buffer())@ == final(old(allocator).buffer())@,
            all_texts(candidates@),
            paths == texts_of(candidates@),
            index <= candidates@.len(),
            volume.device_faults().len() >= old(volume).device_faults().len(),
            volume.device_faults().len() == old(volume).device_faults().len() ==> volume.device_faults()
                == old(volume).device_faults(),
            whole == first_loaded::<F>(holding, paths, old(allocator).map(), capacity, 0),
            volume.device_faults().len() == old(volume).device_faults().len() ==> whole
                == first_loaded::<F>(holding, paths, allocator.map(), capacity, index as int),
        decreases candidates@.len() - index,
    {
        let candidate = candidates[index];
        assert(candidate.sound());
        assert(paths[index as int] == candidate.text());
        if let Ok(file) = volume.open(candidate.as_str()) {
            if let Ok(loaded) = file.load(volume, allocator) {
                return Some((index, loaded));
            }
        }
        proof {
            let reached = steps;
            let next = Trial { faults: volume.device_faults(), map: allocator.map() };
            assert(candidate_failed::<F>(
                holding,
                paths[index as int],
                capacity,
                reached.last(),
                next,
            ));
            steps = reached.push(next);
            assert forall|i: int| 0 <= i && i + 1 < steps.len() implies candidate_failed::<F>(
                holding,
                paths[i],
                capacity,
                #[trigger] steps[i],
                steps[i + 1],
            ) by {
                assert(steps[i] == reached[i]);
                if i + 1 < reached.len() {
                    assert(steps[i + 1] == reached[i + 1]);
                }
            }
        }
        index += 1;
    }
    None
}

/// The line that tells of a loaded file.
pub open spec fn loaded_file_line(filesystem_name: &str, path: &str, size: usize, start: u64) -> Seq<u8> {
    rendered(
        "{}: loaded '{}', size={} @ {:#018x}".spec_bytes(),
        seq![
            FormatArgument::Str(filesystem_name),
            FormatArgument::Str(path),
            FormatArgument::Usize(size),
            FormatArgument::U64(start),
        ],
    ) + "\n".spec_bytes()
}

/// Prints one loaded file path plus size with a filesystem prefix.
pub fn print_loaded_file(
    filesystem_name: &str,
    path: &str,
    loaded_file: &LoadedFile,
    output: &mut Vec<u8>,
)
    ensures
        final(output)@ == old(output)@ + loaded_file_line(
            filesystem_name,
            path,
            loaded_file.size_bytes,
            loaded_file.physical_start,
        ),
{
    let ghost before = output@;
    let arguments = [
        FormatArgument::Str(filesystem_name),
        FormatArgument::Str(path),
        FormatArgument::Usize(loaded_file.size_bytes),
        FormatArgument::U64(loaded_file.physical_start),
    ];
    assert(arguments@ =~= seq![
        FormatArgument::Str(filesystem_name),
        FormatArgument::Str(path),
        FormatArgument::Usize(loaded_file.size_bytes),
        FormatArgument::U64(loaded_file.physical_start),
    ]);
    crate::print::println("{}: loaded '{}', size={} @ {:#018x}", &arguments, output);
    assert(output@ =~= before + loaded_file_line(
        filesystem_name,
        path,
        loaded_file.size_bytes,
        loaded_file.physical_start,
    ));
}

} // verus!
