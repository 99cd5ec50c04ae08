//! The chunk manager: which chunks make up which file, where each chunk lies on disk, and
//! which of them the network is known to hold.

use crate::address::Address;
use std::path::PathBuf;
use vstd::prelude::*;

verus! {

/// A path of the file system. It is carried along and never looked into.
#[verifier::external_type_specification]
#[verifier::external_body]
pub struct ExPathBuf(std::path::PathBuf);

/// `PathBuf::clone`: the copy is the same path.
pub assume_specification[ <std::path::PathBuf as Clone>::clone ](path: &PathBuf) -> (copy: PathBuf)
    ensures
        copy == *path,
;

/// A chunk as the scheduler sees it: its address and the file that holds its bytes.
#[derive(Debug, PartialEq, Eq)]
pub struct ChunkRef {
    pub address: Address,
    pub path: PathBuf,
}

impl Clone for ChunkRef {
    fn clone(&self) -> (copy: Self)
        ensures
            copy == *self,
    {
        ChunkRef { address: self.address, path: self.path.clone() }
    }
}

/// The chunks of `chunks` whose address is not in `done`, in their order.
pub open spec fn excluding(chunks: Seq<ChunkRef>, done: Set<Address>) -> Seq<ChunkRef>
    decreases chunks.len(),
{
    if chunks.len() == 0 {
        Seq::empty()
    } else {
        let rest = excluding(chunks.drop_last(), done);
        if done.contains(chunks.last().address) {
            rest
        } else {
            rest.push(chunks.last())
        }
    }
}

/// Whether `address` is among the first `k` of `addresses`.
pub open spec fn named_before(addresses: Seq<Address>, k: int, address: Address) -> bool {
    exists|m: int| 0 <= m < k && m < addresses.len() && addresses[m] == address
}

/// Files given by name and root address, the names as the characters they hold.
pub open spec fn named(files: Seq<(String, Address)>) -> Seq<(Seq<char>, Address)> {
    files.map_values(|file: (String, Address)| (file.0@, file.1))
}

/// Whether a chunk of `chunks` has this address.
pub open spec fn has_address(chunks: Seq<ChunkRef>, address: Address) -> bool {
    exists|i: int| 0 <= i < chunks.len() && (#[trigger] chunks[i]).address == address
}

/// `known` followed by those chunks of `new` whose address was not seen before, each once.
pub open spec fn merged(known: Seq<ChunkRef>, new: Seq<ChunkRef>) -> Seq<ChunkRef>
    decreases new.len(),
{
    if new.len() == 0 {
        known
    } else {
        let base = merged(known, new.drop_last());
        if has_address(base, new.last().address) {
            base
        } else {
            base.push(new.last())
        }
    }
}

/// The addresses of `chunks`, in their order.
pub open spec fn addresses_of(chunks: Seq<ChunkRef>) -> Seq<Address> {
    chunks.map_values(|c: ChunkRef| c.address)
}

/// No address occurs twice in `chunks`.
pub open spec fn distinct_addresses(chunks: Seq<ChunkRef>) -> bool {
    forall|i: int, j: int|
        0 <= i < j < chunks.len() ==> (#[trigger] chunks[i]).address != (#[trigger] chunks[j]).address
}

/// A file as the manager records it: its name, the address users quote to fetch it, and the
/// addresses of the chunks it is made of.
pub struct FileView {
    pub name: Seq<char>,
    pub root: Address,
    pub chunks: Seq<Address>,
}

/// The mathematical state of a [`ChunkManager`].
pub struct ChunkManagerView {
    /// The files registered, in the order they were registered.
    pub files: Seq<FileView>,
    /// Every chunk known, each address once, in the order they were first seen.
    pub chunks: Seq<ChunkRef>,
    /// The addresses of the chunks that the network holds.
    pub completed: Set<Address>,
}

impl ChunkManagerView {
    /// The manager that knows nothing.
    pub open spec fn empty() -> Self {
        ChunkManagerView { files: Seq::empty(), chunks: Seq::empty(), completed: Set::empty() }
    }

    /// Whether a chunk with this address is known.
    pub open spec fn knows(self, address: Address) -> bool {
        has_address(self.chunks, address)
    }

    /// Whether a file of this name and root address is registered.
    pub open spec fn has_file(self, name: Seq<char>, root: Address) -> bool {
        exists|i: int|
            0 <= i < self.files.len() && (#[trigger] self.files[i]).name == name && self.files[i].root
                == root
    }

    /// The state after a file was registered with the chunks it is made of. A file already
    /// registered under this name and root address changes nothing; otherwise the file is
    /// added, and those of its chunks whose address is new become known and pending.
    pub open spec fn insert_file(self, name: Seq<char>, root: Address, chunks: Seq<ChunkRef>) -> Self {
        if self.has_file(name, root) {
            self
        } else {
            ChunkManagerView {
                files: self.files.push(FileView { name, root, chunks: addresses_of(chunks) }),
                chunks: merged(self.chunks, chunks),
                completed: self.completed,
            }
        }
    }

    /// Those of `files` whose every chunk is completed, as name and root address, in order.
    pub open spec fn verified_among(self, files: Seq<FileView>) -> Seq<(Seq<char>, Address)>
        decreases files.len(),
    {
        if files.len() == 0 {
            Seq::empty()
        } else {
            let rest = self.verified_among(files.drop_last());
            if self.is_verified(files.last()) {
                rest.push((files.last().name, files.last().root))
            } else {
                rest
            }
        }
    }

    /// The registered files whose every chunk is completed, in the order of registration.
    pub open spec fn verified_files(self) -> Seq<(Seq<char>, Address)> {
        self.verified_among(self.files)
    }

    /// The chunks still to be stored, in the order they were first seen.
    pub open spec fn pending(self) -> Seq<ChunkRef> {
        excluding(self.chunks, self.completed)
    }

    /// The state after the chunks named in `addresses` were stored: those among them that are
    /// known are completed, and nothing else changes.
    pub open spec fn mark_completed(self, addresses: Set<Address>) -> Self {
        ChunkManagerView {
            completed: Set::new(
                |a: Address| self.completed.contains(a) || (addresses.contains(a) && self.knows(a)),
            ),
            ..self
        }
    }

    /// The state after the chunks named in `addresses` were found missing from the network:
    /// they are pending again.
    pub open spec fn reopen(self, addresses: Set<Address>) -> Self {
        ChunkManagerView {
            completed: Set::new(|a: Address| self.completed.contains(a) && !addresses.contains(a)),
            ..self
        }
    }

    /// Whether every chunk of `file` is completed.
    pub open spec fn is_verified(self, file: FileView) -> bool {
        forall|k: int| 0 <= k < file.chunks.len() ==> self.completed.contains(#[trigger] file.chunks[k])
    }

    /// What holds of every reachable state: no address is known twice, and only known chunks
    /// are completed.
    pub open spec fn wf(self) -> bool {
        &&& distinct_addresses(self.chunks)
        &&& forall|a: Address| self.completed.contains(a) ==> self.knows(a)
    }
}

/// One known chunk and whether the network holds it.
struct Entry {
    chunk: ChunkRef,
    completed: bool,
}

/// A file that was registered with the manager.
#[derive(Clone, Debug, PartialEq, Eq)]
pub struct FileEntry {
    pub name: String,
    pub root: Address,
    pub chunks: Vec<Address>,
}

impl View for FileEntry {
    type V = FileView;

    open spec fn view(&self) -> FileView {
        FileView { name: self.name@, root: self.root, chunks: self.chunks@ }
    }
}

/// Tracks the chunks of the files being uploaded and which of them are completed.
pub struct ChunkManager {
    files: Vec<FileEntry>,
    entries: Vec<Entry>,
}

impl View for ChunkManager {
    type V = ChunkManagerView;

    closed spec fn view(&self) -> ChunkManagerView {
        ChunkManagerView {
            files: self.files@.map_values(|f: FileEntry| f@),
            chunks: self.entries@.map_values(|e: Entry| e.chunk),
            completed: Set::new(
                |a: Address|
                    exists|i: int|
                        0 <= i < self.entries@.len() && (#[trigger] self.entries@[i]).completed
                            && self.entries@[i].chunk.address == a,
            ),
        }
    }
}

impl ChunkManager {
    /// A manager that knows no file and no chunk.
    pub fn new() -> (manager: ChunkManager)
        ensures
            manager@ == ChunkManagerView::empty(),
            manager@.wf(),
    {
        let manager = ChunkManager { files: Vec::new(), entries: Vec::new() };
        assert(manager@.files =~= Seq::empty());
        assert(manager@.chunks =~= Seq::empty());
        assert(manager@.completed =~= Set::empty());
        manager
    }

    /// Where the chunk with this address stands among the known chunks, if it is known.
    fn position(&self, address: &Address) -> (found: Option<usize>)
        ensures
            match found {
                Some(i) => i < self.entries@.len() && self.entries@[i as int].chunk.address == *address,
                None => forall|i: int|
                    0 <= i < self.entries@.len() ==> (#[trigger] self.entries@[i]).chunk.address != *address,
            },
    {
        let mut i: usize = 0;
        while i < self.entries.len()
            invariant
                i <= self.entries@.len(),
                forall|k: int| 0 <= k < i ==> (#[trigger] self.entries@[k]).chunk.address != *address,
            decreases self.entries@.len() - i,
        {
            if self.entries[i].chunk.address.same(address) {
                return Some(i);
            }
            i = i + 1;
        }
        None
    }

    /// Whether the chunk with this address is completed, if it is known.
    pub fn is_completed(&self, address: &Address) -> (completed: Option<bool>)
        requires
            self@.wf(),
        ensures
            completed is Some == self@.knows(*address),
            completed matches Some(c) ==> c == self@.completed.contains(*address),
    {
        match self.position(address) {
            Some(i) => {
                proof {
                    self.lemma_flag(i as int);
                    assert(self@.chunks[i as int].address == *address);
                }
                Some(self.entries[i].completed)
            },
            None => {
                proof {
                    if self@.knows(*address) {
                        let j = choose|j: int|
                            0 <= j < self@.chunks.len() && (#[trigger] self@.chunks[j]).address
                                == *address;
                        assert(self.entries@[j].chunk.address == *address);
                    }
                }
                None
            },
        }
    }

    /// Whether no chunk is pending.
    pub fn is_chunks_empty(&self) -> (empty: bool)
        requires
            self@.wf(),
        ensures
            empty == (self@.pending().len() == 0),
    {
        let mut i: usize = 0;
        while i < self.entries.len()
            invariant
                i <= self.entries@.len(),
                self@.wf(),
                excluding(self@.chunks.take(i as int), self@.completed).len() == 0,
            decreases self.entries@.len() - i,
        {
            proof {
                self.lemma_flag(i as int);
                lemma_excluding_step(self@.chunks, self@.completed, i as int);
            }
            if !self.entries[i].completed {
                proof {
                    lemma_excluding_grows(self@.chunks, self@.completed, i as int + 1);
                }
                return false;
            }
            i = i + 1;
        }
        assert(self@.chunks.take(i as int) =~= self@.chunks);
        true
    }

    /// The chunks still to be stored, in the order they were first seen.
    pub fn get_chunks(&self) -> (pending: Vec<ChunkRef>)
        requires
            self@.wf(),
        ensures
            pending@ == self@.pending(),
    {
        let mut pending: Vec<ChunkRef> = Vec::new();
        let mut i: usize = 0;
        while i < self.entries.len()
            invariant
                i <= self.entries@.len(),
                self@.wf(),
                pending@ == excluding(self@.chunks.take(i as int), self@.completed),
            decreases self.entries@.len() - i,
        {
            proof {
                self.lemma_flag(i as int);
                lemma_excluding_step(self@.chunks, self@.completed, i as int);
            }
            if !self.entries[i].completed {
                pending.push(self.entries[i].chunk.clone());
            }
            i = i + 1;
        }
        assert(self@.chunks.take(i as int) =~= self@.chunks);
        pending
    }

    /// Every chunk known, pending or completed, in the order they were first seen. This is
    /// the set to check against the network when a run finds nothing left to store.
    pub fn already_put_chunks(&self) -> (chunks: Vec<ChunkRef>)
        ensures
            chunks@ == self@.chunks,
    {
        let mut chunks: Vec<ChunkRef> = Vec::new();
        let mut i: usize = 0;
        while i < self.entries.len()
            invariant
                i <= self.entries@.len(),
                chunks@ == self@.chunks.take(i as int),
            decreases self.entries@.len() - i,
        {
            chunks.push(self.entries[i].chunk.clone());
            assert(self@.chunks.take(i as int + 1) =~= self@.chunks.take(i as int).push(
                self@.chunks[i as int],
            ));
            i = i + 1;
        }
        assert(self@.chunks.take(i as int) =~= self@.chunks);
        chunks
    }

    /// Records that the chunks named in `addresses` are stored on the network. Addresses
    /// that the manager does not know are passed over.
    pub fn mark_completed(&mut self, addresses: &Vec<Address>)
        requires
            old(self)@.wf(),
        ensures
            final(self)@ == old(self)@.mark_completed(addresses@.to_set()),
            final(self)@.wf(),
    {
        let mut k: usize = 0;
        while k < addresses.len()
            invariant
                k <= addresses@.len(),
                old(self)@.wf(),
                self.files == old(self).files,
                self.entries@.len() == old(self).entries@.len(),
                forall|j: int|
                    0 <= j < self.entries@.len() ==> (#[trigger] self.entries@[j]).chunk == old(
                        self,
                    ).entries@[j].chunk,
                forall|j: int|
                    0 <= j < self.entries@.len() ==> ((#[trigger] self.entries@[j]).completed <==> (old(
                        self,
                    ).entries@[j].completed || named_before(
                        addresses@,
                        k as int,
                        self.entries@[j].chunk.address,
                    ))),
            decreases addresses@.len() - k,
        {
            let found = self.position(&addresses[k]);
            let ghost before = self.entries@;
            if let Some(i) = found {
                self.entries[i].completed = true;
                assert(self.entries@[i as int].chunk == before[i as int].chunk);
                assert(forall|j: int| 0 <= j < before.len() && j != i ==> self.entries@[j] == before[j]);
            }
            proof {
                assert forall|j: int| 0 <= j < self.entries@.len() implies ((
                #[trigger] self.entries@[j]).completed <==> (old(self).entries@[j].completed
                    || named_before(addresses@, k as int + 1, self.entries@[j].chunk.address))) by {
                    let a = self.entries@[j].chunk.address;
                    assert(before[j].chunk == old(self).entries@[j].chunk);
                    assert(old(self)@.chunks[j] == old(self).entries@[j].chunk);
                    match found {
                        Some(i) => {
                            assert(old(self)@.chunks[i as int] == old(self).entries@[i as int].chunk);
                            assert(before[i as int].chunk == old(self).entries@[i as int].chunk);
                            if j < i {
                                assert(old(self)@.chunks[j].address != old(self)@.chunks[i as int].address);
                            }
                            if i < j {
                                assert(old(self)@.chunks[i as int].address != old(self)@.chunks[j].address);
                            }
                        },
                        None => {
                            assert(before[j].chunk.address != addresses@[k as int]);
                        },
                    }
                    if named_before(addresses@, k as int, a) {
                        let m = choose|m: int| 0 <= m < k && m < addresses@.len() && addresses@[m] == a;
                        assert(0 <= m < k + 1 && addresses@[m] == a);
                    }
                    if named_before(addresses@, k as int + 1, a) && !named_before(
                        addresses@,
                        k as int,
                        a,
                    ) {
                        let m = choose|m: int| 0 <= m < k + 1 && m < addresses@.len() && addresses@[m] == a;
                        assert(m == k);
                    }
                    if addresses@[k as int] == a {
                        assert(0 <= k < k + 1 && addresses@[k as int] == a);
                    }
                }
            }
            k = k + 1;
        }
        proof {
            let goal = old(self)@.mark_completed(addresses@.to_set());
            assert(self@.chunks =~= old(self)@.chunks);
            assert(self@.files =~= old(self)@.files);
            assert forall|a: Address| self@.completed.contains(a) == goal.completed.contains(a) by {
                if self@.completed.contains(a) {
                    let j = choose|j: int|
                        0 <= j < self.entries@.len() && (#[trigger] self.entries@[j]).completed
                            && self.entries@[j].chunk.address == a;
                    assert(old(self)@.chunks[j].address == a);
                    if old(self).entries@[j].completed {
                        assert(old(self)@.completed.contains(a));
                    } else {
                        assert(named_before(addresses@, addresses@.len() as int, a));
                        let m = choose|m: int| 0 <= m < addresses@.len() && addresses@[m] == a;
                        assert(addresses@.contains(a));
                    }
                }
                if goal.completed.contains(a) {
                    if old(self)@.completed.contains(a) {
                        let j = choose|j: int|
                            0 <= j < old(self).entries@.len() && (#[trigger] old(
                                self,
                            ).entries@[j]).completed && old(self).entries@[j].chunk.address == a;
                        assert(self.entries@[j].completed);
                    } else {
                        let j = choose|j: int|
                            0 <= j < old(self)@.chunks.len() && (#[trigger] old(self)@.chunks[j]).address
                                == a;
                        let m = choose|m: int| 0 <= m < addresses@.len() && addresses@[m] == a;
                        assert(self.entries@[j].chunk.address == a);
                        assert(named_before(addresses@, addresses@.len() as int, a));
                        assert(self.entries@[j].completed);
                    }
                }
            }
            assert(self@.completed =~= goal.completed);
            assert forall|a: Address| goal.completed.contains(a) implies goal.knows(a) by {
                if old(self)@.completed.contains(a) {
                    assert(old(self)@.knows(a));
                }
            }
        }
    }

    /// Whether a file of this name and root address is registered.
    fn has_file(&self, name: &String, root: &Address) -> (found: bool)
        ensures
            found == self@.has_file(name@, *root),
    {
        let mut i: usize = 0;
        while i < self.files.len()
            invariant
                i <= self.files@.len(),
                forall|k: int|
                    0 <= k < i ==> !((#[trigger] self@.files[k]).name == name@ && self@.files[k].root
                        == *root),
            decreases self.files@.len() - i,
        {
            assert(self@.files[i as int] == self.files@[i as int]@);
            if self.files[i].name == *name && self.files[i].root.same(root) {
                return true;
            }
            i = i + 1;
        }
        false
    }

    /// Registers a file with the chunks it was split into. Registering the same file again
    /// changes nothing, so a path can be chunked anew on every run.
    pub fn insert_file(&mut self, name: String, root: Address, chunks: &Vec<ChunkRef>)
        requires
            old(self)@.wf(),
        ensures
            final(self)@ == old(self)@.insert_file(name@, root, chunks@),
            final(self)@.wf(),
    {
        if self.has_file(&name, &root) {
            return ;
        }
        let mut addresses: Vec<Address> = Vec::new();
        let mut k: usize = 0;
        while k < chunks.len()
            invariant
                k <= chunks@.len(),
                self.files == old(self).files,
                self@.wf(),
                self@.completed == old(self)@.completed,
                self@.chunks == merged(old(self)@.chunks, chunks@.take(k as int)),
                addresses@ == addresses_of(chunks@.take(k as int)),
            decreases chunks@.len() - k,
        {
            let ghost before = *self;
            let found = self.position(&chunks[k].address);
            proof {
                assert(chunks@.take(k as int + 1).drop_last() =~= chunks@.take(k as int));
                assert(chunks@.take(k as int + 1).last() == chunks@[k as int]);
                if has_address(before@.chunks, chunks@[k as int].address) {
                    let j = choose|j: int|
                        0 <= j < before@.chunks.len() && (#[trigger] before@.chunks[j]).address
                            == chunks@[k as int].address;
                    assert(before.entries@[j].chunk.address == chunks@[k as int].address);
                }
                if found is Some {
                    assert(before@.chunks[found->0 as int].address == chunks@[k as int].address);
                }
            }
            if found.is_none() {
                self.entries.push(Entry { chunk: chunks[k].clone(), completed: false });
                proof {
                    assert(self@.chunks =~= before@.chunks.push(chunks@[k as int]));
                    assert(self@.files =~= before@.files);
                    assert forall|a: Address| self@.completed.contains(a) == before@.completed.contains(
                        a,
                    ) by {
                        if self@.completed.contains(a) {
                            let j = choose|j: int|
                                0 <= j < self.entries@.len() && (#[trigger] self.entries@[j]).completed
                                    && self.entries@[j].chunk.address == a;
                            assert(before.entries@[j].completed);
                        }
                        if before@.completed.contains(a) {
                            let j = choose|j: int|
                                0 <= j < before.entries@.len() && (#[trigger] before.entries@[j]).completed
                                    && before.entries@[j].chunk.address == a;
                            assert(self.entries@[j].completed);
                        }
                    }
                    assert(self@.completed =~= before@.completed);
                    assert forall|a: Address| self@.completed.contains(a) implies self@.knows(a) by {
                        assert(before@.completed.contains(a));
                        assert(before@.knows(a));
                        let j = choose|j: int|
                            0 <= j < before@.chunks.len() && (#[trigger] before@.chunks[j]).address == a;
                        assert(self@.chunks[j].address == a);
                    }
                    assert forall|i: int, j: int| 0 <= i < j < self@.chunks.len() implies (
                    #[trigger] self@.chunks[i]).address != (#[trigger] self@.chunks[j]).address by {
                        if j == before@.chunks.len() {
                            assert(before@.chunks[i].address != chunks@[k as int].address);
                        } else {
                            assert(before@.chunks[i].address != before@.chunks[j].address);
                        }
                    }
                }
            }
            addresses.push(chunks[k].address);
            proof {
                assert(addresses@ =~= addresses_of(chunks@.take(k as int + 1)));
            }
            k = k + 1;
        }
        assert(chunks@.take(k as int) =~= chunks@);
        let ghost before = *self;
        self.files.push(FileEntry { name, root, chunks: addresses });
        proof {
            assert(self@.chunks =~= before@.chunks);
            assert(self@.completed =~= before@.completed);
            assert(self@.files =~= old(self)@.files.push(
                FileView { name: name@, root, chunks: addresses_of(chunks@) },
            ));
            assert(before@.wf());
            assert(self@.chunks == before@.chunks);
            assert forall|a: Address| self@.completed.contains(a) implies self@.knows(a) by {
                assert(before@.completed.contains(a));
                assert(before@.knows(a));
            }
        }
    }

    /// Whether every chunk named in `addresses` is completed.
    fn all_completed(&self, addresses: &Vec<Address>) -> (all: bool)
        requires
            self@.wf(),
        ensures
            all == (forall|k: int|
                0 <= k < addresses@.len() ==> self@.completed.contains(#[trigger] addresses@[k])),
    {
        let mut k: usize = 0;
        while k < addresses.len()
            invariant
                k <= addresses@.len(),
                self@.wf(),
                forall|m: int| 0 <= m < k ==> self@.completed.contains(#[trigger] addresses@[m]),
            decreases addresses@.len() - k,
        {
            let found = self.position(&addresses[k]);
            match found {
                Some(i) => {
                    proof {
                        self.lemma_flag(i as int);
                    }
                    if !self.entries[i].completed {
                        return false;
                    }
                },
                None => {
                    proof {
                        if self@.completed.contains(addresses@[k as int]) {
                            let j = choose|j: int|
                                0 <= j < self@.chunks.len() && (#[trigger] self@.chunks[j]).address
                                    == addresses@[k as int];
                            assert(self.entries@[j].chunk.address == addresses@[k as int]);
                        }
                    }
                    return false;
                },
            }
            k = k + 1;
        }
        true
    }

    /// The files whose every chunk is completed, as name and root address, in the order
    /// they were registered.
    pub fn verified_files(&self) -> (files: Vec<(String, Address)>)
        requires
            self@.wf(),
        ensures
            named(files@) == self@.verified_files(),
    {
        let mut files: Vec<(String, Address)> = Vec::new();
        assert(named(files@) =~= Seq::empty());
        let mut i: usize = 0;
        while i < self.files.len()
            invariant
                i <= self.files@.len(),
                self@.wf(),
                named(files@) == self@.verified_among(self@.files.take(i as int)),
            decreases self.files@.len() - i,
        {
            proof {
                assert(self@.files.take(i as int + 1).drop_last() =~= self@.files.take(i as int));
                assert(self@.files.take(i as int + 1).last() == self.files@[i as int]@);
            }
            let verified = self.all_completed(&self.files[i].chunks);
            proof {
                let file = self.files@[i as int]@;
                let named = self.files@[i as int].chunks@;
                assert(file.chunks == named);
                if verified {
                    assert forall|k: int| 0 <= k < file.chunks.len() implies self@.completed.contains(
                        #[trigger] file.chunks[k],
                    ) by {
                        assert(self@.completed.contains(named[k]));
                    }
                } else {
                    let k = choose|k: int| 0 <= k < named.len() && !self@.completed.contains(named[k]);
                    assert(!self@.completed.contains(file.chunks[k]));
                }
                assert(verified == self@.is_verified(file));
            }
            if verified {
                let ghost before = files@;
                files.push((self.files[i].name.clone(), self.files[i].root));
                assert(named(files@) =~= named(before).push(
                    (self.files@[i as int].name@, self.files@[i as int].root),
                ));
            }
            i = i + 1;
        }
        assert(self@.files.take(i as int) =~= self@.files);
        files
    }

    /// Records that the chunks named in `addresses` were not found on the network: they
    /// are pending again.
    pub fn reopen(&mut self, addresses: &Vec<Address>)
        requires
            old(self)@.wf(),
        ensures
            final(self)@ == old(self)@.reopen(addresses@.to_set()),
            final(self)@.wf(),
    {
        let mut k: usize = 0;
        while k < addresses.len()
            invariant
                k <= addresses@.len(),
                old(self)@.wf(),
                self.files == old(self).files,
                self.entries@.len() == old(self).entries@.len(),
                forall|j: int|
                    0 <= j < self.entries@.len() ==> (#[trigger] self.entries@[j]).chunk == old(
                        self,
                    ).entries@[j].chunk,
                forall|j: int|
                    0 <= j < self.entries@.len() ==> ((#[trigger] self.entries@[j]).completed <==> (old(
                        self,
                    ).entries@[j].completed && !named_before(
                        addresses@,
                        k as int,
                        self.entries@[j].chunk.address,
                    ))),
            decreases addresses@.len() - k,
        {
            let found = self.position(&addresses[k]);
            let ghost before = self.entries@;
            if let Some(i) = found {
                self.entries[i].completed = false;
                assert(self.entries@[i as int].chunk == before[i as int].chunk);
                assert(forall|j: int| 0 <= j < before.len() && j != i ==> self.entries@[j] == before[j]);
            }
            proof {
                assert forall|j: int| 0 <= j < self.entries@.len() implies ((
                #[trigger] self.entries@[j]).completed <==> (old(self).entries@[j].completed
                    && !named_before(addresses@, k as int + 1, self.entries@[j].chunk.address))) by {
                    let a = self.entries@[j].chunk.address;
                    assert(before[j].chunk == old(self).entries@[j].chunk);
                    assert(old(self)@.chunks[j] == old(self).entries@[j].chunk);
                    match found {
                        Some(i) => {
                            assert(old(self)@.chunks[i as int] == old(self).entries@[i as int].chunk);
                            assert(before[i as int].chunk == old(self).entries@[i as int].chunk);
                            if j < i {
                                assert(old(self)@.chunks[j].address != old(self)@.chunks[i as int].address);
                            }
                            if i < j {
                                assert(old(self)@.chunks[i as int].address != old(self)@.chunks[j].address);
                            }
                        },
                        None => {
                            assert(before[j].chunk.address != addresses@[k as int]);
                        },
                    }
                    if named_before(addresses@, k as int, a) {
                        let m = choose|m: int| 0 <= m < k && m < addresses@.len() && addresses@[m] == a;
                        assert(0 <= m < k + 1 && addresses@[m] == a);
                    }
                    if named_before(addresses@, k as int + 1, a) && !named_before(
                        addresses@,
                        k as int,
                        a,
                    ) {
                        let m = choose|m: int|
                            0 <= m < k + 1 && m < addresses@.len() && addresses@[m] == a;
                        assert(m == k);
                    }
                    if addresses@[k as int] == a {
                        assert(0 <= k < k + 1 && addresses@[k as int] == a);
                    }
                }
            }
            k = k + 1;
        }
        proof {
            let goal = old(self)@.reopen(addresses@.to_set());
            assert(self@.chunks =~= old(self)@.chunks);
            assert(self@.files =~= old(self)@.files);
            assert forall|a: Address| self@.completed.contains(a) == goal.completed.contains(a) by {
                if self@.completed.contains(a) {
                    let j = choose|j: int|
                        0 <= j < self.entries@.len() && (#[trigger] self.entries@[j]).completed
                            && self.entries@[j].chunk.address == a;
                    assert(old(self).entries@[j].completed);
                    assert(old(self)@.completed.contains(a));
                    if addresses@.contains(a) {
                        let m = choose|m: int| 0 <= m < addresses@.len() && addresses@[m] == a;
                        assert(named_before(addresses@, addresses@.len() as int, a));
                    }
                }
                if goal.completed.contains(a) {
                    let j = choose|j: int|
                        0 <= j < old(self).entries@.len() && (#[trigger] old(self).entries@[j]).completed
                            && old(self).entries@[j].chunk.address == a;
                    if named_before(addresses@, addresses@.len() as int, a) {
                        let m = choose|m: int| 0 <= m < addresses@.len() && addresses@[m] == a;
                        assert(addresses@.contains(a));
                    }
                    assert(self.entries@[j].completed);
                }
            }
            assert(self@.completed =~= goal.completed);
            assert forall|a: Address| goal.completed.contains(a) implies goal.knows(a) by {
                assert(old(self)@.knows(a));
            }
        }
    }

    /// The flag of a known chunk says whether its address is completed.
    proof fn lemma_flag(&self, i: int)
        requires
            self@.wf(),
            0 <= i < self.entries@.len(),
        ensures
            self@.chunks[i] == self.entries@[i].chunk,
            self@.completed.contains(self.entries@[i].chunk.address) == self.entries@[i].completed,
    {
        if self@.completed.contains(self.entries@[i].chunk.address) {
            let j = choose|j: int|
                0 <= j < self.entries@.len() && (#[trigger] self.entries@[j]).completed
                    && self.entries@[j].chunk.address == self.entries@[i].chunk.address;
            assert(self@.chunks[j].address == self@.chunks[i].address);
            if j < i {
                assert(self@.chunks[j].address != self@.chunks[i].address);
            }
            if i < j {
                assert(self@.chunks[i].address != self@.chunks[j].address);
            }
        }
    }
}

/// Taking one more chunk into account adds it to the result exactly when it is not done.
pub proof fn lemma_excluding_step(chunks: Seq<ChunkRef>, done: Set<Address>, i: int)
    requires
        0 <= i < chunks.len(),
    ensures
        excluding(chunks.take(i + 1), done) == if done.contains(chunks[i].address) {
            excluding(chunks.take(i), done)
        } else {
            excluding(chunks.take(i), done).push(chunks[i])
        },
{
    assert(chunks.take(i + 1).drop_last() =~= chunks.take(i));
}

/// The result for a prefix is no longer than the result for the whole.
pub proof fn lemma_excluding_grows(chunks: Seq<ChunkRef>, done: Set<Address>, i: int)
    requires
        0 <= i <= chunks.len(),
    ensures
        excluding(chunks.take(i), done).len() <= excluding(chunks, done).len(),
    decreases chunks.len() - i,
{
    if i == chunks.len() {
        assert(chunks.take(i) =~= chunks);
    } else {
        lemma_excluding_step(chunks, done, i);
        lemma_excluding_grows(chunks, done, i + 1);
    }
}

/// Leaving chunks out makes a sequence no longer.
pub proof fn lemma_excluding_shrinks(chunks: Seq<ChunkRef>, done: Set<Address>)
    ensures
        excluding(chunks, done).len() <= chunks.len(),
    decreases chunks.len(),
{
    if chunks.len() > 0 {
        lemma_excluding_shrinks(chunks.drop_last(), done);
    }
}

/// Every chunk of the result is a chunk of the input whose address is not done.
pub proof fn lemma_excluding_members(chunks: Seq<ChunkRef>, done: Set<Address>)
    ensures
        forall|k: int|
            0 <= k < excluding(chunks, done).len() ==> chunks.contains(
                #[trigger] excluding(chunks, done)[k],
            ) && !done.contains(excluding(chunks, done)[k].address),
    decreases chunks.len(),
{
    if chunks.len() > 0 {
        lemma_excluding_members(chunks.drop_last(), done);
        let rest = excluding(chunks.drop_last(), done);
        assert forall|k: int| 0 <= k < excluding(chunks, done).len() implies chunks.contains(
            #[trigger] excluding(chunks, done)[k],
        ) && !done.contains(excluding(chunks, done)[k].address) by {
            if k < rest.len() {
                assert(chunks.drop_last().contains(rest[k]));
                let i = choose|i: int| 0 <= i < chunks.drop_last().len() && chunks.drop_last()[i] == rest[k];
                assert(chunks[i] == rest[k]);
            } else {
                assert(chunks[chunks.len() - 1] == chunks.last());
            }
        }
    }
}

/// A chunk of the input whose address is not done is a chunk of the result.
pub proof fn lemma_excluding_keeps(chunks: Seq<ChunkRef>, done: Set<Address>, i: int)
    requires
        0 <= i < chunks.len(),
        !done.contains(chunks[i].address),
    ensures
        excluding(chunks, done).contains(chunks[i]),
    decreases chunks.len(),
{
    let rest = excluding(chunks.drop_last(), done);
    if i == chunks.len() - 1 {
        assert(excluding(chunks, done)[rest.len() as int] == chunks[i]);
    } else {
        lemma_excluding_keeps(chunks.drop_last(), done, i);
        let k = choose|k: int| 0 <= k < rest.len() && rest[k] == chunks.drop_last()[i];
        assert(excluding(chunks, done)[k] == chunks[i]);
    }
}

/// Leaving chunks out of a sequence without repeated addresses leaves none repeated.
pub proof fn lemma_excluding_distinct(chunks: Seq<ChunkRef>, done: Set<Address>)
    requires
        distinct_addresses(chunks),
    ensures
        distinct_addresses(excluding(chunks, done)),
    decreases chunks.len(),
{
    if chunks.len() > 0 {
        let front = chunks.drop_last();
        let rest = excluding(front, done);
        assert(distinct_addresses(front)) by {
            assert forall|i: int, j: int| 0 <= i < j < front.len() implies (#[trigger] front[i]).address != (
            #[trigger] front[j]).address by {
                assert(chunks[i].address != chunks[j].address);
            }
        }
        lemma_excluding_distinct(front, done);
        lemma_excluding_members(front, done);
        let out = excluding(chunks, done);
        assert forall|i: int, j: int| 0 <= i < j < out.len() implies (#[trigger] out[i]).address != (
        #[trigger] out[j]).address by {
            if j < rest.len() {
                assert(rest[i].address != rest[j].address);
            } else {
                assert(front.contains(rest[i]));
                let p = choose|p: int| 0 <= p < front.len() && front[p] == rest[i];
                assert(chunks[p].address != chunks[chunks.len() - 1].address);
            }
        }
    }
}

impl ChunkManagerView {
    /// Completing chunks keeps the state well formed.
    pub proof fn lemma_mark_completed_wf(self, addresses: Set<Address>)
        requires
            self.wf(),
        ensures
            self.mark_completed(addresses).wf(),
    {
        let after = self.mark_completed(addresses);
        assert forall|a: Address| after.completed.contains(a) implies after.knows(a) by {
            if self.completed.contains(a) {
                assert(self.knows(a));
            }
        }
    }

    /// The pending chunks have no address twice.
    pub proof fn lemma_pending_distinct(self)
        requires
            self.wf(),
        ensures
            distinct_addresses(self.pending()),
    {
        lemma_excluding_distinct(self.chunks, self.completed);
    }
}

impl ChunkManagerView {
    /// Registering a file once more changes nothing.
    pub proof fn lemma_insert_file_again(self, name: Seq<char>, root: Address, chunks: Seq<ChunkRef>)
        ensures
            self.insert_file(name, root, chunks).insert_file(name, root, chunks) == self.insert_file(
                name,
                root,
                chunks,
            ),
    {
        let once = self.insert_file(name, root, chunks);
        if !self.has_file(name, root) {
            let last = once.files.len() - 1;
            assert(once.files[last].name == name && once.files[last].root == root);
        }
    }

    /// A chunk that is completed stays completed when more chunks are completed, and a
    /// chunk that is named and known is completed afterwards.
    pub proof fn lemma_mark_completed_grows(self, addresses: Set<Address>, address: Address)
        ensures
            self.completed.contains(address) ==> self.mark_completed(addresses).completed.contains(
                address,
            ),
            addresses.contains(address) && self.knows(address) ==> self.mark_completed(
                addresses,
            ).completed.contains(address),
            self.mark_completed(addresses).chunks == self.chunks,
            self.mark_completed(addresses).files == self.files,
    {
    }

    /// The pending chunks are the known chunks that are not completed: each of them is
    /// known and not completed, and each known chunk that is not completed is among them.
    pub proof fn lemma_pending_is_the_rest(self, chunk: ChunkRef)
        ensures
            self.pending().contains(chunk) <==> self.chunks.contains(chunk)
                && !self.completed.contains(chunk.address),
    {
        lemma_excluding_members(self.chunks, self.completed);
        if self.chunks.contains(chunk) && !self.completed.contains(chunk.address) {
            let i = choose|i: int| 0 <= i < self.chunks.len() && self.chunks[i] == chunk;
            lemma_excluding_keeps(self.chunks, self.completed, i);
        }
        if self.pending().contains(chunk) {
            let k = choose|k: int| 0 <= k < self.pending().len() && self.pending()[k] == chunk;
            assert(self.chunks.contains(self.pending()[k]));
        }
    }
}

/// Merging keeps the chunks that were known where they were.
pub proof fn lemma_merged_keeps(known: Seq<ChunkRef>, new: Seq<ChunkRef>)
    ensures
        merged(known, new).len() >= known.len(),
        forall|j: int| 0 <= j < known.len() ==> merged(known, new)[j] == known[j],
    decreases new.len(),
{
    if new.len() > 0 {
        lemma_merged_keeps(known, new.drop_last());
    }
}

/// After merging, the address of every new chunk is known.
pub proof fn lemma_merged_has_all(known: Seq<ChunkRef>, new: Seq<ChunkRef>, i: int)
    requires
        0 <= i < new.len(),
    ensures
        has_address(merged(known, new), new[i].address),
    decreases new.len(),
{
    let base = merged(known, new.drop_last());
    if i == new.len() - 1 {
        if !has_address(base, new.last().address) {
            assert(merged(known, new)[base.len() as int].address == new[i].address);
        }
    } else {
        lemma_merged_has_all(known, new.drop_last(), i);
        let j = choose|j: int| 0 <= j < base.len() && (#[trigger] base[j]).address == new[i].address;
        assert(merged(known, new)[j].address == new[i].address);
    }
}

impl ChunkManagerView {
    /// A registered file whose every chunk is completed is among the verified files.
    pub proof fn lemma_verified_is_listed(self, i: int)
        requires
            0 <= i < self.files.len(),
            self.is_verified(self.files[i]),
        ensures
            self.verified_files().contains((self.files[i].name, self.files[i].root)),
    {
        self.lemma_verified_among(self.files, i);
    }

    /// A file of `files` whose every chunk is completed is among the verified of `files`.
    proof fn lemma_verified_among(self, files: Seq<FileView>, i: int)
        requires
            0 <= i < files.len(),
            self.is_verified(files[i]),
        ensures
            self.verified_among(files).contains((files[i].name, files[i].root)),
        decreases files.len(),
    {
        let rest = self.verified_among(files.drop_last());
        if i == files.len() - 1 {
            assert(self.verified_among(files)[rest.len() as int] == (files[i].name, files[i].root));
        } else {
            self.lemma_verified_among(files.drop_last(), i);
            let k = choose|k: int|
                0 <= k < rest.len() && rest[k] == (files.drop_last()[i].name, files.drop_last()[i].root);
            assert(self.verified_among(files)[k] == (files[i].name, files[i].root));
        }
    }
}

} // verus!
