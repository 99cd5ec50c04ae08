//! What the chunk store keeps on disk, so that a later run finds what an earlier run left.
//!
//! The bytes of a chunk lie in the directory [`CHUNKS_DIR`] under the name of its address
//! in hex, until the chunk is known to be stored. For each file that was split, a record in
//! the directory [`FILES_DIR`], under the name of the file's root address in hex, tells the
//! name of the file and the addresses of its chunks.

use crate::address::{
    hex_encoded, lemma_array_of, lemma_hex_round_trip, parsed_address, Address, AddressError,
};
use crate::chunks::{addresses_of, ChunkManager, ChunkManagerView, ChunkRef};
use crate::manifest::{
    clean, format_line, lemma_line_is_writable, lemma_line_round_trip, line_of, parse_line, parsed_line,
    plain, LineError,
};
use crate::lines::{join_lines, joined, lemma_lines_of_joined, lines_of, split_lines, writable};
use vstd::prelude::*;

verus! {

/// The directory of the chunks, under the root of the store.
pub const CHUNKS_DIR: &'static str = "chunks";

/// The directory of the records of files, under the root of the store.
pub const FILES_DIR: &'static str = "files";

/// What the store records of a file.
#[derive(Clone, Debug, PartialEq, Eq)]
pub struct FileRecord {
    /// The name of the file, as bytes.
    pub name: Vec<u8>,
    /// The root address of the file.
    pub root: Address,
    /// The addresses of the chunks of the file, in order.
    pub chunks: Vec<Address>,
}

/// A record as a mathematical value.
pub struct FileRecordView {
    pub name: Seq<u8>,
    pub root: Address,
    pub chunks: Seq<Address>,
}

impl View for FileRecord {
    type V = FileRecordView;

    open spec fn view(&self) -> FileRecordView {
        FileRecordView { name: self.name@, root: self.root, chunks: self.chunks@ }
    }
}

/// Why the lines of a record were not understood.
#[derive(Clone, Copy, Debug, PartialEq, Eq)]
pub enum RecordError {
    /// The record has no line.
    Empty,
    /// The first line does not give an address and a name.
    BadHeader(LineError),
    /// The line at `line` is not an address.
    BadChunk { line: usize, reason: AddressError },
}

/// The lines of a record: the root address and the name as in the manifest, then the
/// address of each chunk in hex, a line each.
pub open spec fn record_lines(record: FileRecordView) -> Seq<Seq<u8>> {
    seq![line_of(record.root, record.name)] + record.chunks.map_values(
        |address: Address| hex_encoded(address@),
    )
}

/// Whether each of the first `upto` lines after the first is an address.
pub open spec fn chunk_lines_good(lines: Seq<Seq<u8>>, upto: int) -> bool {
    forall|i: int| 1 <= i < upto ==> parsed_address(#[trigger] lines[i]) is Ok
}

/// The first line after the first that is not an address, if there is one.
pub open spec fn first_bad_line(lines: Seq<Seq<u8>>) -> int {
    choose|i: int|
        1 <= i < lines.len() && parsed_address(lines[i]) is Err && chunk_lines_good(lines, i)
}

/// What the lines of a record say.
pub open spec fn parsed_record(lines: Seq<Seq<u8>>) -> Result<FileRecordView, RecordError> {
    if lines.len() == 0 {
        Err(RecordError::Empty)
    } else {
        match parsed_line(lines[0]) {
            Err(error) => Err(RecordError::BadHeader(error)),
            Ok((root, name)) => {
                if chunk_lines_good(lines, lines.len() as int) {
                    Ok(
                        FileRecordView {
                            name,
                            root,
                            chunks: Seq::new(
                                (lines.len() - 1) as nat,
                                |i: int| parsed_address(lines[i + 1])->Ok_0,
                            ),
                        },
                    )
                } else {
                    let bad = first_bad_line(lines);
                    Err(
                        RecordError::BadChunk {
                            line: bad as usize,
                            reason: parsed_address(lines[bad])->Err_0,
                        },
                    )
                }
            },
        }
    }
}

/// Writes the lines of a record.
pub fn format_record(record: &FileRecord) -> (lines: Vec<Vec<u8>>)
    ensures
        crate::lines::texts(lines@) == record_lines(record@),
{
    let mut lines: Vec<Vec<u8>> = Vec::new();
    lines.push(format_line(&record.root, record.name.as_slice()));
    let mut i: usize = 0;
    while i < record.chunks.len()
        invariant
            i <= record.chunks@.len(),
            lines@.len() == i + 1,
            lines@[0]@ == line_of(record.root, record.name@),
            forall|k: int| 0 <= k < i ==> (#[trigger] lines@[k + 1])@ == hex_encoded(record.chunks@[k]@),
        decreases record.chunks@.len() - i,
    {
        lines.push(record.chunks[i].to_hex());
        i = i + 1;
    }
    assert(crate::lines::texts(lines@) =~= record_lines(record@)) by {
        assert forall|k: int| 0 <= k < lines@.len() implies crate::lines::texts(lines@)[k]
            == record_lines(record@)[k] by {
            if k > 0 {
                assert(lines@[(k - 1) + 1]@ == hex_encoded(record.chunks@[k - 1]@));
            }
        }
    }
    lines
}

/// Reads a record from its lines.
pub fn parse_record(lines: &Vec<Vec<u8>>) -> (parsed: Result<FileRecord, RecordError>)
    ensures
        match parsed {
            Ok(record) => parsed_record(crate::lines::texts(lines@)) == Ok::<
                FileRecordView,
                RecordError,
            >(record@),
            Err(error) => parsed_record(crate::lines::texts(lines@)) == Err::<
                FileRecordView,
                RecordError,
            >(error),
        },
{
    let ghost texts = crate::lines::texts(lines@);
    if lines.len() == 0 {
        return Err(RecordError::Empty);
    }
    assert(texts[0] == lines@[0]@);
    let header = match parse_line(lines[0].as_slice()) {
        Ok(header) => header,
        Err(error) => {
            return Err(RecordError::BadHeader(error));
        },
    };
    let mut chunks: Vec<Address> = Vec::new();
    let mut i: usize = 1;
    while i < lines.len()
        invariant
            1 <= i <= lines@.len(),
            texts == crate::lines::texts(lines@),
            parsed_line(texts[0]) == Ok::<(Address, Seq<u8>), LineError>((header.address, header.name@)),
            chunk_lines_good(texts, i as int),
            chunks@.len() == i - 1,
            forall|k: int| 0 <= k < i - 1 ==> chunks@[k] == parsed_address(texts[k + 1])->Ok_0,
        decreases lines@.len() - i,
    {
        assert(texts[i as int] == lines@[i as int]@);
        match Address::from_hex(lines[i].as_slice()) {
            Ok(address) => {
                chunks.push(address);
            },
            Err(reason) => {
                proof {
                    let bad = first_bad_line(texts);
                    assert(1 <= i < texts.len() && parsed_address(texts[i as int]) is Err
                        && chunk_lines_good(texts, i as int));
                    if bad < i {
                        assert(parsed_address(texts[bad]) is Ok);
                    }
                    if i < bad {
                        assert(parsed_address(texts[i as int]) is Ok);
                    }
                    assert(bad == i);
                    assert(!chunk_lines_good(texts, texts.len() as int));
                }
                return Err(RecordError::BadChunk { line: i, reason });
            },
        }
        i = i + 1;
    }
    let record = FileRecord { name: header.name, root: header.address, chunks };
    assert(record@.chunks =~= Seq::new(
        (texts.len() - 1) as nat,
        |k: int| parsed_address(texts[k + 1])->Ok_0,
    ));
    Ok(record)
}

/// A record that was written is read back as it was, if the name holds no colon that a
/// space follows.
pub proof fn lemma_record_round_trip(record: FileRecordView)
    requires
        plain(record.name),
    ensures
        parsed_record(record_lines(record)) == Ok::<FileRecordView, RecordError>(record),
{
    let lines = record_lines(record);
    lemma_line_round_trip(record.root, record.name);
    assert(lines[0] == line_of(record.root, record.name));
    assert forall|i: int| 1 <= i < lines.len() implies parsed_address(#[trigger] lines[i]) == Ok::<
        Address,
        AddressError,
    >(record.chunks[i - 1]) by {
        let address = record.chunks[i - 1];
        assert(lines[i] == hex_encoded(address@));
        lemma_hex_round_trip(address@);
        lemma_array_of(address.0);
    }
    assert(chunk_lines_good(lines, lines.len() as int));
    let read = parsed_record(lines)->Ok_0;
    assert(read.chunks =~= record.chunks);
}

impl ChunkManagerView {
    /// The state after a file of an earlier run was found again: the file is registered
    /// with its chunks, and those of them whose bytes are no longer on disk are completed.
    pub open spec fn restore_file(
        self,
        name: Seq<char>,
        root: Address,
        chunks: Seq<ChunkRef>,
        on_disk: Seq<bool>,
    ) -> Self {
        self.insert_file(name, root, chunks).mark_completed(gone(chunks, on_disk))
    }
}

/// The addresses of the chunks whose bytes are not on disk.
pub open spec fn gone(chunks: Seq<ChunkRef>, on_disk: Seq<bool>) -> Set<Address> {
    Set::new(
        |address: Address|
            exists|i: int|
                0 <= i < chunks.len() && i < on_disk.len() && !on_disk[i] && (#[trigger] chunks[i]).address
                    == address,
    )
}

impl ChunkManager {
    /// Registers a file that an earlier run has split. `on_disk` tells for each of its
    /// chunks, in their order, whether the bytes are still there; a chunk whose bytes are gone
    /// was stored, for the store removes the bytes of no other chunk. A chunk of which
    /// `on_disk` tells nothing is taken to be there.
    pub fn restore_file(&mut self, name: String, root: Address, chunks: &Vec<ChunkRef>, on_disk: &Vec<bool>)
        requires
            old(self)@.wf(),
        ensures
            final(self)@.wf(),
            final(self)@ == old(self)@.restore_file(name@, root, chunks@, on_disk@),
    {
        self.insert_file(name, root, chunks);
        let mut stored: Vec<Address> = Vec::new();
        let mut i: usize = 0;
        while i < chunks.len()
            invariant
                i <= chunks@.len(),
                stored@.to_set() == gone(chunks@.take(i as int), on_disk@),
            decreases chunks@.len() - i,
        {
            let ghost before = stored@;
            if i < on_disk.len() && !on_disk[i] {
                stored.push(chunks[i].address);
            }
            proof {
                let front = chunks@.take(i as int);
                let more = chunks@.take(i as int + 1);
                assert forall|a: Address| stored@.to_set().contains(a) == gone(more, on_disk@).contains(
                    a,
                ) by {
                    if stored@.to_set().contains(a) {
                        let k = choose|k: int| 0 <= k < stored@.len() && stored@[k] == a;
                        if k < before.len() {
                            assert(before.to_set().contains(a));
                            let j = choose|j: int|
                                0 <= j < front.len() && j < on_disk@.len() && !on_disk@[j] && (
                                #[trigger] front[j]).address == a;
                            assert(more[j].address == a);
                        } else {
                            assert(more[i as int].address == a);
                        }
                    }
                    if gone(more, on_disk@).contains(a) {
                        let j = choose|j: int|
                            0 <= j < more.len() && j < on_disk@.len() && !on_disk@[j] && (
                            #[trigger] more[j]).address == a;
                        if j < i {
                            assert(front[j].address == a);
                            assert(gone(front, on_disk@).contains(a));
                            assert(before.to_set().contains(a));
                            let k = choose|k: int| 0 <= k < before.len() && before[k] == a;
                            assert(stored@[k] == a);
                        } else {
                            assert(stored@[stored@.len() - 1] == a);
                        }
                    }
                }
                assert(stored@.to_set() =~= gone(more, on_disk@));
            }
            i = i + 1;
        }
        assert(chunks@.take(i as int) =~= chunks@);
        self.mark_completed(&stored);
    }
}

/// A file of an earlier run of whose chunks none is left on disk is found verified: a run
/// that stored everything leaves nothing for the next run to store.
pub proof fn lemma_restored_when_all_gone(
    manager: ChunkManagerView,
    name: Seq<char>,
    root: Address,
    chunks: Seq<ChunkRef>,
    on_disk: Seq<bool>,
)
    requires
        on_disk.len() == chunks.len(),
        forall|i: int| 0 <= i < on_disk.len() ==> !on_disk[i],
        !manager.has_file(name, root),
    ensures
        ({
            let restored = manager.restore_file(name, root, chunks, on_disk);
            &&& restored.files.len() == manager.files.len() + 1
            &&& restored.files.last() == crate::chunks::FileView { name, root, chunks: addresses_of(chunks) }
            &&& restored.is_verified(restored.files.last())
            &&& restored.verified_files().contains((name, root))
        }),
{
    let inserted = manager.insert_file(name, root, chunks);
    let restored = manager.restore_file(name, root, chunks, on_disk);
    let file = restored.files.last();
    assert forall|k: int| 0 <= k < file.chunks.len() implies restored.completed.contains(
        #[trigger] file.chunks[k],
    ) by {
        crate::chunks::lemma_merged_has_all(manager.chunks, chunks, k);
        assert(chunks[k].address == file.chunks[k]);
        assert(gone(chunks, on_disk).contains(chunks[k].address));
    }
    restored.lemma_verified_is_listed(restored.files.len() - 1);
}

/// Writes a record as the bytes of its file.
pub fn write_record(record: &FileRecord) -> (content: Vec<u8>)
    ensures
        content@ == joined(record_lines(record@)),
{
    let lines = format_record(record);
    join_lines(&lines)
}

/// Reads a record from the bytes of its file.
pub fn read_record(content: &[u8]) -> (parsed: Result<FileRecord, RecordError>)
    ensures
        match parsed {
            Ok(record) => parsed_record(lines_of(content@)) == Ok::<FileRecordView, RecordError>(
                record@,
            ),
            Err(error) => parsed_record(lines_of(content@)) == Err::<FileRecordView, RecordError>(
                error,
            ),
        },
{
    let lines = split_lines(content);
    parse_record(&lines)
}

/// The file of a record is read back as the record, if the name can stand in a manifest.
pub proof fn lemma_record_file_round_trip(record: FileRecordView)
    requires
        clean(record.name),
    ensures
        parsed_record(lines_of(joined(record_lines(record)))) == Ok::<FileRecordView, RecordError>(
            record,
        ),
{
    let lines = record_lines(record);
    assert forall|k: int| 0 <= k < lines.len() implies writable(#[trigger] lines[k]) by {
        if k == 0 {
            lemma_line_is_writable(record.root, record.name);
        } else {
            let address = record.chunks[k - 1];
            assert(lines[k] == hex_encoded(address@));
            lemma_hex_round_trip(address@);
            assert forall|i: int| 0 <= i < lines[k].len() implies lines[k][i]
                != crate::lines::NEWLINE by {
                assert(crate::address::is_hex_digit(lines[k][i]));
            }
            assert(crate::address::is_hex_digit(lines[k][lines[k].len() - 1]));
        }
    }
    lemma_lines_of_joined(lines);
    lemma_record_round_trip(record);
}

} // verus!
