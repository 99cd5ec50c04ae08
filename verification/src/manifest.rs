//! The manifest of uploaded files: one line for each file, its root address in hex, a colon
//! and a space, and its name.
//!
//! The manifest is only ever appended to. Read back, it is a mapping from address to name in
//! which the last line for an address counts.

use crate::address::{
    hex_encoded, is_hex, is_hex_digit, lemma_array_of, lemma_hex_round_trip, parsed_address, Address,
    AddressError,
};
use crate::lines::{
    ends_a_line, join_lines, joined, lemma_appended_lines, lines_of, split_lines, texts, writable,
    CARRIAGE_RETURN, NEWLINE,
};
use vstd::prelude::*;
use vstd::slice::{slice_subrange, slice_to_vec};

verus! {

/// The colon that ends the address of a line.
pub const COLON: u8 = 0x3a;

/// The space that follows the colon.
pub const SPACE: u8 = 0x20;

/// A line of the manifest that was understood.
#[derive(Clone, Debug, PartialEq, Eq)]
pub struct ManifestEntry {
    /// The root address of the file.
    pub address: Address,
    /// The name of the file, as its bytes stand in the line.
    pub name: Vec<u8>,
}

/// Why a line of the manifest was not understood.
#[derive(Clone, Copy, Debug, PartialEq, Eq)]
pub enum LineError {
    /// The line does not hold a colon and a space exactly once.
    Malformed,
    /// The text before the colon is not an address.
    BadAddress(AddressError),
}

/// Whether a colon and a space stand at `i` of `line`.
pub open spec fn separator_at(line: Seq<u8>, i: int) -> bool {
    0 <= i && i + 1 < line.len() && line[i] == COLON && line[i + 1] == SPACE
}

/// Whether a colon and a space stand at `i` of `line` and nowhere else.
pub open spec fn splits_at(line: Seq<u8>, i: int) -> bool {
    separator_at(line, i) && forall|j: int| separator_at(line, j) ==> j == i
}

/// Whether `name` holds no colon that a space follows.
pub open spec fn plain(name: Seq<u8>) -> bool {
    forall|j: int| !separator_at(name, j)
}

/// The line that records a file: its address in lowercase hex, a colon, a space, its name.
pub open spec fn line_of(address: Address, name: Seq<u8>) -> Seq<u8> {
    hex_encoded(address@) + seq![COLON, SPACE] + name
}

/// What a line of the manifest says: an address and a name where a colon and a space part
/// it in two exactly once and the first part is an address.
pub open spec fn parsed_line(line: Seq<u8>) -> Result<(Address, Seq<u8>), LineError> {
    if exists|i: int| splits_at(line, i) {
        let i = choose|i: int| splits_at(line, i);
        match parsed_address(line.take(i)) {
            Ok(address) => Ok((address, line.skip(i + 2))),
            Err(error) => Err(LineError::BadAddress(error)),
        }
    } else {
        Err(LineError::Malformed)
    }
}

/// A text of hex digits, a colon, a space and a name without a colon that a space follows
/// is parted exactly once, where the hex digits end.
proof fn lemma_parted_after_hex(hex: Seq<u8>, name: Seq<u8>)
    requires
        is_hex(hex),
        forall|j: int| !separator_at(name, j),
    ensures
        splits_at(hex + seq![COLON, SPACE] + name, hex.len() as int),
        (hex + seq![COLON, SPACE] + name).take(hex.len() as int) == hex,
        (hex + seq![COLON, SPACE] + name).skip(hex.len() as int + 2) == name,
{
    let line = hex + seq![COLON, SPACE] + name;
    let n = hex.len() as int;
    assert(line[n] == COLON && line[n + 1] == SPACE);
    assert forall|j: int| separator_at(line, j) implies j == n by {
        if j < n {
            assert(line[j] == hex[j]);
            assert(is_hex_digit(hex[j]));
        } else if j == n + 1 {
            assert(line[n + 1] == SPACE);
        } else if j >= n + 2 {
            assert(line[j] == name[j - n - 2]);
            assert(line[j + 1] == name[j - n - 2 + 1]);
            assert(separator_at(name, j - n - 2));
        }
    }
    assert(line.take(n) =~= hex);
    assert(line.skip(n + 2) =~= name);
}

/// A line written for a file is read back as that file, if the name holds no colon that a
/// space follows.
pub proof fn lemma_line_round_trip(address: Address, name: Seq<u8>)
    requires
        plain(name),
    ensures
        parsed_line(line_of(address, name)) == Ok::<(Address, Seq<u8>), LineError>((address, name)),
{
    let hex = hex_encoded(address@);
    let line = line_of(address, name);
    lemma_hex_round_trip(address@);
    lemma_parted_after_hex(hex, name);
    assert(hex.len() == 64);
    let i = choose|i: int| splits_at(line, i);
    assert(i == 64);
    lemma_array_of(address.0);
}

/// The line that records a file in the manifest.
pub fn format_line(address: &Address, name: &[u8]) -> (line: Vec<u8>)
    ensures
        line@ == line_of(*address, name@),
{
    let mut line = address.to_hex();
    line.push(COLON);
    line.push(SPACE);
    let ghost head = line@;
    let mut i: usize = 0;
    while i < name.len()
        invariant
            i <= name@.len(),
            line@ == head + name@.take(i as int),
        decreases name@.len() - i,
    {
        line.push(name[i]);
        assert(name@.take(i as int + 1) =~= name@.take(i as int).push(name@[i as int]));
        assert(line@ =~= head + name@.take(i as int + 1));
        i = i + 1;
    }
    assert(name@.take(i as int) =~= name@);
    assert(head =~= hex_encoded(address@) + seq![COLON, SPACE]);
    line
}

/// Where a colon and a space first stand in `line` at `from` or later.
fn find_separator(line: &[u8], from: usize) -> (found: Option<usize>)
    ensures
        match found {
            Some(i) => from <= i && i + 1 < line@.len() && separator_at(line@, i as int) && forall|j: int|
                from <= j < i ==> !separator_at(line@, j),
            None => forall|j: int| from <= j ==> !separator_at(line@, j),
        },
{
    let mut i: usize = from;
    while i < line.len() && i + 1 < line.len()
        invariant
            from <= i,
            forall|j: int| from <= j < i ==> !separator_at(line@, j),
        decreases line@.len() - i,
    {
        if line[i] == COLON && line[i + 1] == SPACE {
            return Some(i);
        }
        i = i + 1;
    }
    None
}

/// Reads a line of the manifest.
pub fn parse_line(line: &[u8]) -> (parsed: Result<ManifestEntry, LineError>)
    ensures
        match parsed {
            Ok(entry) => parsed_line(line@) == Ok::<(Address, Seq<u8>), LineError>(
                (entry.address, entry.name@),
            ),
            Err(error) => parsed_line(line@) == Err::<(Address, Seq<u8>), LineError>(error),
        },
{
    let end = line.len();
    let first = match find_separator(line, 0) {
        Some(first) => first,
        None => {
            return Err(LineError::Malformed);
        },
    };
    if find_separator(line, first + 1).is_some() {
        return Err(LineError::Malformed);
    }
    proof {
        assert(splits_at(line@, first as int));
        let i = choose|i: int| splits_at(line@, i);
        assert(i == first);
    }
    match Address::from_hex(slice_subrange(line, 0, first)) {
        Ok(address) => {
            let name = slice_to_vec(slice_subrange(line, first + 2, end));
            Ok(ManifestEntry { address, name })
        },
        Err(error) => Err(LineError::BadAddress(error)),
    }
}

/// A line of the manifest that was passed over.
#[derive(Clone, Copy, Debug, PartialEq, Eq)]
pub struct SkippedLine {
    /// The place of the line, counting from 0.
    pub index: usize,
    /// Why it was not understood.
    pub reason: LineError,
}

/// What reading a manifest gives.
#[derive(Clone, Debug, PartialEq, Eq)]
pub struct Manifest {
    /// The files of the manifest, each address once, in the order of the addresses.
    pub entries: Vec<ManifestEntry>,
    /// The lines that were not understood, in their order.
    pub skipped: Vec<SkippedLine>,
}

/// The mapping that the lines of a manifest spell: each line that is understood gives its
/// address its name, and a later line for an address takes the place of an earlier one.
pub open spec fn manifest_map(lines: Seq<Seq<u8>>) -> Map<Address, Seq<u8>>
    decreases lines.len(),
{
    if lines.len() == 0 {
        Map::empty()
    } else {
        let before = manifest_map(lines.drop_last());
        match parsed_line(lines.last()) {
            Ok((address, name)) => before.insert(address, name),
            Err(_) => before,
        }
    }
}

/// The lines of a manifest that are not understood, in their order.
pub open spec fn skipped_of(lines: Seq<Seq<u8>>) -> Seq<SkippedLine>
    decreases lines.len(),
{
    if lines.len() == 0 {
        Seq::empty()
    } else {
        let before = skipped_of(lines.drop_last());
        match parsed_line(lines.last()) {
            Ok(_) => before,
            Err(reason) => before.push(SkippedLine { index: (lines.len() - 1) as usize, reason }),
        }
    }
}

/// Whether the addresses of `entries` rise from each entry to the next.
pub open spec fn rising(entries: Seq<ManifestEntry>) -> bool {
    forall|i: int, j: int|
        0 <= i < j < entries.len() ==> (#[trigger] entries[i]).address.rank() < (
        #[trigger] entries[j]).address.rank()
}

/// Whether `entries` lists `map`: the addresses rise, every entry is a pair of the map, and
/// every address of the map has its entry.
pub open spec fn lists(entries: Seq<ManifestEntry>, map: Map<Address, Seq<u8>>) -> bool {
    &&& rising(entries)
    &&& forall|i: int|
        0 <= i < entries.len() ==> map.contains_key((#[trigger] entries[i]).address)
            && map[entries[i].address] == entries[i].name@
    &&& forall|address: Address| #[trigger]
        map.contains_key(address) ==> exists|i: int|
            0 <= i < entries.len() && (#[trigger] entries[i]).address == address
}

/// Where an entry for `address` belongs among `entries`.
fn place(entries: &Vec<ManifestEntry>, address: &Address) -> (at: usize)
    requires
        rising(entries@),
    ensures
        at <= entries@.len(),
        forall|i: int| 0 <= i < at ==> (#[trigger] entries@[i]).address.rank() < address.rank(),
        forall|i: int|
            at <= i < entries@.len() ==> (#[trigger] entries@[i]).address.rank() >= address.rank(),
{
    let mut at: usize = 0;
    while at < entries.len() && entries[at].address.precedes(address)
        invariant
            at <= entries@.len(),
            forall|i: int| 0 <= i < at ==> (#[trigger] entries@[i]).address.rank() < address.rank(),
        decreases entries@.len() - at,
    {
        at = at + 1;
    }
    proof {
        assert forall|i: int| at <= i < entries@.len() implies (#[trigger] entries@[i]).address.rank()
            >= address.rank() by {
            if at < i {
                assert(entries@[at as int].address.rank() < entries@[i].address.rank());
            }
        }
    }
    at
}

/// Gives the address of `entry` the name of `entry`.
fn put(entries: &mut Vec<ManifestEntry>, entry: ManifestEntry, Ghost(map): Ghost<Map<Address, Seq<u8>>>)
    requires
        lists(old(entries)@, map),
    ensures
        lists(final(entries)@, map.insert(entry.address, entry.name@)),
{
    let ghost before = entries@;
    let ghost after = map.insert(entry.address, entry.name@);
    let ghost address = entry.address;
    let at = place(entries, &entry.address);
    if at < entries.len() && entries[at].address.same(&entry.address) {
        entries[at].name = entry.name;
        proof {
            assert(entries@[at as int].address == address);
            assert(forall|i: int| 0 <= i < before.len() && i != at ==> entries@[i] == before[i]);
            assert forall|i: int, j: int| 0 <= i < j < entries@.len() implies (
            #[trigger] entries@[i]).address.rank() < (#[trigger] entries@[j]).address.rank() by {
                assert(before[i].address.rank() < before[j].address.rank());
            }
            assert forall|i: int| 0 <= i < entries@.len() implies after.contains_key(
                (#[trigger] entries@[i]).address,
            ) && after[entries@[i].address] == entries@[i].name@ by {
                if i != at {
                    assert(map.contains_key(before[i].address));
                    if i < at {
                        assert(before[i].address.rank() < before[at as int].address.rank());
                    } else {
                        assert(before[at as int].address.rank() < before[i].address.rank());
                    }
                }
            }
            assert forall|a: Address| #[trigger] after.contains_key(a) implies exists|i: int|
                0 <= i < entries@.len() && (#[trigger] entries@[i]).address == a by {
                if a == address {
                    assert(entries@[at as int].address == a);
                } else {
                    assert(map.contains_key(a));
                    let i = choose|i: int| 0 <= i < before.len() && (#[trigger] before[i]).address == a;
                    assert(entries@[i].address == a);
                }
            }
        }
    } else {
        proof {
            if at < before.len() {
                if before[at as int].address.rank() == address.rank() {
                    Address::lemma_rank_tells_apart(before[at as int].address, address);
                }
            }
            assert forall|i: int| at <= i < before.len() implies (#[trigger] before[i]).address.rank()
                > address.rank() by {
                if at < i {
                    assert(before[at as int].address.rank() < before[i].address.rank());
                }
            }
        }
        entries.insert(at, entry);
        proof {
            assert(forall|i: int| 0 <= i < at ==> entries@[i] == before[i]);
            assert(entries@[at as int].address == address);
            assert(forall|i: int| at < i < entries@.len() ==> entries@[i] == before[i - 1]);
            assert forall|i: int, j: int| 0 <= i < j < entries@.len() implies (
            #[trigger] entries@[i]).address.rank() < (#[trigger] entries@[j]).address.rank() by {
                if j < at {
                    assert(before[i].address.rank() < before[j].address.rank());
                } else if j == at {
                    assert(before[i].address.rank() < address.rank());
                } else if i < at {
                    assert(before[i].address.rank() < before[j - 1].address.rank());
                } else if i == at {
                    assert(before[j - 1].address.rank() > address.rank());
                } else {
                    assert(before[i - 1].address.rank() < before[j - 1].address.rank());
                }
            }
            assert forall|i: int| 0 <= i < entries@.len() implies after.contains_key(
                (#[trigger] entries@[i]).address,
            ) && after[entries@[i].address] == entries@[i].name@ by {
                if i < at {
                    assert(map.contains_key(before[i].address));
                    assert(before[i].address.rank() < address.rank());
                } else if i > at {
                    assert(map.contains_key(before[i - 1].address));
                    assert(before[i - 1].address.rank() > address.rank());
                }
            }
            assert forall|a: Address| #[trigger] after.contains_key(a) implies exists|i: int|
                0 <= i < entries@.len() && (#[trigger] entries@[i]).address == a by {
                if a == address {
                    assert(entries@[at as int].address == a);
                } else {
                    assert(map.contains_key(a));
                    let i = choose|i: int| 0 <= i < before.len() && (#[trigger] before[i]).address == a;
                    if i < at {
                        assert(entries@[i].address == a);
                    } else {
                        assert(entries@[i + 1].address == a);
                    }
                }
            }
        }
    }
}

/// Reads the lines of a manifest. A line that is not understood is passed over and listed
/// with the reason; the others give the files, each address with the name of its last line,
/// in the order of the addresses.
pub fn read_manifest(lines: &Vec<Vec<u8>>) -> (manifest: Manifest)
    ensures
        lists(manifest.entries@, manifest_map(texts(lines@))),
        manifest.skipped@ == skipped_of(texts(lines@)),
{
    let mut entries: Vec<ManifestEntry> = Vec::new();
    let mut skipped: Vec<SkippedLine> = Vec::new();
    let mut k: usize = 0;
    while k < lines.len()
        invariant
            k <= lines@.len(),
            lists(entries@, manifest_map(texts(lines@).take(k as int))),
            skipped@ == skipped_of(texts(lines@).take(k as int)),
        decreases lines@.len() - k,
    {
        proof {
            assert(texts(lines@).take(k as int + 1).drop_last() =~= texts(lines@).take(k as int));
            assert(texts(lines@).take(k as int + 1).last() == lines@[k as int]@);
        }
        match parse_line(lines[k].as_slice()) {
            Ok(entry) => {
                put(&mut entries, entry, Ghost(manifest_map(texts(lines@).take(k as int))));
            },
            Err(reason) => {
                skipped.push(SkippedLine { index: k, reason });
            },
        }
        k = k + 1;
    }
    assert(texts(lines@).take(k as int) =~= texts(lines@));
    Manifest { entries, skipped }
}

/// The lines that record `files`, given by name and root address, one line for each file
/// in their order. A name is written as the bytes of its characters.
pub open spec fn record_of(files: Seq<(Seq<char>, Address)>) -> Seq<Seq<u8>> {
    files.map_values(|file: (Seq<char>, Address)| line_of(file.1, vstd::utf8::encode_utf8(file.0)))
}

/// The lines to append to the manifest for the files that were uploaded.
pub fn upload_record(files: &Vec<(String, Address)>) -> (lines: Vec<Vec<u8>>)
    ensures
        texts(lines@) == record_of(crate::chunks::named(files@)),
{
    let mut lines: Vec<Vec<u8>> = Vec::new();
    let mut i: usize = 0;
    while i < files.len()
        invariant
            i <= files@.len(),
            lines@.len() == i,
            texts(lines@) == record_of(crate::chunks::named(files@)).take(i as int),
        decreases files@.len() - i,
    {
        let line = format_line(&files[i].1, files[i].0.as_str().as_bytes());
        let ghost before = lines@;
        lines.push(line);
        assert(texts(lines@) =~= record_of(crate::chunks::named(files@)).take(i as int + 1)) by {
            assert(texts(before) == record_of(crate::chunks::named(files@)).take(i as int));
            assert(forall|k: int| 0 <= k < i ==> texts(lines@)[k] == texts(before)[k]);
            assert(crate::chunks::named(files@)[i as int] == (files@[i as int].0@, files@[i as int].1));
            assert(texts(lines@)[i as int] == record_of(crate::chunks::named(files@))[i as int]);
        }
        i = i + 1;
    }
    assert(record_of(crate::chunks::named(files@)).take(i as int) =~= record_of(
        crate::chunks::named(files@),
    ));
    lines
}

/// Reading one run of lines after another gives the mapping of the first, overlaid with
/// the mapping of the second.
pub proof fn lemma_manifest_append(first: Seq<Seq<u8>>, second: Seq<Seq<u8>>)
    ensures
        manifest_map(first + second) == manifest_map(first).union_prefer_right(manifest_map(second)),
    decreases second.len(),
{
    if second.len() == 0 {
        assert(first + second =~= first);
        assert(manifest_map(first).union_prefer_right(manifest_map(second)) =~= manifest_map(first));
    } else {
        lemma_manifest_append(first, second.drop_last());
        assert((first + second).drop_last() =~= first + second.drop_last());
        assert((first + second).last() == second.last());
        assert(manifest_map(first + second) =~= manifest_map(first).union_prefer_right(
            manifest_map(second),
        ));
    }
}

/// A manifest to which the same lines are appended once more spells the same mapping: an
/// upload that is run again leaves the manifest saying what it said.
pub proof fn lemma_appended_again(manifest: Seq<Seq<u8>>, record: Seq<Seq<u8>>)
    ensures
        manifest_map(manifest + record + record) == manifest_map(manifest + record),
{
    lemma_manifest_append(manifest + record, record);
    lemma_manifest_append(manifest, record);
    assert(manifest_map(manifest + record + record) =~= manifest_map(manifest + record));
}

/// Whether no name of `files` holds a colon that a space follows.
pub open spec fn plain_names(files: Seq<(Seq<char>, Address)>) -> bool {
    forall|k: int| 0 <= k < files.len() ==> plain(vstd::utf8::encode_utf8((#[trigger] files[k]).0))
}

/// Every file that was recorded is in the manifest: after the record of `files` was
/// appended, the manifest holds the root address of each of them, and it maps the address
/// to the name of the file unless a later file of the record has the same address.
pub proof fn lemma_record_is_read(manifest: Seq<Seq<u8>>, files: Seq<(Seq<char>, Address)>, i: int)
    requires
        plain_names(files),
        0 <= i < files.len(),
    ensures
        manifest_map(manifest + record_of(files)).contains_key(files[i].1),
        (forall|k: int| i < k < files.len() ==> (#[trigger] files[k]).1 != files[i].1)
            ==> manifest_map(manifest + record_of(files))[files[i].1] == vstd::utf8::encode_utf8(
            files[i].0,
        ),
    decreases files.len(),
{
    let all = manifest + record_of(files);
    let front = files.drop_last();
    let last = files.last();
    assert(all.drop_last() =~= manifest + record_of(front));
    assert(all.last() == line_of(last.1, vstd::utf8::encode_utf8(last.0)));
    assert(plain(vstd::utf8::encode_utf8(files[files.len() - 1].0)));
    lemma_line_round_trip(last.1, vstd::utf8::encode_utf8(last.0));
    if i < files.len() - 1 {
        assert(plain_names(front)) by {
            assert forall|k: int| 0 <= k < front.len() implies plain(
                vstd::utf8::encode_utf8((#[trigger] front[k]).0),
            ) by {
                assert(front[k] == files[k]);
            }
        }
        lemma_record_is_read(manifest, front, i);
        assert(front[i] == files[i]);
        if forall|k: int| i < k < files.len() ==> (#[trigger] files[k]).1 != files[i].1 {
            assert forall|k: int| i < k < front.len() implies (#[trigger] front[k]).1 != front[i].1 by {
                assert(front[k] == files[k]);
            }
            assert(files[files.len() - 1].1 != files[i].1);
        }
    }
}

/// Reads a manifest from the bytes of its file.
pub fn parse_manifest(content: &[u8]) -> (manifest: Manifest)
    ensures
        lists(manifest.entries@, manifest_map(lines_of(content@))),
        manifest.skipped@ == skipped_of(lines_of(content@)),
{
    let lines = split_lines(content);
    read_manifest(&lines)
}

/// The bytes to append to the file of the manifest for the files that were uploaded.
pub fn manifest_record(files: &Vec<(String, Address)>) -> (bytes: Vec<u8>)
    ensures
        bytes@ == joined(record_of(crate::chunks::named(files@))),
{
    let lines = upload_record(files);
    join_lines(&lines)
}

/// Whether a name can stand in a manifest: it holds no colon that a space follows and no
/// newline, and it does not end with a carriage return.
pub open spec fn clean(name: Seq<u8>) -> bool {
    &&& plain(name)
    &&& forall|i: int| 0 <= i < name.len() ==> name[i] != NEWLINE
    &&& name.len() > 0 ==> name.last() != CARRIAGE_RETURN
}

/// Whether every name of `files` can stand in a manifest.
pub open spec fn clean_names(files: Seq<(Seq<char>, Address)>) -> bool {
    forall|k: int| 0 <= k < files.len() ==> clean(vstd::utf8::encode_utf8((#[trigger] files[k]).0))
}

/// The line for a file with a clean name can be written and read back.
pub proof fn lemma_line_is_writable(address: Address, name: Seq<u8>)
    requires
        clean(name),
    ensures
        writable(line_of(address, name)),
{
    let line = line_of(address, name);
    lemma_hex_round_trip(address@);
    assert forall|i: int| 0 <= i < line.len() implies line[i] != NEWLINE by {
        if i < 64 {
            assert(line[i] == hex_encoded(address@)[i]);
            assert(is_hex_digit(hex_encoded(address@)[i]));
        } else if i >= 66 {
            assert(line[i] == name[i - 66]);
        }
    }
    if name.len() > 0 {
        assert(line.last() == name.last());
    } else {
        assert(line.last() == SPACE);
    }
}

/// The record of files with clean names is made of lines that can be written and read back.
proof fn lemma_record_is_writable(files: Seq<(Seq<char>, Address)>)
    requires
        clean_names(files),
    ensures
        forall|k: int| 0 <= k < record_of(files).len() ==> writable(#[trigger] record_of(files)[k]),
        plain_names(files),
{
    assert forall|k: int| 0 <= k < record_of(files).len() implies writable(
        #[trigger] record_of(files)[k],
    ) by {
        assert(clean(vstd::utf8::encode_utf8(files[k].0)));
        lemma_line_is_writable(files[k].1, vstd::utf8::encode_utf8(files[k].0));
    }
    assert forall|k: int| 0 <= k < files.len() implies plain(
        vstd::utf8::encode_utf8((#[trigger] files[k]).0),
    ) by {
        assert(clean(vstd::utf8::encode_utf8(files[k].0)));
    }
}

/// Once the record of an upload was appended to the file of the
/// manifest, every file of the upload is in the manifest. The manifest read from the file
/// holds the root address of each, and maps it to the name of the file unless a later file
/// of the upload has the same address. This holds of a file that ended where a line ends,
/// and of names that can stand in a manifest.
pub proof fn lemma_upload_is_recorded(content: Seq<u8>, files: Seq<(Seq<char>, Address)>, i: int)
    requires
        ends_a_line(content),
        clean_names(files),
        0 <= i < files.len(),
    ensures
        ({
            let after = manifest_map(lines_of(content + joined(record_of(files))));
            &&& after.contains_key(files[i].1)
            &&& (forall|k: int| i < k < files.len() ==> (#[trigger] files[k]).1 != files[i].1)
                ==> after[files[i].1] == vstd::utf8::encode_utf8(files[i].0)
        }),
{
    lemma_record_is_writable(files);
    lemma_appended_lines(content, record_of(files));
    lemma_record_is_read(lines_of(content), files, i);
}

/// An upload that is run again leaves the manifest saying what it said. A file to which the same record is appended a second time reads as the same
/// mapping as after the first time.
pub proof fn lemma_upload_again(content: Seq<u8>, files: Seq<(Seq<char>, Address)>)
    requires
        ends_a_line(content),
        clean_names(files),
    ensures
        manifest_map(lines_of(content + joined(record_of(files)) + joined(record_of(files))))
            == manifest_map(lines_of(content + joined(record_of(files)))),
{
    let record = record_of(files);
    lemma_record_is_writable(files);
    lemma_appended_lines(content, record);
    lemma_appended_lines(content + joined(record), record);
    lemma_appended_again(lines_of(content), record);
}

} // verus!
