//! The lines of a file: what stands between its newlines.

use vstd::prelude::*;
use vstd::slice::{slice_subrange, slice_to_vec};

verus! {

/// The byte that ends a line.
pub const NEWLINE: u8 = 0x0a;

/// The byte that may stand before the newline and is then no part of the line.
pub const CARRIAGE_RETURN: u8 = 0x0d;

/// The lines as byte strings.
pub open spec fn texts(lines: Seq<Vec<u8>>) -> Seq<Seq<u8>> {
    lines.map_values(|line: Vec<u8>| line@)
}

/// Where the line that begins at `from` ends: at the first newline at `from` or later, or
/// at the end of `content` if there is none.
pub open spec fn line_end(content: Seq<u8>, from: int) -> int
    decreases content.len() - from,
{
    if from < 0 || from >= content.len() || content[from] == NEWLINE {
        from
    } else {
        line_end(content, from + 1)
    }
}

/// A line as it was read, without the carriage return that stood before its newline.
pub open spec fn without_return(line: Seq<u8>) -> Seq<u8> {
    if line.len() > 0 && line.last() == CARRIAGE_RETURN {
        line.drop_last()
    } else {
        line
    }
}

/// The lines of `content` from `from` on. Each newline ends a line, and a carriage return
/// before it is dropped; what follows the last newline is a line as it stands, unless
/// nothing follows.
pub open spec fn lines_from(content: Seq<u8>, from: int) -> Seq<Seq<u8>>
    decreases content.len() - from,
{
    if from < 0 || from >= content.len() {
        Seq::empty()
    } else {
        let end = line_end(content, from);
        if end < from {
            Seq::empty()
        } else if end >= content.len() {
            seq![content.subrange(from, content.len() as int)]
        } else {
            seq![without_return(content.subrange(from, end))] + lines_from(content, end + 1)
        }
    }
}

/// The lines of `content`.
pub open spec fn lines_of(content: Seq<u8>) -> Seq<Seq<u8>> {
    lines_from(content, 0)
}

/// `lines` written one after the other, a newline after each.
pub open spec fn joined(lines: Seq<Seq<u8>>) -> Seq<u8>
    decreases lines.len(),
{
    if lines.len() == 0 {
        Seq::empty()
    } else {
        joined(lines.drop_last()) + lines.last() + seq![NEWLINE]
    }
}

/// Whether a line can be written and read back: it holds no newline and does not end with
/// a carriage return.
pub open spec fn writable(line: Seq<u8>) -> bool {
    &&& forall|i: int| 0 <= i < line.len() ==> line[i] != NEWLINE
    &&& line.len() > 0 ==> line.last() != CARRIAGE_RETURN
}

/// A line ends at or after its beginning and within the content; no newline stands in it,
/// and a newline stands at its end unless the content ends there.
pub proof fn lemma_line_end(content: Seq<u8>, from: int)
    requires
        0 <= from <= content.len(),
    ensures
        from <= line_end(content, from) <= content.len(),
        forall|i: int| from <= i < line_end(content, from) ==> content[i] != NEWLINE,
        line_end(content, from) < content.len() ==> content[line_end(content, from)] == NEWLINE,
    decreases content.len() - from,
{
    if from < content.len() && content[from] != NEWLINE {
        lemma_line_end(content, from + 1);
    }
}

/// The end of a line is where the first newline stands.
pub proof fn lemma_line_ends_at(content: Seq<u8>, from: int, end: int)
    requires
        0 <= from <= end <= content.len(),
        forall|i: int| from <= i < end ==> content[i] != NEWLINE,
        end < content.len() ==> content[end] == NEWLINE,
    ensures
        line_end(content, from) == end,
    decreases end - from,
{
    if from < end {
        lemma_line_ends_at(content, from + 1, end);
    }
}

/// Splits `content` into its lines.
pub fn split_lines(content: &[u8]) -> (lines: Vec<Vec<u8>>)
    ensures
        texts(lines@) == lines_of(content@),
{
    let len = content.len();
    let mut lines: Vec<Vec<u8>> = Vec::new();
    let mut from: usize = 0;
    assert(texts(lines@) =~= Seq::empty());
    while from < len
        invariant
            from <= len,
            len == content@.len(),
            texts(lines@) + lines_from(content@, from as int) == lines_of(content@),
        decreases len - from,
    {
        let mut end: usize = from;
        while end < len && content[end] != NEWLINE
            invariant
                from <= end <= len,
                len == content@.len(),
                forall|i: int| from <= i < end ==> content@[i] != NEWLINE,
            decreases len - end,
        {
            end = end + 1;
        }
        proof {
            lemma_line_ends_at(content@, from as int, end as int);
        }
        let ghost before = lines@;
        if end >= len {
            lines.push(slice_to_vec(slice_subrange(content, from, len)));
            proof {
                assert(texts(lines@) =~= texts(before) + lines_from(content@, from as int));
                assert(lines_from(content@, len as int) =~= Seq::empty());
            }
            from = len;
        } else {
            let stop = if end > from && content[end - 1] == CARRIAGE_RETURN {
                end - 1
            } else {
                end
            };
            lines.push(slice_to_vec(slice_subrange(content, from, stop)));
            proof {
                let line = content@.subrange(from as int, end as int);
                assert(without_return(line) =~= content@.subrange(from as int, stop as int));
                assert(texts(lines@) =~= texts(before) + seq![without_return(line)]);
                assert(texts(lines@) + lines_from(content@, end as int + 1) =~= texts(before)
                    + lines_from(content@, from as int));
            }
            from = end + 1;
        }
    }
    assert(lines_from(content@, from as int) =~= Seq::empty());
    assert(texts(lines@) + Seq::<Seq<u8>>::empty() =~= texts(lines@));
    lines
}

/// Writes `lines` one after the other, a newline after each.
pub fn join_lines(lines: &Vec<Vec<u8>>) -> (content: Vec<u8>)
    ensures
        content@ == joined(texts(lines@)),
{
    let mut content: Vec<u8> = Vec::new();
    let mut k: usize = 0;
    while k < lines.len()
        invariant
            k <= lines@.len(),
            content@ == joined(texts(lines@).take(k as int)),
        decreases lines@.len() - k,
    {
        let ghost head = content@;
        let line = &lines[k];
        let mut i: usize = 0;
        while i < line.len()
            invariant
                i <= line@.len(),
                content@ == head + line@.take(i as int),
            decreases line@.len() - i,
        {
            content.push(line[i]);
            assert(line@.take(i as int + 1) =~= line@.take(i as int).push(line@[i as int]));
            assert(content@ =~= head + line@.take(i as int + 1));
            i = i + 1;
        }
        content.push(NEWLINE);
        proof {
            assert(line@.take(i as int) =~= line@);
            assert(texts(lines@).take(k as int + 1).drop_last() =~= texts(lines@).take(k as int));
            assert(texts(lines@).take(k as int + 1).last() == line@);
            assert(content@ =~= head + line@ + seq![NEWLINE]);
        }
        k = k + 1;
    }
    assert(texts(lines@).take(k as int) =~= texts(lines@));
    content
}

/// Whether `content` ends where a line ends: it is empty or its last byte is a newline.
pub open spec fn ends_a_line(content: Seq<u8>) -> bool {
    content.len() == 0 || content.last() == NEWLINE
}

/// In content that follows other content, a line ends where it ends in the content alone.
proof fn lemma_line_end_shift(head: Seq<u8>, tail: Seq<u8>, from: int)
    requires
        0 <= from <= tail.len(),
    ensures
        line_end(head + tail, head.len() + from) == head.len() + line_end(tail, from),
    decreases tail.len() - from,
{
    let all = head + tail;
    if from < tail.len() {
        assert(all[head.len() + from] == tail[from]);
        if tail[from] != NEWLINE {
            lemma_line_end_shift(head, tail, from + 1);
        }
    }
}

/// The lines of content that follows other content are the lines of the content alone.
proof fn lemma_lines_shift(head: Seq<u8>, tail: Seq<u8>, from: int)
    requires
        0 <= from <= tail.len(),
    ensures
        lines_from(head + tail, head.len() + from) == lines_from(tail, from),
    decreases tail.len() - from,
{
    let all = head + tail;
    if from < tail.len() {
        lemma_line_end_shift(head, tail, from);
        lemma_line_end(tail, from);
        let end = line_end(tail, from);
        if end >= tail.len() {
            assert(all.subrange(head.len() + from, all.len() as int) =~= tail.subrange(
                from,
                tail.len() as int,
            ));
        } else {
            assert(all.subrange(head.len() + from, head.len() + end) =~= tail.subrange(from, end));
            lemma_lines_shift(head, tail, end + 1);
        }
    }
}

/// The lines of two contents written one after the other are the lines of the first and
/// then the lines of the second, if the first ends where a line ends.
pub proof fn lemma_lines_concat(head: Seq<u8>, tail: Seq<u8>, from: int)
    requires
        0 <= from <= head.len(),
        ends_a_line(head),
    ensures
        lines_from(head + tail, from) == lines_from(head, from) + lines_from(tail, 0),
    decreases head.len() - from,
{
    let all = head + tail;
    if from == head.len() {
        lemma_lines_shift(head, tail, 0);
        assert(lines_from(head, from) + lines_from(tail, 0) =~= lines_from(tail, 0));
    } else {
        lemma_line_end(head, from);
        let end = line_end(head, from);
        if end == head.len() {
            assert(head[head.len() - 1] != NEWLINE);
        }
        assert forall|i: int| from <= i < end implies all[i] != NEWLINE by {
            assert(all[i] == head[i]);
        }
        assert(all[end] == head[end]);
        lemma_line_ends_at(all, from, end);
        assert(all.subrange(from, end) =~= head.subrange(from, end));
        lemma_lines_concat(head, tail, end + 1);
        assert(lines_from(all, from) =~= lines_from(head, from) + lines_from(tail, 0));
    }
}

/// What was written as lines ends where a line ends.
pub proof fn lemma_joined_ends_a_line(lines: Seq<Seq<u8>>)
    ensures
        ends_a_line(joined(lines)),
{
}

/// A line that was written is read back as it was.
proof fn lemma_one_line(line: Seq<u8>)
    requires
        writable(line),
    ensures
        lines_of(line + seq![NEWLINE]) == seq![line],
{
    let content = line + seq![NEWLINE];
    assert forall|i: int| 0 <= i < line.len() implies content[i] != NEWLINE by {
        assert(content[i] == line[i]);
    }
    assert(content[line.len() as int] == NEWLINE);
    lemma_line_ends_at(content, 0, line.len() as int);
    assert(content.subrange(0, line.len() as int) =~= line);
    assert(lines_from(content, line.len() as int + 1) =~= Seq::empty());
    assert(lines_of(content) =~= seq![line]);
}

/// Lines that were written are read back as they were, if none of them holds a newline or
/// ends with a carriage return.
pub proof fn lemma_lines_of_joined(lines: Seq<Seq<u8>>)
    requires
        forall|k: int| 0 <= k < lines.len() ==> writable(#[trigger] lines[k]),
    ensures
        lines_of(joined(lines)) == lines,
    decreases lines.len(),
{
    if lines.len() > 0 {
        let front = lines.drop_last();
        assert forall|k: int| 0 <= k < front.len() implies writable(#[trigger] front[k]) by {
            assert(front[k] == lines[k]);
        }
        lemma_lines_of_joined(front);
        lemma_joined_ends_a_line(front);
        let last = lines.last() + seq![NEWLINE];
        assert(joined(lines) =~= joined(front) + last);
        lemma_lines_concat(joined(front), last, 0);
        assert(writable(lines[lines.len() - 1]));
        lemma_one_line(lines.last());
        assert(front + seq![lines.last()] =~= lines);
    }
}

/// Lines appended to a file are read back after the lines that the file held, if the file
/// ended where a line ends.
pub proof fn lemma_appended_lines(content: Seq<u8>, lines: Seq<Seq<u8>>)
    requires
        ends_a_line(content),
        forall|k: int| 0 <= k < lines.len() ==> writable(#[trigger] lines[k]),
    ensures
        lines_of(content + joined(lines)) == lines_of(content) + lines,
        ends_a_line(content + joined(lines)),
{
    lemma_lines_concat(content, joined(lines), 0);
    lemma_lines_of_joined(lines);
    lemma_joined_ends_a_line(lines);
    if joined(lines).len() > 0 {
        assert((content + joined(lines)).last() == joined(lines).last());
    } else {
        assert(content + joined(lines) =~= content);
    }
}

} // verus!
