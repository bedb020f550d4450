//! What reading a FASTA file through its index gives, where the file is laid
//! out as the index says.

use crate::contig::{bytes_at, memory_region, Answer, ByteRange, FileContig, MemoryContig, Source};
use crate::error::Error;
use crate::fai::{region_offsets_in, FaiRecord};
use crate::fasta::Fasta;
use crate::layout::{
    bases_before,
    bases_between,
    grid_offset,
    laid_out_between,
    lemma_base_position,
    lemma_decoded_stretch,
    lemma_grid_offset_monotonic,
};
use crate::text::{decoded, lemma_decoded_has_no_terminator};
use vstd::prelude::*;
use vstd::utf8::*;

verus! {

/// The file holds the sequence of an entry in the layout that the entry
/// gives: the entry is well laid, and from the entry's offset up to the end
/// of the sequence's last line, line terminators stand after every
/// `line_bases` bases, up to the line width, and nowhere else.
pub open spec fn holds(content: Seq<u8>, record: FaiRecord) -> bool {
    &&& record.well_laid()
    &&& laid_out_between(
        content,
        record.offset as int,
        record.line_bases as int,
        record.line_width as int,
        record.offset as int,
        record.byte_offset(record.length as int),
    )
}

/// The bases `[from, to)` of an entry's sequence, as the file holds them.
pub open spec fn bases_of(content: Seq<u8>, record: FaiRecord, from: int, to: int) -> Seq<char> {
    bases_between(
        content,
        record.offset as int,
        record.line_bases as int,
        record.line_width as int,
        from,
        to,
    )
}

/// In a file that holds an entry's sequence, the byte range of the bases
/// `[start, end)` is not empty, and decodes to just these bases: `end - start`
/// characters, none of them a line terminator.
pub proof fn lemma_region_bytes(record: FaiRecord, content: Seq<u8>, start: u64, end: u64)
    requires
        record.region_ok(start, end),
        holds(content, record),
        record.byte_offset(end as int) <= content.len(),
    ensures
        record.region_offsets(start, end) matches Some((byte_start, byte_end)) && {
            let text = decoded(content.subrange(byte_start as int, byte_end as int));
            &&& byte_start < byte_end <= content.len()
            &&& text == bases_of(content, record, start as int, end as int)
            &&& text.len() == end - start
            &&& forall|i: int| 0 <= i < text.len() ==> text[i] != '\n' && text[i] != '\r'
        },
{
    let offset = record.offset as int;
    let bases = record.line_bases as int;
    let width = record.line_width as int;
    lemma_grid_offset_monotonic(offset, bases, width, 0, start as int);
    lemma_grid_offset_monotonic(offset, bases, width, start as int, end as int);
    lemma_grid_offset_monotonic(offset, bases, width, end as int, record.length as int);
    lemma_base_position(offset, bases, width, 0);
    lemma_base_position(offset, bases, width, start as int);
    lemma_base_position(offset, bases, width, end as int);
    let byte_start = record.byte_offset(start as int);
    let byte_end = record.byte_offset(end as int);
    lemma_decoded_stretch(content, offset, bases, width, byte_start, byte_end);
    lemma_decoded_has_no_terminator(content.subrange(byte_start, byte_end));
}

/// In a file that holds an entry's sequence, the bytes `[offset, offset +
/// length)` decode to the first bases of the sequence, as many as lie in that
/// range.
pub proof fn lemma_whole_bytes(record: FaiRecord, content: Seq<u8>)
    requires
        holds(content, record),
        record.whole_offsets() is Some,
        record.offset + record.length <= content.len(),
    ensures
        record.whole_offsets() matches Some((byte_start, byte_end)) && {
            let text = decoded(content.subrange(byte_start as int, byte_end as int));
            &&& text.len() <= record.length
            &&& text == bases_of(content, record, 0, text.len() as int)
        },
{
    let offset = record.offset as int;
    let bases = record.line_bases as int;
    let width = record.line_width as int;
    lemma_grid_offset_monotonic(offset, bases, width, 0, record.length as int);
    lemma_base_position(offset, bases, width, 0);
    assert(grid_offset(offset, bases, width, 0) == offset) by {
        assert(0int / bases == 0 && 0int % bases == 0) by (nonlinear_arith)
            requires
                bases >= 1,
        ;
    }
    lemma_decoded_stretch(content, offset, bases, width, offset, offset + record.length);
    crate::text::lemma_decoded_len(content.subrange(offset, offset + record.length));
}

/// The UTF-8 form of two texts, one after the other, is the UTF-8 form of the
/// first followed by that of the second.
pub proof fn lemma_encode_concat(first: Seq<char>, second: Seq<char>)
    ensures
        encode_utf8(first + second) == encode_utf8(first) + encode_utf8(second),
    decreases first.len(),
{
    if first.len() == 0 {
        assert(first + second =~= second);
        assert(encode_utf8(first) + encode_utf8(second) =~= encode_utf8(second));
    } else {
        assert((first + second).drop_first() =~= first.drop_first() + second);
        lemma_encode_concat(first.drop_first(), second);
        assert(encode_utf8(first + second) =~= encode_utf8(first) + encode_utf8(second));
    }
}

/// In the UTF-8 form of two texts, one after the other, a character starts
/// where the form of the first ends.
pub proof fn lemma_boundary_between(first: Seq<char>, second: Seq<char>)
    ensures
        is_char_boundary(encode_utf8(first + second), encode_utf8(first).len() as int),
    decreases first.len(),
{
    let chars = first + second;
    let bytes = encode_utf8(chars);
    encode_utf8_valid_utf8(chars);
    if first.len() > 0 {
        lemma_encode_concat(first, second);
        encode_utf8_first_scalar(chars);
        assert(chars.drop_first() =~= first.drop_first() + second);
        assert(pop_first_scalar(bytes) =~= encode_utf8(chars.drop_first()));
        assert(chars[0] == first[0]);
        assert(encode_utf8(first).len() == encode_scalar(first[0] as u32).len() + encode_utf8(
            first.drop_first(),
        ).len());
        lemma_boundary_between(first.drop_first(), second);
    }
}

/// Of a sequence that begins with ASCII characters, a part that lies within
/// these is the same between two byte positions and between the same two
/// character positions.
pub proof fn lemma_memory_region_ascii(sequence: Seq<char>, start: u64, end: u64)
    requires
        start <= end <= sequence.len(),
        is_ascii_chars(sequence.take(end as int)),
    ensures
        memory_region(sequence, start, end) == Some(sequence.subrange(start as int, end as int)),
{
    let bytes = encode_utf8(sequence);
    let head = sequence.take(end as int);
    let before = sequence.take(start as int);
    let part = sequence.subrange(start as int, end as int);
    assert(sequence =~= head + sequence.skip(end as int));
    assert(sequence =~= before + sequence.skip(start as int));
    assert(is_ascii_chars(before)) by {
        assert forall|i: int| 0 <= i < before.len() implies '\0' <= #[trigger] before[i]
            <= '\u{7f}' by {
            assert(before[i] == head[i]);
        }
    }
    assert(is_ascii_chars(part)) by {
        assert forall|i: int| 0 <= i < part.len() implies '\0' <= #[trigger] part[i] <= '\u{7f}' by {
            assert(part[i] == head[start + i]);
        }
    }
    is_ascii_chars_encode_utf8(head);
    is_ascii_chars_encode_utf8(before);
    is_ascii_chars_encode_utf8(part);
    lemma_encode_concat(head, sequence.skip(end as int));
    lemma_boundary_between(head, sequence.skip(end as int));
    lemma_boundary_between(before, sequence.skip(start as int));
    assert forall|i: int| 0 <= i < part.len() implies encode_utf8(part)[i] == bytes.subrange(
        start as int,
        end as int,
    )[i] by {
        assert(part[i] as u8 == encode_utf8(part)[i]);
        assert(head[start + i] as u8 == encode_utf8(head)[start + i]);
        assert(bytes[start + i] == encode_utf8(head)[start + i]);
    }
    assert(encode_utf8(part) =~= bytes.subrange(start as int, end as int));
    encode_utf8_decode_utf8(part);
}

/// Reading a region through the file's index gives just the bases asked for.
/// Where the file holds the named sequence as its entry says, and reaches to
/// where base `end` lies, the request for a valid range `[start, end)` names a
/// non-empty byte range of the file, and these bytes decode to `end - start`
/// characters without a line terminator among them.
pub proof fn lemma_read_region_gives_bases(
    fasta: Fasta,
    content: Seq<u8>,
    tid: Seq<char>,
    start: u64,
    end: u64,
)
    requires
        ({
            &&& fasta.index matches Some(index)
            &&& index@.contains_key(tid)
            &&& index@[tid].region_ok(start, end)
            &&& holds(content, index@[tid])
            &&& index@[tid].byte_offset(end as int) <= content.len()
        }),
    ensures
        ({
            &&& fasta.region_request(tid, start, end) matches Ok(range)
            &&& range.start < range.end
            &&& bytes_at(content, range) matches Some(bytes)
            &&& decoded(bytes).len() == end - start
            &&& forall|i: int|
                0 <= i < decoded(bytes).len() ==> decoded(bytes)[i] != '\n' && decoded(bytes)[i]
                    != '\r'
        }),
{
    let record = fasta.index.unwrap()@[tid];
    lemma_region_bytes(record, content, start, end);
}

/// A sequence gives the same region from memory and from the file. Where the
/// file holds the sequence as its entry says, the sequence in memory is what
/// the whole read of the file gave, and `[start, end)` is a non-empty range
/// within what memory holds, with only ASCII before its end, whose read from
/// the file succeeds, both sources give the same text.
pub proof fn lemma_sources_agree(
    file: FileContig,
    memory: MemoryContig,
    content: Seq<u8>,
    start: u64,
    end: u64,
)
    requires
        ({
            &&& file.index matches Some(index)
            &&& index@.contains_key(file.tid@)
            &&& holds(content, index@[file.tid@])
        }),
        file.whole() matches Some(whole) && whole.text(content) == Some(memory.sequence@),
        start < end <= memory.sequence@.len(),
        is_ascii_chars(memory.sequence@.take(end as int)),
        file.region(start, end) matches Some(answer) && answer.text(content) is Some,
    ensures
        ({
            &&& file.region(start, end) matches Some(from_file)
            &&& memory.region(start, end) matches Some(from_memory)
            &&& from_file.text(content) == from_memory.text(content)
        }),
{
    let record = file.index.unwrap()@[file.tid@];
    lemma_region_bytes(record, content, start, end);
    lemma_whole_bytes(record, content);
    lemma_memory_region_ascii(memory.sequence@, start, end);
    let held = memory.sequence@;
    assert(held.subrange(start as int, end as int) =~= bases_of(
        content,
        record,
        start as int,
        end as int,
    ));
}

/// A range that is empty or runs past the sequence is refused, and so is
/// every range of a sequence that the index does not name: the index gives no
/// byte range, the file with that index answers with `InvalidRegion`, and a
/// source that leaves the sequence in the file answers nothing.
pub proof fn lemma_invalid_region_is_refused(
    fasta: Fasta,
    source: FileContig,
    tid: Seq<char>,
    start: u64,
    end: u64,
)
    requires
        fasta.index matches Some(index) && (!index@.contains_key(tid) || start >= end || end
            > index@[tid].length),
        source.index == fasta.index,
        source.tid@ == tid,
    ensures
        region_offsets_in(fasta.index.unwrap()@, tid, start, end) is None,
        fasta.region_request(tid, start, end) == Err::<ByteRange, Error>(Error::InvalidRegion),
        source.region(start, end) is None,
{
}

/// A source that holds its sequence in memory answers nothing for a range
/// that ends past the sequence or before its own start.
pub proof fn lemma_memory_refuses(memory: MemoryContig, start: u64, end: u64)
    requires
        start > end || end > encode_utf8(memory.sequence@).len(),
    ensures
        memory.region(start, end) is None,
{
}

} // verus!
