//! One sequence of a FASTA file, held in memory or left in the file.
//!
//! A source answers a read with the sequence itself, where it holds it, or
//! with the byte range of the file that holds it. The caller reads that range
//! and hands the bytes to [`Fetch::finish`].

use crate::fai::{region_offsets_in, whole_offsets_in, FaiIndex};
use crate::text::{decode, decoded};
use std::sync::Arc;
use vstd::prelude::*;
use vstd::string::StringSliceAdditionalSpecFns;
use vstd::utf8::*;

verus! {

/// The bytes `[start, end)` of the sequence file.
#[derive(Clone, Copy, Debug, PartialEq, Eq, Structural)]
pub struct ByteRange {
    pub start: u64,
    pub end: u64,
}

/// The bytes of a range, where the file holds all of them.
pub open spec fn bytes_at(content: Seq<u8>, range: ByteRange) -> Option<Seq<u8>> {
    if range.start <= range.end <= content.len() {
        Some(content.subrange(range.start as int, range.end as int))
    } else {
        None
    }
}

/// What a source answers, as plain values.
pub enum Answer {
    /// The sequence asked for.
    Ready(Seq<char>),
    /// The range of the file that holds it.
    Read(ByteRange),
}

impl Answer {
    /// The sequence that the answer stands for, given the bytes of the file:
    /// none where the file does not hold the whole range.
    pub open spec fn text(self, content: Seq<u8>) -> Option<Seq<char>> {
        match self {
            Answer::Ready(sequence) => Some(sequence),
            Answer::Read(range) => match bytes_at(content, range) {
                Some(bytes) => Some(decoded(bytes)),
                None => None,
            },
        }
    }
}

/// What a source answers to a read.
#[derive(Debug)]
pub enum Fetch {
    /// The sequence asked for.
    Ready(String),
    /// The range of the file that holds the sequence asked for, with the line
    /// terminators that stand in it.
    Read(ByteRange),
}

impl View for Fetch {
    type V = Answer;

    open spec fn view(&self) -> Answer {
        match self {
            Fetch::Ready(sequence) => Answer::Ready(sequence@),
            Fetch::Read(range) => Answer::Read(*range),
        }
    }
}

/// The sequence that an answer and the outcome of the read give: none where a
/// read was needed and failed.
pub open spec fn finished(answer: Answer, read: Option<Seq<u8>>) -> Option<Seq<char>> {
    match answer {
        Answer::Ready(sequence) => Some(sequence),
        Answer::Read(_) => match read {
            Some(bytes) => Some(decoded(bytes)),
            None => None,
        },
    }
}

impl Fetch {
    /// Completes a read. `read` holds the bytes of the range, or nothing where
    /// reading them failed; an answer that is ready needs neither.
    pub fn finish(self, read: Option<Vec<u8>>) -> (sequence: Option<String>)
        ensures
            match sequence {
                Some(s) => finished(
                    self@,
                    match read {
                        Some(buf) => Some(buf@),
                        None => None,
                    },
                ) == Some(s@),
                None => self@ is Read && read is None,
            },
    {
        match self {
            Fetch::Ready(sequence) => Some(sequence),
            Fetch::Read(_) => match read {
                Some(buf) => Some(decode(buf.as_slice())),
                None => None,
            },
        }
    }
}

/// Where a sequence comes from.
pub trait Source {
    /// What `sequence` answers.
    spec fn whole(&self) -> Option<Answer>;

    /// What `read_region` answers.
    spec fn region(&self, start: u64, end: u64) -> Option<Answer>;

    /// The whole sequence.
    fn sequence(&self) -> (answer: Option<Fetch>)
        ensures
            match answer {
                Some(fetch) => self.whole() == Some(fetch@),
                None => self.whole() is None,
            },
    ;

    /// The bases `[start, end)` of the sequence.
    fn read_region(&self, start: u64, end: u64) -> (answer: Option<Fetch>)
        ensures
            match answer {
                Some(fetch) => self.region(start, end) == Some(fetch@),
                None => self.region(start, end) is None,
            },
    ;
}

/// The part of a sequence in memory that lies between two byte positions of
/// its UTF-8 form: none where `end` lies past the sequence, `start` past
/// `end`, or either inside a character.
pub open spec fn memory_region(sequence: Seq<char>, start: u64, end: u64) -> Option<Seq<char>> {
    let bytes = encode_utf8(sequence);
    if start <= end <= bytes.len() && is_char_boundary(bytes, start as int) && is_char_boundary(
        bytes,
        end as int,
    ) {
        Some(decode_utf8(bytes.subrange(start as int, end as int)))
    } else {
        None
    }
}

/// A sequence held in memory.
#[derive(Debug)]
pub struct MemoryContig {
    pub sequence: String,
}

impl Source for MemoryContig {
    open spec fn whole(&self) -> Option<Answer> {
        Some(Answer::Ready(self.sequence@))
    }

    open spec fn region(&self, start: u64, end: u64) -> Option<Answer> {
        match memory_region(self.sequence@, start, end) {
            Some(part) => Some(Answer::Ready(part)),
            None => None,
        }
    }

    fn sequence(&self) -> (answer: Option<Fetch>) {
        Some(Fetch::Ready(self.sequence.clone()))
    }

    fn read_region(&self, start: u64, end: u64) -> (answer: Option<Fetch>) {
        let text = self.sequence.as_str();
        let len = text.as_bytes().len();
        if end > len as u64 || start > end {
            return None;
        }
        let from = start as usize;
        let to = end as usize;
        if !text.is_char_boundary(from) || !text.is_char_boundary(to) {
            return None;
        }
        let ghost bytes = encode_utf8(text@);
        proof {
            encode_utf8_valid_utf8(text@);
            valid_utf8_split(bytes, from as int);
            let tail = bytes.subrange(from as int, bytes.len() as int);
            if to < len {
                is_char_boundary_iff_not_is_continuation_byte(bytes, to as int);
                is_char_boundary_iff_not_is_continuation_byte(tail, to - from);
            } else {
                is_char_boundary_start_end_of_seq(tail);
            }
        }
        let (_, rest) = text.split_at(from);
        assert(rest.spec_bytes() == bytes.subrange(from as int, bytes.len() as int));
        let (part, _) = rest.split_at(to - from);
        proof {
            assert(part.spec_bytes() =~= bytes.subrange(from as int, to as int));
            encode_utf8_decode_utf8(part@);
        }
        Some(Fetch::Ready(part.to_owned()))
    }
}

/// A sequence left in the file: its name, and the index that places it.
pub struct FileContig {
    pub tid: String,
    pub index: Option<Arc<FaiIndex>>,
}

impl Source for FileContig {
    open spec fn whole(&self) -> Option<Answer> {
        match self.index {
            Some(index) => match whole_offsets_in(index@, self.tid@) {
                Some((start, end)) => Some(Answer::Read(ByteRange { start, end })),
                None => None,
            },
            None => None,
        }
    }

    open spec fn region(&self, start: u64, end: u64) -> Option<Answer> {
        match self.index {
            Some(index) => match region_offsets_in(index@, self.tid@, start, end) {
                Some((byte_start, byte_end)) => Some(
                    Answer::Read(ByteRange { start: byte_start, end: byte_end }),
                ),
                None => None,
            },
            None => None,
        }
    }

    fn sequence(&self) -> (answer: Option<Fetch>) {
        match &self.index {
            Some(index) => match index.get_tid_offsets(self.tid.as_str()) {
                Some((start, end)) => Some(Fetch::Read(ByteRange { start, end })),
                None => None,
            },
            None => None,
        }
    }

    fn read_region(&self, start: u64, end: u64) -> (answer: Option<Fetch>) {
        match &self.index {
            Some(index) => match index.get_region_offsets(self.tid.as_str(), start, end) {
                Some((byte_start, byte_end)) => Some(
                    Fetch::Read(ByteRange { start: byte_start, end: byte_end }),
                ),
                None => None,
            },
            None => None,
        }
    }
}

/// The source of a contig: memory or the file.
pub enum ContigSource {
    /// The sequence was read when the contig was made.
    Memory(MemoryContig),
    /// The sequence is read from the file when it is asked for.
    File(FileContig),
}

impl Source for ContigSource {
    open spec fn whole(&self) -> Option<Answer> {
        match self {
            ContigSource::Memory(source) => source.whole(),
            ContigSource::File(source) => source.whole(),
        }
    }

    open spec fn region(&self, start: u64, end: u64) -> Option<Answer> {
        match self {
            ContigSource::Memory(source) => source.region(start, end),
            ContigSource::File(source) => source.region(start, end),
        }
    }

    fn sequence(&self) -> (answer: Option<Fetch>) {
        match self {
            ContigSource::Memory(source) => source.sequence(),
            ContigSource::File(source) => source.sequence(),
        }
    }

    fn read_region(&self, start: u64, end: u64) -> (answer: Option<Fetch>) {
        match self {
            ContigSource::Memory(source) => source.read_region(start, end),
            ContigSource::File(source) => source.read_region(start, end),
        }
    }
}

/// A named sequence and where it comes from.
pub struct Contig {
    pub tid: String,
    pub source: ContigSource,
}

impl Contig {
    /// The whole sequence, as its source answers.
    pub fn sequence(&mut self) -> (answer: Option<Fetch>)
        ensures
            *final(self) == *old(self),
            match answer {
                Some(fetch) => old(self).source.whole() == Some(fetch@),
                None => old(self).source.whole() is None,
            },
    {
        self.source.sequence()
    }

    /// The bases `[start, end)`, as the source answers.
    pub fn read_region(&mut self, start: u64, end: u64) -> (answer: Option<Fetch>)
        ensures
            *final(self) == *old(self),
            match answer {
                Some(fetch) => old(self).source.region(start, end) == Some(fetch@),
                None => old(self).source.region(start, end) is None,
            },
    {
        self.source.read_region(start, end)
    }
}

} // verus!
