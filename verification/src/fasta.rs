//! A FASTA file with its index: which bytes to read for a request, and what
//! the bytes read stand for.

use crate::contig::{ByteRange, Contig, ContigSource, FileContig, MemoryContig};
use crate::error::Error;
use crate::fai::{
    lists_each_once, lists_lengths, read_lines, region_offsets_in, texts, whole_offsets_in, FaiIndex,
};
use crate::parser::chars_of;
use crate::text::{decode, decoded};
use std::sync::Arc;
use vstd::prelude::*;

verus! {

/// `Arc::clone` of the standard library gives another handle to the same
/// value.
#[verifier::external_body]
fn share(index: &Arc<FaiIndex>) -> (shared: Arc<FaiIndex>)
    ensures
        shared == *index,
{
    Arc::clone(index)
}

/// What is added to the path of a FASTA file to name its index.
pub open spec fn index_suffix() -> Seq<char> {
    seq!['.', 'f', 'a', 'i']
}

/// Where the index of a FASTA file is to be looked for.
#[derive(Debug)]
pub enum IndexLookup {
    /// The caller named this file: it is read, and a failure is an error.
    Given(String),
    /// No file was named: this one is read if it exists, and the FASTA file
    /// has no index if it does not.
    Sibling(String),
}

/// A FASTA file, with its index if it has one.
pub struct Fasta {
    pub index: Option<Arc<FaiIndex>>,
}

impl Fasta {
    /// The byte range that `read_region` asks for, or why there is none.
    pub open spec fn region_request(&self, tid: Seq<char>, start: u64, end: u64) -> Result<
        ByteRange,
        Error,
    > {
        match self.index {
            None => Err(Error::NoFAIDX),
            Some(index) => match region_offsets_in(index@, tid, start, end) {
                None => Err(Error::InvalidRegion),
                Some((byte_start, byte_end)) => Ok(ByteRange { start: byte_start, end: byte_end }),
            },
        }
    }

    /// The byte range of a whole sequence, or why there is none.
    pub open spec fn whole_request(&self, tid: Seq<char>) -> Result<ByteRange, Error> {
        match self.index {
            None => Err(Error::NoFAIDX),
            Some(index) => match whole_offsets_in(index@, tid) {
                None => Err(Error::InvalidRegion),
                Some((start, end)) => Ok(ByteRange { start, end }),
            },
        }
    }

    /// Where to look for the index of the FASTA file at `fasta_path`: in the
    /// file that the caller names, or else beside the FASTA file, under its
    /// path with `.fai` added.
    pub fn from_path(fasta_path: &str, fai_path: Option<&str>) -> (lookup: IndexLookup)
        ensures
            match fai_path {
                Some(given) => lookup matches IndexLookup::Given(path) && path@ == given@,
                None => lookup matches IndexLookup::Sibling(path) && path@ == fasta_path@
                    + index_suffix(),
            },
    {
        match fai_path {
            Some(given) => IndexLookup::Given(given.to_owned()),
            None => {
                let mut path = fasta_path.to_owned();
                path.push('.');
                path.push('f');
                path.push('a');
                path.push('i');
                assert(path@ =~= fasta_path@ + index_suffix());
                IndexLookup::Sibling(path)
            },
        }
    }

    /// A FASTA file with the index that the given lines hold, or without an
    /// index where there are none.
    pub fn from_reader(fai_lines: Option<&Vec<String>>) -> (r: Result<Fasta, Error>)
        ensures
            match fai_lines {
                None => r matches Ok(fasta) && fasta.index is None,
                Some(lines) => match r {
                    Ok(fasta) => {
                        &&& fasta.index matches Some(index)
                        &&& index.wf()
                        &&& read_lines(texts(lines@)) == Some(index.records())
                    },
                    Err(e) => read_lines(texts(lines@)) is None && e is ParseError,
                },
            },
    {
        match fai_lines {
            None => Ok(Fasta { index: None }),
            Some(lines) => match FaiIndex::from_reader(lines) {
                Ok(index) => Ok(Fasta { index: Some(Arc::new(index)) }),
                Err(e) => Err(e),
            },
        }
    }

    /// The bytes to read for the bases `[start, end)` of a sequence. Without
    /// an index there are none; nor for an unknown name or for a range that is
    /// empty or not within the sequence.
    pub fn read_region(&mut self, tid: &str, start: u64, end: u64) -> (r: Result<ByteRange, Error>)
        ensures
            *final(self) == *old(self),
            r == old(self).region_request(tid@, start, end),
            old(self).index matches Some(index) && index@.contains_key(tid@)
                && index@[tid@].well_laid() ==> (r matches Ok(range) ==> range.end - range.start
                >= end - start > 0),
    {
        match &self.index {
            None => Err(Error::NoFAIDX),
            Some(index) => match index.get_region_offsets(tid, start, end) {
                None => Err(Error::InvalidRegion),
                Some((byte_start, byte_end)) => Ok(ByteRange { start: byte_start, end: byte_end }),
            },
        }
    }

    /// The name and length of every sequence of the index.
    pub fn tid_lengths(&self) -> (r: Result<Vec<(String, u64)>, Error>)
        ensures
            match r {
                Ok(pairs) => {
                    &&& self.index matches Some(index)
                    &&& lists_lengths(pairs@, index.records())
                    &&& lists_each_once(pairs@, index@)
                },
                Err(e) => self.index is None && e is NoFAIDX,
            },
    {
        match &self.index {
            None => Err(Error::NoFAIDX),
            Some(index) => Ok(index.lengths()),
        }
    }

    /// The bytes to read for a whole sequence that is to be held in memory.
    pub fn read_mmap_tid(&mut self, tid: &str) -> (r: Result<ByteRange, Error>)
        ensures
            *final(self) == *old(self),
            r == old(self).whole_request(tid@),
    {
        match &self.index {
            None => Err(Error::NoFAIDX),
            Some(index) => match index.get_tid_offsets(tid) {
                None => Err(Error::InvalidRegion),
                Some((start, end)) => Ok(ByteRange { start, end }),
            },
        }
    }

    /// A contig that leaves its sequence in the file.
    pub fn read_io_tid(&mut self, tid: &str) -> (r: Result<Contig, Error>)
        ensures
            *final(self) == *old(self),
            match r {
                Ok(contig) => {
                    &&& old(self).whole_request(tid@) is Ok
                    &&& contig.tid@ == tid@
                    &&& contig.source matches ContigSource::File(source)
                    &&& source.tid@ == tid@
                    &&& source.index == old(self).index
                },
                Err(e) => old(self).whole_request(tid@) == Err::<ByteRange, Error>(e),
            },
    {
        match &self.index {
            None => Err(Error::NoFAIDX),
            Some(index) => match index.get_tid_offsets(tid) {
                None => Err(Error::InvalidRegion),
                Some(_) => Ok(
                    Contig {
                        tid: tid.to_owned(),
                        source: ContigSource::File(
                            FileContig { tid: tid.to_owned(), index: Some(share(index)) },
                        ),
                    },
                ),
            },
        }
    }
}

impl Fasta {
    /// The bytes to read for every sequence of the index, each to be held in
    /// memory, in the order of the entries.
    pub fn read_all_mmap(&mut self) -> (r: Result<Vec<(String, ByteRange)>, Error>)
        ensures
            *final(self) == *old(self),
            match r {
                Ok(plan) => {
                    &&& old(self).index matches Some(index)
                    &&& plan@.len() == index.records().len()
                    &&& forall|i: int|
                        0 <= i < plan@.len() ==> (#[trigger] plan@[i]).0@
                            == index.records()[i].name && old(self).whole_request(plan@[i].0@)
                            == Ok::<ByteRange, Error>(plan@[i].1)
                },
                Err(e) => match old(self).index {
                    None => e is NoFAIDX,
                    Some(index) => e is InvalidRegion && exists|i: int|
                        0 <= i < index.records().len() && (#[trigger] index.records()[i]).whole_offsets() is None,
                },
            },
    {
        let index = match &self.index {
            None => { return Err(Error::NoFAIDX); },
            Some(index) => index,
        };
        let mut plan: Vec<(String, ByteRange)> = Vec::new();
        let mut i: usize = 0;
        while i < index.len()
            invariant
                i <= index.records().len(),
                self.index == Some(*index),
                plan@.len() == i,
                forall|k: int|
                    0 <= k < i ==> (#[trigger] plan@[k]).0@ == index.records()[k].name
                        && self.whole_request(plan@[k].0@) == Ok::<ByteRange, Error>(plan@[k].1),
            decreases index.records().len() - i,
        {
            let entry = index.entry_at(i);
            match entry.whole_offsets() {
                None => {
                    return Err(Error::InvalidRegion);
                },
                Some((start, end)) => {
                    plan.push((entry.name.clone(), ByteRange { start, end }));
                },
            }
            i += 1;
        }
        Ok(plan)
    }

    /// A contig for every sequence of the index, each leaving its sequence in
    /// the file, in the order of the entries. There is none where the whole
    /// range of some entry cannot be named.
    pub fn read_all_io(&mut self) -> (r: Result<Vec<Contig>, Error>)
        ensures
            *final(self) == *old(self),
            match r {
                Ok(contigs) => {
                    &&& old(self).index matches Some(index)
                    &&& contigs@.len() == index.records().len()
                    &&& forall|i: int|
                        0 <= i < contigs@.len() ==> {
                            &&& (#[trigger] contigs@[i]).tid@ == index.records()[i].name
                            &&& index.records()[i].whole_offsets() is Some
                            &&& old(self).whole_request(contigs@[i].tid@) is Ok
                            &&& contigs@[i].source matches ContigSource::File(source)
                            &&& source.tid@ == index.records()[i].name
                            &&& source.index == old(self).index
                        }
                },
                Err(e) => match old(self).index {
                    None => e is NoFAIDX,
                    Some(index) => e is InvalidRegion && exists|i: int|
                        0 <= i < index.records().len() && (#[trigger] index.records()[i]).whole_offsets() is None,
                },
            },
    {
        let index = match &self.index {
            None => { return Err(Error::NoFAIDX); },
            Some(index) => index,
        };
        let mut contigs: Vec<Contig> = Vec::new();
        let mut i: usize = 0;
        while i < index.len()
            invariant
                i <= index.records().len(),
                self.index == Some(*index),
                contigs@.len() == i,
                forall|k: int|
                    0 <= k < i ==> {
                        &&& (#[trigger] contigs@[k]).tid@ == index.records()[k].name
                        &&& index.records()[k].whole_offsets() is Some
                        &&& self.whole_request(contigs@[k].tid@) is Ok
                        &&& contigs@[k].source matches ContigSource::File(source)
                        &&& source.tid@ == index.records()[k].name
                        &&& source.index == self.index
                    },
            decreases index.records().len() - i,
        {
            let entry = index.entry_at(i);
            match entry.whole_offsets() {
                None => {
                    assert(self.index matches Some(held) && held.records()[i as int].whole_offsets()
                        is None);
                    return Err(Error::InvalidRegion);
                },
                Some(_) => {},
            }
            contigs.push(
                Contig {
                    tid: entry.name.clone(),
                    source: ContigSource::File(
                        FileContig { tid: entry.name.clone(), index: Some(share(index)) },
                    ),
                },
            );
            i += 1;
        }
        Ok(contigs)
    }
}

/// The contig that holds in memory what the bytes read for a whole sequence
/// stand for; a failed read is handed on as it is.
pub fn finish_mmap(tid: &str, read: Result<Vec<u8>, std::io::Error>) -> (r: Result<Contig, Error>)
    ensures
        match read {
            Ok(buf) => {
                &&& r matches Ok(contig)
                &&& contig.tid@ == tid@
                &&& contig.source matches ContigSource::Memory(source)
                &&& source.sequence@ == decoded(buf@)
            },
            Err(failure) => r matches Err(Error::Io(e)) && e == failure,
        },
{
    match read {
        Ok(buf) => Ok(
            Contig {
                tid: tid.to_owned(),
                source: ContigSource::Memory(MemoryContig { sequence: decode(buf.as_slice()) }),
            },
        ),
        Err(failure) => Err(Error::Io(failure)),
    }
}

/// What the bytes read for a request stand for; a failed read is handed on
/// as it is.
pub fn finish_read(read: Result<Vec<u8>, std::io::Error>) -> (r: Result<String, Error>)
    ensures
        match read {
            Ok(buf) => r matches Ok(sequence) && sequence@ == decoded(buf@),
            Err(failure) => r matches Err(Error::Io(e)) && e == failure,
        },
{
    match read {
        Ok(buf) => Ok(decode(buf.as_slice())),
        Err(failure) => Err(Error::Io(failure)),
    }
}

/// The base that pairs with `base`: `A` with `T`, `C` with `G`, in either
/// case of the letter; `N` for every other character.
pub open spec fn complement(base: char) -> char {
    if base == 'A' || base == 'a' {
        'T'
    } else if base == 'T' || base == 't' {
        'A'
    } else if base == 'C' || base == 'c' {
        'G'
    } else if base == 'G' || base == 'g' {
        'C'
    } else {
        'N'
    }
}

/// The complement of every base, last base first.
pub open spec fn reverse_complement_of(bases: Seq<char>) -> Seq<char> {
    Seq::new(bases.len(), |i: int| complement(bases[bases.len() - 1 - i]))
}

/// The complement of one base.
pub fn complement_base(base: char) -> (paired: char)
    ensures
        paired == complement(base),
{
    match base {
        'A' | 'a' => 'T',
        'T' | 't' => 'A',
        'C' | 'c' => 'G',
        'G' | 'g' => 'C',
        _ => 'N',
    }
}

/// The reverse complement of a text of bases.
fn reverse_complement_text(text: &str) -> (r: String)
    ensures
        r@ == reverse_complement_of(text@),
{
    let bases = chars_of(text);
    let mut r = String::new();
    let mut i: usize = bases.len();
    while i > 0
        invariant
            i <= bases.len(),
            bases@ == text@,
            r@ == reverse_complement_of(text@).take(bases.len() - i),
        decreases i,
    {
        i -= 1;
        r.push(complement_base(bases[i]));
        assert(r@ =~= reverse_complement_of(text@).take(bases.len() - i));
    }
    assert(reverse_complement_of(text@).take(bases.len() as int) =~= reverse_complement_of(text@));
    r
}

/// A sequence of bases that can be read off the opposite strand.
pub trait ReverseComplement {
    /// The bases of the sequence.
    spec fn bases(&self) -> Seq<char>;

    /// The complement of every base, last base first.
    fn reverse_complement(&self) -> (r: String)
        ensures
            r@ == reverse_complement_of(self.bases()),
    ;
}

impl ReverseComplement for String {
    open spec fn bases(&self) -> Seq<char> {
        self@
    }

    fn reverse_complement(&self) -> (r: String) {
        reverse_complement_text(self.as_str())
    }
}

impl ReverseComplement for &str {
    open spec fn bases(&self) -> Seq<char> {
        self@
    }

    fn reverse_complement(&self) -> (r: String) {
        reverse_complement_text(self)
    }
}

} // verus!
