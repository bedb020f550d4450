//! The index of a FASTA file: one entry per sequence, and the way from
//! base coordinates to byte ranges of the file.

use crate::error::Error;
use crate::layout::{grid_offset, lemma_grid_offset_monotonic};
use crate::parser::{chars_of, parse_chars, parsed_line};
use vstd::hash_map::StringHashMap;
use vstd::prelude::*;

verus! {

/// What an index entry says, as plain values.
pub struct FaiRecord {
    pub name: Seq<char>,
    pub length: u64,
    pub offset: u64,
    pub line_bases: u64,
    pub line_width: u64,
}

impl FaiRecord {
    /// A line holds at least one base, and is at least as wide as its bases.
    pub open spec fn well_laid(self) -> bool {
        1 <= self.line_bases <= self.line_width
    }

    /// The byte position of base `coord` in the file.
    pub open spec fn byte_offset(self, coord: int) -> int {
        grid_offset(self.offset as int, self.line_bases as int, self.line_width as int, coord)
    }

    /// The bytes `[offset, offset + length)`, where that range can be named.
    pub open spec fn whole_offsets(self) -> Option<(u64, u64)> {
        if self.offset + self.length <= u64::MAX {
            Some((self.offset, (self.offset + self.length) as u64))
        } else {
            None
        }
    }

    /// Whether `[start, end)` is a non-empty range of bases of this sequence
    /// whose bytes can be named: a line holds at least one base, and the
    /// byte positions of both ends are file offsets.
    pub open spec fn region_ok(self, start: u64, end: u64) -> bool {
        &&& start < end <= self.length
        &&& self.line_bases >= 1
        &&& self.byte_offset(start as int) <= u64::MAX
        &&& self.byte_offset(end as int) <= u64::MAX
    }

    /// The byte position of base `start` and the byte position of base `end`.
    /// Where the entry is well laid, these bound the bytes that hold the bases
    /// `[start, end)`, line terminators in between included.
    pub open spec fn region_offsets(self, start: u64, end: u64) -> Option<(u64, u64)> {
        if self.region_ok(start, end) {
            Some((self.byte_offset(start as int) as u64, self.byte_offset(end as int) as u64))
        } else {
            None
        }
    }
}

/// Two ranges of one sequence that meet at base `b` meet at one byte of the
/// file, and together they are the range from the start of the first to the
/// end of the second.
pub proof fn lemma_regions_join(record: FaiRecord, a: u64, b: u64, c: u64)
    requires
        a < b < c <= record.length,
        record.region_offsets(a, b) is Some,
        record.region_offsets(b, c) is Some,
    ensures
        record.region_offsets(a, b).unwrap().1 == record.region_offsets(b, c).unwrap().0,
        record.region_offsets(a, c) == Some(
            (record.region_offsets(a, b).unwrap().0, record.region_offsets(b, c).unwrap().1),
        ),
{
}

/// One line of the index: a sequence's name, its number of bases, the byte
/// position of its first base, and its line layout.
#[derive(Debug)]
pub struct FaiEntry {
    pub name: String,
    pub length: u64,
    pub offset: u64,
    pub line_bases: u64,
    pub line_width: u64,
}

impl View for FaiEntry {
    type V = FaiRecord;

    open spec fn view(&self) -> FaiRecord {
        FaiRecord {
            name: self.name@,
            length: self.length,
            offset: self.offset,
            line_bases: self.line_bases,
            line_width: self.line_width,
        }
    }
}

impl Clone for FaiEntry {
    fn clone(&self) -> (copy: Self)
        ensures
            copy == *self,
    {
        FaiEntry {
            name: self.name.clone(),
            length: self.length,
            offset: self.offset,
            line_bases: self.line_bases,
            line_width: self.line_width,
        }
    }
}

impl FaiEntry {
    /// The byte range of the whole sequence.
    pub fn whole_offsets(&self) -> (range: Option<(u64, u64)>)
        ensures
            range == self@.whole_offsets(),
    {
        match self.offset.checked_add(self.length) {
            Some(end) => Some((self.offset, end)),
            None => None,
        }
    }

    /// The byte position of base `coord`, where it is a file offset.
    fn byte_offset(&self, coord: u64) -> (position: Option<u64>)
        requires
            self.line_bases >= 1,
        ensures
            position == if self@.byte_offset(coord as int) <= u64::MAX {
                Some(self@.byte_offset(coord as int) as u64)
            } else {
                None::<u64>
            },
    {
        let line = coord / self.line_bases;
        let column = coord % self.line_bases;
        assert(line * self.line_width >= 0) by (nonlinear_arith)
            requires
                line >= 0,
                self.line_width >= 0,
        ;
        let line_start = match line.checked_mul(self.line_width) {
            Some(v) => v,
            None => { return None; },
        };
        let in_file = match self.offset.checked_add(line_start) {
            Some(v) => v,
            None => { return None; },
        };
        in_file.checked_add(column)
    }

    /// The byte range of the bases `[start, end)`: the byte position of base
    /// `start`, and the byte position of base `end`.
    pub fn region_offsets(&self, start: u64, end: u64) -> (range: Option<(u64, u64)>)
        ensures
            range == self@.region_offsets(start, end),
            self@.well_laid() ==> (range matches Some((byte_start, byte_end)) ==> byte_end
                - byte_start >= end - start),
    {
        if start >= self.length || end > self.length || start >= end {
            return None;
        }
        if self.line_bases == 0 {
            return None;
        }
        let byte_start = match self.byte_offset(start) {
            Some(v) => v,
            None => { return None; },
        };
        let byte_end = match self.byte_offset(end) {
            Some(v) => v,
            None => { return None; },
        };
        proof {
            if self@.well_laid() {
                lemma_grid_offset_monotonic(
                    self.offset as int,
                    self.line_bases as int,
                    self.line_width as int,
                    start as int,
                    end as int,
                );
            }
        }
        Some((byte_start, byte_end))
    }
}

/// The first place at or after `from` where an entry of that name stands.
pub open spec fn position_from(records: Seq<FaiRecord>, name: Seq<char>, from: int) -> Option<int>
    decreases records.len() - from,
{
    if from < 0 || from >= records.len() {
        None
    } else if records[from].name == name {
        Some(from)
    } else {
        position_from(records, name, from + 1)
    }
}

/// The first place where an entry of that name stands.
pub open spec fn position(records: Seq<FaiRecord>, name: Seq<char>) -> Option<int> {
    position_from(records, name, 0)
}

/// No two entries have the same name.
pub open spec fn distinct_names(records: Seq<FaiRecord>) -> bool {
    forall|i: int, j: int| 0 <= i < j < records.len() ==> records[i].name != records[j].name
}

/// The entries by name.
pub open spec fn by_name(records: Seq<FaiRecord>) -> Map<Seq<char>, FaiRecord> {
    Map::new(
        |name: Seq<char>| position(records, name) is Some,
        |name: Seq<char>| records[position(records, name).unwrap()],
    )
}

/// The entries after one more is read: it takes the place of an earlier entry
/// of its name, or comes last.
pub open spec fn upsert(records: Seq<FaiRecord>, record: FaiRecord) -> Seq<FaiRecord> {
    match position(records, record.name) {
        Some(i) => records.update(i, record),
        None => records.push(record),
    }
}

/// What a search from `from` finds is the first entry of that name there.
pub proof fn lemma_position_from(records: Seq<FaiRecord>, name: Seq<char>, from: int)
    requires
        0 <= from,
    ensures
        match position_from(records, name, from) {
            Some(i) => from <= i < records.len() && records[i].name == name && forall|k: int|
                from <= k < i ==> records[k].name != name,
            None => forall|k: int| from <= k < records.len() ==> records[k].name != name,
        },
    decreases records.len() - from,
{
    if from < records.len() && records[from].name != name {
        lemma_position_from(records, name, from + 1);
    }
}

/// Where names are distinct, every entry is found at its own place.
pub proof fn lemma_position_of_entry(records: Seq<FaiRecord>, i: int)
    requires
        distinct_names(records),
        0 <= i < records.len(),
    ensures
        position(records, records[i].name) == Some(i),
{
    lemma_position_from(records, records[i].name, 0);
}

/// Reading one more entry keeps the names distinct, and changes the entries
/// by name in one place: the new entry stands under its name, whether or not
/// an earlier one stood there.
pub proof fn lemma_upsert(records: Seq<FaiRecord>, record: FaiRecord)
    requires
        distinct_names(records),
    ensures
        distinct_names(upsert(records, record)),
        by_name(upsert(records, record)) == by_name(records).insert(record.name, record),
{
    let after = upsert(records, record);
    lemma_position_from(records, record.name, 0);
    assert forall|name: Seq<char>|
        position(after, name) is Some <==> (name == record.name || position(
            records,
            name,
        ) is Some) by {
        lemma_position_from(records, name, 0);
        lemma_position_from(after, name, 0);
        if name != record.name && position(records, name) is Some {
            let k = position(records, name).unwrap();
            assert(after[k].name == name);
        }
        if name == record.name {
            match position(records, record.name) {
                Some(i) => {
                    assert(after[i].name == name);
                },
                None => {
                    assert(after[records.len() as int].name == name);
                },
            }
        }
    }
    assert forall|name: Seq<char>| position(after, name) is Some implies after[position(
        after,
        name,
    ).unwrap()] == (if name == record.name {
        record
    } else {
        records[position(records, name).unwrap()]
    }) by {
        lemma_position_from(records, name, 0);
        lemma_position_from(after, name, 0);
        let k = position(after, name).unwrap();
        if name == record.name {
            match position(records, record.name) {
                Some(i) => {
                    if k != i {
                        assert(records[k].name == name);
                    }
                },
                None => {
                    if k < records.len() {
                        assert(records[k].name == name);
                    }
                },
            }
        } else {
            let j = position(records, name).unwrap();
            assert(after[j].name == name);
            assert(records[k].name == name);
        }
    }
    assert(by_name(after) =~= by_name(records).insert(record.name, record));
}

/// Searching among the entries with one more at the end finds what it found
/// without it, or else the new entry, if it has the name.
pub proof fn lemma_position_from_push(
    records: Seq<FaiRecord>,
    record: FaiRecord,
    name: Seq<char>,
    from: int,
)
    requires
        0 <= from <= records.len(),
    ensures
        position_from(records.push(record), name, from) == match position_from(
            records,
            name,
            from,
        ) {
            Some(i) => Some(i),
            None => if record.name == name {
                Some(records.len() as int)
            } else {
                None
            },
        },
    decreases records.len() - from,
{
    let longer = records.push(record);
    if from < records.len() {
        assert(longer[from] == records[from]);
        if records[from].name != name {
            lemma_position_from_push(records, record, name, from + 1);
        }
    } else {
        assert(longer[from] == record);
        assert(position_from(longer, name, from + 1) is None);
    }
}

/// Searching finds the same place among entries that have the same names in
/// the same places.
pub proof fn lemma_position_from_names(
    records: Seq<FaiRecord>,
    others: Seq<FaiRecord>,
    name: Seq<char>,
    from: int,
)
    requires
        0 <= from,
        records.len() == others.len(),
        forall|i: int| 0 <= i < records.len() ==> records[i].name == others[i].name,
    ensures
        position_from(records, name, from) == position_from(others, name, from),
    decreases records.len() - from,
{
    if from < records.len() && records[from].name != name {
        lemma_position_from_names(records, others, name, from + 1);
    }
}

/// Where each name is found after one more entry is read: the entry's own
/// name where it stood before, or else at the end; every other name where it
/// was found before.
pub proof fn lemma_position_upsert(records: Seq<FaiRecord>, record: FaiRecord, name: Seq<char>)
    ensures
        position(upsert(records, record), name) == if name == record.name {
            match position(records, name) {
                Some(i) => Some(i),
                None => Some(records.len() as int),
            }
        } else {
            position(records, name)
        },
{
    lemma_position_from(records, record.name, 0);
    match position(records, record.name) {
        Some(i) => {
            lemma_position_from_names(records, records.update(i, record), name, 0);
        },
        None => {
            lemma_position_from_push(records, record, name, 0);
        },
    }
}

/// The index of a FASTA file: its entries, no two under one name, and the
/// place of each entry under its name.
pub struct FaiIndex {
    entries: Vec<FaiEntry>,
    places: StringHashMap<usize>,
}

impl View for FaiIndex {
    type V = Map<Seq<char>, FaiRecord>;

    /// The entries by name.
    open spec fn view(&self) -> Map<Seq<char>, FaiRecord> {
        by_name(self.records())
    }
}

impl FaiIndex {
    /// The entries in the order in which their names first came.
    pub closed spec fn records(&self) -> Seq<FaiRecord> {
        self.entries@.map_values(|e: FaiEntry| e@)
    }

    /// No two entries have the same name.
    pub open spec fn wf(&self) -> bool {
        distinct_names(self.records())
    }

    /// Every name is kept with the place at which its entry stands, and
    /// nothing else is kept.
    closed spec fn placed(&self) -> bool {
        forall|name: Seq<char>|
            match #[trigger] position(self.records(), name) {
                Some(i) => self.places@.contains_key(name) && self.places@[name] == i,
                None => !self.places@.contains_key(name),
            }
    }

    #[verifier::type_invariant]
    closed spec fn inv(&self) -> bool {
        self.wf() && self.placed()
    }

    /// Every entry stands under its own name.
    pub proof fn lemma_entry_by_name(&self, i: int)
        requires
            self.wf(),
            0 <= i < self.records().len(),
        ensures
            self@.contains_key(self.records()[i].name),
            self@[self.records()[i].name] == self.records()[i],
    {
        lemma_position_of_entry(self.records(), i);
    }

    /// An index without entries.
    pub fn new() -> (index: Self)
        ensures
            index.wf(),
            index.records() == Seq::<FaiRecord>::empty(),
            index@ == Map::<Seq<char>, FaiRecord>::empty(),
    {
        let index = FaiIndex { entries: Vec::new(), places: StringHashMap::new() };
        assert(index.records() =~= Seq::<FaiRecord>::empty());
        assert(index@ =~= Map::<Seq<char>, FaiRecord>::empty());
        index
    }

    /// The number of entries.
    pub fn len(&self) -> (n: usize)
        ensures
            n == self.records().len(),
    {
        self.entries.len()
    }

    /// The entry at place `i`.
    pub fn entry_at(&self, i: usize) -> (entry: &FaiEntry)
        requires
            i < self.records().len(),
        ensures
            entry@ == self.records()[i as int],
            self@.contains_key(entry@.name),
            self@[entry@.name] == entry@,
    {
        proof {
            use_type_invariant(self);
            self.lemma_entry_by_name(i as int);
        }
        &self.entries[i]
    }

    /// Where the entry of that name stands.
    fn find(&self, name: &str) -> (found: Option<usize>)
        ensures
            match found {
                Some(i) => position(self.records(), name@) == Some(i as int) && i
                    < self.entries.len(),
                None => position(self.records(), name@) is None,
            },
    {
        proof {
            use_type_invariant(self);
            lemma_position_from(self.records(), name@, 0);
        }
        match self.places.get(name) {
            Some(place) => Some(*place),
            None => None,
        }
    }

    /// The entry of that name.
    pub fn get(&self, name: &str) -> (entry: Option<&FaiEntry>)
        ensures
            match entry {
                Some(e) => self@.contains_key(name@) && self@[name@] == e@,
                None => !self@.contains_key(name@),
            },
    {
        match self.find(name) {
            Some(i) => Some(&self.entries[i]),
            None => None,
        }
    }

    /// Takes an entry in. It replaces the entry of the same name, if there is
    /// one.
    pub fn insert(&mut self, entry: FaiEntry)
        ensures
            final(self).wf(),
            final(self).records() == upsert(old(self).records(), entry@),
            final(self)@ == old(self)@.insert(entry@.name, entry@),
    {
        proof {
            use_type_invariant(&*self);
            lemma_upsert(self.records(), entry@);
        }
        let ghost before = self.records();
        let found = self.find(entry.name.as_str());
        let mut taken = FaiIndex::new();
        std::mem::swap(self, &mut taken);
        let FaiIndex { mut entries, mut places } = taken;
        let ghost kept = places@;
        assert(entries@.map_values(|e: FaiEntry| e@) == before);
        match found {
            Some(i) => {
                entries.set(i, entry);
            },
            None => {
                places.insert(entry.name.clone(), entries.len());
                entries.push(entry);
            },
        }
        let ghost after = entries@.map_values(|e: FaiEntry| e@);
        assert(after =~= upsert(before, entry@));
        assert forall|name: Seq<char>|
            match #[trigger] position(after, name) {
                Some(i) => places@.contains_key(name) && places@[name] == i,
                None => !places@.contains_key(name),
            } by {
            lemma_position_upsert(before, entry@, name);
            assert(match position(before, name) {
                Some(i) => kept.contains_key(name) && kept[name] == i,
                None => !kept.contains_key(name),
            });
        }
        *self = FaiIndex { entries, places };
    }

    /// Reads an index from its lines, each without its line ending. An entry
    /// replaces an earlier entry of the same name.
    pub fn from_reader(lines: &Vec<String>) -> (r: Result<FaiIndex, Error>)
        ensures
            match r {
                Ok(index) => index.wf() && read_lines(texts(lines@)) == Some(index.records()),
                Err(e) => read_lines(texts(lines@)) is None && e is ParseError,
            },
    {
        let mut index = FaiIndex::new();
        let mut i: usize = 0;
        while i < lines.len()
            invariant
                i <= lines.len(),
                index.wf(),
                read_lines(texts(lines@).take(i as int)) == Some(index.records()),
            decreases lines.len() - i,
        {
            let ghost done = texts(lines@).take(i as int);
            let ghost next = texts(lines@).take(i + 1);
            proof {
                assert(next.drop_last() =~= done);
                assert(next.last() == lines@[i as int]@);
                lemma_read_lines_stops(next, texts(lines@));
            }
            let mut line = chars_of(lines[i].as_str());
            line.push('\n');
            match parse_chars(&line) {
                Ok(entry) => {
                    index.insert(entry);
                },
                Err(e) => {
                    return Err(e);
                },
            }
            i += 1;
        }
        assert(texts(lines@).take(i as int) =~= texts(lines@));
        Ok(index)
    }

    /// The index that the lines of an index file give, where reading them
    /// came to their end. A line that is no index entry is reported before a
    /// failure that ended the reading after it; such a failure is handed on
    /// as it is.
    pub fn from_lines(lines: &Vec<String>, failure: Option<std::io::Error>) -> (r: Result<
        FaiIndex,
        Error,
    >)
        ensures
            match read_lines(texts(lines@)) {
                None => r matches Err(e) && e is ParseError,
                Some(records) => match failure {
                    Some(f) => r matches Err(Error::Io(e)) && e == f,
                    None => r matches Ok(index) && index.wf() && index.records() == records,
                },
            },
    {
        match FaiIndex::from_reader(lines) {
            Err(e) => Err(e),
            Ok(index) => match failure {
                Some(f) => Err(Error::Io(f)),
                None => Ok(index),
            },
        }
    }

    /// The byte range `[offset, offset + length)` of the named sequence.
    pub fn get_tid_offsets(&self, tid: &str) -> (range: Option<(u64, u64)>)
        ensures
            range == whole_offsets_in(self@, tid@),
    {
        match self.get(tid) {
            Some(entry) => entry.whole_offsets(),
            None => None,
        }
    }

    /// The byte range of the bases `[start, end)` of the named sequence: the
    /// byte position of base `start`, and the byte position of base `end`.
    /// There is none where the name is unknown, or the range is empty or runs
    /// past the sequence; nor where the entry gives a line no base, or a
    /// position is no file offset. Where the entry is well laid the range is
    /// not empty, and holds the bases with the line terminators between them.
    pub fn get_region_offsets(&self, chr: &str, start: u64, end: u64) -> (range: Option<(u64, u64)>)
        ensures
            range == region_offsets_in(self@, chr@, start, end),
            self@.contains_key(chr@) && self@[chr@].well_laid() ==> (range matches Some(
                (byte_start, byte_end),
            ) ==> byte_end > byte_start && byte_end - byte_start >= end - start),
    {
        match self.get(chr) {
            Some(entry) => entry.region_offsets(start, end),
            None => None,
        }
    }

    /// The name and length of every sequence: one pair for each name of the
    /// index, in the order of the entries.
    pub fn lengths(&self) -> (pairs: Vec<(String, u64)>)
        ensures
            lists_lengths(pairs@, self.records()),
            lists_each_once(pairs@, self@),
    {
        let mut pairs: Vec<(String, u64)> = Vec::new();
        let mut i: usize = 0;
        while i < self.entries.len()
            invariant
                i <= self.entries.len(),
                pairs@.len() == i,
                forall|k: int|
                    0 <= k < i ==> (#[trigger] pairs@[k]).0@ == self.records()[k].name
                        && pairs@[k].1 == self.records()[k].length,
            decreases self.entries.len() - i,
        {
            pairs.push((self.entries[i].name.clone(), self.entries[i].length));
            i += 1;
        }
        proof {
            use_type_invariant(self);
            lemma_lists_each_once(pairs@, self.records());
        }
        pairs
    }
}

/// The pairs are the names and lengths of the entries, in their order.
pub open spec fn lists_lengths(pairs: Seq<(String, u64)>, records: Seq<FaiRecord>) -> bool {
    &&& pairs.len() == records.len()
    &&& forall|i: int|
        0 <= i < pairs.len() ==> (#[trigger] pairs[i]).0@ == records[i].name && pairs[i].1
            == records[i].length
}

/// Every pair holds a name of the index and the length of its sequence, no
/// name comes twice, and none is left out.
pub open spec fn lists_each_once(pairs: Seq<(String, u64)>, index: Map<Seq<char>, FaiRecord>) -> bool {
    &&& forall|i: int|
        0 <= i < pairs.len() ==> index.contains_key((#[trigger] pairs[i]).0@)
            && index[pairs[i].0@].length == pairs[i].1
    &&& forall|i: int, j: int|
        0 <= i < j < pairs.len() ==> (#[trigger] pairs[i]).0@ != (#[trigger] pairs[j]).0@
    &&& forall|name: Seq<char>| #[trigger]
        index.contains_key(name) ==> exists|i: int|
            0 <= i < pairs.len() && (#[trigger] pairs[i]).0@ == name
}

/// A list of the entries' names and lengths holds every name of the index
/// once.
pub proof fn lemma_lists_each_once(pairs: Seq<(String, u64)>, records: Seq<FaiRecord>)
    requires
        distinct_names(records),
        lists_lengths(pairs, records),
    ensures
        lists_each_once(pairs, by_name(records)),
{
    let index = by_name(records);
    assert forall|i: int| 0 <= i < pairs.len() implies index.contains_key((#[trigger] pairs[i]).0@)
        && index[pairs[i].0@].length == pairs[i].1 by {
        lemma_position_of_entry(records, i);
    }
    assert forall|name: Seq<char>| #[trigger] index.contains_key(name) implies exists|i: int|
        0 <= i < pairs.len() && (#[trigger] pairs[i]).0@ == name by {
        lemma_position_from(records, name, 0);
        let i = position(records, name).unwrap();
        assert(pairs[i].0@ == name);
    }
}

/// The characters of each line.
pub open spec fn texts(lines: Seq<String>) -> Seq<Seq<char>> {
    lines.map_values(|line: String| line@)
}

/// The entries that the lines of an index give, read in order, each line
/// completed by a line feed; none where a line is no index entry.
pub open spec fn read_lines(lines: Seq<Seq<char>>) -> Option<Seq<FaiRecord>>
    decreases lines.len(),
{
    if lines.len() == 0 {
        Some(Seq::empty())
    } else {
        match (read_lines(lines.drop_last()), parsed_line(lines.last().push('\n'))) {
            (Some(records), Some(record)) => Some(upsert(records, record)),
            _ => None,
        }
    }
}

/// Where the first lines of an index cannot be read, the index cannot.
pub proof fn lemma_read_lines_stops(head: Seq<Seq<char>>, lines: Seq<Seq<char>>)
    requires
        head.len() <= lines.len(),
        head == lines.take(head.len() as int),
    ensures
        read_lines(head) is None ==> read_lines(lines) is None,
    decreases lines.len(),
{
    if head.len() < lines.len() {
        assert(lines.drop_last().take(head.len() as int) =~= head);
        lemma_read_lines_stops(head, lines.drop_last());
    } else {
        assert(head =~= lines);
    }
}

/// The byte range of a whole sequence of the index.
pub open spec fn whole_offsets_in(index: Map<Seq<char>, FaiRecord>, name: Seq<char>) -> Option<
    (u64, u64),
> {
    if index.contains_key(name) {
        index[name].whole_offsets()
    } else {
        None
    }
}

/// The byte range of the bases `[start, end)` of a sequence of the index.
pub open spec fn region_offsets_in(
    index: Map<Seq<char>, FaiRecord>,
    name: Seq<char>,
    start: u64,
    end: u64,
) -> Option<(u64, u64)> {
    if index.contains_key(name) {
        index[name].region_offsets(start, end)
    } else {
        None
    }
}

} // verus!
