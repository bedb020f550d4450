use faidx::{parse_fai_line, Error, FaiEntry, FaiIndex};

fn entry(name: &str, length: u64, offset: u64, line_bases: u64, line_width: u64) -> FaiEntry {
    FaiEntry { name: name.to_string(), length, offset, line_bases, line_width }
}

fn index_of(lines: &[&str]) -> FaiIndex {
    let lines: Vec<String> = lines.iter().map(|l| l.to_string()).collect();
    FaiIndex::from_reader(&lines).unwrap()
}

#[test]
fn parse_reads_the_five_fields() {
    let e = parse_fai_line("chr1\t12\t6\t12\t13\n").unwrap();
    assert_eq!(e.name, "chr1");
    assert_eq!(e.length, 12);
    assert_eq!(e.offset, 6);
    assert_eq!(e.line_bases, 12);
    assert_eq!(e.line_width, 13);
}

#[test]
fn parse_accepts_a_carriage_return_before_the_line_feed() {
    let e = parse_fai_line("chrX\t100\t7\t60\t62\r\n").unwrap();
    assert_eq!(e.name, "chrX");
    assert_eq!(e.line_width, 62);
}

#[test]
fn parse_takes_the_name_up_to_the_first_tab() {
    let e = parse_fai_line("chr 1|x y\t1\t2\t3\t4\n").unwrap();
    assert_eq!(e.name, "chr 1|x y");
    let e = parse_fai_line("\t1\t2\t3\t4\n").unwrap();
    assert_eq!(e.name, "");
    let e = parse_fai_line("s\u{e9}q\t1\t2\t3\t4\n").unwrap();
    assert_eq!(e.name, "s\u{e9}q");
}

#[test]
fn parse_does_not_look_past_the_line_ending() {
    let e = parse_fai_line("a\t1\t2\t3\t4\nrest").unwrap();
    assert_eq!(e.line_width, 4);
}

#[test]
fn parse_reads_the_largest_number_and_leading_zeros() {
    let e = parse_fai_line("a\t18446744073709551615\t000000000000000000000007\t0\t0\n").unwrap();
    assert_eq!(e.length, u64::MAX);
    assert_eq!(e.offset, 7);
    assert_eq!(e.line_bases, 0);
}

#[test]
fn parse_rejects_what_is_no_entry() {
    let bad = [
        "",
        "\n",
        "chr1\n",
        "chr1\t12\t6\t12\t13",
        "chr1\t12\t6\t12\n",
        "chr1\t12\t6\t12\t13\t14\n",
        "chr1\t12\t6\t12\t\n",
        "chr1\t\t6\t12\t13\n",
        "chr1\t-12\t6\t12\t13\n",
        "chr1\t+12\t6\t12\t13\n",
        "chr1\t12\t6\t12\t13 \n",
        "chr1\t12\t6\t12\t13\r",
        "chr1\t12\t6\t12\t13\r\r\n",
        "chr1\t1x\t6\t12\t13\n",
        "chr1 12 6 12 13\n",
        "chr1\t18446744073709551616\t6\t12\t13\n",
        "chr1\t12\t6\t12\t99999999999999999999999\n",
        "chr1\t\u{661}\u{662}\t6\t12\t13\n",
    ];
    for line in bad {
        assert!(matches!(parse_fai_line(line), Err(Error::ParseError)), "{:?}", line);
    }
}

#[test]
fn from_reader_completes_each_line() {
    let index = index_of(&["chr1\t12\t6\t12\t13", "chr2\t5\t25\t5\t6\r"]);
    assert_eq!(index.len(), 2);
    assert_eq!(index.get("chr1").unwrap().offset, 6);
    assert_eq!(index.get("chr2").unwrap().line_width, 6);
    assert!(index.get("chr3").is_none());
}

#[test]
fn from_reader_of_no_lines_is_empty() {
    let index = FaiIndex::from_reader(&Vec::new()).unwrap();
    assert_eq!(index.len(), 0);
    assert_eq!(index.get_tid_offsets("chr1"), None);
    assert!(index.lengths().is_empty());
}

#[test]
fn from_reader_fails_on_a_bad_line() {
    let lines = vec!["chr1\t12\t6\t12\t13".to_string(), "oops".to_string()];
    assert!(matches!(FaiIndex::from_reader(&lines), Err(Error::ParseError)));
    let lines = vec!["chr1\t12\t6\t12\t13\t".to_string()];
    assert!(matches!(FaiIndex::from_reader(&lines), Err(Error::ParseError)));
    let lines = vec!["".to_string()];
    assert!(matches!(FaiIndex::from_reader(&lines), Err(Error::ParseError)));
}

#[test]
fn a_later_entry_replaces_an_earlier_one_of_its_name() {
    let index = index_of(&["a\t1\t2\t3\t4", "b\t5\t6\t7\t8", "a\t9\t10\t11\t12"]);
    assert_eq!(index.len(), 2);
    assert_eq!(index.get("a").unwrap().length, 9);
    assert_eq!(index.get("a").unwrap().offset, 10);
    assert_eq!(index.get("b").unwrap().length, 5);
    let lengths = index.lengths();
    assert_eq!(lengths, vec![("a".to_string(), 9), ("b".to_string(), 5)]);
}

#[test]
fn insert_adds_or_replaces() {
    let mut index = FaiIndex::new();
    index.insert(entry("x", 1, 2, 3, 4));
    index.insert(entry("y", 5, 6, 7, 8));
    index.insert(entry("x", 10, 20, 30, 40));
    assert_eq!(index.len(), 2);
    assert_eq!(index.get("x").unwrap().length, 10);
    assert_eq!(index.entry_at(0).name, "x");
    assert_eq!(index.entry_at(1).name, "y");
}

#[test]
fn whole_contig_offsets_are_offset_and_offset_plus_length() {
    let index = index_of(&["chr1\t12\t6\t12\t13", "chr2\t30\t25\t10\t11"]);
    assert_eq!(index.get_tid_offsets("chr1"), Some((6, 18)));
    assert_eq!(index.get_tid_offsets("chr2"), Some((25, 55)));
    assert_eq!(index.get_tid_offsets("chrZ"), None);
}

#[test]
fn whole_contig_offsets_that_do_not_fit_are_none() {
    let mut index = FaiIndex::new();
    index.insert(entry("big", 2, u64::MAX - 1, 1, 1));
    assert_eq!(index.get_tid_offsets("big"), None);
    let mut index = FaiIndex::new();
    index.insert(entry("edge", 1, u64::MAX - 1, 1, 1));
    assert_eq!(index.get_tid_offsets("edge"), Some((u64::MAX - 1, u64::MAX)));
}

#[test]
fn region_offsets_within_one_line() {
    let index = index_of(&["chr1\t12\t6\t12\t13"]);
    assert_eq!(index.get_region_offsets("chr1", 0, 4), Some((6, 10)));
    assert_eq!(index.get_region_offsets("chr1", 4, 8), Some((10, 14)));
    assert_eq!(index.get_region_offsets("chr1", 11, 12), Some((17, 19)));
    assert_eq!(index.get_region_offsets("chr1", 0, 12), Some((6, 19)));
}

#[test]
fn region_offsets_across_a_line_boundary() {
    let index = index_of(&["chr1\t30\t6\t12\t13"]);
    assert_eq!(index.get_region_offsets("chr1", 12, 16), Some((19, 23)));
    assert_eq!(index.get_region_offsets("chr1", 10, 14), Some((16, 21)));
    assert_eq!(index.get_region_offsets("chr1", 0, 30), Some((6, 6 + 2 * 13 + 6)));
    assert_eq!(index.get_region_offsets("chr1", 23, 24), Some((6 + 13 + 11, 6 + 2 * 13)));
}

#[test]
fn region_offsets_with_two_byte_line_endings() {
    let index = index_of(&["s\t10\t3\t4\t6"]);
    assert_eq!(index.get_region_offsets("s", 3, 9), Some((3 + 3, 3 + 2 * 6 + 1)));
}

#[test]
fn region_offsets_reject_bad_ranges_and_names() {
    let index = index_of(&["chr1\t12\t6\t12\t13"]);
    assert_eq!(index.get_region_offsets("chr1", 100, 200), None);
    assert_eq!(index.get_region_offsets("chr1", 4, 4), None);
    assert_eq!(index.get_region_offsets("chr1", 8, 4), None);
    assert_eq!(index.get_region_offsets("chr1", 0, 13), None);
    assert_eq!(index.get_region_offsets("chr1", 12, 13), None);
    assert_eq!(index.get_region_offsets("chr1", 0, 0), None);
    assert_eq!(index.get_region_offsets("chr2", 0, 4), None);
    assert_eq!(index.get_region_offsets("", 0, 4), None);
    assert_eq!(index.get_region_offsets("chr", 0, 4), None);
    assert_eq!(index.get_region_offsets("chr11", 0, 4), None);
}

#[test]
fn an_empty_sequence_has_no_region() {
    let index = index_of(&["empty\t0\t7\t0\t0"]);
    assert_eq!(index.get_tid_offsets("empty"), Some((7, 7)));
    assert_eq!(index.get_region_offsets("empty", 0, 0), None);
    assert_eq!(index.get_region_offsets("empty", 0, 1), None);
    assert_eq!(index.lengths(), vec![("empty".to_string(), 0)]);
}

#[test]
fn an_entry_whose_lines_hold_no_base_has_no_region() {
    let index = index_of(&["zero\t12\t6\t0\t0", "none\t12\t6\t0\t13"]);
    assert_eq!(index.get_region_offsets("zero", 0, 4), None);
    assert_eq!(index.get_region_offsets("none", 0, 4), None);
    assert_eq!(index.get_tid_offsets("zero"), Some((6, 18)));
}

#[test]
fn a_line_narrower_than_its_bases_is_placed_by_the_same_formula() {
    let index = index_of(&["narrow\t12\t6\t12\t11", "tight\t40\t100\t10\t5"]);
    assert_eq!(index.get_region_offsets("narrow", 0, 4), Some((6, 10)));
    assert_eq!(index.get_region_offsets("narrow", 0, 12), Some((6, 17)));
    assert_eq!(index.get_region_offsets("narrow", 11, 12), Some((17, 17)));
    assert_eq!(index.get_region_offsets("tight", 9, 10), Some((109, 105)));
    assert_eq!(index.get_region_offsets("tight", 12, 35), Some((107, 120)));
    assert_eq!(index.get_region_offsets("tight", 0, 40), Some((100, 120)));
    assert_eq!(index.get_region_offsets("tight", 0, 41), None);
    assert_eq!(index.get_region_offsets("tight", 3, 3), None);
}

#[test]
fn ranges_that_meet_join() {
    let index = index_of(&["chr1\t30\t6\t12\t13", "tight\t40\t100\t10\t5", "one\t9\t0\t1\t3"]);
    for (name, length) in [("chr1", 30u64), ("tight", 40), ("one", 9)] {
        for a in 0..length {
            for b in (a + 1)..length {
                for c in (b + 1)..=length {
                    let first = index.get_region_offsets(name, a, b).unwrap();
                    let second = index.get_region_offsets(name, b, c).unwrap();
                    assert_eq!(first.1, second.0);
                    assert_eq!(
                        index.get_region_offsets(name, a, c),
                        Some((first.0, second.1))
                    );
                }
            }
        }
    }
}

#[test]
fn a_start_that_is_no_file_offset_gives_no_region() {
    let e = entry("back", 20, u64::MAX - 9, 10, 0);
    assert_eq!(e.region_offsets(0, 10), Some((u64::MAX - 9, u64::MAX - 9)));
    assert_eq!(e.region_offsets(9, 10), Some((u64::MAX, u64::MAX - 9)));
    assert_eq!(e.region_offsets(9, 19), Some((u64::MAX, u64::MAX)));
    let e = entry("back", 20, u64::MAX - 8, 10, 0);
    assert_eq!(e.region_offsets(8, 10), Some((u64::MAX, u64::MAX - 8)));
    assert_eq!(e.region_offsets(9, 10), None);
    assert_eq!(e.region_offsets(0, 19), None);
}

#[test]
fn from_lines_reports_a_bad_line_before_a_failed_read() {
    let good = vec!["chr1\t12\t6\t12\t13".to_string(), "chr2\t5\t25\t5\t6".to_string()];
    let bad = vec!["chr1\t12\t6\t12\t13".to_string(), "chr2".to_string()];
    let failure = || std::io::Error::new(std::io::ErrorKind::InvalidData, "not text");

    let index = FaiIndex::from_lines(&good, None).unwrap();
    assert_eq!(index.len(), 2);
    assert_eq!(index.get_tid_offsets("chr2"), Some((25, 30)));
    match FaiIndex::from_lines(&good, Some(failure())) {
        Err(Error::Io(e)) => {
            assert_eq!(e.kind(), std::io::ErrorKind::InvalidData);
            assert_eq!(e.to_string(), "not text");
        }
        _ => panic!("a failed read gives no index"),
    }
    assert!(matches!(FaiIndex::from_lines(&bad, None), Err(Error::ParseError)));
    assert!(matches!(FaiIndex::from_lines(&bad, Some(failure())), Err(Error::ParseError)));
    assert!(matches!(FaiIndex::from_lines(&Vec::new(), Some(failure())), Err(Error::Io(_))));
    assert_eq!(FaiIndex::from_lines(&Vec::new(), None).unwrap().len(), 0);
}

#[test]
fn a_region_that_does_not_fit_in_the_file_offsets_is_none() {
    let e = entry("far", 100, u64::MAX - 50, 10, 11);
    assert_eq!(e.region_offsets(0, 10), Some((u64::MAX - 50, u64::MAX - 39)));
    assert_eq!(e.region_offsets(39, 46), Some((u64::MAX - 8, u64::MAX)));
    assert_eq!(e.region_offsets(39, 47), None);
    assert_eq!(e.region_offsets(0, 100), None);
    let wide = entry("wide", u64::MAX, 0, 1, u64::MAX);
    assert_eq!(wide.region_offsets(0, 1), Some((0, u64::MAX)));
    assert_eq!(wide.region_offsets(0, 2), None);
}

#[test]
fn a_copy_of_an_entry_holds_the_same_fields() {
    let e = entry("chr1", 12, 6, 12, 13);
    let c = e.clone();
    assert_eq!(c.name, "chr1");
    assert_eq!((c.length, c.offset, c.line_bases, c.line_width), (12, 6, 12, 13));
}

#[test]
fn a_large_index_is_built_and_searched_by_name() {
    let n = 200_000u64;
    let mut lines: Vec<String> = (0..n).map(|i| format!("scaffold_{}\t{}\t{}\t60\t61", i, i + 1, i * 100)).collect();
    lines.push("scaffold_7\t1\t2\t3\t4".to_string());
    let index = FaiIndex::from_reader(&lines).unwrap();
    assert_eq!(index.len() as u64, n);
    for i in (0..n).step_by(7) {
        let name = format!("scaffold_{}", i);
        let e = index.get(&name).unwrap();
        assert_eq!(e.name, name);
        if i == 7 {
            assert_eq!((e.length, e.offset), (1, 2));
        } else {
            assert_eq!((e.length, e.offset), (i + 1, i * 100));
        }
    }
    assert!(index.get("scaffold_200000").is_none());
    assert_eq!(index.entry_at(7).offset, 2);
    assert_eq!(index.lengths().len() as u64, n);
}
