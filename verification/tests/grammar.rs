use faidx::parse_fai_line;
use nom::bytes::complete::take_until;
use nom::character::complete::{digit1, line_ending};
use nom::combinator::map_res;
use nom::{IResult, Parser};

type Fields = (String, u64, u64, u64, u64);

fn number(input: &str) -> IResult<&str, u64> {
    map_res(digit1, str::parse).parse(input)
}

fn by_combinators(input: &str) -> Option<Fields> {
    let tab = || nom::character::complete::char::<&str, nom::error::Error<&str>>('\t');
    let parsed: IResult<&str, _> = (
        take_until("\t"),
        tab(),
        number,
        tab(),
        number,
        tab(),
        number,
        tab(),
        number,
        line_ending,
    )
        .parse(input);
    match parsed {
        Ok((_, (name, _, length, _, offset, _, line_bases, _, line_width, _))) => {
            Some((name.to_string(), length, offset, line_bases, line_width))
        }
        Err(_) => None,
    }
}

fn by_library(input: &str) -> Option<Fields> {
    match parse_fai_line(input) {
        Ok(e) => Some((e.name, e.length, e.offset, e.line_bases, e.line_width)),
        Err(_) => None,
    }
}

#[test]
fn the_grammar_agrees_with_parser_combinators_on_chosen_lines() {
    let lines = [
        "chr1\t12\t6\t12\t13\n",
        "chr1\t12\t6\t12\t13\r\n",
        "chr1\t12\t6\t12\t13",
        "chr1\t12\t6\t12\t13\r",
        "chr1\t12\t6\t12\t13\n\n",
        "chr1\t12\t6\t12\t13\nchr2\t1\t2\t3\t4\n",
        "\t1\t2\t3\t4\n",
        "\t\t\t\t\n",
        "a\t1\t2\t3\n",
        "a\t1\t2\t3\t4\t5\n",
        "a\t01\t002\t0003\t00004\n",
        "a\t18446744073709551615\t0\t0\t0\n",
        "a\t18446744073709551616\t0\t0\t0\n",
        "a\t0\t0\t0\t184467440737095516150\n",
        "a\t00000000000000000000000000000000000001\t0\t0\t0\n",
        "a\t1 \t2\t3\t4\n",
        "a\t 1\t2\t3\t4\n",
        "a\t+1\t2\t3\t4\n",
        "a\t-1\t2\t3\t4\n",
        "a\t1.5\t2\t3\t4\n",
        "a\t1\t2\t3\t4\r\r\n",
        "a\nb\t1\t2\t3\t4\n",
        "a\rb\t1\t2\t3\t4\n",
        "s\u{e9}q \u{4e2d}\t1\t2\t3\t4\n",
        "a\t\u{661}\t2\t3\t4\n",
        "a\t1\t2\t3\t4\u{2028}",
        "",
        "\n",
        "\t",
        "a",
    ];
    for line in lines {
        assert_eq!(by_library(line), by_combinators(line), "{:?}", line);
    }
}

#[test]
fn the_grammar_agrees_with_parser_combinators_on_many_lines() {
    let alphabet = ['\t', '\t', '\t', '\n', '\r', '0', '1', '9', '7', 'a', ' ', '\u{e9}'];
    let mut state: u64 = 0x9e3779b97f4a7c15;
    let mut next = |bound: u64| {
        state ^= state << 13;
        state ^= state >> 7;
        state ^= state << 17;
        state % bound
    };
    let mut accepted = 0;
    for round in 0..20000u32 {
        let mut line = String::new();
        if round % 2 == 0 {
            let fields = 3 + next(4);
            for f in 0..fields {
                if f > 0 {
                    line.push('\t');
                }
                let digits = next(4);
                for _ in 0..digits {
                    line.push(alphabet[5 + next(4) as usize]);
                }
                if next(8) == 0 {
                    line.push(alphabet[next(12) as usize]);
                }
            }
            match next(4) {
                0 => line.push_str("\r\n"),
                1 => {}
                _ => line.push('\n'),
            }
        } else {
            let len = next(14);
            for _ in 0..len {
                line.push(alphabet[next(12) as usize]);
            }
        }
        let ours = by_library(&line);
        assert_eq!(ours, by_combinators(&line), "{:?}", line);
        if ours.is_some() {
            accepted += 1;
        }
    }
    assert!(accepted > 200, "{}", accepted);
}
