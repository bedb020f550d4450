//! The arithmetic of a line-wrapped sequence: where a base lies in the file.

use crate::text::{decoded, is_terminator};
use vstd::arithmetic::div_mod::{lemma_fundamental_div_mod, lemma_fundamental_div_mod_converse};
use vstd::prelude::*;

verus! {

/// The byte position of base `coord` of a sequence whose first base lies at
/// `offset` and whose lines hold `line_bases` bases in `line_width` bytes.
pub open spec fn grid_offset(offset: int, line_bases: int, line_width: int, coord: int) -> int {
    offset + (coord / line_bases) * line_width + coord % line_bases
}

/// `grid_offset` never decreases, and grows by at least the distance between
/// two coordinates.
pub proof fn lemma_grid_offset_monotonic(
    offset: int,
    line_bases: int,
    line_width: int,
    a: int,
    b: int,
)
    requires
        1 <= line_bases <= line_width,
        0 <= a <= b,
    ensures
        grid_offset(offset, line_bases, line_width, b) - grid_offset(
            offset,
            line_bases,
            line_width,
            a,
        ) >= b - a,
{
    let qa = a / line_bases;
    let qb = b / line_bases;
    let ra = a % line_bases;
    let rb = b % line_bases;
    assert(a == qa * line_bases + ra && 0 <= ra < line_bases) by (nonlinear_arith)
        requires
            qa == a / line_bases,
            ra == a % line_bases,
            line_bases >= 1,
    ;
    assert(b == qb * line_bases + rb && 0 <= rb < line_bases) by (nonlinear_arith)
        requires
            qb == b / line_bases,
            rb == b % line_bases,
            line_bases >= 1,
    ;
    assert(qa <= qb) by (nonlinear_arith)
        requires
            a <= b,
            qa == a / line_bases,
            qb == b / line_bases,
            line_bases >= 1,
    ;
    assert((qb - qa) * line_width >= (qb - qa) * line_bases) by (nonlinear_arith)
        requires
            qa <= qb,
            line_bases <= line_width,
    ;
    assert((qb - qa) * line_width == qb * line_width - qa * line_width) by (nonlinear_arith);
    assert((qb - qa) * line_bases == qb * line_bases - qa * line_bases) by (nonlinear_arith);
}

/// Whether the byte at position `p` is a base, and no part of a line
/// terminator.
pub open spec fn is_base_at(offset: int, line_bases: int, line_width: int, p: int) -> bool {
    (p - offset) % line_width < line_bases
}

/// The number of bases that lie before byte position `p`.
pub open spec fn bases_before(offset: int, line_bases: int, line_width: int, p: int) -> int {
    let column = (p - offset) % line_width;
    ((p - offset) / line_width) * line_bases + if column < line_bases {
        column
    } else {
        line_bases
    }
}

/// The bytes from `from` up to `to` are laid out in lines: terminators stand
/// where the layout has no base, and nowhere else.
pub open spec fn laid_out_between(
    content: Seq<u8>,
    offset: int,
    line_bases: int,
    line_width: int,
    from: int,
    to: int,
) -> bool {
    forall|p: int|
        from <= p < to && 0 <= p < content.len() ==> (is_terminator(#[trigger] content[p])
            <==> !is_base_at(offset, line_bases, line_width, p))
}

/// The bases `[from, to)` as the file holds them.
pub open spec fn bases_between(
    content: Seq<u8>,
    offset: int,
    line_bases: int,
    line_width: int,
    from: int,
    to: int,
) -> Seq<char> {
    Seq::new(
        (to - from) as nat,
        |i: int| content[grid_offset(offset, line_bases, line_width, from + i)] as char,
    )
}

/// Base `coord` lies at a base position, with `coord` bases before it.
pub proof fn lemma_base_position(offset: int, line_bases: int, line_width: int, coord: int)
    requires
        1 <= line_bases <= line_width,
        0 <= coord,
    ensures
        grid_offset(offset, line_bases, line_width, coord) >= offset,
        is_base_at(
            offset,
            line_bases,
            line_width,
            grid_offset(offset, line_bases, line_width, coord),
        ),
        bases_before(
            offset,
            line_bases,
            line_width,
            grid_offset(offset, line_bases, line_width, coord),
        ) == coord,
{
    let line = coord / line_bases;
    let column = coord % line_bases;
    lemma_fundamental_div_mod(coord, line_bases);
    assert(0 <= column < line_bases);
    assert(line >= 0) by (nonlinear_arith)
        requires
            line == coord / line_bases,
            coord >= 0,
            line_bases >= 1,
    ;
    let rel = line * line_width + column;
    assert(line * line_width >= 0) by (nonlinear_arith)
        requires
            line >= 0,
            line_width >= 1,
    ;
    assert(rel == line_width * line + column) by (nonlinear_arith)
        requires
            rel == line * line_width + column,
    ;
    lemma_fundamental_div_mod_converse(rel, line_width, line, column);
    assert(grid_offset(offset, line_bases, line_width, coord) - offset == rel);
    assert(line * line_bases == line_bases * line) by (nonlinear_arith);
}

/// A byte at a base position is the base that has all the bases before it
/// before it.
pub proof fn lemma_position_base(offset: int, line_bases: int, line_width: int, p: int)
    requires
        1 <= line_bases <= line_width,
        offset <= p,
        is_base_at(offset, line_bases, line_width, p),
    ensures
        bases_before(offset, line_bases, line_width, p) >= 0,
        grid_offset(
            offset,
            line_bases,
            line_width,
            bases_before(offset, line_bases, line_width, p),
        ) == p,
{
    let rel = p - offset;
    let line = rel / line_width;
    let column = rel % line_width;
    lemma_fundamental_div_mod(rel, line_width);
    assert(line >= 0) by (nonlinear_arith)
        requires
            line == rel / line_width,
            rel >= 0,
            line_width >= 1,
    ;
    let coord = line * line_bases + column;
    assert(line * line_bases >= 0) by (nonlinear_arith)
        requires
            line >= 0,
            line_bases >= 1,
    ;
    assert(coord == line_bases * line + column) by (nonlinear_arith)
        requires
            coord == line * line_bases + column,
    ;
    lemma_fundamental_div_mod_converse(coord, line_bases, line, column);
    assert(line * line_width == line_width * line) by (nonlinear_arith);
}

/// One byte further on, one more base lies before, if that byte is a base,
/// and as many as before if it is not.
pub proof fn lemma_bases_before_step(offset: int, line_bases: int, line_width: int, p: int)
    requires
        1 <= line_bases <= line_width,
        offset <= p,
    ensures
        bases_before(offset, line_bases, line_width, p + 1) == bases_before(
            offset,
            line_bases,
            line_width,
            p,
        ) + if is_base_at(offset, line_bases, line_width, p) {
            1int
        } else {
            0int
        },
{
    let rel = p - offset;
    let line = rel / line_width;
    let column = rel % line_width;
    lemma_fundamental_div_mod(rel, line_width);
    assert(rel == line_width * line + column);
    if column + 1 < line_width {
        lemma_fundamental_div_mod_converse(rel + 1, line_width, line, column + 1);
    } else {
        assert(rel + 1 == line_width * (line + 1) + 0) by (nonlinear_arith)
            requires
                rel == line_width * line + column,
                column + 1 == line_width,
        ;
        lemma_fundamental_div_mod_converse(rel + 1, line_width, line + 1, 0);
        assert((line + 1) * line_bases == line * line_bases + line_bases) by (nonlinear_arith);
    }
}

/// What a stretch of a laid-out file decodes to: the bases that lie in it, in
/// their order, and nothing else.
pub proof fn lemma_decoded_stretch(
    content: Seq<u8>,
    offset: int,
    line_bases: int,
    line_width: int,
    from: int,
    to: int,
)
    requires
        1 <= line_bases <= line_width,
        0 <= offset <= from <= to <= content.len(),
        laid_out_between(content, offset, line_bases, line_width, from, to),
    ensures
        0 <= bases_before(offset, line_bases, line_width, from) <= bases_before(
            offset,
            line_bases,
            line_width,
            to,
        ),
        decoded(content.subrange(from, to)) == bases_between(
            content,
            offset,
            line_bases,
            line_width,
            bases_before(offset, line_bases, line_width, from),
            bases_before(offset, line_bases, line_width, to),
        ),
    decreases to - from,
{
    let first = bases_before(offset, line_bases, line_width, from);
    let last = bases_before(offset, line_bases, line_width, to);
    if from == to {
        let rel = from - offset;
        lemma_fundamental_div_mod(rel, line_width);
        assert(rel / line_width >= 0) by (nonlinear_arith)
            requires
                rel >= 0,
                line_width >= 1,
        ;
        assert((rel / line_width) * line_bases >= 0) by (nonlinear_arith)
            requires
                rel / line_width >= 0,
                line_bases >= 1,
        ;
        assert(decoded(content.subrange(from, to)) =~= bases_between(
            content,
            offset,
            line_bases,
            line_width,
            first,
            last,
        ));
    } else {
        let p = to - 1;
        lemma_decoded_stretch(content, offset, line_bases, line_width, from, p);
        lemma_bases_before_step(offset, line_bases, line_width, p);
        let before = bases_before(offset, line_bases, line_width, p);
        let stretch = content.subrange(from, to);
        assert(stretch.drop_last() =~= content.subrange(from, p));
        assert(stretch.last() == content[p]);
        if is_base_at(offset, line_bases, line_width, p) {
            lemma_position_base(offset, line_bases, line_width, p);
            assert(!is_terminator(content[p]));
            assert(decoded(stretch) =~= bases_between(
                content,
                offset,
                line_bases,
                line_width,
                first,
                last,
            ));
        } else {
            assert(is_terminator(content[p]));
        }
    }
}

} // verus!
