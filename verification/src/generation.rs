//! What one generation of a two-dimensional automaton computes.

use vstd::prelude::*;
use crate::compass_direction::direction_at;

verus! {

/// Bit `index` of the rule code `code`; beyond the width of the code every
/// bit is 0.
pub open spec fn rule_bit(code: usize, index: int) -> usize {
    if 0 <= index < usize::BITS {
        (code >> (index as usize)) & 1
    } else {
        0
    }
}

/// A bit of a rule code is 0 or 1.
pub proof fn lemma_rule_bit_is_binary(code: usize, index: int)
    ensures
        rule_bit(code, index) <= 1,
{
    if 0 <= index < usize::BITS {
        let shift = index as usize;
        assert((code >> shift) & 1 <= 1) by (bit_vector);
    }
}

/// Reads one bit of a rule code.
pub fn read_rule_bit(code: usize, index: usize) -> (bit: usize)
    ensures
        bit == rule_bit(code, index as int),
        bit == 0 || bit == 1,
{
    if index < usize::BITS as usize {
        let shift = index;
        let mask: usize = 1 << shift;
        let bit = (mask & code) >> shift;
        assert(((1usize << shift) & code) >> shift == (code >> shift) & 1) by (bit_vector)
            requires
                shift < usize::BITS,
        ;
        assert((code >> shift) & 1 == 0 || (code >> shift) & 1 == 1) by (bit_vector);
        bit
    } else {
        0
    }
}

/// The sum of the values.
pub open spec fn total(values: Seq<usize>) -> int
    decreases values.len(),
{
    if values.len() == 0 {
        0
    } else {
        total(values.drop_last()) + values.last()
    }
}

/// The sum of values is at least each of them.
pub(crate) proof fn lemma_total_bounds(values: Seq<usize>, k: int)
    requires
        0 <= k < values.len(),
    ensures
        0 <= values[k] <= total(values),
    decreases values.len(),
{
    lemma_total_nonnegative(values.drop_last());
    if k < values.len() - 1 {
        lemma_total_bounds(values.drop_last(), k);
    }
}

/// A sum of values is not negative.
pub(crate) proof fn lemma_total_nonnegative(values: Seq<usize>)
    ensures
        0 <= total(values),
    decreases values.len(),
{
    if values.len() > 0 {
        lemma_total_nonnegative(values.drop_last());
    }
}

/// Adds up the values; a sum beyond the machine integers is given as the
/// greatest machine integer.
pub fn sum_states(values: &Vec<usize>) -> (sum: usize)
    ensures
        sum == if total(values@) <= usize::MAX {
            total(values@)
        } else {
            usize::MAX as int
        },
{
    let mut sum: usize = 0;
    let mut index: usize = 0;
    while index < values.len()
        invariant
            index <= values.len(),
            sum == if total(values@.take(index as int)) <= usize::MAX {
                total(values@.take(index as int))
            } else {
                usize::MAX as int
            },
        decreases values.len() - index,
    {
        proof {
            assert(values@.take(index + 1).drop_last() =~= values@.take(index as int));
            lemma_total_nonnegative(values@.take(index as int));
        }
        let value = values[index];
        sum = if value > usize::MAX - sum {
            usize::MAX
        } else {
            sum + value
        };
        index = index + 1;
    }
    assert(values@.take(values@.len() as int) =~= values@);
    sum
}

/// The state that the cell in row `row` and column `column` finds in
/// direction `k` of the compass table: the state of the neighbour there or,
/// where the direction is not active or the neighbour lies off the lattice,
/// 0.
pub open spec fn state_toward(
    page: Seq<usize>,
    width: int,
    height: int,
    moore: bool,
    row: int,
    column: int,
    k: int,
) -> usize {
    let direction = direction_at(k, moore);
    let r = row + direction.y;
    let c = column + direction.x;
    if direction.active && 0 <= r < height && 0 <= c < width {
        page[r * width + c]
    } else {
        0
    }
}

/// The nine states around and at a cell, in the order of the compass table.
pub open spec fn radius_at(
    page: Seq<usize>,
    width: int,
    height: int,
    moore: bool,
    row: int,
    column: int,
) -> Seq<usize> {
    Seq::new(9, |k: int| state_toward(page, width, height, moore, row, column, k))
}

/// The next state of a cell with the given radius. A totalistic rule reads
/// the bit whose index is the sum of all nine states; an outer-totalistic
/// rule reads the bit `2 * n + a`, where `a` is the state of the cell itself
/// and `n` the sum of the other eight.
pub open spec fn next_state(rule: usize, outer_totalistic: bool, radius: Seq<usize>) -> usize {
    if outer_totalistic {
        rule_bit(rule, 2 * (total(radius) - radius[4]) + radius[4])
    } else {
        rule_bit(rule, total(radius))
    }
}

/// The page that follows `page`.
pub open spec fn next_page(
    rule: usize,
    outer_totalistic: bool,
    moore: bool,
    width: int,
    height: int,
    page: Seq<usize>,
) -> Seq<usize> {
    Seq::new(
        (width * height) as nat,
        |i: int|
            next_state(
                rule,
                outer_totalistic,
                radius_at(page, width, height, moore, i / width, i % width),
            ),
    )
}

/// Whatever states a page holds, the page that follows it holds states 0
/// and 1 only, one for each coordinate.
pub proof fn lemma_next_page_is_binary(
    rule: usize,
    outer_totalistic: bool,
    moore: bool,
    width: int,
    height: int,
    page: Seq<usize>,
)
    ensures
        next_page(rule, outer_totalistic, moore, width, height, page).len() == (width
            * height) as nat,
        crate::grid::is_binary(next_page(rule, outer_totalistic, moore, width, height, page)),
{
    let next = next_page(rule, outer_totalistic, moore, width, height, page);
    assert forall|i: int| 0 <= i < next.len() implies #[trigger] next[i] <= 1 by {
        let radius = radius_at(page, width, height, moore, i / width, i % width);
        lemma_rule_bit_is_binary(rule, 2 * (total(radius) - radius[4]) + radius[4]);
        lemma_rule_bit_is_binary(rule, total(radius));
    }
}

/// The page `steps` generations after `page`.
pub open spec fn page_after(
    rule: usize,
    outer_totalistic: bool,
    moore: bool,
    width: int,
    height: int,
    page: Seq<usize>,
    steps: nat,
) -> Seq<usize>
    decreases steps,
{
    if steps == 0 {
        page
    } else {
        next_page(
            rule,
            outer_totalistic,
            moore,
            width,
            height,
            page_after(rule, outer_totalistic, moore, width, height, page, (steps - 1) as nat),
        )
    }
}

/// A pattern of `sub_width` columns and `sub_height` rows, put at row `row`
/// and column `column`, lies on a page of the given dimensions. The pattern
/// must end before the last column of the page, while it may end with the
/// last row.
pub open spec fn insertion_fits(
    page_width: int,
    page_height: int,
    row: int,
    column: int,
    sub_width: int,
    sub_height: int,
) -> bool {
    column + sub_width <= page_width - 1 && row + sub_height <= page_height
}

/// `page` with the first `count` cells of the pattern `sub`, taken row by
/// row, written over the cells they cover when the pattern is put at row
/// `row` and column `column`.
pub open spec fn overwritten(
    page: Seq<usize>,
    page_width: int,
    row: int,
    column: int,
    sub_width: int,
    sub: Seq<usize>,
    count: int,
) -> Seq<usize> {
    Seq::new(
        page.len(),
        |i: int|
            {
                let r = i / page_width;
                let c = i % page_width;
                let k = (r - row) * sub_width + (c - column);
                if row <= r && column <= c < column + sub_width && k < count {
                    sub[k]
                } else {
                    page[i]
                }
            },
    )
}

/// `page` after the pattern `sub` was put at row `row` and column `column`:
/// every cell that the pattern covers holds the cell of the pattern that
/// covers it, and every other cell is as before. A pattern that does not
/// fit leaves the page as it was.
pub open spec fn inserted(
    page: Seq<usize>,
    page_width: int,
    page_height: int,
    row: int,
    column: int,
    sub_width: int,
    sub_height: int,
    sub: Seq<usize>,
) -> Seq<usize> {
    if insertion_fits(page_width, page_height, row, column, sub_width, sub_height) {
        Seq::new(
            page.len(),
            |i: int|
                {
                    let r = i / page_width;
                    let c = i % page_width;
                    if row <= r < row + sub_height && column <= c < column + sub_width {
                        sub[(r - row) * sub_width + (c - column)]
                    } else {
                        page[i]
                    }
                },
        )
    } else {
        page
    }
}

/// Writing one more cell of the pattern is one update of the page.
pub(crate) proof fn lemma_overwrite_next(
    page: Seq<usize>,
    page_width: int,
    page_height: int,
    row: int,
    column: int,
    sub_width: int,
    sub_height: int,
    sub: Seq<usize>,
    sub_row: int,
    sub_column: int,
)
    requires
        page.len() == page_width * page_height,
        0 <= row,
        0 <= column,
        0 <= sub_row < sub_height,
        0 <= sub_column < sub_width,
        column + sub_width <= page_width,
        row + sub_height <= page_height,
    ensures
        0 <= (row + sub_row) * page_width + (column + sub_column) < page.len(),
        overwritten(
            page,
            page_width,
            row,
            column,
            sub_width,
            sub,
            sub_row * sub_width + sub_column + 1,
        ) == overwritten(
            page,
            page_width,
            row,
            column,
            sub_width,
            sub,
            sub_row * sub_width + sub_column,
        ).update(
            (row + sub_row) * page_width + (column + sub_column),
            sub[sub_row * sub_width + sub_column],
        ),
{
    let count = sub_row * sub_width + sub_column;
    let target = (row + sub_row) * page_width + (column + sub_column);
    crate::grid::lemma_cell_index(row + sub_row, column + sub_column, page_width, page_height);
    let before = overwritten(page, page_width, row, column, sub_width, sub, count);
    let after = overwritten(page, page_width, row, column, sub_width, sub, count + 1);
    assert forall|i: int| 0 <= i < page.len() implies after[i] == before.update(
        target,
        sub[count],
    )[i] by {
        crate::grid::lemma_index_cell(i, page_width, page_height);
        let r = i / page_width;
        let c = i % page_width;
        let k = (r - row) * sub_width + (c - column);
        if row <= r && column <= c < column + sub_width {
            if r - row == sub_row {
                assert(k == sub_row * sub_width + (c - column));
            } else if r - row < sub_row {
                assert(k < count) by (nonlinear_arith)
                    requires
                        k == (r - row) * sub_width + (c - column),
                        count == sub_row * sub_width + sub_column,
                        r - row + 1 <= sub_row,
                        0 <= c - column < sub_width,
                        0 <= sub_column,
                ;
            } else {
                assert(k > count) by (nonlinear_arith)
                    requires
                        k == (r - row) * sub_width + (c - column),
                        count == sub_row * sub_width + sub_column,
                        r - row >= sub_row + 1,
                        0 <= c - column,
                        0 <= sub_column < sub_width,
                ;
            }
        }
    }
    assert(after =~= before.update(target, sub[count]));
}

/// When every cell of a fitting pattern is written, the pattern is inserted.
pub(crate) proof fn lemma_overwrite_all(
    page: Seq<usize>,
    page_width: int,
    page_height: int,
    row: int,
    column: int,
    sub_width: int,
    sub_height: int,
    sub: Seq<usize>,
)
    requires
        page.len() == page_width * page_height,
        0 <= row,
        0 <= column,
        0 <= sub_width,
        0 <= sub_height,
        insertion_fits(page_width, page_height, row, column, sub_width, sub_height),
    ensures
        overwritten(page, page_width, row, column, sub_width, sub, sub_height * sub_width)
            == inserted(page, page_width, page_height, row, column, sub_width, sub_height, sub),
        overwritten(page, page_width, row, column, sub_width, sub, 0) == page,
{
    let all = overwritten(page, page_width, row, column, sub_width, sub, sub_height * sub_width);
    let whole = inserted(page, page_width, page_height, row, column, sub_width, sub_height, sub);
    assert forall|i: int| 0 <= i < page.len() implies all[i] == whole[i] by {
        let r = i / page_width;
        let c = i % page_width;
        let k = (r - row) * sub_width + (c - column);
        if row <= r && column <= c < column + sub_width {
            if r - row < sub_height {
                assert(k < sub_height * sub_width) by (nonlinear_arith)
                    requires
                        k == (r - row) * sub_width + (c - column),
                        r - row + 1 <= sub_height,
                        0 <= c - column < sub_width,
                ;
            } else {
                assert(k >= sub_height * sub_width) by (nonlinear_arith)
                    requires
                        k == (r - row) * sub_width + (c - column),
                        r - row >= sub_height,
                        0 <= c - column,
                        0 <= sub_width,
                ;
            }
        }
    }
    assert(all =~= whole);
    let none = overwritten(page, page_width, row, column, sub_width, sub, 0);
    assert forall|i: int| 0 <= i < page.len() implies none[i] == page[i] by {
        let r = i / page_width;
        let c = i % page_width;
        let k = (r - row) * sub_width + (c - column);
        if row <= r && column <= c < column + sub_width {
            assert(k >= 0) by (nonlinear_arith)
                requires
                    k == (r - row) * sub_width + (c - column),
                    r - row >= 0,
                    0 <= c - column,
                    0 <= sub_width,
            ;
        }
    }
    assert(none =~= page);
}

} // verus!
