//! Cell states written out as text.

use vstd::prelude::*;
use vstd::string::StringExecFns;

verus! {

/// The character of the digit `d`.
pub open spec fn digit(d: nat) -> char {
    if d == 0 {
        '0'
    } else if d == 1 {
        '1'
    } else if d == 2 {
        '2'
    } else if d == 3 {
        '3'
    } else if d == 4 {
        '4'
    } else if d == 5 {
        '5'
    } else if d == 6 {
        '6'
    } else if d == 7 {
        '7'
    } else if d == 8 {
        '8'
    } else {
        '9'
    }
}

/// The decimal numeral of `n`, without leading zeros.
pub open spec fn decimal(n: nat) -> Seq<char>
    decreases n,
{
    if n < 10 {
        seq![digit(n)]
    } else {
        decimal(n / 10).push(digit(n % 10))
    }
}

/// The text of one digit.
fn digit_text(d: usize) -> (text: &'static str)
    requires
        d < 10,
    ensures
        text@ == seq![digit(d as nat)],
{
    proof {
        reveal_strlit("0");
        reveal_strlit("1");
        reveal_strlit("2");
        reveal_strlit("3");
        reveal_strlit("4");
        reveal_strlit("5");
        reveal_strlit("6");
        reveal_strlit("7");
        reveal_strlit("8");
        reveal_strlit("9");
    }
    let text = if d == 0 {
        "0"
    } else if d == 1 {
        "1"
    } else if d == 2 {
        "2"
    } else if d == 3 {
        "3"
    } else if d == 4 {
        "4"
    } else if d == 5 {
        "5"
    } else if d == 6 {
        "6"
    } else if d == 7 {
        "7"
    } else if d == 8 {
        "8"
    } else {
        "9"
    };
    assert(text@ =~= seq![digit(d as nat)]);
    text
}

/// Writes the decimal numeral of `n` at the end of `text`.
pub fn push_decimal(text: &mut String, n: usize)
    ensures
        final(text)@ == old(text)@ + decimal(n as nat),
    decreases n,
{
    if n >= 10 {
        push_decimal(text, n / 10);
    }
    text.append(digit_text(n % 10));
    proof {
        if n >= 10 {
            assert(old(text)@ + decimal((n / 10) as nat) + seq![digit((n % 10) as nat)] =~= old(
                text,
            )@ + decimal(n as nat));
        }
    }
}

/// The first `upto` cells as comma-separated values: each cell as a decimal
/// numeral, followed by a line break after the last cell of a row and by a
/// comma after any other cell.
pub open spec fn csv_text(cells: Seq<usize>, width: int, upto: int) -> Seq<char>
    decreases upto,
{
    if upto <= 0 {
        Seq::empty()
    } else {
        csv_text(cells, width, upto - 1) + decimal(cells[upto - 1] as nat) + (if (upto - 1) % width
            == width - 1 {
            seq!['\n']
        } else {
            seq![',']
        })
    }
}

/// The first `upto` cells as rows of numerals: each cell as a decimal
/// numeral, with a line break after the last cell of a row.
pub open spec fn page_text(cells: Seq<usize>, width: int, upto: int) -> Seq<char>
    decreases upto,
{
    if upto <= 0 {
        Seq::empty()
    } else {
        page_text(cells, width, upto - 1) + decimal(cells[upto - 1] as nat) + (if (upto - 1) % width
            == width - 1 {
            seq!['\n']
        } else {
            Seq::empty()
        })
    }
}

/// Writes the cells out as comma-separated values.
pub fn write_csv(cells: &Vec<usize>, width: usize) -> (text: String)
    requires
        cells@.len() > 0 ==> width > 0,
    ensures
        text@ == csv_text(cells@, width as int, cells@.len() as int),
{
    let mut text: String = String::new();
    let mut index: usize = 0;
    proof {
        reveal_strlit("\n");
        reveal_strlit(",");
    }
    while index < cells.len()
        invariant
            index <= cells.len(),
            cells@.len() > 0 ==> width > 0,
            "\n"@ == seq!['\n'],
            ","@ == seq![','],
            text@ == csv_text(cells@, width as int, index as int),
        decreases cells.len() - index,
    {
        push_decimal(&mut text, cells[index]);
        if index % width == width - 1 {
            text.append("\n");
        } else {
            text.append(",");
        }
        index = index + 1;
    }
    text
}

/// Writes the cells out as rows of numerals.
pub fn write_page(cells: &Vec<usize>, width: usize) -> (text: String)
    requires
        cells@.len() > 0 ==> width > 0,
    ensures
        text@ == page_text(cells@, width as int, cells@.len() as int),
{
    let mut text: String = String::new();
    let mut index: usize = 0;
    proof {
        reveal_strlit("\n");
    }
    while index < cells.len()
        invariant
            index <= cells.len(),
            cells@.len() > 0 ==> width > 0,
            "\n"@ == seq!['\n'],
            text@ == page_text(cells@, width as int, index as int),
        decreases cells.len() - index,
    {
        push_decimal(&mut text, cells[index]);
        if index % width == width - 1 {
            text.append("\n");
        }
        assert(text@ =~= page_text(cells@, width as int, index + 1));
        index = index + 1;
    }
    text
}

} // verus!
