use vstd::prelude::*;
use vstd::string::StrSliceExecFns;

verus! {

/// The column named by a file letter: `a`-`h` (either case) name columns
/// 0-7; any other character yields -1.
pub open spec fn file_column(c: char) -> int {
    if 97 <= c as u32 <= 104 {
        c as u32 - 97
    } else if 65 <= c as u32 <= 72 {
        c as u32 - 65
    } else {
        -1
    }
}

/// The rank named by a digit character: `1`-`8` name ranks 1-8; any
/// other character yields -1.
pub open spec fn rank_number(c: char) -> int {
    if 49 <= c as u32 <= 56 {
        c as u32 - 48
    } else {
        -1
    }
}

/// The square named by two-character algebraic notation: a file letter
/// `a`-`h` mapped to a column, and a rank digit `1`-`8` mapped to a row
/// by `row = 8 - rank`, so rank 8 is row 0. Anything else names no
/// square.
pub open spec fn parsed_square(s: Seq<char>) -> Option<(usize, usize)> {
    if s.len() == 2 && 0 <= file_column(s[0]) < 8 && 1 <= rank_number(s[1]) <= 8 {
        Some((((8 - rank_number(s[1])) as usize), (file_column(s[0]) as usize)))
    } else {
        None
    }
}

/// Parses a two-character algebraic coordinate such as `e2` into
/// zero-based `(row, column)` grid indices, or `None` when the text does
/// not name a square.
pub fn parse_chess_notation(notation: &str) -> (r: Option<(usize, usize)>)
    ensures
        r == parsed_square(notation@),
{
    if notation.unicode_len() != 2 {
        return None;
    }
    let c0 = notation.get_char(0);
    let c1 = notation.get_char(1);
    let u0 = c0 as u32;
    let lower = if u0 >= 65 && u0 <= 72 {
        u0 + 32
    } else {
        u0
    };
    if !(lower >= 97 && lower <= 104) {
        return None;
    }
    let col = (lower - 97) as usize;
    let u1 = c1 as u32;
    if !(u1 >= 49 && u1 <= 56) {
        return None;
    }
    let rank = (u1 - 48) as usize;
    Some((8 - rank, col))
}

} // verus!
