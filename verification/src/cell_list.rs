//! Lists of cells as text: `r4c1,r9c6`, each cell with digits before it
//! where digits are meant, as in `56789r4c1,4r6c4`. Rows and columns are
//! counted from 1 in the text and from 0 in what is read from it.

use vstd::prelude::*;
use vstd::string::StrSliceExecFns;
use crate::template::{digit_of_char, digits_between, digits_end, is_digit_char, is_space, skip_space};

verus! {

/// A cell of a list: the digits before it, its row and its column.
pub struct ListedCell {
    pub digits: Vec<u8>,
    pub row: usize,
    pub col: usize,
}

/// A cell of a list, as a mathematical value.
pub struct ListedCellSpec {
    pub digits: Seq<u8>,
    pub row: nat,
    pub col: nat,
}

impl View for ListedCell {
    type V = ListedCellSpec;

    open spec fn view(&self) -> ListedCellSpec {
        ListedCellSpec { digits: self.digits@, row: self.row as nat, col: self.col as nat }
    }
}

/// The cell that starts at or after place `i`, white space left out, and
/// the place after it and the white space that follows it: digits, `r`, the
/// row, `c`, the column.
pub open spec fn item_at(chars: Seq<char>, i: int) -> Option<(ListedCellSpec, int)> {
    let a = skip_space(chars, i);
    let e = digits_end(chars, a);
    if 0 <= a <= e && e + 3 < chars.len() && chars[e] == 'r' && is_digit_char(chars[e + 1]) && chars[e + 2] == 'c'
        && is_digit_char(chars[e + 3]) {
        Some(
            (
                ListedCellSpec {
                    digits: digits_between(chars, a, e),
                    row: (digit_of_char(chars[e + 1]) - 1) as nat,
                    col: (digit_of_char(chars[e + 3]) - 1) as nat,
                },
                skip_space(chars, e + 4),
            ),
        )
    } else {
        None
    }
}

/// The cells from place `i` on, with a comma between one and the next;
/// nothing where the text is anything else.
pub open spec fn items_from(chars: Seq<char>, i: int) -> Option<Seq<ListedCellSpec>>
    decreases chars.len() - i,
{
    match item_at(chars, i) {
        None => None,
        Some((cell, z)) => if z >= chars.len() {
            Some(seq![cell])
        } else if chars[z] == ',' && z >= i {
            match items_from(chars, z + 1) {
                None => None,
                Some(rest) => Some(seq![cell] + rest),
            }
        } else {
            None
        },
    }
}

/// The cells that a text lists: none where the text is blank.
pub open spec fn parse_cells(chars: Seq<char>) -> Option<Seq<ListedCellSpec>> {
    if skip_space(chars, 0) >= chars.len() {
        Some(Seq::empty())
    } else {
        items_from(chars, 0)
    }
}

/// Past the white space from `pos` on.
fn past_space(s: &str, pos: usize) -> (r: usize)
    requires
        pos <= s@.len(),
    ensures
        r == skip_space(s@, pos as int),
        pos <= r <= s@.len(),
{
    let n = s.unicode_len();
    let mut i = pos;
    while i < n && is_white(s.get_char(i))
        invariant
            n == s@.len(),
            pos <= i <= n,
            skip_space(s@, pos as int) == skip_space(s@, i as int),
        decreases n - i,
    {
        i += 1;
    }
    i
}

/// Whether the character is white space.
fn is_white(c: char) -> (r: bool)
    ensures
        r == is_space(c),
{
    c == ' ' || c == '\t' || c == '\n' || c == '\r'
}

/// The digit of a character from '1' to '9', if it is one.
fn digit_at(s: &str, i: usize) -> (r: Option<u8>)
    requires
        i < s@.len(),
    ensures
        r is Some <==> is_digit_char(s@[i as int]),
        r matches Some(d) ==> d == digit_of_char(s@[i as int]) && 1 <= d <= 9,
{
    let c = s.get_char(i);
    if '1' <= c && c <= '9' {
        Some((c as u32 - '0' as u32) as u8)
    } else {
        None
    }
}

/// The cell that starts at or after place `pos`: see [`item_at`].
fn read_item(s: &str, pos: usize) -> (r: Option<(ListedCell, usize)>)
    requires
        pos <= s@.len(),
    ensures
        match r {
            None => item_at(s@, pos as int) is None,
            Some((cell, next)) => item_at(s@, pos as int) == Some((cell@, next as int)) && pos < next <= s@.len()
                && cell.row < 9 && cell.col < 9 && forall|k: int|
                0 <= k < cell.digits@.len() ==> 1 <= #[trigger] cell.digits@[k] <= 9,
        },
{
    let n = s.unicode_len();
    let a = past_space(s, pos);
    let mut digits: Vec<u8> = Vec::new();
    let mut e = a;
    loop
        invariant
            n == s@.len(),
            a <= e <= n,
            digits_end(s@, a as int) == digits_end(s@, e as int),
            digits@ == digits_between(s@, a as int, e as int),
            forall|k: int| 0 <= k < digits@.len() ==> 1 <= #[trigger] digits@[k] <= 9,
        ensures
            e == digits_end(s@, a as int),
        decreases n - e,
    {
        if e >= n {
            break ;
        }
        match digit_at(s, e) {
            None => {
                break ;
            },
            Some(d) => {
                digits.push(d);
                e += 1;
                proof {
                    assert(digits@ =~= digits_between(s@, a as int, e as int));
                }
            },
        }
    }
    if n < 4 || e > n - 4 {
        return None;
    }
    if s.get_char(e) != 'r' || s.get_char(e + 2) != 'c' {
        return None;
    }
    match (digit_at(s, e + 1), digit_at(s, e + 3)) {
        (Some(row), Some(col)) => {
            let next = past_space(s, e + 4);
            Some((ListedCell { digits, row: (row - 1) as usize, col: (col - 1) as usize }, next))
        },
        _ => None,
    }
}

/// The cells that a text lists: see [`parse_cells`].
pub fn read_cells(s: &str) -> (r: Option<Vec<ListedCell>>)
    ensures
        r is Some <==> parse_cells(s@) is Some,
        r matches Some(cells) ==> Some(Seq::new(cells@.len(), |i: int| cells@[i]@)) == parse_cells(s@) && forall|
            i: int,
        |
            0 <= i < cells@.len() ==> (#[trigger] cells@[i]).row < 9 && cells@[i].col < 9 && forall|k: int|
                0 <= k < cells@[i].digits@.len() ==> 1 <= #[trigger] cells@[i].digits@[k] <= 9,
{
    let n = s.unicode_len();
    let mut cells: Vec<ListedCell> = Vec::new();
    if past_space(s, 0) >= n {
        proof {
            assert(Seq::new(cells@.len(), |i: int| cells@[i]@) =~= Seq::<ListedCellSpec>::empty());
        }
        return Some(cells);
    }
    let mut pos: usize = 0;
    loop
        invariant
            n == s@.len(),
            pos <= n,
            parse_cells(s@) == items_from(s@, 0),
            match items_from(s@, pos as int) {
                None => items_from(s@, 0) is None,
                Some(rest) => items_from(s@, 0) == Some(Seq::new(cells@.len(), |i: int| cells@[i]@) + rest),
            },
            forall|i: int|
                0 <= i < cells@.len() ==> (#[trigger] cells@[i]).row < 9 && cells@[i].col < 9 && forall|k: int|
                    0 <= k < cells@[i].digits@.len() ==> 1 <= #[trigger] cells@[i].digits@[k] <= 9,
        decreases n - pos,
    {
        let ghost before = Seq::new(cells@.len(), |i: int| cells@[i]@);
        let ghost from = pos;
        match read_item(s, pos) {
            None => {
                return None;
            },
            Some((cell, next)) => {
                let ghost item = cell@;
                cells.push(cell);
                proof {
                    assert(Seq::new(cells@.len(), |i: int| cells@[i]@) =~= before + seq![item]);
                }
                if next >= n {
                    proof {
                        assert(items_from(s@, from as int) == Some(seq![item]));
                    }
                    return Some(cells);
                }
                if s.get_char(next) != ',' {
                    return None;
                }
                proof {
                    let now = Seq::new(cells@.len(), |i: int| cells@[i]@);
                    match items_from(s@, next + 1) {
                        None => {},
                        Some(rest) => {
                            assert(before + (seq![item] + rest) =~= now + rest);
                        },
                    }
                }
                pos = next + 1;
            },
        }
    }
}

} // verus!
