//! The template of a puzzle: what each of the 81 cells is to hold.

use vstd::prelude::*;
use vstd::string::StrSliceExecFns;

verus! {

/// What a template asks of a cell.
#[derive(Debug)]
pub enum TemplateDigit {
    /// The cell stays empty.
    Empty,
    /// The cell holds this digit.
    Given(u8),
    /// The cell holds one of these digits.
    Wildcard(Vec<u8>),
}

/// What a template asks of a cell, as a mathematical value.
pub enum TemplateCell {
    Empty,
    Given(u8),
    Wildcard(Seq<u8>),
}

impl View for TemplateDigit {
    type V = TemplateCell;

    open spec fn view(&self) -> TemplateCell {
        match self {
            TemplateDigit::Empty => TemplateCell::Empty,
            TemplateDigit::Given(d) => TemplateCell::Given(*d),
            TemplateDigit::Wildcard(ds) => TemplateCell::Wildcard(ds@),
        }
    }
}

/// Whether the character is one of the digits from 1 to 9.
pub open spec fn is_digit_char(c: char) -> bool {
    '1' <= c && c <= '9'
}

/// The digit that a character from '1' to '9' stands for.
pub open spec fn digit_of_char(c: char) -> u8 {
    (c as u32 - '0' as u32) as u8
}

/// Whether the character opens a wildcard.
pub open spec fn is_opener(c: char) -> bool {
    c == '[' || c == '(' || c == '{' || c == '<'
}

/// Whether the character is white space, which stands for no cell.
pub open spec fn is_space(c: char) -> bool {
    c == ' ' || c == '\t' || c == '\n' || c == '\r'
}

/// The first place from `i` on that does not hold white space.
pub open spec fn skip_space(chars: Seq<char>, i: int) -> int
    decreases chars.len() - i,
{
    if 0 <= i < chars.len() && is_space(chars[i]) {
        skip_space(chars, i + 1)
    } else {
        i
    }
}

/// The first place from `i` on that does not hold a digit.
pub open spec fn digits_end(chars: Seq<char>, i: int) -> int
    decreases chars.len() - i,
{
    if 0 <= i < chars.len() && is_digit_char(chars[i]) {
        digits_end(chars, i + 1)
    } else {
        i
    }
}

/// The digits that the characters from `i` up to `end` stand for.
pub open spec fn digits_between(chars: Seq<char>, i: int, end: int) -> Seq<u8> {
    Seq::new((end - i) as nat, |k: int| digit_of_char(chars[i + k]))
}

/// The cell that starts at place `i`, which holds no white space, and the
/// place after it: a digit is a given, an opener starts a wildcard that
/// takes the digits that follow and the character after them, and anything
/// else is an empty cell.
pub open spec fn cell_at(chars: Seq<char>, i: int) -> (TemplateCell, int) {
    if is_digit_char(chars[i]) {
        (TemplateCell::Given(digit_of_char(chars[i])), i + 1)
    } else if is_opener(chars[i]) {
        let end = digits_end(chars, i + 1);
        (
            TemplateCell::Wildcard(digits_between(chars, i + 1, end)),
            if end < chars.len() {
                end + 1
            } else {
                end
            },
        )
    } else {
        (TemplateCell::Empty, i + 1)
    }
}

/// The first `n` cells from place `i` on, white space between them left
/// out; nothing where the text ends before.
pub open spec fn cells_from(chars: Seq<char>, i: int, n: nat) -> Option<Seq<TemplateCell>>
    decreases n,
{
    if n == 0 {
        Some(Seq::empty())
    } else {
        let start = skip_space(chars, i);
        if start < 0 || start >= chars.len() {
            None
        } else {
            let (cell, next) = cell_at(chars, start);
            match cells_from(chars, next, (n - 1) as nat) {
                None => None,
                Some(rest) => Some(seq![cell] + rest),
            }
        }
    }
}

/// Whether the digits of a list are digits from 1 to 9.
pub open spec fn digits_ok(ds: Seq<u8>) -> bool {
    forall|k: int| 0 <= k < ds.len() ==> 1 <= #[trigger] ds[k] <= 9
}

/// Whether the digits of a cell are digits from 1 to 9.
pub open spec fn cell_ok(cell: TemplateCell) -> bool {
    match cell {
        TemplateCell::Empty => true,
        TemplateCell::Given(d) => 1 <= d <= 9,
        TemplateCell::Wildcard(ds) => digits_ok(ds),
    }
}

/// The place after the first `n` cells from place `i` on, white space
/// between them left out; the end of the text where it ends before.
pub open spec fn cells_end(chars: Seq<char>, i: int, n: nat) -> int
    decreases n,
{
    if n == 0 {
        i
    } else {
        let start = skip_space(chars, i);
        if start < 0 || start >= chars.len() {
            start
        } else {
            cells_end(chars, cell_at(chars, start).1, (n - 1) as nat)
        }
    }
}

/// The 81 cells that a text describes, if it describes 81 cells and no
/// more: nothing but white space may follow the last of them.
pub open spec fn parse_template(chars: Seq<char>) -> Option<Seq<TemplateCell>> {
    if skip_space(chars, cells_end(chars, 0, 81)) >= chars.len() {
        cells_from(chars, 0, 81)
    } else {
        None
    }
}

/// What each of the 81 cells of a puzzle is to hold.
#[derive(Debug)]
pub struct Template(Vec<TemplateDigit>);

impl Template {
    /// The cells, in row-major order.
    pub closed spec fn cells(&self) -> Seq<TemplateCell> {
        Seq::new(self.0@.len(), |i: int| self.0@[i]@)
    }

    /// There are 81 cells, and their digits are digits from 1 to 9.
    pub closed spec fn wf(&self) -> bool {
        &&& self.0@.len() == 81
        &&& forall|i: int| 0 <= i < 81 ==> cell_ok(#[trigger] self.0@[i]@)
    }

    /// What holds of the cells of a template.
    pub proof fn lemma_cells(&self)
        requires
            self.wf(),
        ensures
            self.cells().len() == 81,
            forall|i: int| 0 <= i < 81 ==> cell_ok(#[trigger] self.cells()[i]),
    {
    }

    /// Reads a template: the 81 cells of the text, white space left out.
    /// Nothing where the text holds fewer cells, or more.
    pub fn from_str(s: &str) -> (r: Option<Self>)
        ensures
            r is Some <==> parse_template(s@) is Some,
            r matches Some(t) ==> t.wf() && Some(t.cells()) == parse_template(s@),
    {
        let mut digits: Vec<TemplateDigit> = Vec::new();
        let mut pos: usize = 0;
        let n = s.unicode_len();
        while digits.len() < 81
            invariant
                n == s@.len(),
                pos <= n,
                digits@.len() <= 81,
                forall|i: int| 0 <= i < digits@.len() ==> cell_ok(#[trigger] digits@[i]@),
                match cells_from(s@, pos as int, (81 - digits@.len()) as nat) {
                    None => cells_from(s@, 0, 81) is None,
                    Some(rest) => cells_from(s@, 0, 81) == Some(
                        Seq::new(digits@.len(), |i: int| digits@[i]@) + rest,
                    ),
                },
                cells_end(s@, 0, 81) == cells_end(s@, pos as int, (81 - digits@.len()) as nat),
            decreases 81 - digits@.len(),
        {
            let ghost before = Seq::new(digits@.len(), |i: int| digits@[i]@);
            let ghost from = pos;
            match Self::next_digit(s, pos) {
                None => {
                    proof {
                        let k = (81 - before.len()) as nat;
                        assert(cells_from(s@, from as int, k) is None);
                    }
                    return None;
                },
                Some((digit, next)) => {
                    digits.push(digit);
                    pos = next;
                    proof {
                        let now = Seq::new(digits@.len(), |i: int| digits@[i]@);
                        assert(now =~= before + seq![digit@]);
                        let k = (81 - before.len()) as nat;
                        let start = skip_space(s@, from as int);
                        assert(cell_at(s@, start) == (digit@, next as int));
                        assert(cells_from(s@, from as int, k) == match cells_from(s@, next as int, (k - 1) as nat) {
                            None => None::<Seq<TemplateCell>>,
                            Some(rest) => Some(seq![digit@] + rest),
                        });
                        match cells_from(s@, next as int, (81 - digits@.len()) as nat) {
                            None => {},
                            Some(rest) => {
                                assert(before + (seq![digit@] + rest) =~= now + rest);
                            },
                        }
                    }
                },
            }
        }
        proof {
            let now = Seq::new(digits@.len(), |i: int| digits@[i]@);
            assert(now + Seq::<TemplateCell>::empty() =~= now);
            assert(cells_end(s@, 0, 81) == pos);
        }
        // nothing but white space may follow the last cell
        if Self::next_digit(s, pos).is_some() {
            return None;
        }
        Some(Template(digits))
    }

    /// The cells, in row-major order.
    pub fn digits(&self) -> (r: &Vec<TemplateDigit>)
        ensures
            r@.len() == self.cells().len(),
            forall|i: int| 0 <= i < r@.len() ==> r@[i]@ == self.cells()[i],
    {
        &self.0
    }

    /// The cell that starts at or after place `pos`, white space left out,
    /// and the place after it; nothing at the end of the text.
    pub fn next_digit(s: &str, pos: usize) -> (r: Option<(TemplateDigit, usize)>)
        requires
            pos <= s@.len(),
        ensures
            ({
                let start = skip_space(s@, pos as int);
                match r {
                    None => start >= s@.len(),
                    Some((digit, next)) => pos <= start < s@.len() && (digit@, next as int) == cell_at(s@, start)
                        && pos < next <= s@.len() && cell_ok(digit@),
                }
            }),
    {
        let n = s.unicode_len();
        let mut i = pos;
        while i < n && Self::is_white(s.get_char(i))
            invariant
                n == s@.len(),
                pos <= i <= n,
                skip_space(s@, pos as int) == skip_space(s@, i as int),
            decreases n - i,
        {
            i += 1;
        }
        if i >= n {
            return None;
        }
        let c = s.get_char(i);
        if '1' <= c && c <= '9' {
            Some((TemplateDigit::Given(Self::digit_value(c)), i + 1))
        } else if c == '[' || c == '(' || c == '{' || c == '<' {
            let mut digits: Vec<u8> = Vec::new();
            let mut j = i + 1;
            while j < n && Self::is_digit(s.get_char(j))
                invariant
                    n == s@.len(),
                    i + 1 <= j <= n,
                    digits_end(s@, i + 1) == digits_end(s@, j as int),
                    digits@ == digits_between(s@, i + 1, j as int),
                    forall|k: int| 0 <= k < digits@.len() ==> 1 <= #[trigger] digits@[k] <= 9,
                decreases n - j,
            {
                digits.push(Self::digit_value(s.get_char(j)));
                j += 1;
                proof {
                    assert(digits@ =~= digits_between(s@, i + 1, j as int));
                }
            }
            proof {
                assert(digits@ =~= digits_between(s@, i + 1, digits_end(s@, i + 1)));
            }
            Some((TemplateDigit::Wildcard(digits), if j < n { j + 1 } else { j }))
        } else {
            Some((TemplateDigit::Empty, i + 1))
        }
    }

    /// Whether the character is white space.
    fn is_white(c: char) -> (r: bool)
        ensures
            r == is_space(c),
    {
        c == ' ' || c == '\t' || c == '\n' || c == '\r'
    }

    /// Whether the character is a digit from 1 to 9.
    fn is_digit(c: char) -> (r: bool)
        ensures
            r == is_digit_char(c),
    {
        '1' <= c && c <= '9'
    }

    /// The digit that a character from '1' to '9' stands for.
    fn digit_value(c: char) -> (r: u8)
        requires
            is_digit_char(c),
        ensures
            r == digit_of_char(c),
            1 <= r <= 9,
    {
        (c as u32 - '0' as u32) as u8
    }
}

} // verus!
