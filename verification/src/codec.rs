//! The notation of moves: a row letter and a column number.

use crate::board::Coord;
use crate::error::GameError;
use vstd::prelude::*;
use vstd::string::*;

verus! {

/// The letters that name the rows, the first row first.  The letter I is
/// left out, as is usual on Go boards.
pub open spec fn row_letters() -> Seq<char> {
    seq![
        'A', 'B', 'C', 'D', 'E', 'F', 'G', 'H', 'J', 'K', 'L', 'M', 'N', 'O', 'P', 'Q', 'R', 'S',
        'T',
    ]
}

/// Whether `c` is the letter with place `i` in the alphabet of a board of
/// side `size`: the first `size` of the row letters.
pub open spec fn is_row_letter(size: nat, c: char, i: int) -> bool {
    0 <= i < row_letters().len() && i < size && row_letters()[i] == c
}

/// The row that a token names on a board of side `size`: the place of its
/// single letter in the board's alphabet, plus one.  Any other token is a
/// decode error.
pub open spec fn decode_row_spec(size: nat, token: Seq<char>) -> Result<nat, GameError> {
    if token.len() == 1 && exists|i: int| is_row_letter(size, token[0], i) {
        Ok(((choose|i: int| is_row_letter(size, token[0], i)) + 1) as nat)
    } else {
        Err(GameError::Decode)
    }
}

/// Whether `c` is one of the digits 0 to 9.
pub open spec fn is_digit(c: char) -> bool {
    '0' <= c <= '9'
}

/// The number that a string of digits denotes in base ten.
pub open spec fn decimal_value(digits: Seq<char>) -> nat
    decreases digits.len(),
{
    if digits.len() == 0 {
        0
    } else {
        (decimal_value(digits.drop_last()) * 10 + (digits.last() as int - '0' as int)) as nat
    }
}

/// The digits of a number token: the token without a leading plus sign.
pub open spec fn digits_of(token: Seq<char>) -> Seq<char> {
    if token.len() > 0 && token[0] == '+' {
        token.drop_first()
    } else {
        token
    }
}

/// Whether a token is a decimal number: at least one digit and nothing but
/// digits, after an optional plus sign.
pub open spec fn is_number(token: Seq<char>) -> bool {
    digits_of(token).len() > 0 && forall|i: int|
        0 <= i < digits_of(token).len() ==> is_digit(#[trigger] digits_of(token)[i])
}

/// The column that a token names on a board of side `size`.  A token that
/// is no decimal number, or denotes zero, is a decode error; a number beyond
/// the board's side is a range error, however large it is.
pub open spec fn decode_col_spec(size: nat, token: Seq<char>) -> Result<nat, GameError> {
    if !is_number(token) || decimal_value(digits_of(token)) == 0 {
        Err(GameError::Decode)
    } else if decimal_value(digits_of(token)) > size {
        Err(GameError::Range)
    } else {
        Ok(decimal_value(digits_of(token)))
    }
}

/// The point that a row token and a column token name.  The row is decoded
/// first: its error comes before that of the column.
pub open spec fn decode_move_spec(size: nat, row: Seq<char>, col: Seq<char>) -> Result<
    Coord,
    GameError,
> {
    match decode_row_spec(size, row) {
        Err(e) => Err(e),
        Ok(r) => match decode_col_spec(size, col) {
            Err(e) => Err(e),
            Ok(c) => Ok(Coord(r as usize, c as usize)),
        },
    }
}

/// No letter stands twice in the alphabet.
pub proof fn lemma_row_letter_unique(size: nat, c: char, i: int, j: int)
    requires
        is_row_letter(size, c, i),
        is_row_letter(size, c, j),
    ensures
        i == j,
{
    let letters = row_letters();
    assert forall|k: int| 0 <= k < letters.len() implies (#[trigger] letters[k]) as int == 65 + k
        + (if k >= 8 {
        1int
    } else {
        0int
    }) by {
        assert(letters.len() == 19);
        assert(letters[0] == 'A' && letters[1] == 'B' && letters[2] == 'C' && letters[3] == 'D'
            && letters[4] == 'E' && letters[5] == 'F' && letters[6] == 'G' && letters[7] == 'H'
            && letters[8] == 'J' && letters[9] == 'K');
        assert(letters[10] == 'L' && letters[11] == 'M' && letters[12] == 'N' && letters[13]
            == 'O' && letters[14] == 'P' && letters[15] == 'Q' && letters[16] == 'R'
            && letters[17] == 'S' && letters[18] == 'T');
    }
    assert(letters[i] as int == letters[j] as int);
}

/// Decodes a row token on a board of side `size`.
pub fn decode_row(size: usize, token: &str) -> (r: Result<usize, GameError>)
    ensures
        match decode_row_spec(size as nat, token@) {
            Ok(row) => r == Ok::<usize, GameError>(row as usize) && 1 <= row <= size,
            Err(e) => r == Err::<usize, GameError>(e),
        },
{
    if token.unicode_len() != 1 {
        return Err(GameError::Decode);
    }
    let c = token.get_char(0);
    let letters = "ABCDEFGHJKLMNOPQRST";
    proof {
        reveal_strlit("ABCDEFGHJKLMNOPQRST");
        assert(letters@ =~= row_letters());
    }
    let count = letters.unicode_len();
    let mut i: usize = 0;
    while i < count && i < size
        invariant
            i <= count,
            i <= size,
            count == row_letters().len(),
            letters@ == row_letters(),
            token@.len() == 1,
            token@[0] == c,
            forall|j: int| 0 <= j < i ==> !is_row_letter(size as nat, c, j),
        decreases count - i,
    {
        if letters.get_char(i) == c {
            proof {
                assert(is_row_letter(size as nat, c, i as int));
                let chosen = choose|j: int| is_row_letter(size as nat, c, j);
                lemma_row_letter_unique(size as nat, c, i as int, chosen);
            }
            return Ok(i + 1);
        }
        i += 1;
    }
    Err(GameError::Decode)
}

/// Decodes a column token on a board of side `size`.
pub fn decode_col(size: usize, token: &str) -> (r: Result<usize, GameError>)
    ensures
        match decode_col_spec(size as nat, token@) {
            Ok(col) => r == Ok::<usize, GameError>(col as usize) && 1 <= col <= size,
            Err(e) => r == Err::<usize, GameError>(e),
        },
{
    let len = token.unicode_len();
    let mut i: usize = 0;
    if len > 0 && token.get_char(0) == '+' {
        i = 1;
    }
    let start = i;
    let ghost digits = digits_of(token@);
    assert(digits.len() == len - start);
    if i == len {
        return Err(GameError::Decode);
    }
    let mut value: usize = 0;
    let mut beyond = false;
    assert(digits.take(0) =~= Seq::<char>::empty());
    while i < len
        invariant
            start <= i <= len,
            len == token@.len(),
            digits == digits_of(token@),
            digits.len() == len - start,
            forall|j: int| 0 <= j < digits.len() ==> digits[j] == token@[j + start],
            forall|j: int| 0 <= j < i - start ==> is_digit(#[trigger] digits[j]),
            !beyond ==> value == decimal_value(digits.take(i - start)) && value <= size,
            beyond ==> decimal_value(digits.take(i - start)) > size,
        decreases len - i,
    {
        let c = token.get_char(i);
        let code = c as u32;
        if code < 48 || code > 57 {
            proof {
                assert(digits[i - start] == c);
                assert(!is_digit(digits[i - start]));
            }
            return Err(GameError::Decode);
        }
        let digit = (code - 48) as usize;
        proof {
            let longer = digits.take(i - start + 1);
            assert(longer.drop_last() =~= digits.take(i - start));
            assert(longer.last() == c);
            assert(decimal_value(longer) == decimal_value(digits.take(i - start)) * 10 + digit);
        }
        if !beyond {
            match value.checked_mul(10) {
                Some(tens) => match tens.checked_add(digit) {
                    Some(next) => {
                        if next <= size {
                            value = next;
                        } else {
                            beyond = true;
                        }
                    },
                    None => {
                        beyond = true;
                    },
                },
                None => {
                    beyond = true;
                },
            }
        }
        i += 1;
    }
    proof {
        assert(digits.take(i - start) =~= digits);
    }
    if beyond {
        Err(GameError::Range)
    } else if value == 0 {
        Err(GameError::Decode)
    } else {
        Ok(value)
    }
}

/// Decodes the two tokens of a move on a board of side `size`.
pub fn decode_move(size: usize, row: &str, col: &str) -> (r: Result<Coord, GameError>)
    ensures
        r == decode_move_spec(size as nat, row@, col@),
        r matches Ok(c) ==> 1 <= c.0 <= size && 1 <= c.1 <= size,
{
    match decode_row(size, row) {
        Err(e) => Err(e),
        Ok(r) => match decode_col(size, col) {
            Err(e) => Err(e),
            Ok(c) => Ok(Coord(r, c)),
        },
    }
}

} // verus!
