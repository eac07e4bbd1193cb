//! Building text.

use vstd::prelude::*;
use vstd::string::StringExecFns;

verus! {

/// `String::push` appends one character.
pub assume_specification[ String::push ](text: &mut String, c: char)
    ensures
        final(text)@ == old(text)@.push(c),
;

/// The character for a digit from 0 to 9.
pub open spec fn digit(d: int) -> char {
    (48 + d) as char
}

/// A number in decimal notation.
pub open spec fn decimal(n: nat) -> Seq<char>
    decreases n,
{
    if n < 10 {
        seq![digit(n as int)]
    } else {
        decimal(n / 10).push(digit((n % 10) as int))
    }
}

/// Appends a number in decimal notation.
pub fn push_decimal(text: &mut String, n: usize)
    ensures
        final(text)@ == old(text)@ + decimal(n as nat),
    decreases n,
{
    if n >= 10 {
        push_decimal(text, n / 10);
    }
    let last: u8 = (n % 10) as u8;
    text.push((48 + last) as char);
    proof {
        assert(old(text)@ + seq![digit(n as int)] =~= old(text)@.push(digit(n as int)));
        if n >= 10 {
            let front = decimal((n / 10) as nat);
            assert((old(text)@ + front).push(digit((n % 10) as int)) =~= old(text)@ + front.push(
                digit((n % 10) as int),
            ));
        }
    }
}

/// Two numbers in round brackets, with a comma between them.
pub open spec fn bracketed(row: nat, col: nat) -> Seq<char> {
    "("@ + decimal(row) + ","@ + decimal(col) + ")"@
}

/// Appends two numbers in round brackets.
pub fn push_bracketed(text: &mut String, row: usize, col: usize)
    ensures
        final(text)@ == old(text)@ + bracketed(row as nat, col as nat),
{
    text.append("(");
    push_decimal(text, row);
    text.append(",");
    push_decimal(text, col);
    text.append(")");
    assert(text@ =~= old(text)@ + bracketed(row as nat, col as nat));
}

/// The value of a sequence of digits.
pub open spec fn value_of(digits: Seq<char>) -> int
    decreases digits.len(),
{
    if digits.len() == 0 {
        0
    } else {
        value_of(digits.drop_last()) * 10 + (digits.last() as int - 48)
    }
}

/// Every character is a digit.
pub open spec fn all_digits(text: Seq<char>) -> bool {
    forall|i: int| 0 <= i < text.len() ==> '0' <= #[trigger] text[i] <= '9'
}

proof fn lemma_value_grows(digits: Seq<char>, i: int)
    requires
        all_digits(digits),
        0 <= i <= digits.len(),
    ensures
        0 <= value_of(digits.take(i)) <= value_of(digits),
    decreases digits.len(),
{
    if digits.len() == 0 {
        assert(digits.take(i) =~= digits);
    } else {
        let shorter = digits.drop_last();
        assert(all_digits(shorter)) by {
            assert forall|k: int| 0 <= k < shorter.len() implies '0' <= #[trigger] shorter[k]
                <= '9' by {
                assert(shorter[k] == digits[k]);
            }
        }
        assert('0' <= digits[digits.len() - 1] <= '9');
        if i == digits.len() {
            assert(digits.take(i) =~= digits);
            lemma_value_grows(shorter, 0);
        } else {
            lemma_value_grows(shorter, i);
            assert(shorter.take(i) =~= digits.take(i));
        }
    }
}

/// Reads a number: `None` when there is no digit or the number does not fit.
pub fn parse_digits(digits: &Vec<char>) -> (number: Option<usize>)
    requires
        all_digits(digits@),
    ensures
        number is Some <==> digits@.len() > 0 && value_of(digits@) <= usize::MAX,
        number is Some ==> number->0 == value_of(digits@),
{
    if digits.len() == 0 {
        return None;
    }
    let mut number: usize = 0;
    assert(digits@.take(0) =~= Seq::empty());
    for i in 0..digits.len()
        invariant
            all_digits(digits@),
            number == value_of(digits@.take(i as int)),
    {
        let ghost next = digits@.take(i + 1);
        proof {
            assert(next.drop_last() =~= digits@.take(i as int));
            assert(next.last() == digits@[i as int]);
            lemma_value_grows(digits@, i + 1);
        }
        let d: usize = digits[i] as usize - 48;
        let tens: Option<usize> = number.checked_mul(10);
        match tens {
            Some(tens) => {
                match tens.checked_add(d) {
                    Some(sum) => {
                        number = sum;
                    },
                    None => {
                        return None;
                    },
                }
            },
            None => {
                return None;
            },
        }
    }
    assert(digits@.take(digits@.len() as int) =~= digits@);
    Some(number)
}

/// Reading a number in decimal notation gives the number back.
pub proof fn law_decimal_round_trip(n: nat)
    ensures
        decimal(n).len() > 0,
        all_digits(decimal(n)),
        value_of(decimal(n)) == n,
    decreases n,
{
    let text = decimal(n);
    if n < 10 {
        assert(text.drop_last() =~= Seq::empty());
        assert(value_of(text.drop_last()) == 0);
    } else {
        law_decimal_round_trip(n / 10);
        assert(text.drop_last() =~= decimal(n / 10));
        assert forall|i: int| 0 <= i < text.len() implies '0' <= #[trigger] text[i] <= '9' by {
            if i < text.len() - 1 {
                assert(text[i] == decimal(n / 10)[i]);
            }
        }
    }
}

} // verus!
