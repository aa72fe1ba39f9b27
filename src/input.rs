//! What users send: the id of a pressed button (one per number of hours a
//! user can commit to, and one to leave) and the arguments of the command
//! that opens a squad.
use vstd::prelude::*;
use crate::text::{decimal, decimal_digits, digit_char};
use crate::store::{SquadError, DEFAULT_CAPACITY, MAX_CAPACITY};

verus! {

/// What a pressed button asks for.
pub enum ButtonChoice {
    /// Join for this many hours.
    Hours(u8),
    /// Leave the squad; the button's id is kept.
    Leave(String),
}

pub open spec fn is_digit(c: char) -> bool {
    '0' as u32 <= c as u32 <= '9' as u32
}

pub open spec fn digit_value(c: char) -> nat {
    (c as u32 - '0' as u32) as nat
}

/// The number that a string of decimal digits denotes.
pub open spec fn digits_value(s: Seq<char>) -> nat
    decreases s.len(),
{
    if s.len() == 0 {
        0
    } else {
        digits_value(s.drop_last()) * 10 + digit_value(s.last())
    }
}

/// The digits of an unsigned number: the text without one leading `+`.
pub open spec fn unsigned_body(s: Seq<char>) -> Seq<char> {
    if s.len() > 0 && s[0] == '+' {
        s.subrange(1, s.len() as int)
    } else {
        s
    }
}

/// Every character of `s` is a decimal digit.
pub open spec fn all_digits(s: Seq<char>) -> bool {
    forall|i: int| 0 <= i < s.len() ==> is_digit(#[trigger] s[i])
}

/// The number that `s` spells in decimal, if it spells one no greater than
/// `max`: an optional `+`, then one or more digits.
pub open spec fn parsed_unsigned(s: Seq<char>, max: nat) -> Option<nat> {
    let b = unsigned_body(s);
    if b.len() > 0 && all_digits(b) && digits_value(b) <= max {
        Some(digits_value(b))
    } else {
        None
    }
}

/// The byte that `s` spells in decimal, if it spells one.
pub open spec fn parsed_u8(s: Seq<char>) -> Option<u8> {
    match parsed_unsigned(s, 255) {
        Some(n) => Some(n as u8),
        None => None,
    }
}

fn parse_unsigned(s: &str, max: u64) -> (r: Option<u64>)
    ensures
        match r {
            Some(n) => parsed_unsigned(s@, max as nat) == Some(n as nat),
            None => parsed_unsigned(s@, max as nat) is None,
        },
{
    let n = s.unicode_len();
    let mut start: usize = 0;
    if n > 0 && s.get_char(0) == '+' {
        start = 1;
    }
    let ghost b = unsigned_body(s@);
    assert(b == s@.subrange(start as int, n as int));
    if start >= n {
        return None;
    }
    let cap: u128 = max as u128 + 1;
    let mut acc: u128 = 0;
    let mut i: usize = start;
    while i < n
        invariant
            start <= i <= n,
            n == s@.len(),
            cap == max + 1,
            b == s@.subrange(start as int, n as int),
            b == unsigned_body(s@),
            forall|j: int| 0 <= j < i - start ==> is_digit(#[trigger] b[j]),
            acc as nat == if digits_value(b.subrange(0, i - start)) <= max {
                digits_value(b.subrange(0, i - start))
            } else {
                cap as nat
            },
        decreases n - i,
    {
        let c = s.get_char(i);
        if (c as u32) < ('0' as u32) || (c as u32) > ('9' as u32) {
            assert(b[i - start] == c);
            assert(!is_digit(b[i - start]));
            assert(!all_digits(b));
            return None;
        }
        let d = (c as u32) - ('0' as u32);
        let ghost prev = digits_value(b.subrange(0, i - start));
        assert(b.subrange(0, i + 1 - start).drop_last() =~= b.subrange(0, i - start));
        assert(digits_value(b.subrange(0, i + 1 - start)) == prev * 10 + d);
        let next = acc * 10 + d as u128;
        if next > max as u128 {
            acc = cap;
        } else {
            acc = next;
        }
        i = i + 1;
    }
    assert(b.subrange(0, n - start) =~= b);
    if acc > max as u128 {
        None
    } else {
        Some(acc as u64)
    }
}

/// Determines which button was pressed from its id.
pub fn parse_component_id(id: &str) -> (r: ButtonChoice)
    ensures
        match parsed_u8(id@) {
            Some(h) => r == ButtonChoice::Hours(h),
            None => r is Leave && r->Leave_0@ == id@,
        },
{
    match parse_unsigned(id, 255) {
        Some(hours) => ButtonChoice::Hours(hours as u8),
        None => ButtonChoice::Leave(String::from_str(id)),
    }
}

/// The id a button carries: the number of hours, or the leave button's text.
pub fn button_id(choice: &ButtonChoice) -> (r: String)
    ensures
        match choice {
            ButtonChoice::Hours(h) => r@ == decimal_digits(*h as nat),
            ButtonChoice::Leave(s) => r@ == s@,
        },
{
    match choice {
        ButtonChoice::Hours(h) => decimal(*h as u64),
        ButtonChoice::Leave(s) => s.clone(),
    }
}

/// Reads the id of an existing squad that a new posting should join.
pub fn parse_squad_ref(text: &str) -> (r: Option<u64>)
    ensures
        match r {
            Some(id) => parsed_unsigned(text@, u64::MAX as nat) == Some(id as nat),
            None => parsed_unsigned(text@, u64::MAX as nat) is None,
        },
{
    parse_unsigned(text, u64::MAX)
}

/// The capacity a squad is opened with: the size asked for, or
/// `DEFAULT_CAPACITY` when none was given.
pub open spec fn size_for(requested: Option<i64>) -> Result<u8, SquadError> {
    match requested {
        None => Ok(DEFAULT_CAPACITY),
        Some(n) => if 1 <= n <= MAX_CAPACITY {
            Ok(n as u8)
        } else {
            Err(SquadError::MalformedArgument)
        },
    }
}

/// The capacity asked for by the command that opens a squad.
pub fn squad_size(requested: Option<i64>) -> (r: Result<u8, SquadError>)
    ensures
        r == size_for(requested),
{
    match requested {
        None => Ok(DEFAULT_CAPACITY),
        Some(n) => if 1 <= n && n <= MAX_CAPACITY as i64 {
            Ok(n as u8)
        } else {
            Err(SquadError::MalformedArgument)
        },
    }
}

/// The seconds of availability that a number of hours stands for.
pub fn hours_to_seconds(hours: u8) -> (r: u32)
    ensures
        r == hours as u32 * 3600,
{
    hours as u32 * 3600
}

proof fn lemma_digit_char(d: nat)
    requires
        d < 10,
    ensures
        is_digit(digit_char(d)),
        digit_value(digit_char(d)) == d,
        digit_char(d) != '+',
{
}

proof fn lemma_decimal_digits(n: nat)
    ensures
        decimal_digits(n).len() > 0,
        decimal_digits(n)[0] != '+',
        all_digits(decimal_digits(n)),
        digits_value(decimal_digits(n)) == n,
    decreases n,
{
    lemma_digit_char(n % 10);
    if n >= 10 {
        lemma_decimal_digits(n / 10);
        let s = decimal_digits(n);
        assert(s.drop_last() =~= decimal_digits(n / 10));
        assert(s[0] == decimal_digits(n / 10)[0]);
        assert(n == (n / 10) * 10 + n % 10);
        assert(s.last() == digit_char(n % 10));
        assert(digits_value(s) == digits_value(s.drop_last()) * 10 + digit_value(s.last()));
    } else {
        let s = decimal_digits(n);
        assert(s.drop_last() =~= Seq::<char>::empty());
        assert(s.last() == digit_char(n));
        assert(n % 10 == n);
        assert(digits_value(s) == digits_value(s.drop_last()) * 10 + digit_value(s.last()));
    }
}

/// The id of an hours button reads back as the same number of hours.
pub proof fn lemma_hours_button_round_trip(hours: u8)
    ensures
        parsed_u8(decimal_digits(hours as nat)) == Some(hours),
{
    lemma_decimal_digits(hours as nat);
}

} // verus!
