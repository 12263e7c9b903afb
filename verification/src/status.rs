//! The errors that requests are answered with.
use vstd::prelude::*;

verus! {

/// What kind of failure a request met.
#[derive(Debug, Clone, Copy, PartialEq, Eq, Structural)]
pub enum StatusCode {
    Cancelled,
    InvalidArgument,
    NotFound,
    AlreadyExists,
    FailedPrecondition,
    Unimplemented,
    Internal,
}

/// The answer to a request that failed.
#[derive(Debug, Clone, PartialEq, Eq)]
pub struct Status {
    pub code: StatusCode,
    pub message: String,
}

/// The character of a decimal digit.
pub open spec fn digit(d: nat) -> char {
    (48 + d) as char
}

/// The decimal digits of a number, most significant first, without leading zeros.
pub open spec fn decimal(n: nat) -> Seq<char>
    decreases n,
{
    if n < 10 {
        seq![digit(n)]
    } else {
        decimal(n / 10).push(digit(n % 10))
    }
}

/// The text of a digit.
fn digit_text(d: u64) -> (text: &'static str)
    requires
        d < 10,
    ensures
        text@ == seq![digit(d as nat)],
{
    proof {
        reveal_strlit("0");
        reveal_strlit("1");
        reveal_strlit("2");
        reveal_strlit("3");
        reveal_strlit("4");
        reveal_strlit("5");
        reveal_strlit("6");
        reveal_strlit("7");
        reveal_strlit("8");
        reveal_strlit("9");
    }
    match d {
        0 => "0",
        1 => "1",
        2 => "2",
        3 => "3",
        4 => "4",
        5 => "5",
        6 => "6",
        7 => "7",
        8 => "8",
        _ => "9",
    }
}

/// Appends the decimal digits of a number.
pub fn append_decimal(text: &mut String, n: u64)
    ensures
        final(text)@ == old(text)@ + decimal(n as nat),
    decreases n,
{
    if n >= 10 {
        append_decimal(text, n / 10);
    }
    text.append(digit_text(n % 10));
    assert(text@ =~= old(text)@ + decimal(n as nat));
}

/// `prefix` followed by a number.
pub fn labelled(prefix: &str, n: u64) -> (text: String)
    ensures
        text@ == prefix@ + decimal(n as nat),
{
    let mut text = String::new();
    text.append(prefix);
    append_decimal(&mut text, n);
    assert(text@ =~= prefix@ + decimal(n as nat));
    text
}

/// Two labelled numbers.
pub fn labelled_pair(first: &str, a: u64, second: &str, b: u64) -> (text: String)
    ensures
        text@ == first@ + decimal(a as nat) + second@ + decimal(b as nat),
{
    let mut text = labelled(first, a);
    text.append(second);
    append_decimal(&mut text, b);
    text
}

/// A labelled number followed by `suffix`.
pub fn labelled_then(prefix: &str, n: u64, suffix: &str) -> (text: String)
    ensures
        text@ == prefix@ + decimal(n as nat) + suffix@,
{
    let mut text = labelled(prefix, n);
    text.append(suffix);
    text
}

impl Status {
    /// Whether this is the failure of the given kind with the given message.
    pub open spec fn is(&self, code: StatusCode, message: Seq<char>) -> bool {
        self.code == code && self.message@ == message
    }

    /// A failure with a fixed message.
    pub fn new(code: StatusCode, message: &str) -> (status: Status)
        ensures
            status.is(code, message@),
    {
        Status { code, message: message.to_owned() }
    }

    /// A failure that names one number.
    pub fn with_id(code: StatusCode, prefix: &str, id: u64) -> (status: Status)
        ensures
            status.is(code, prefix@ + decimal(id as nat)),
    {
        Status { code, message: labelled(prefix, id) }
    }
}

/// The digits of a number tell it from every other number.
pub proof fn law_decimal_is_injective(a: nat, b: nat)
    requires
        decimal(a) == decimal(b),
    ensures
        a == b,
    decreases a,
{
    if a >= 10 && b >= 10 {
        assert(decimal(a).drop_last() =~= decimal(a / 10));
        assert(decimal(b).drop_last() =~= decimal(b / 10));
        law_decimal_is_injective(a / 10, b / 10);
        assert(decimal(a).last() == digit(a % 10));
        assert(decimal(b).last() == digit(b % 10));
        assert(digit(a % 10) as int == 48 + a % 10);
        assert(digit(b % 10) as int == 48 + b % 10);
    } else {
        lemma_decimal_len(a);
        lemma_decimal_len(b);
        assert(decimal(a)[0] == digit(a));
        assert(decimal(b)[0] == digit(b));
        assert(digit(a) as int == 48 + a);
        assert(digit(b) as int == 48 + b);
    }
}

/// One digit for numbers below ten, more for others.
proof fn lemma_decimal_len(n: nat)
    ensures
        decimal(n).len() >= 1,
        n >= 10 ==> decimal(n).len() >= 2,
    decreases n,
{
    if n >= 10 {
        lemma_decimal_len(n / 10);
    }
}

} // verus!
