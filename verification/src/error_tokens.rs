use vstd::prelude::*;

verus! {

/// Why a piece of the source could not be scanned.
#[derive(Debug, Clone, Copy, PartialEq, Eq, Structural)]
pub enum LexError {
    Unidentified,
}

/// An error of some kind, with the line it was found on.
#[derive(Debug)]
pub struct Error<T> {
    pub error_type: T,
    pub line_number: u32,
}

impl<T> Error<T> {
    /// An error of the given kind, on the first line.
    pub fn new(error_type: T) -> (r: Error<T>)
        ensures
            r.error_type == error_type,
            r.line_number == 0,
    {
        Error { error_type, line_number: 0 }
    }
}

/// How a kind of scanning error is named in its message.
pub open spec fn lex_error_name(e: LexError) -> Seq<char> {
    match e {
        LexError::Unidentified => "Unidentified"@,
    }
}

/// The character of a decimal digit.
pub open spec fn digit(d: nat) -> char {
    seq!['0', '1', '2', '3', '4', '5', '6', '7', '8', '9'][d as int]
}

/// The decimal digits of `n`, most significant first.
pub open spec fn decimal(n: nat) -> Seq<char>
    decreases n,
{
    if n < 10 {
        seq![digit(n)]
    } else {
        decimal(n / 10) + seq![digit(n % 10)]
    }
}

/// The text of one decimal digit.
fn digit_text(d: u32) -> (r: &'static str)
    requires
        d < 10,
    ensures
        r@ == seq![digit(d as nat)],
{
    proof {
        reveal_strlit("0");
        reveal_strlit("1");
        reveal_strlit("2");
        reveal_strlit("3");
        reveal_strlit("4");
        reveal_strlit("5");
        reveal_strlit("6");
        reveal_strlit("7");
        reveal_strlit("8");
        reveal_strlit("9");
    }
    match d {
        0 => "0",
        1 => "1",
        2 => "2",
        3 => "3",
        4 => "4",
        5 => "5",
        6 => "6",
        7 => "7",
        8 => "8",
        _ => "9",
    }
}

/// Writes `n` in decimal after what `out` holds.
fn push_decimal(out: &mut String, n: u32)
    ensures
        final(out)@ == old(out)@ + decimal(n as nat),
    decreases n,
{
    if n >= 10 {
        push_decimal(out, n / 10);
    }
    let ghost mid = out@;
    out.append(digit_text(n % 10));
    proof {
        if n >= 10 {
            assert(decimal(n as nat) == decimal((n / 10) as nat) + seq![digit((n % 10) as nat)]);
            assert(out@ =~= old(out)@ + decimal(n as nat));
        } else {
            assert(out@ =~= old(out)@ + decimal(n as nat));
        }
    }
}

impl Error<LexError> {
    /// The message that reports the error: its kind and the line it is on.
    pub fn text(&self) -> (r: String)
        ensures
            r@ == "Lex Error "@ + lex_error_name(self.error_type) + " on line "@ + decimal(self.line_number as nat)
                + "."@,
    {
        let mut out = String::new();
        out.append("Lex Error ");
        match self.error_type {
            LexError::Unidentified => out.append("Unidentified"),
        }
        out.append(" on line ");
        push_decimal(&mut out, self.line_number);
        out.append(".");
        out
    }
}

} // verus!
