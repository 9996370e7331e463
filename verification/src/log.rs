//! Lines for the serial console: leveled log lines and the bare markers that
//! the test harness looks for.

use vstd::prelude::*;
use vstd::string::*;

verus! {

/// How serious a log line is.
#[derive(Clone, Copy, Debug, PartialEq, Eq, Structural)]
pub enum Level {
    Info,
    Warn,
    Error,
}

impl Level {
    pub open spec fn spec_label(self) -> &'static str {
        match self {
            Level::Info => "INFO",
            Level::Warn => "WARN",
            Level::Error => "ERROR",
        }
    }

    /// The word that a line carries.
    pub fn label(self) -> (r: &'static str)
        ensures
            r == self.spec_label(),
    {
        match self {
            Level::Info => "INFO",
            Level::Warn => "WARN",
            Level::Error => "ERROR",
        }
    }
}

/// `s` with spaces behind it up to five characters.
pub open spec fn padded(s: Seq<char>) -> Seq<char>
    decreases 5 - s.len(),
{
    if s.len() < 5 {
        padded(s.push(' '))
    } else {
        s
    }
}

/// A log line.
pub open spec fn line_of(level: Level, module: Seq<char>, text: Seq<char>) -> Seq<char> {
    "[arena "@ + padded(level.spec_label()@) + " "@ + module + "] "@ + text + "\n"@
}

/// The log line for `text` of `module`.
pub fn write(level: Level, module: &str, text: &str) -> (r: String)
    ensures
        r@ == line_of(level, module@, text@),
{
    let mut s: String = String::from_str("[arena ");
    s.append(level.label());
    match level {
        Level::Info | Level::Warn => {
            s.append(" ");
        },
        Level::Error => {},
    }
    proof {
        reveal_strlit("INFO");
        reveal_strlit("WARN");
        reveal_strlit("ERROR");
        reveal_strlit(" ");
        let w = level.spec_label()@;
        reveal_with_fuel(padded, 3);
        if level != Level::Error {
            assert(w.push(' ') =~= w + " "@);
            assert(padded(w) == w + " "@);
        }
        assert(s@ =~= "[arena "@ + padded(w));
    }
    s.append(" ");
    s.append(module);
    s.append("] ");
    s.append(text);
    s.append("\n");
    s
}

/// The marker line for `text`: the text alone.
pub fn write_marker(text: &str) -> (r: String)
    ensures
        r@ == text@ + "\n"@,
{
    let mut s: String = String::from_str(text);
    s.append("\n");
    s
}

pub open spec fn digit(d: int) -> char {
    if d == 0 {
        '0'
    } else if d == 1 {
        '1'
    } else if d == 2 {
        '2'
    } else if d == 3 {
        '3'
    } else if d == 4 {
        '4'
    } else if d == 5 {
        '5'
    } else if d == 6 {
        '6'
    } else if d == 7 {
        '7'
    } else if d == 8 {
        '8'
    } else {
        '9'
    }
}

/// `n` in decimal.
pub open spec fn decimal(n: nat) -> Seq<char>
    decreases n,
{
    if n < 10 {
        seq![digit(n as int)]
    } else {
        decimal(n / 10).push(digit(n as int % 10))
    }
}

fn digit_str(d: u64) -> (r: &'static str)
    requires
        d < 10,
    ensures
        r@ == seq![digit(d as int)],
{
    proof {
        reveal_strlit("0");
        reveal_strlit("1");
        reveal_strlit("2");
        reveal_strlit("3");
        reveal_strlit("4");
        reveal_strlit("5");
        reveal_strlit("6");
        reveal_strlit("7");
        reveal_strlit("8");
        reveal_strlit("9");
    }
    let r: &'static str = if d == 0 {
        "0"
    } else if d == 1 {
        "1"
    } else if d == 2 {
        "2"
    } else if d == 3 {
        "3"
    } else if d == 4 {
        "4"
    } else if d == 5 {
        "5"
    } else if d == 6 {
        "6"
    } else if d == 7 {
        "7"
    } else if d == 8 {
        "8"
    } else {
        "9"
    };
    assert(r@ =~= seq![digit(d as int)]);
    r
}

/// Append `n` in decimal.
pub fn append_decimal(s: &mut String, n: u64)
    ensures
        final(s)@ == old(s)@ + decimal(n as nat),
    decreases n,
{
    if n < 10 {
        s.append(digit_str(n));
    } else {
        append_decimal(s, n / 10);
        s.append(digit_str(n % 10));
        assert(s@ =~= old(s)@ + decimal(n as nat));
    }
}

pub open spec fn hex_digit(d: int) -> char {
    if d < 10 {
        digit(d)
    } else if d == 10 {
        'a'
    } else if d == 11 {
        'b'
    } else if d == 12 {
        'c'
    } else if d == 13 {
        'd'
    } else if d == 14 {
        'e'
    } else {
        'f'
    }
}

/// `n` in hexadecimal, without the prefix.
pub open spec fn hex_digits(n: nat) -> Seq<char>
    decreases n,
{
    if n < 16 {
        seq![hex_digit(n as int)]
    } else {
        hex_digits(n / 16).push(hex_digit(n as int % 16))
    }
}

/// `n` in hexadecimal, with the prefix.
pub open spec fn hex(n: nat) -> Seq<char> {
    "0x"@ + hex_digits(n)
}

/// `n` in hexadecimal, with the prefix and at least two digits.
pub open spec fn hex_byte(n: nat) -> Seq<char> {
    if n < 16 {
        "0x0"@ + hex_digits(n)
    } else {
        hex(n)
    }
}

fn hex_digit_str(d: u64) -> (r: &'static str)
    requires
        d < 16,
    ensures
        r@ == seq![hex_digit(d as int)],
{
    proof {
        reveal_strlit("a");
        reveal_strlit("b");
        reveal_strlit("c");
        reveal_strlit("d");
        reveal_strlit("e");
        reveal_strlit("f");
    }
    let r: &'static str = if d < 10 {
        digit_str(d)
    } else if d == 10 {
        "a"
    } else if d == 11 {
        "b"
    } else if d == 12 {
        "c"
    } else if d == 13 {
        "d"
    } else if d == 14 {
        "e"
    } else {
        "f"
    };
    assert(r@ =~= seq![hex_digit(d as int)]);
    r
}

fn append_hex_digits(s: &mut String, n: u64)
    ensures
        final(s)@ == old(s)@ + hex_digits(n as nat),
    decreases n,
{
    if n < 16 {
        s.append(hex_digit_str(n));
    } else {
        append_hex_digits(s, n / 16);
        s.append(hex_digit_str(n % 16));
        assert(s@ =~= old(s)@ + hex_digits(n as nat));
    }
}

/// Append `n` in hexadecimal.
pub fn append_hex(s: &mut String, n: u64)
    ensures
        final(s)@ == old(s)@ + hex(n as nat),
{
    s.append("0x");
    append_hex_digits(s, n);
    assert(s@ =~= old(s)@ + hex(n as nat));
}

/// Append `n` in hexadecimal, with at least two digits.
pub fn append_hex_byte(s: &mut String, n: u64)
    ensures
        final(s)@ == old(s)@ + hex_byte(n as nat),
{
    if n < 16 {
        s.append("0x0");
        append_hex_digits(s, n);
        assert(s@ =~= old(s)@ + hex_byte(n as nat));
    } else {
        append_hex(s, n);
    }
}

} // verus!
