//! Formatting matches for the output sink.
//!
//! The sink itself (standard output) belongs to the caller; the library
//! pins down the text of each emitted line: `<path>:<line>:<content>`.

use vstd::prelude::*;
use vstd::string::StringExecFns;
use crate::matcher::Match;

verus! {

/// The character of one decimal digit.
pub open spec fn digit_char(d: int) -> char {
    if d == 0 {
        '0'
    } else if d == 1 {
        '1'
    } else if d == 2 {
        '2'
    } else if d == 3 {
        '3'
    } else if d == 4 {
        '4'
    } else if d == 5 {
        '5'
    } else if d == 6 {
        '6'
    } else if d == 7 {
        '7'
    } else if d == 8 {
        '8'
    } else {
        '9'
    }
}

/// The decimal digits of a nonnegative number, most significant first.
pub open spec fn decimal_chars(n: int) -> Seq<char>
    decreases n,
{
    if n < 10 {
        seq![digit_char(n)]
    } else {
        decimal_chars(n / 10).push(digit_char(n % 10))
    }
}

fn digit_str(d: usize) -> (r: &'static str)
    requires
        d < 10,
    ensures
        r@ == seq![digit_char(d as int)],
{
    if d == 0 {
        proof {
            reveal_strlit("0");
        }
        assert(("0")@ =~= seq![digit_char(0)]);
        "0"
    } else if d == 1 {
        proof {
            reveal_strlit("1");
        }
        assert(("1")@ =~= seq![digit_char(1)]);
        "1"
    } else if d == 2 {
        proof {
            reveal_strlit("2");
        }
        assert(("2")@ =~= seq![digit_char(2)]);
        "2"
    } else if d == 3 {
        proof {
            reveal_strlit("3");
        }
        assert(("3")@ =~= seq![digit_char(3)]);
        "3"
    } else if d == 4 {
        proof {
            reveal_strlit("4");
        }
        assert(("4")@ =~= seq![digit_char(4)]);
        "4"
    } else if d == 5 {
        proof {
            reveal_strlit("5");
        }
        assert(("5")@ =~= seq![digit_char(5)]);
        "5"
    } else if d == 6 {
        proof {
            reveal_strlit("6");
        }
        assert(("6")@ =~= seq![digit_char(6)]);
        "6"
    } else if d == 7 {
        proof {
            reveal_strlit("7");
        }
        assert(("7")@ =~= seq![digit_char(7)]);
        "7"
    } else if d == 8 {
        proof {
            reveal_strlit("8");
        }
        assert(("8")@ =~= seq![digit_char(8)]);
        "8"
    } else {
        proof {
            reveal_strlit("9");
        }
        assert(("9")@ =~= seq![digit_char(9)]);
        "9"
    }
}

/// The decimal text of a number.
pub fn to_decimal(n: usize) -> (r: String)
    ensures
        r@ == decimal_chars(n as int),
    decreases n,
{
    if n < 10 {
        let ds = digit_str(n);
        ds.to_owned()
    } else {
        let mut s = to_decimal(n / 10);
        let ds = digit_str(n % 10);
        s.append(ds);
        assert(s@ =~= decimal_chars(n as int / 10).push(digit_char(n as int % 10)));
        s
    }
}

/// Formats matches for the output sink, one line per match.
pub struct Printer {}

impl Printer {
    pub fn new() -> (r: Self) {
        Printer {  }
    }

    /// The output line of one match: the path, the 1-based line number and
    /// the full line content, separated by colons (without the final line
    /// break, which the sink appends).
    pub fn format_match(&self, path: &str, m: &Match) -> (r: String)
        ensures
            r@ == path@ + seq![':'] + decimal_chars(m.line as int) + seq![':'] + m.content@,
    {
        proof {
            reveal_strlit(":");
        }
        assert((":")@ =~= seq![':']);
        let mut out = path.to_owned();
        out.append(":");
        let num = to_decimal(m.line);
        out.append(num.as_str());
        out.append(":");
        out.append(m.content.as_str());
        assert(out@ =~= path@ + seq![':'] + decimal_chars(m.line as int) + seq![':']
            + m.content@);
        out
    }
}

} // verus!
