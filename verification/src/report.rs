//! The lines in which a duplicate and its chains are reported.

use vstd::prelude::*;
use vstd::string::*;
use crate::detect::Duplicate;
use crate::record::option_text;

verus! {

/// The character of a decimal digit.
pub open spec fn digit_char(d: nat) -> char {
    if d == 0 {
        '0'
    } else if d == 1 {
        '1'
    } else if d == 2 {
        '2'
    } else if d == 3 {
        '3'
    } else if d == 4 {
        '4'
    } else if d == 5 {
        '5'
    } else if d == 6 {
        '6'
    } else if d == 7 {
        '7'
    } else if d == 8 {
        '8'
    } else {
        '9'
    }
}

/// A number in decimal digits, without leading zeros.
pub open spec fn decimal_text(n: nat) -> Seq<char>
    decreases n,
{
    if n < 10 {
        seq![digit_char(n)]
    } else {
        decimal_text(n / 10).push(digit_char(n % 10))
    }
}

/// The word for that many users: `package` for one, `packages` otherwise.
pub open spec fn noun_text(count: nat) -> Seq<char> {
    if count == 1 {
        "package"@
    } else {
        "packages"@
    }
}

/// The line that reports a duplicate: the package, its version, by how
/// many packages it is used, and the version that is available.
pub open spec fn headline_text(
    package: Seq<char>,
    version: Seq<char>,
    users: nat,
    latest: Seq<char>,
) -> Seq<char> {
    package + " v"@ + version + " used by "@ + decimal_text(users) + " "@ + noun_text(users)
        + " (available: v"@ + latest + ")"@
}

/// The line that reports a chain: the chain behind a dash.
pub open spec fn chain_line_text(chain: Seq<char>) -> Seq<char> {
    "  - "@ + chain
}

/// The digit as a text.
fn digit(d: usize) -> (s: &'static str)
    requires
        d < 10,
    ensures
        s@ == seq![digit_char(d as nat)],
{
    proof {
        reveal_strlit("0");
        reveal_strlit("1");
        reveal_strlit("2");
        reveal_strlit("3");
        reveal_strlit("4");
        reveal_strlit("5");
        reveal_strlit("6");
        reveal_strlit("7");
        reveal_strlit("8");
        reveal_strlit("9");
    }
    let s = if d == 0 {
        "0"
    } else if d == 1 {
        "1"
    } else if d == 2 {
        "2"
    } else if d == 3 {
        "3"
    } else if d == 4 {
        "4"
    } else if d == 5 {
        "5"
    } else if d == 6 {
        "6"
    } else if d == 7 {
        "7"
    } else if d == 8 {
        "8"
    } else {
        "9"
    };
    proof {
        assert(s@ =~= seq![digit_char(d as nat)]);
    }
    s
}

/// Writes a number in decimal digits.
pub fn decimal(n: usize) -> (s: String)
    ensures
        s@ == decimal_text(n as nat),
    decreases n,
{
    if n < 10 {
        digit(n).to_owned()
    } else {
        let mut s = decimal(n / 10);
        s.append(digit(n % 10));
        proof {
            assert(s@ =~= decimal_text((n / 10) as nat).push(digit_char((n % 10) as nat)));
        }
        s
    }
}

/// The word for that many users.
pub fn noun(count: usize) -> (s: &'static str)
    ensures
        s@ == noun_text(count as nat),
{
    if count == 1 {
        "package"
    } else {
        "packages"
    }
}

impl Duplicate {
    /// The line that reports the duplicate: see [`headline_text`].
    pub fn headline(&self) -> (line: String)
        ensures
            line@ == headline_text(
                self.package@,
                self.version@,
                self.users.len() as nat,
                self.latest@,
            ),
    {
        let mut line = self.package.clone();
        line.append(" v");
        line.append(self.version.as_str());
        line.append(" used by ");
        line.append(decimal(self.users.len()).as_str());
        line.append(" ");
        line.append(noun(self.users.len()));
        line.append(" (available: v");
        line.append(self.latest.as_str());
        line.append(")");
        line
    }
}

/// The line that reports a chain: see [`chain_line_text`].
pub fn chain_line(chain: &str) -> (line: String)
    ensures
        line@ == chain_line_text(chain@),
{
    let mut line = "  - ".to_owned();
    line.append(chain);
    line
}

/// The source is a path: its text begins with `path+`.
pub open spec fn is_path_source(source: Seq<char>) -> bool {
    source.len() >= 5 && source.take(5) == seq!['p', 'a', 't', 'h', '+']
}

/// The source as a report lists it: none for a package that comes from a
/// path.
pub open spec fn listed_source_text(source: Option<Seq<char>>) -> Option<Seq<char>> {
    match source {
        Some(text) => if is_path_source(text) {
            None
        } else {
            Some(text)
        },
        None => None,
    }
}

/// The source as a report lists it: see [`listed_source_text`].
pub fn listed_source(source: &Option<String>) -> (r: Option<String>)
    ensures
        option_text(r) == listed_source_text(option_text(*source)),
{
    match source {
        None => None,
        Some(text) => {
            let t = text.as_str();
            if t.unicode_len() >= 5 && t.get_char(0) == 'p' && t.get_char(1) == 'a' && t.get_char(2)
                == 't' && t.get_char(3) == 'h' && t.get_char(4) == '+' {
                proof {
                    assert(text@.take(5) =~= seq!['p', 'a', 't', 'h', '+']);
                }
                None
            } else {
                proof {
                    if text@.len() >= 5 {
                        assert(text@.take(5)[0] == text@[0]);
                        assert(text@.take(5)[1] == text@[1]);
                        assert(text@.take(5)[2] == text@[2]);
                        assert(text@.take(5)[3] == text@[3]);
                        assert(text@.take(5)[4] == text@[4]);
                    }
                }
                Some(text.clone())
            }
        },
    }
}

} // verus!
