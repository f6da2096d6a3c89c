//! Source locations and the small pieces of text handling that the rest of
//! the crate shares: decimal rendering of unsigned values and character-exact
//! string comparison.

use vstd::prelude::*;
use vstd::string::*;

verus! {

/// Mathematical model of a [`Location`]: the optional display path as a
/// character sequence, plus the 1-based line and column numbers.
pub ghost struct LocationModel {
    pub path: Option<Seq<char>>,
    pub line: int,
    pub column: int,
}

/// A position in the program source, attached to every token and,
/// transitively, to every operation and every error, for diagnostics.
/// `line` and `column` are 1-based; `path` is an optional display name.
#[derive(Debug, Clone)]
pub struct Location {
    pub path: Option<String>,
    pub line: usize,
    pub column: usize,
}

impl View for Location {
    type V = LocationModel;

    open spec fn view(&self) -> LocationModel {
        LocationModel {
            path: match self.path {
                Some(p) => Some(p@),
                None => None,
            },
            line: self.line as int,
            column: self.column as int,
        }
    }
}

/// The view of an optional borrowed path string.
pub open spec fn opt_str_view(p: Option<&str>) -> Option<Seq<char>> {
    match p {
        Some(s) => Some(s@),
        None => None,
    }
}

/// The decimal digit character for a value in `0..10`.
pub open spec fn dec_digit(d: int) -> char
    recommends
        0 <= d < 10,
{
    if d == 0 {
        '0'
    } else if d == 1 {
        '1'
    } else if d == 2 {
        '2'
    } else if d == 3 {
        '3'
    } else if d == 4 {
        '4'
    } else if d == 5 {
        '5'
    } else if d == 6 {
        '6'
    } else if d == 7 {
        '7'
    } else if d == 8 {
        '8'
    } else {
        '9'
    }
}

/// The usual decimal rendering of a nonnegative integer, most significant
/// digit first, without leading zeros (`0` renders as `"0"`).
pub open spec fn dec_str(n: int) -> Seq<char>
    recommends
        n >= 0,
    decreases n,
{
    if n < 10 {
        seq![dec_digit(n)]
    } else {
        dec_str(n / 10).push(dec_digit(n % 10))
    }
}

fn digit_str(d: u64) -> (r: &'static str)
    requires
        d < 10,
    ensures
        r@ == seq![dec_digit(d as int)],
{
    proof {
        reveal_strlit("0");
        reveal_strlit("1");
        reveal_strlit("2");
        reveal_strlit("3");
        reveal_strlit("4");
        reveal_strlit("5");
        reveal_strlit("6");
        reveal_strlit("7");
        reveal_strlit("8");
        reveal_strlit("9");
    }
    if d == 0 {
        proof {
            assert("0"@ =~= seq![dec_digit(d as int)]);
        }
        "0"
    } else if d == 1 {
        proof {
            assert("1"@ =~= seq![dec_digit(d as int)]);
        }
        "1"
    } else if d == 2 {
        proof {
            assert("2"@ =~= seq![dec_digit(d as int)]);
        }
        "2"
    } else if d == 3 {
        proof {
            assert("3"@ =~= seq![dec_digit(d as int)]);
        }
        "3"
    } else if d == 4 {
        proof {
            assert("4"@ =~= seq![dec_digit(d as int)]);
        }
        "4"
    } else if d == 5 {
        proof {
            assert("5"@ =~= seq![dec_digit(d as int)]);
        }
        "5"
    } else if d == 6 {
        proof {
            assert("6"@ =~= seq![dec_digit(d as int)]);
        }
        "6"
    } else if d == 7 {
        proof {
            assert("7"@ =~= seq![dec_digit(d as int)]);
        }
        "7"
    } else if d == 8 {
        proof {
            assert("8"@ =~= seq![dec_digit(d as int)]);
        }
        "8"
    } else {
        proof {
            assert("9"@ =~= seq![dec_digit(d as int)]);
        }
        "9"
    }
}

/// Renders `n` in decimal.
pub fn u64_to_dec(n: u64) -> (s: String)
    ensures
        s@ == dec_str(n as int),
    decreases n,
{
    if n < 10 {
        String::from_str(digit_str(n))
    } else {
        let mut s = u64_to_dec(n / 10);
        s.append(digit_str(n % 10));
        proof {
            assert(s@ =~= dec_str(n as int));
        }
        s
    }
}

/// Character-exact equality of two string slices.
pub fn str_eq(a: &str, b: &str) -> (r: bool)
    ensures
        r == (a@ == b@),
{
    let alen = a.unicode_len();
    let blen = b.unicode_len();
    if alen != blen {
        return false;
    }
    let mut i: usize = 0;
    while i < alen
        invariant
            i <= alen,
            alen == a@.len(),
            blen == b@.len(),
            alen == blen,
            forall|k: int| 0 <= k < i ==> a@[k] == b@[k],
        decreases alen - i,
    {
        if a.get_char(i) != b.get_char(i) {
            return false;
        }
        i += 1;
    }
    proof {
        assert(a@ =~= b@);
    }
    true
}

/// The diagnostic rendering of a location: `path:line:column` when a path is
/// present, `line:column` otherwise.
pub open spec fn location_str(l: LocationModel) -> Seq<char> {
    (match l.path {
        Some(p) => p + seq![':'],
        None => Seq::<char>::empty(),
    }) + dec_str(l.line) + seq![':'] + dec_str(l.column)
}

impl Location {
    /// A copy of this location.
    pub fn dup(&self) -> (r: Location)
        ensures
            r@ == self@,
    {
        Location {
            path: match &self.path {
                Some(p) => Some(p.clone()),
                None => None,
            },
            line: self.line,
            column: self.column,
        }
    }

    /// Renders this location as a diagnostic prefix.
    pub fn message(&self) -> (s: String)
        ensures
            s@ == location_str(self@),
    {
        let mut s = String::new();
        match &self.path {
            Some(p) => {
                s.append(p.as_str());
                s.append(":");
            }
            None => {}
        }
        let line = u64_to_dec(self.line as u64);
        s.append(line.as_str());
        s.append(":");
        let column = u64_to_dec(self.column as u64);
        s.append(column.as_str());
        proof {
            reveal_strlit(":");
            assert(":"@ =~= seq![':']);
            assert(s@ =~= location_str(self@));
        }
        s
    }
}

} // verus!
