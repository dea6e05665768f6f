//! Reading start coordinates written as `(x,y)`.

use vstd::prelude::*;
use crate::grid::Coords;

verus! {

/// Unicode's `White_Space` characters, as `char::is_whitespace` tests them.
pub open spec fn is_white_space(c: char) -> bool {
    let v = c as u32;
    (0x9 <= v <= 0xd) || v == 0x20 || v == 0x85 || v == 0xa0 || v == 0x1680 || (0x2000 <= v <= 0x200a)
        || v == 0x2028 || v == 0x2029 || v == 0x202f || v == 0x205f || v == 0x3000
}

/// `s` without leading characters that satisfy `drop`.
pub open spec fn strip_front(s: Seq<char>, drop: spec_fn(char) -> bool) -> Seq<char>
    decreases s.len(),
{
    if s.len() > 0 && drop(s[0]) {
        strip_front(s.drop_first(), drop)
    } else {
        s
    }
}

/// `s` without trailing characters that satisfy `drop`.
pub open spec fn strip_back(s: Seq<char>, drop: spec_fn(char) -> bool) -> Seq<char>
    decreases s.len(),
{
    if s.len() > 0 && drop(s.last()) {
        strip_back(s.drop_last(), drop)
    } else {
        s
    }
}

/// What is left to split: trimmed of white space, then of closing and opening
/// parentheses.
pub open spec fn coords_body(s: Seq<char>) -> Seq<char> {
    let t = strip_back(strip_front(s, |c: char| is_white_space(c)), |c: char| is_white_space(c));
    strip_front(strip_back(t, |c: char| c == ')'), |c: char| c == '(')
}

/// The value of a string of decimal digits.
pub open spec fn decimal_value(d: Seq<char>) -> nat
    decreases d.len(),
{
    if d.len() == 0 {
        0
    } else {
        decimal_value(d.drop_last()) * 10 + ((d.last() as u32) - 48) as nat
    }
}

pub open spec fn is_digit(c: char) -> bool {
    48 <= c as u32 <= 57
}

pub open spec fn all_digits(d: Seq<char>) -> bool {
    forall|i: int| 0 <= i < d.len() ==> is_digit(#[trigger] d[i])
}

/// Why a text is no `usize`, as `str::parse` reports it.
#[derive(Clone, Copy, Debug, PartialEq, Eq, Structural)]
pub enum IntErrorKind {
    Empty,
    InvalidDigit,
    PosOverflow,
}

/// `s` read as `str::parse::<usize>` reads it: an optional `+`, then decimal
/// digits only.
pub open spec fn usize_of(s: Seq<char>) -> Result<usize, IntErrorKind> {
    let d = if s.len() > 0 && s[0] == '+' { s.drop_first() } else { s };
    if s.len() == 0 {
        Err(IntErrorKind::Empty)
    } else if d.len() == 0 || !all_digits(d) {
        Err(IntErrorKind::InvalidDigit)
    } else if decimal_value(d) > usize::MAX {
        Err(IntErrorKind::PosOverflow)
    } else {
        Ok(decimal_value(d) as usize)
    }
}

/// The message std gives for each kind of failure.
pub open spec fn int_error_message(k: IntErrorKind) -> Seq<char> {
    match k {
        IntErrorKind::Empty => "cannot parse integer from empty string"@,
        IntErrorKind::InvalidDigit => "invalid digit found in string"@,
        IntErrorKind::PosOverflow => "number too large to fit in target type"@,
    }
}

pub open spec fn pattern_message() -> Seq<char> {
    "Start coord should follow the pattern `(0, 0)`"@
}

/// `s` read as start coordinates: the body split at its first comma, each side
/// read as a `usize`.
pub open spec fn coords_of(s: Seq<char>) -> Result<Coords, Seq<char>> {
    let b = coords_body(s);
    if exists|i: int| 0 <= i < b.len() && b[i] == ',' {
        let i = choose|i: int| 0 <= i < b.len() && b[i] == ',' && forall|j: int| 0 <= j < i ==> b[j] != ',';
        match (usize_of(b.subrange(0, i)), usize_of(b.subrange(i + 1, b.len() as int))) {
            (Ok(x), Ok(y)) => Ok((x, y)),
            (Err(e), _) => Err(int_error_message(e)),
            (Ok(_), Err(e)) => Err(int_error_message(e)),
        }
    } else {
        Err(pattern_message())
    }
}

fn is_white_space_char(c: char) -> (r: bool)
    ensures
        r == is_white_space(c),
{
    let v = c as u32;
    (0x9 <= v && v <= 0xd) || v == 0x20 || v == 0x85 || v == 0xa0 || v == 0x1680 || (0x2000 <= v && v <= 0x200a)
        || v == 0x2028 || v == 0x2029 || v == 0x202f || v == 0x205f || v == 0x3000
}

/// Reads `s[lo..hi]` as a `usize`.
fn parse_usize(s: &Vec<char>, lo: usize, hi: usize) -> (r: Result<usize, IntErrorKind>)
    requires
        lo <= hi <= s@.len(),
    ensures
        r == usize_of(s@.subrange(lo as int, hi as int)),
{
    let ghost t = s@.subrange(lo as int, hi as int);
    if lo == hi {
        return Err(IntErrorKind::Empty);
    }
    let start = if s[lo] == '+' { lo + 1 } else { lo };
    let ghost d = if t.len() > 0 && t[0] == '+' { t.drop_first() } else { t };
    proof {
        assert(d =~= s@.subrange(start as int, hi as int));
    }
    if start == hi {
        return Err(IntErrorKind::InvalidDigit);
    }
    let mut i: usize = start;
    while i < hi
        invariant
            start <= i <= hi <= s@.len(),
            t == s@.subrange(lo as int, hi as int),
            t.len() > 0,
            d == (if t.len() > 0 && t[0] == '+' { t.drop_first() } else { t }),
            d == s@.subrange(start as int, hi as int),
            forall|k: int| start <= k < i ==> is_digit(#[trigger] s@[k]),
        decreases hi - i,
    {
        let v = s[i] as u32;
        if !(48 <= v && v <= 57) {
            proof {
                let w = i - start;
                assert(!is_digit(d[w]));
                assert(!all_digits(d));
            }
            return Err(IntErrorKind::InvalidDigit);
        }
        i = i + 1;
    }
    proof {
        assert forall|k: int| 0 <= k < d.len() implies is_digit(#[trigger] d[k]) by {
            assert(d[k] == s@[start + k]);
        }
    }
    let mut value: usize = 0;
    let mut j: usize = start;
    while j < hi
        invariant
            start <= j <= hi <= s@.len(),
            t == s@.subrange(lo as int, hi as int),
            t.len() > 0,
            d == (if t.len() > 0 && t[0] == '+' { t.drop_first() } else { t }),
            forall|k: int| 0 <= k < d.len() ==> is_digit(#[trigger] d[k]),
            d == s@.subrange(start as int, hi as int),
            forall|k: int| start <= k < hi ==> is_digit(#[trigger] s@[k]),
            value == decimal_value(s@.subrange(start as int, j as int)),
        decreases hi - j,
    {
        let digit = (s[j] as u32 - 48) as usize;
        proof {
            assert(is_digit(s@[j as int]));
            assert(s@.subrange(start as int, j + 1).drop_last() =~= s@.subrange(start as int, j as int));
        }
        if value > (usize::MAX - digit) / 10 {
            proof {
                lemma_decimal_prefix_grows(s@.subrange(start as int, hi as int), (j + 1 - start) as nat);
                assert(s@.subrange(start as int, hi as int).subrange(0, j + 1 - start) =~= s@.subrange(
                    start as int,
                    j + 1,
                ));
                assert(decimal_value(s@.subrange(start as int, j + 1)) > usize::MAX) by (nonlinear_arith)
                    requires
                        value > (usize::MAX - digit) / 10,
                        decimal_value(s@.subrange(start as int, j + 1)) == value * 10 + digit,
                        digit <= 9,
                ;
            }
            proof {
                assert forall|k: int| 0 <= k < d.len() implies is_digit(#[trigger] d[k]) by {}
            }
            return Err(IntErrorKind::PosOverflow);
        }
        value = value * 10 + digit;
        j = j + 1;
    }
    proof {
        assert(s@.subrange(start as int, hi as int) =~= d);
    }
    Ok(value)
}

/// A longer run of digits is worth at least as much as any of its prefixes.
proof fn lemma_decimal_prefix_grows(d: Seq<char>, n: nat)
    requires
        n <= d.len(),
        forall|k: int| 0 <= k < d.len() ==> is_digit(#[trigger] d[k]),
    ensures
        decimal_value(d) >= decimal_value(d.subrange(0, n as int)),
    decreases d.len(),
{
    if n < d.len() {
        assert(d.drop_last().subrange(0, n as int) =~= d.subrange(0, n as int));
        lemma_decimal_prefix_grows(d.drop_last(), n);
    } else {
        assert(d.subrange(0, n as int) =~= d);
    }
}

/// Reads start coordinates written as `(x,y)`; each number may carry a `+`.
pub fn parse_coords(s: &str) -> (r: Result<Coords, String>)
    ensures
        r matches Ok(c) ==> coords_of(s@) == Ok::<Coords, Seq<char>>(c),
        r matches Err(e) ==> coords_of(s@) == Err::<Coords, Seq<char>>(e@),
{
    let n = s.unicode_len();
    let mut chars: Vec<char> = Vec::new();
    let mut k: usize = 0;
    while k < n
        invariant
            n == s@.len(),
            k <= n,
            chars@ == s@.subrange(0, k as int),
        decreases n - k,
    {
        chars.push(s.get_char(k));
        k = k + 1;
        assert(chars@ =~= s@.subrange(0, k as int));
    }
    proof {
        assert(chars@ =~= s@);
    }
    let ghost ws = |c: char| is_white_space(c);
    let ghost close = |c: char| c == ')';
    let ghost open = |c: char| c == '(';
    let mut lo: usize = 0;
    let mut hi: usize = n;
    while lo < hi && is_white_space_char(chars[lo])
        invariant
            chars@ == s@,
            ws == (|c: char| is_white_space(c)),
            n == s@.len(),
            lo <= hi == n,
            strip_front(s@, ws) == strip_front(s@.subrange(lo as int, n as int), ws),
        decreases hi - lo,
    {
        proof {
            let t = s@.subrange(lo as int, n as int);
            assert(t.drop_first() =~= s@.subrange(lo + 1, n as int));
        }
        lo = lo + 1;
    }
    proof {
        assert(s@.subrange(lo as int, n as int) =~= strip_front(s@, ws)) by {
            let t = s@.subrange(lo as int, n as int);
            if lo < hi {
                assert(!ws(t[0]));
            }
        }
    }
    let ghost front = strip_front(s@, ws);
    while hi > lo && is_white_space_char(chars[hi - 1])
        invariant
            chars@ == s@,
            ws == (|c: char| is_white_space(c)),
            lo <= hi <= n == s@.len(),
            front == s@.subrange(lo as int, n as int),
            strip_back(front, ws) == strip_back(s@.subrange(lo as int, hi as int), ws),
        decreases hi - lo,
    {
        proof {
            let t = s@.subrange(lo as int, hi as int);
            assert(t.drop_last() =~= s@.subrange(lo as int, hi - 1));
        }
        hi = hi - 1;
    }
    let ghost trimmed = s@.subrange(lo as int, hi as int);
    proof {
        assert(strip_back(front, ws) == trimmed) by {
            if hi > lo {
                assert(!ws(trimmed.last()));
            }
        }
    }
    while hi > lo && chars[hi - 1] == ')'
        invariant
            chars@ == s@,
            close == (|c: char| c == ')'),
            lo <= hi <= n == s@.len(),
            strip_back(trimmed, close) == strip_back(s@.subrange(lo as int, hi as int), close),
        decreases hi - lo,
    {
        proof {
            let t = s@.subrange(lo as int, hi as int);
            assert(t.drop_last() =~= s@.subrange(lo as int, hi - 1));
        }
        hi = hi - 1;
    }
    let ghost closed = s@.subrange(lo as int, hi as int);
    proof {
        assert(strip_back(trimmed, close) == closed) by {
            if hi > lo {
                assert(!close(closed.last()));
            }
        }
    }
    while lo < hi && chars[lo] == '('
        invariant
            chars@ == s@,
            open == (|c: char| c == '('),
            lo <= hi <= n == s@.len(),
            strip_front(closed, open) == strip_front(s@.subrange(lo as int, hi as int), open),
        decreases hi - lo,
    {
        proof {
            let t = s@.subrange(lo as int, hi as int);
            assert(t.drop_first() =~= s@.subrange(lo + 1, hi as int));
        }
        lo = lo + 1;
    }
    let ghost body = s@.subrange(lo as int, hi as int);
    proof {
        assert(strip_front(closed, open) == body) by {
            if lo < hi {
                assert(!open(body[0]));
            }
        }
        assert(coords_body(s@) == body);
    }
    let mut comma: usize = lo;
    while comma < hi && chars[comma] != ','
        invariant
            chars@ == s@,
            lo <= comma <= hi <= n == s@.len(),
            forall|j: int| lo <= j < comma ==> s@[j] != ',',
        decreases hi - comma,
    {
        comma = comma + 1;
    }
    if comma == hi {
        proof {
            assert forall|i: int| 0 <= i < body.len() implies body[i] != ',' by {
                assert(body[i] == s@[lo + i]);
            }
        }
        return Err(String::from_str("Start coord should follow the pattern `(0, 0)`"));
    }
    proof {
        let i = (comma - lo) as int;
        assert(body[i] == ',');
        assert(forall|j: int| 0 <= j < i ==> body[j] == s@[lo + j]);
        let c = choose|c: int| 0 <= c < body.len() && body[c] == ',' && forall|j: int| 0 <= j < c ==> body[j] != ',';
        if c < i {
            assert(body[c] == s@[lo + c]);
        } else if c > i {
            assert(body[i] != ',');
        }
        assert(c == i);
        assert(body.subrange(0, i) =~= s@.subrange(lo as int, comma as int));
        assert(body.subrange(i + 1, body.len() as int) =~= s@.subrange(comma + 1, hi as int));
    }
    let x = parse_usize(&chars, lo, comma);
    let y = parse_usize(&chars, comma + 1, hi);
    match (x, y) {
        (Ok(x), Ok(y)) => Ok((x, y)),
        (Err(e), _) => Err(int_error_text(e)),
        (Ok(_), Err(e)) => Err(int_error_text(e)),
    }
}

fn int_error_text(k: IntErrorKind) -> (r: String)
    ensures
        r@ == int_error_message(k),
{
    match k {
        IntErrorKind::Empty => String::from_str("cannot parse integer from empty string"),
        IntErrorKind::InvalidDigit => String::from_str("invalid digit found in string"),
        IntErrorKind::PosOverflow => String::from_str("number too large to fit in target type"),
    }
}

} // verus!
