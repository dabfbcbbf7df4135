//! Small verified helpers over `str` and `String` shared by the modules.
use vstd::prelude::*;
use vstd::string::*;

verus! {

/// The characters of `s`, in order.
pub fn chars_of(s: &str) -> (v: Vec<char>)
    ensures
        v@ == s@,
{
    let mut v: Vec<char> = Vec::new();
    for c in it: s.chars()
        invariant
            v@ == it.seq().take(it.index() as int),
            it.seq() == s@,
    {
        v.push(c);
    }
    v
}

/// Whether two strings hold the same characters.
pub fn str_eq(a: &str, b: &str) -> (r: bool)
    ensures
        r == (a@ == b@),
{
    let x = a.to_owned();
    let y = b.to_owned();
    x == y
}

/// An owned copy of `s`.
pub fn owned(s: &str) -> (r: String)
    ensures
        r@ == s@,
{
    s.to_owned()
}

/// Whether `s` is the empty string.
pub fn is_empty_str(s: &str) -> (r: bool)
    ensures
        r == (s@.len() == 0),
{
    s.is_empty()
}

/// Every character of `cs` is ASCII.
pub open spec fn ascii_text(cs: Seq<char>) -> bool {
    forall|i: int| 0 <= i < cs.len() ==> #[trigger] cs[i] < '\u{80}'
}

/// An ASCII letter.
pub open spec fn ascii_letter(c: char) -> bool {
    ('a' <= c <= 'z') || ('A' <= c <= 'Z')
}

/// An ASCII digit.
pub open spec fn ascii_digit(c: char) -> bool {
    '0' <= c <= '9'
}

/// The ASCII lowercase of `c`: an uppercase letter maps to its lowercase
/// letter, every other character to itself.
pub open spec fn ascii_lower(c: char) -> char {
    if 'A' <= c <= 'Z' {
        ((c as u32) + 32) as char
    } else {
        c
    }
}

/// The decimal digit `d` as a one-character string.
pub open spec fn digit_str(d: nat) -> Seq<char> {
    if d == 0 {
        "0"@
    } else if d == 1 {
        "1"@
    } else if d == 2 {
        "2"@
    } else if d == 3 {
        "3"@
    } else if d == 4 {
        "4"@
    } else if d == 5 {
        "5"@
    } else if d == 6 {
        "6"@
    } else if d == 7 {
        "7"@
    } else if d == 8 {
        "8"@
    } else {
        "9"@
    }
}

/// The decimal representation of `n`, without leading zeros.
pub open spec fn decimal_spec(n: nat) -> Seq<char>
    decreases n,
{
    if n < 10 {
        digit_str(n)
    } else {
        decimal_spec(n / 10) + digit_str(n % 10)
    }
}

fn digit(d: u64) -> (r: &'static str)
    requires
        d < 10,
    ensures
        r@ == digit_str(d as nat),
{
    if d == 0 {
        "0"
    } else if d == 1 {
        "1"
    } else if d == 2 {
        "2"
    } else if d == 3 {
        "3"
    } else if d == 4 {
        "4"
    } else if d == 5 {
        "5"
    } else if d == 6 {
        "6"
    } else if d == 7 {
        "7"
    } else if d == 8 {
        "8"
    } else {
        "9"
    }
}

/// The decimal representation of `x`.
pub fn decimal(x: u64) -> (r: String)
    ensures
        r@ == decimal_spec(x as nat),
    decreases x,
{
    if x < 10 {
        digit(x).to_owned()
    } else {
        let mut s = decimal(x / 10);
        s.append(digit(x % 10));
        s
    }
}

/// The decimal representation of `n` left-padded with zeros to `width`
/// characters (longer representations are kept whole).
pub open spec fn padded_spec(n: nat, width: nat) -> Seq<char> {
    let d = decimal_spec(n);
    if d.len() < width {
        Seq::new((width - d.len()) as nat, |_i: int| '0') + d
    } else {
        d
    }
}

/// The decimal representation of `x`, zero-padded to `width` characters.
pub fn zero_padded(x: u64, width: usize) -> (r: String)
    ensures
        r@ == padded_spec(x as nat, width as nat),
{
    let d = decimal(x);
    let dl = chars_of(d.as_str()).len();
    let mut out = String::new();
    let mut n: usize = dl;
    proof {
        reveal_strlit("0");
        assert(out@ =~= Seq::new((n - dl) as nat, |_i: int| '0'));
    }
    while n < width
        invariant
            dl == d@.len(),
            dl <= n,
            n <= width || n == dl,
            out@ == Seq::new((n - dl) as nat, |_i: int| '0'),
        decreases width - n,
    {
        proof {
            reveal_strlit("0");
        }
        let ghost before = out@;
        out.append("0");
        proof {
            assert(out@ =~= Seq::new((n + 1 - dl) as nat, |_i: int| '0'));
        }
        n += 1;
    }
    out.append(d.as_str());
    proof {
        if dl >= width {
            assert(out@ =~= d@);
        }
    }
    out
}

} // verus!
