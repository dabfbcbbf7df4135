//! Detection and redaction of personal data in text: email addresses, US
//! Social Security numbers, IPv4 addresses and (Luhn-valid) credit-card
//! numbers. Spans are byte offsets into the UTF-8 text.
use vstd::prelude::*;
use vstd::string::*;
use vstd::utf8::*;

verus! {

/// Schema version of the pii-redact surface.
pub const SCHEMA_VERSION: &'static str = "1.0.0";

/// A kind of detected personal data.
#[derive(Debug, Clone, Copy, PartialEq, Eq, Structural)]
pub enum PiiKind {
    /// An email address.
    Email,
    /// A US Social Security number.
    Ssn,
    /// An IPv4 address.
    IpV4,
    /// A credit-card number (Luhn-valid).
    CreditCard,
}

impl PiiKind {
    /// The default redaction tag of the kind.
    pub open spec fn tag_spec(self) -> Seq<char> {
        match self {
            PiiKind::Email => "[EMAIL]"@,
            PiiKind::Ssn => "[SSN]"@,
            PiiKind::IpV4 => "[IP]"@,
            PiiKind::CreditCard => "[CARD]"@,
        }
    }

    /// The default redaction tag for this kind.
    pub fn tag(self) -> (r: &'static str)
        ensures
            r@ == self.tag_spec(),
    {
        match self {
            PiiKind::Email => "[EMAIL]",
            PiiKind::Ssn => "[SSN]",
            PiiKind::IpV4 => "[IP]",
            PiiKind::CreditCard => "[CARD]",
        }
    }

    /// Position of the kind in scan order (emails, SSNs, IPs, cards).
    pub open spec fn rank(self) -> int {
        match self {
            PiiKind::Email => 0,
            PiiKind::Ssn => 1,
            PiiKind::IpV4 => 2,
            PiiKind::CreditCard => 3,
        }
    }
}

/// A detected span before its text is copied out.
#[derive(Clone, Copy, PartialEq, Eq, Structural)]
pub struct Span {
    /// What was found.
    pub kind: PiiKind,
    /// Start byte offset (inclusive).
    pub start: usize,
    /// End byte offset (exclusive).
    pub end: usize,
}

/// One detected span of personal data.
#[derive(Debug, Clone, PartialEq, Eq)]
pub struct Detection {
    /// What was found.
    pub kind: PiiKind,
    /// Start byte offset (inclusive).
    pub start: usize,
    /// End byte offset (exclusive).
    pub end: usize,
    /// The matched text.
    pub text: String,
}

/// A span inside `b` whose first and last bytes are ASCII, so that both of
/// its ends fall on character boundaries.
pub open spec fn well_placed(b: Seq<u8>, sp: Span) -> bool {
    &&& sp.start < sp.end <= b.len()
    &&& b[sp.start as int] < 128
    &&& b[sp.end - 1] < 128
}

// ---------------------------------------------------------------------------
// Byte classes.

/// An ASCII digit.
pub open spec fn digit(x: u8) -> bool {
    48 <= x <= 57
}

/// An ASCII letter.
pub open spec fn alpha(x: u8) -> bool {
    (65 <= x <= 90) || (97 <= x <= 122)
}

/// An ASCII letter or digit.
pub open spec fn alnum(x: u8) -> bool {
    digit(x) || alpha(x)
}

/// A byte allowed in the local part of an email address.
pub open spec fn email_local(x: u8) -> bool {
    alnum(x) || x == 46 || x == 95 || x == 37 || x == 43 || x == 45
}

/// A byte allowed in an email domain.
pub open spec fn email_domain(x: u8) -> bool {
    alnum(x) || x == 46 || x == 45
}

fn is_digit(x: u8) -> (r: bool)
    ensures
        r == digit(x),
{
    48 <= x && x <= 57
}

fn is_alnum(x: u8) -> (r: bool)
    ensures
        r == alnum(x),
{
    (48 <= x && x <= 57) || (65 <= x && x <= 90) || (97 <= x && x <= 122)
}

fn is_email_local(x: u8) -> (r: bool)
    ensures
        r == email_local(x),
{
    is_alnum(x) || x == 46 || x == 95 || x == 37 || x == 43 || x == 45
}

fn is_domain(x: u8) -> (r: bool)
    ensures
        r == email_domain(x),
{
    is_alnum(x) || x == 46 || x == 45
}

// ---------------------------------------------------------------------------
// Emails.

/// Start of the run of local-part bytes that ends just before `at`.
pub open spec fn local_start(b: Seq<u8>, at: int) -> int
    decreases at,
{
    if at > 0 && at <= b.len() && email_local(b[at - 1]) {
        local_start(b, at - 1)
    } else {
        at
    }
}

/// End of the run of domain bytes that starts at `i`.
pub open spec fn domain_end(b: Seq<u8>, i: int) -> int
    decreases b.len() - i,
{
    if 0 <= i < b.len() && email_domain(b[i]) {
        domain_end(b, i + 1)
    } else {
        i
    }
}

/// `e` with trailing dots (down to `lo`) removed.
pub open spec fn trim_dots(b: Seq<u8>, lo: int, e: int) -> int
    decreases e - lo,
{
    if e > lo && b[e - 1] == 46 {
        trim_dots(b, lo, e - 1)
    } else {
        e
    }
}

/// Index of the first `.` in `b[from..to]`, if any.
pub open spec fn first_dot(b: Seq<u8>, from: int, to: int) -> Option<int>
    decreases to - from,
{
    if from >= to {
        None
    } else if b[from] == 46 {
        Some(from)
    } else {
        first_dot(b, from + 1, to)
    }
}

/// The email address around the `@` at `at`, if there is one: a non-empty
/// local part, a domain whose first dot has a label on both sides, and
/// trailing dots trimmed off.
pub open spec fn email_at(b: Seq<u8>, at: int) -> Option<Span> {
    if 0 <= at < b.len() && b[at] == 64 {
        let s = local_start(b, at);
        let e = domain_end(b, at + 1);
        let end = trim_dots(b, at + 1, e);
        let tld_ok = match first_dot(b, at + 1, e) {
            Some(d) => d > at + 1 && d + 1 < e,
            None => false,
        };
        if s < at && tld_ok && end > at + 1 {
            Some(Span { kind: PiiKind::Email, start: s as usize, end: end as usize })
        } else {
            None
        }
    } else {
        None
    }
}

/// The email addresses found at the `@` signs before position `k`, in order.
pub open spec fn emails_upto(b: Seq<u8>, k: int) -> Seq<Span>
    decreases k,
{
    if k <= 0 {
        Seq::empty()
    } else {
        emails_upto(b, k - 1) + match email_at(b, k - 1) {
            Some(sp) => seq![sp],
            None => Seq::empty(),
        }
    }
}

proof fn lemma_local_start(b: Seq<u8>, at: int)
    requires
        0 <= at <= b.len(),
    ensures
        0 <= local_start(b, at) <= at,
        forall|k: int| local_start(b, at) <= k < at ==> email_local(#[trigger] b[k]),
        local_start(b, at) == 0 || !email_local(b[local_start(b, at) - 1]),
    decreases at,
{
    if at > 0 && email_local(b[at - 1]) {
        lemma_local_start(b, at - 1);
    }
}

proof fn lemma_domain_end(b: Seq<u8>, i: int)
    requires
        0 <= i <= b.len(),
    ensures
        i <= domain_end(b, i) <= b.len(),
        forall|k: int| i <= k < domain_end(b, i) ==> email_domain(#[trigger] b[k]),
        domain_end(b, i) == b.len() || !email_domain(b[domain_end(b, i)]),
    decreases b.len() - i,
{
    if i < b.len() && email_domain(b[i]) {
        lemma_domain_end(b, i + 1);
    }
}

proof fn lemma_trim_dots(b: Seq<u8>, lo: int, e: int)
    requires
        lo <= e,
    ensures
        lo <= trim_dots(b, lo, e) <= e,
        trim_dots(b, lo, e) == lo || b[trim_dots(b, lo, e) - 1] != 46,
    decreases e - lo,
{
    if e > lo && b[e - 1] == 46 {
        lemma_trim_dots(b, lo, e - 1);
    }
}

proof fn lemma_emails_skip(b: Seq<u8>, i: int, j: int)
    requires
        0 <= i <= j <= b.len(),
        forall|k: int| i <= k < j ==> b[k] != 64,
    ensures
        emails_upto(b, j) == emails_upto(b, i),
    decreases j - i,
{
    if j > i {
        lemma_emails_skip(b, i, j - 1);
        assert(emails_upto(b, j) =~= emails_upto(b, j - 1));
    }
}

fn scan_email(b: &[u8]) -> (out: Vec<Span>)
    ensures
        out@ == emails_upto(b@, b@.len() as int),
        forall|k: int| 0 <= k < out@.len() ==> well_placed(b@, #[trigger] out@[k]),
{
    let n = b.len();
    let mut out: Vec<Span> = Vec::new();
    let mut i: usize = 0;
    while i < n
        invariant
            n == b@.len(),
            i <= n,
            out@ == emails_upto(b@, i as int),
            forall|k: int| 0 <= k < out@.len() ==> well_placed(b@, #[trigger] out@[k]),
        decreases n - i,
    {
        if b[i] == 64 {
            // expand left over the local part
            let mut s = i;
            while s > 0 && is_email_local(b[s - 1])
                invariant
                    s <= i < n,
                    n == b@.len(),
                    local_start(b@, s as int) == local_start(b@, i as int),
                decreases s,
            {
                s -= 1;
            }
            // expand right over the domain
            let mut e = i + 1;
            while e < n && is_domain(b[e])
                invariant
                    i + 1 <= e <= n,
                    n == b@.len(),
                    domain_end(b@, e as int) == domain_end(b@, i + 1),
                    forall|k: int| i < k < e ==> email_domain(#[trigger] b@[k]),
                decreases n - e,
            {
                e += 1;
            }
            // the first dot of the domain must have a label on both sides
            let mut d = i + 1;
            while d < e && b[d] != 46
                invariant
                    i + 1 <= d <= e <= n,
                    n == b@.len(),
                    first_dot(b@, d as int, e as int) == first_dot(b@, i + 1, e as int),
                decreases e - d,
            {
                d += 1;
            }
            let tld_ok = d < e && d > i + 1 && d + 1 < e;
            // trim trailing dots (sentence punctuation)
            let mut end = e;
            while end > i + 1 && b[end - 1] == 46
                invariant
                    i + 1 <= end <= e,
                    e <= n,
                    n == b@.len(),
                    trim_dots(b@, i + 1, end as int) == trim_dots(b@, i + 1, e as int),
                decreases end,
            {
                end -= 1;
            }
            proof {
                lemma_local_start(b@, i as int);
            }
            if s < i && tld_ok && end > i + 1 {
                out.push(Span { kind: PiiKind::Email, start: s, end });
                proof {
                    assert(email_local(b@[s as int]));
                    assert(email_domain(b@[end - 1]));
                    assert(well_placed(b@, out@[out@.len() - 1]));
                }
            }
            proof {
                assert(emails_upto(b@, i + 1) =~= out@);
                lemma_domain_end(b@, i + 1);
                assert forall|k: int| i + 1 <= k < e implies b@[k] != 64 by {
                    assert(email_domain(b@[k]));
                }
                lemma_emails_skip(b@, i + 1, e as int);
            }
            i = if e > i + 1 { e } else { i + 1 };
        } else {
            i += 1;
            assert(emails_upto(b@, i as int) =~= out@);
        }
    }
    out
}

// ---------------------------------------------------------------------------
// Social Security numbers.

/// `###-##-####` at `i`, not embedded in a longer digit run.
pub open spec fn ssn_at(b: Seq<u8>, i: int) -> bool {
    &&& 0 <= i && i + 11 <= b.len()
    &&& digit(b[i]) && digit(b[i + 1]) && digit(b[i + 2]) && b[i + 3] == 45
    &&& digit(b[i + 4]) && digit(b[i + 5]) && b[i + 6] == 45
    &&& digit(b[i + 7]) && digit(b[i + 8]) && digit(b[i + 9]) && digit(b[i + 10])
    &&& (i == 0 || !digit(b[i - 1]))
    &&& (i + 11 >= b.len() || !digit(b[i + 11]))
}

/// The SSNs starting before position `k`, in order.
pub open spec fn ssns_upto(b: Seq<u8>, k: int) -> Seq<Span>
    decreases k,
{
    if k <= 0 {
        Seq::empty()
    } else {
        ssns_upto(b, k - 1) + if ssn_at(b, k - 1) {
            seq![Span { kind: PiiKind::Ssn, start: (k - 1) as usize, end: (k + 10) as usize }]
        } else {
            Seq::empty()
        }
    }
}

fn scan_ssn(b: &[u8]) -> (out: Vec<Span>)
    ensures
        out@ == ssns_upto(b@, b@.len() as int),
        forall|k: int| 0 <= k < out@.len() ==> well_placed(b@, #[trigger] out@[k]),
{
    let n = b.len();
    let mut out: Vec<Span> = Vec::new();
    let mut i: usize = 0;
    while n >= 11 && i <= n - 11
        invariant
            n == b@.len(),
            i <= n,
            out@ == ssns_upto(b@, i as int),
            forall|k: int| 0 <= k < out@.len() ==> well_placed(b@, #[trigger] out@[k]),
        decreases n - i,
    {
        let shape = is_digit(b[i]) && is_digit(b[i + 1]) && is_digit(b[i + 2]) && b[i + 3] == 45
            && is_digit(b[i + 4]) && is_digit(b[i + 5]) && b[i + 6] == 45 && is_digit(b[i + 7])
            && is_digit(b[i + 8]) && is_digit(b[i + 9]) && is_digit(b[i + 10]);
        let left_ok = i == 0 || !is_digit(b[i - 1]);
        let right_ok = i + 11 >= n || !is_digit(b[i + 11]);
        if shape && left_ok && right_ok {
            out.push(Span { kind: PiiKind::Ssn, start: i, end: i + 11 });
            proof {
                assert(well_placed(b@, out@[out@.len() - 1]));
                assert(ssn_at(b@, i as int));
                assert(ssns_upto(b@, i + 1) =~= out@);
                assert forall|k: int| i + 1 <= k < i + 11 implies !ssn_at(b@, k) by {}
                lemma_ssns_skip(b@, i + 1, i + 11);
            }
            i += 11;
        } else {
            i += 1;
            assert(ssns_upto(b@, i as int) =~= out@);
        }
    }
    proof {
        if i < n {
            assert forall|k: int| i <= k < n implies !ssn_at(b@, k) by {}
            lemma_ssns_skip(b@, i as int, n as int);
        }
    }
    out
}

proof fn lemma_ssns_skip(b: Seq<u8>, i: int, j: int)
    requires
        0 <= i <= j,
        forall|k: int| i <= k < j ==> !ssn_at(b, k),
    ensures
        ssns_upto(b, j) == ssns_upto(b, i),
    decreases j - i,
{
    if j > i {
        lemma_ssns_skip(b, i, j - 1);
        assert(ssns_upto(b, j) =~= ssns_upto(b, j - 1));
    }
}

// ---------------------------------------------------------------------------
// IPv4 addresses.

/// End of the run of digits and dots starting at `i`.
pub open spec fn dotted_end(b: Seq<u8>, i: int) -> int
    decreases b.len() - i,
{
    if 0 <= i < b.len() && (digit(b[i]) || b[i] == 46) {
        dotted_end(b, i + 1)
    } else {
        i
    }
}

/// The maximal runs of digits and dots (starting with a digit, trailing dots
/// trimmed, not bordered by letters or digits) from position `i` on.
pub open spec fn dotted_runs(b: Seq<u8>, i: int) -> Seq<(int, int)>
    decreases b.len() - i,
{
    if i < 0 || i >= b.len() {
        Seq::empty()
    } else if digit(b[i]) {
        let re = dotted_end(b, i + 1);
        let e = trim_dots(b, i, re);
        let left_ok = i == 0 || !alnum(b[i - 1]);
        let right_ok = e >= b.len() || !alnum(b[e]);
        if i < re <= b.len() {
            (if left_ok && right_ok {
                seq![(i, e)]
            } else {
                Seq::empty()
            }) + dotted_runs(b, re)
        } else {
            Seq::empty()
        }
    } else {
        dotted_runs(b, i + 1)
    }
}

/// Decimal value of the digits `b[s..e]`.
pub open spec fn decimal(b: Seq<u8>, s: int, e: int) -> nat
    decreases e - s,
{
    if e <= s {
        0
    } else {
        decimal(b, s, e - 1) * 10 + (b[e - 1] - 48) as nat
    }
}

/// Index of the first `.` at or after `s` (or `e`).
pub open spec fn part_end(b: Seq<u8>, s: int, e: int) -> int
    decreases e - s,
{
    if s >= e || b[s] == 46 {
        s
    } else {
        part_end(b, s + 1, e)
    }
}

/// `b[s..e]` is `k` dot-separated parts, each one to three digits with value
/// at most 255.
pub open spec fn octets(b: Seq<u8>, s: int, e: int, k: nat) -> bool
    decreases k,
{
    let p = part_end(b, s, e);
    let part_ok = 1 <= p - s <= 3 && (forall|j: int| s <= j < p ==> digit(#[trigger] b[j])) && decimal(b, s, p)
        <= 255;
    if k <= 1 {
        part_ok && p == e
    } else {
        part_ok && p < e && octets(b, p + 1, e, (k - 1) as nat)
    }
}

/// The IPv4 candidates among `runs`.
pub open spec fn ipv4s_of(b: Seq<u8>, runs: Seq<(int, int)>) -> Seq<Span>
    decreases runs.len(),
{
    if runs.len() == 0 {
        Seq::empty()
    } else {
        ipv4s_of(b, runs.drop_last()) + if octets(b, runs.last().0, runs.last().1, 4) {
            seq![Span { kind: PiiKind::IpV4, start: runs.last().0 as usize, end: runs.last().1 as usize }]
        } else {
            Seq::empty()
        }
    }
}

proof fn lemma_dotted_end(b: Seq<u8>, i: int)
    requires
        0 <= i <= b.len(),
    ensures
        i <= dotted_end(b, i) <= b.len(),
        forall|k: int| i <= k < dotted_end(b, i) ==> (digit(#[trigger] b[k]) || b[k] == 46),
    decreases b.len() - i,
{
    if i < b.len() && (digit(b[i]) || b[i] == 46) {
        lemma_dotted_end(b, i + 1);
    }
}

proof fn lemma_dotted_runs_skip(b: Seq<u8>, i: int, j: int)
    requires
        0 <= i <= j <= b.len(),
        forall|k: int| i <= k < j ==> !digit(#[trigger] b[k]),
    ensures
        dotted_runs(b, i) == dotted_runs(b, j),
    decreases j - i,
{
    if i < j {
        lemma_dotted_runs_skip(b, i + 1, j);
    }
}

/// Maximal runs of digits and dots (candidate IPv4 spans), not bordered by
/// alphanumerics.
fn runs_with_dots(b: &[u8]) -> (runs: Vec<(usize, usize)>)
    ensures
        runs@.map_values(|r: (usize, usize)| (r.0 as int, r.1 as int)) == dotted_runs(b@, 0),
        forall|k: int|
            0 <= k < runs@.len() ==> {
                &&& (#[trigger] runs@[k]).0 < runs@[k].1 <= b@.len()
                &&& b@[runs@[k].0 as int] < 128
                &&& b@[runs@[k].1 - 1] < 128
            },
{
    let n = b.len();
    let mut runs: Vec<(usize, usize)> = Vec::new();
    let mut i: usize = 0;
    while i < n
        invariant
            n == b@.len(),
            i <= n,
            runs@.map_values(|r: (usize, usize)| (r.0 as int, r.1 as int)) + dotted_runs(b@, i as int)
                == dotted_runs(b@, 0),
            forall|k: int|
                0 <= k < runs@.len() ==> {
                    &&& (#[trigger] runs@[k]).0 < runs@[k].1 <= b@.len()
                    &&& b@[runs@[k].0 as int] < 128
                    &&& b@[runs@[k].1 - 1] < 128
                },
        decreases n - i,
    {
        if is_digit(b[i]) {
            let s = i;
            while i < n && (is_digit(b[i]) || b[i] == 46)
                invariant
                    s < i <= n || (s == i && digit(b@[s as int])),
                    s < n,
                    n == b@.len(),
                    digit(b@[s as int]),
                    dotted_end(b@, i as int) == dotted_end(b@, s + 1) || i == s,
                    forall|k: int| s <= k < i ==> (digit(#[trigger] b@[k]) || b@[k] == 46),
                decreases n - i,
            {
                i += 1;
            }
            // trim trailing dots
            let mut e = i;
            while e > s && b[e - 1] == 46
                invariant
                    s < e <= i,
                    i <= n,
                    n == b@.len(),
                    digit(b@[s as int]),
                    trim_dots(b@, s as int, e as int) == trim_dots(b@, s as int, i as int),
                decreases e,
            {
                e -= 1;
            }
            assert(digit(b@[e - 1]) || b@[e - 1] == 46);
            let left_ok = s == 0 || !is_alnum(b[s - 1]);
            let right_ok = e >= n || !is_alnum(b[e]);
            let ghost before = runs@;
            if left_ok && right_ok {
                runs.push((s, e));
            }
            proof {
                let f = |r: (usize, usize)| (r.0 as int, r.1 as int);
                assert(dotted_end(b@, s + 1) == i);
                let head = if left_ok && right_ok { seq![(s as int, e as int)] } else { Seq::<(int, int)>::empty() };
                assert(dotted_runs(b@, s as int) == head + dotted_runs(b@, i as int));
                assert(runs@.map_values(f) =~= before.map_values(f) + head);
                assert(runs@.map_values(f) + dotted_runs(b@, i as int) =~= before.map_values(f) + (head
                    + dotted_runs(b@, i as int)));
            }
        } else {
            i += 1;
        }
    }
    runs
}

/// Whether `b[s..e]` is a dotted quad of octets.
fn is_ipv4(b: &[u8], s: usize, e: usize) -> (r: bool)
    requires
        s <= e <= b@.len(),
    ensures
        r == octets(b@, s as int, e as int, 4),
{
    let mut p = s;
    let mut k: usize = 4;
    let ghost mut ok = true;
    while k > 0
        invariant
            s <= p <= e <= b@.len(),
            1 <= k <= 4,
            octets(b@, s as int, e as int, 4) == octets(b@, p as int, e as int, k as nat),
        decreases k,
    {
        // one part: digits up to the next dot
        let start = p;
        let mut value: u32 = 0;
        let mut all_digits = true;
        while p < e && b[p] != 46
            invariant
                start <= p <= e <= b@.len(),
                part_end(b@, start as int, e as int) == part_end(b@, p as int, e as int),
                all_digits == (forall|j: int| start <= j < p ==> digit(#[trigger] b@[j])),
                all_digits && p - start <= 3 ==> value == decimal(b@, start as int, p as int),
                p - start == 0 ==> value == 0,
                p - start == 1 ==> value <= 9,
                p - start == 2 ==> value <= 99,
                value <= 999,
            decreases e - p,
        {
            let x = b[p];
            if is_digit(x) && p - start < 3 {
                value = value * 10 + (x - 48) as u32;
            } else if !is_digit(x) {
                all_digits = false;
            }
            p += 1;
        }
        let len = p - start;
        let part_ok = 1 <= len && len <= 3 && all_digits && value <= 255;
        if !part_ok {
            return false;
        }
        if k == 1 {
            return p == e;
        }
        if p >= e {
            return false;
        }
        p += 1;
        k -= 1;
    }
    // k never reaches 0 inside the loop without returning
    false
}

fn scan_ipv4(b: &[u8]) -> (out: Vec<Span>)
    ensures
        out@ == ipv4s_of(b@, dotted_runs(b@, 0)),
        forall|k: int| 0 <= k < out@.len() ==> well_placed(b@, #[trigger] out@[k]),
{
    let runs = runs_with_dots(b);
    let ghost f = |r: (usize, usize)| (r.0 as int, r.1 as int);
    let ghost all = runs@.map_values(f);
    let mut out: Vec<Span> = Vec::new();
    let mut k: usize = 0;
    while k < runs.len()
        invariant
            k <= runs@.len(),
            all == runs@.map_values(f),
            f == (|r: (usize, usize)| (r.0 as int, r.1 as int)),
            forall|j: int|
                0 <= j < runs@.len() ==> {
                    &&& (#[trigger] runs@[j]).0 < runs@[j].1 <= b@.len()
                    &&& b@[runs@[j].0 as int] < 128
                    &&& b@[runs@[j].1 - 1] < 128
                },
            out@ == ipv4s_of(b@, all.take(k as int)),
            forall|j: int| 0 <= j < out@.len() ==> well_placed(b@, #[trigger] out@[j]),
        decreases runs@.len() - k,
    {
        let (s, e) = runs[k];
        let ok = is_ipv4(b, s, e);
        if ok {
            out.push(Span { kind: PiiKind::IpV4, start: s, end: e });
            assert(well_placed(b@, out@[out@.len() - 1]));
        }
        k += 1;
        proof {
            assert(all.take(k as int).drop_last() =~= all.take(k - 1));
            assert(all.take(k as int).last() == (s as int, e as int));
            assert(out@ =~= ipv4s_of(b@, all.take(k as int)));
        }
    }
    proof {
        assert(all.take(runs@.len() as int) =~= all);
    }
    out
}

// ---------------------------------------------------------------------------
// Credit-card numbers.

/// End of the run of digits starting at `e`, where a single space or hyphen
/// may separate digit groups.
pub open spec fn card_end(b: Seq<u8>, e: int) -> int
    decreases b.len() - e,
{
    if 0 <= e < b.len() && digit(b[e]) {
        card_end(b, e + 1)
    } else if 0 <= e < b.len() && (b[e] == 32 || b[e] == 45) && e + 1 < b.len() && digit(b[e + 1]) {
        card_end(b, e + 1)
    } else {
        e
    }
}

/// Number of digits in `b[s..e]`.
pub open spec fn count_digits(b: Seq<u8>, s: int, e: int) -> nat
    decreases e - s,
{
    if e <= s {
        0
    } else {
        count_digits(b, s, e - 1) + if digit(b[e - 1]) {
            1nat
        } else {
            0nat
        }
    }
}

/// One Luhn term: the digit, doubled (minus 9 above 9) when `double`.
pub open spec fn luhn_term(x: u8, double: bool) -> nat {
    let d = (x - 48) as nat;
    if double {
        if 2 * d > 9 {
            (2 * d - 9) as nat
        } else {
            2 * d
        }
    } else {
        d
    }
}

/// Luhn sum over the digits of `b[s..e]`, from the last digit backwards,
/// doubling every second one starting with the digit after the first.
pub open spec fn luhn_sum(b: Seq<u8>, s: int, e: int, double: bool) -> nat
    decreases e - s,
{
    if e <= s {
        0
    } else if digit(b[e - 1]) {
        luhn_term(b[e - 1], double) + luhn_sum(b, s, e - 1, !double)
    } else {
        luhn_sum(b, s, e - 1, double)
    }
}

/// The digits of `b[s..e]` pass the Luhn checksum (at least 13 of them).
pub open spec fn luhn_valid(b: Seq<u8>, s: int, e: int) -> bool {
    count_digits(b, s, e) >= 13 && luhn_sum(b, s, e, false) % 10 == 0
}

/// The credit-card candidates from position `i` on: digit groups of 13 to
/// 19 digits in all, not bordered by letters or digits, passing Luhn.
pub open spec fn cards_from(b: Seq<u8>, i: int) -> Seq<Span>
    decreases b.len() - i,
{
    if i < 0 || i >= b.len() {
        Seq::empty()
    } else if digit(b[i]) {
        let e = card_end(b, i);
        let nd = count_digits(b, i, e);
        let left_ok = i == 0 || !alnum(b[i - 1]);
        let right_ok = e >= b.len() || !alnum(b[e]);
        let here = if 13 <= nd <= 19 && left_ok && right_ok && luhn_valid(b, i, e) {
            seq![Span { kind: PiiKind::CreditCard, start: i as usize, end: e as usize }]
        } else {
            Seq::empty()
        };
        if i < e <= b.len() {
            here + cards_from(b, e)
        } else {
            Seq::empty()
        }
    } else {
        cards_from(b, i + 1)
    }
}

proof fn lemma_card_end(b: Seq<u8>, e: int)
    requires
        0 <= e <= b.len(),
    ensures
        e <= card_end(b, e) <= b.len(),
        e < b.len() && digit(b[e]) ==> card_end(b, e) > e,
    decreases b.len() - e,
{
    if e < b.len() && digit(b[e]) {
        lemma_card_end(b, e + 1);
    } else if e < b.len() && (b[e] == 32 || b[e] == 45) && e + 1 < b.len() && digit(b[e + 1]) {
        lemma_card_end(b, e + 1);
    }
}

proof fn lemma_count_digits_le(b: Seq<u8>, s: int, e: int)
    requires
        s <= e,
    ensures
        count_digits(b, s, e) <= e - s,
    decreases e - s,
{
    if e > s {
        lemma_count_digits_le(b, s, e - 1);
    }
}

/// Luhn checksum over the digits of `b[s..e]` (non-digits ignored).
fn luhn_ok(b: &[u8], s: usize, e: usize) -> (r: bool)
    requires
        s <= e <= b@.len(),
        count_digits(b@, s as int, e as int) <= 19,
    ensures
        r == luhn_valid(b@, s as int, e as int),
{
    let mut count: usize = 0;
    let mut sum: u32 = 0;
    let mut double = false;
    let mut j = e;
    while j > s
        invariant
            s <= j <= e <= b@.len(),
            count_digits(b@, s as int, e as int) <= 19,
            count + count_digits(b@, s as int, j as int) == count_digits(b@, s as int, e as int),
            sum + luhn_sum(b@, s as int, j as int, double) == luhn_sum(b@, s as int, e as int, false),
            sum <= 9 * count,
        decreases j,
    {
        let x = b[j - 1];
        if is_digit(x) {
            let d = (x - 48) as u32;
            let v = if double {
                if 2 * d > 9 {
                    2 * d - 9
                } else {
                    2 * d
                }
            } else {
                d
            };
            sum = sum + v;
            count += 1;
            double = !double;
        }
        j -= 1;
    }
    count >= 13 && sum % 10 == 0
}

fn scan_credit_card(b: &[u8]) -> (out: Vec<Span>)
    ensures
        out@ == cards_from(b@, 0),
        forall|k: int| 0 <= k < out@.len() ==> well_placed(b@, #[trigger] out@[k]),
{
    let n = b.len();
    let mut out: Vec<Span> = Vec::new();
    let mut i: usize = 0;
    while i < n
        invariant
            n == b@.len(),
            i <= n,
            out@ + cards_from(b@, i as int) == cards_from(b@, 0),
            forall|k: int| 0 <= k < out@.len() ==> well_placed(b@, #[trigger] out@[k]),
        decreases n - i,
    {
        if is_digit(b[i]) {
            // expand a group sequence: digits, with single ' '/'-' separators
            let s = i;
            let mut e = i;
            let mut digits: usize = 0;
            while e < n
                invariant
                    s <= e <= n,
                    s < n,
                    n == b@.len(),
                    digit(b@[s as int]),
                    card_end(b@, e as int) == card_end(b@, s as int),
                    digits == count_digits(b@, s as int, e as int),
                    digits <= e - s,
                    e > s ==> b@[e - 1] < 128,
                ensures
                    s < e <= n,
                    e == card_end(b@, s as int),
                    digits == count_digits(b@, s as int, e as int),
                    digits <= e - s,
                    b@[e - 1] < 128,
                decreases n - e,
            {
                if is_digit(b[e]) {
                    digits += 1;
                    e += 1;
                } else if (b[e] == 32 || b[e] == 45) && e + 1 < n && is_digit(b[e + 1]) {
                    e += 1;
                } else {
                    break;
                }
            }
            proof {
                lemma_card_end(b@, s as int);
            }
            let left_ok = s == 0 || !is_alnum(b[s - 1]);
            let right_ok = e >= n || !is_alnum(b[e]);
            let ghost before = out@;
            if 13 <= digits && digits <= 19 && left_ok && right_ok && luhn_ok(b, s, e) {
                out.push(Span { kind: PiiKind::CreditCard, start: s, end: e });
                assert(well_placed(b@, out@[out@.len() - 1]));
            }
            proof {
                let here = if 13 <= digits <= 19 && left_ok && right_ok && luhn_valid(b@, s as int, e as int) {
                    seq![Span { kind: PiiKind::CreditCard, start: s, end: e }]
                } else {
                    Seq::<Span>::empty()
                };
                assert(cards_from(b@, s as int) == here + cards_from(b@, e as int));
                assert(out@ =~= before + here);
                assert(out@ + cards_from(b@, e as int) =~= before + (here + cards_from(b@, e as int)));
            }
            i = e;
        } else {
            i += 1;
        }
    }
    out
}


// ---------------------------------------------------------------------------
// Ordering, overlap removal and the detections of a text.

/// Every candidate span of `b`, in scan order: emails, SSNs, IPv4 addresses,
/// credit cards.
pub open spec fn candidates(b: Seq<u8>) -> Seq<Span> {
    emails_upto(b, b.len() as int) + ssns_upto(b, b.len() as int) + ipv4s_of(b, dotted_runs(b, 0))
        + cards_from(b, 0)
}

/// `x` sorts strictly before `y`: earlier start, or same start and longer.
pub open spec fn span_before(x: Span, y: Span) -> bool {
    x.start < y.start || (x.start == y.start && x.end > y.end)
}

/// Where `x` goes in the sorted `t`: after every span that does not sort
/// strictly after it.
pub open spec fn insert_pos(t: Seq<Span>, x: Span) -> int
    decreases t.len(),
{
    if t.len() == 0 {
        0
    } else if span_before(x, t.last()) {
        insert_pos(t.drop_last(), x)
    } else {
        t.len() as int
    }
}

/// `s` stably sorted by start, longer spans first on equal starts.
pub open spec fn sort_spans(s: Seq<Span>) -> Seq<Span>
    decreases s.len(),
{
    if s.len() == 0 {
        s
    } else {
        let t = sort_spans(s.drop_last());
        t.insert(insert_pos(t, s.last()), s.last())
    }
}

/// Walks `s` in order and keeps each span that starts at or after the end of
/// the last kept one.
pub open spec fn drop_overlaps(s: Seq<Span>, last_end: int) -> Seq<Span>
    decreases s.len(),
{
    if s.len() == 0 {
        s
    } else if s[0].start >= last_end {
        seq![s[0]] + drop_overlaps(s.drop_first(), s[0].end as int)
    } else {
        drop_overlaps(s.drop_first(), last_end)
    }
}

/// The detections of the UTF-8 bytes `b`: the candidates sorted by position,
/// with overlaps removed (the earliest, then longest, match wins).
pub open spec fn detections(b: Seq<u8>) -> Seq<Span> {
    drop_overlaps(sort_spans(candidates(b)), 0)
}

proof fn lemma_insert_pos(t: Seq<Span>, x: Span)
    ensures
        0 <= insert_pos(t, x) <= t.len(),
    decreases t.len(),
{
    if t.len() > 0 {
        lemma_insert_pos(t.drop_last(), x);
    }
}

proof fn lemma_sort_len(s: Seq<Span>)
    ensures
        sort_spans(s).len() == s.len(),
    decreases s.len(),
{
    if s.len() > 0 {
        lemma_sort_len(s.drop_last());
        lemma_insert_pos(sort_spans(s.drop_last()), s.last());
    }
}

fn before(x: Span, y: Span) -> (r: bool)
    ensures
        r == span_before(x, y),
{
    x.start < y.start || (x.start == y.start && x.end > y.end)
}

/// Stable insertion sort by position.
fn sort_by_position(v: &Vec<Span>, Ghost(b): Ghost<Seq<u8>>) -> (r: Vec<Span>)
    requires
        forall|k: int| 0 <= k < v@.len() ==> well_placed(b, #[trigger] v@[k]),
    ensures
        r@ == sort_spans(v@),
        forall|k: int| 0 <= k < r@.len() ==> well_placed(b, #[trigger] r@[k]),
{
    let mut sorted: Vec<Span> = Vec::new();
    let mut k: usize = 0;
    while k < v.len()
        invariant
            k <= v@.len(),
            sorted@ == sort_spans(v@.take(k as int)),
            forall|j: int| 0 <= j < v@.len() ==> well_placed(b, #[trigger] v@[j]),
            forall|j: int| 0 <= j < sorted@.len() ==> well_placed(b, #[trigger] sorted@[j]),
        decreases v@.len() - k,
    {
        let x = v[k];
        let mut p = sorted.len();
        assert(sorted@.take(p as int) =~= sorted@);
        while p > 0 && before(x, sorted[p - 1])
            invariant
                p <= sorted@.len(),
                insert_pos(sorted@.take(p as int), x) == insert_pos(sorted@, x),
            decreases p,
        {
            proof {
                assert(sorted@.take(p as int).drop_last() =~= sorted@.take(p - 1));
            }
            p -= 1;
        }
        proof {
            if p > 0 {
                assert(sorted@.take(p as int).last() == sorted@[p - 1]);
            }
            assert(sorted@.take(sorted@.len() as int) =~= sorted@);
            assert(v@.take(k + 1).drop_last() =~= v@.take(k as int));
        }
        sorted.insert(p, x);
        k += 1;
        proof {
            assert(forall|j: int| 0 <= j < sorted@.len() ==> well_placed(b, #[trigger] sorted@[j]));
        }
    }
    proof {
        assert(v@.take(v@.len() as int) =~= v@);
    }
    sorted
}

/// Keeps each span that starts at or after the end of the last kept one.
fn remove_overlaps(s: &Vec<Span>, Ghost(b): Ghost<Seq<u8>>) -> (r: Vec<Span>)
    requires
        forall|k: int| 0 <= k < s@.len() ==> well_placed(b, #[trigger] s@[k]),
    ensures
        r@ == drop_overlaps(s@, 0),
        forall|k: int| 0 <= k < r@.len() ==> well_placed(b, #[trigger] r@[k]),
        forall|i: int, j: int| 0 <= i < j < r@.len() ==> r@[i].end <= r@[j].start,
{
    let mut out: Vec<Span> = Vec::new();
    let mut last_end: usize = 0;
    let mut k: usize = 0;
    assert(out@ + drop_overlaps(s@.skip(0), 0) =~= drop_overlaps(s@, 0)) by {
        assert(s@.skip(0) =~= s@);
    }
    while k < s.len()
        invariant
            k <= s@.len(),
            out@ + drop_overlaps(s@.skip(k as int), last_end as int) == drop_overlaps(s@, 0),
            forall|j: int| 0 <= j < s@.len() ==> well_placed(b, #[trigger] s@[j]),
            forall|j: int| 0 <= j < out@.len() ==> well_placed(b, #[trigger] out@[j]),
            forall|j: int| 0 <= j < out@.len() ==> (#[trigger] out@[j]).end <= last_end,
            forall|i: int, j: int| 0 <= i < j < out@.len() ==> out@[i].end <= out@[j].start,
        decreases s@.len() - k,
    {
        let d = s[k];
        let ghost before_out = out@;
        let ghost rest = s@.skip(k as int);
        proof {
            assert(rest[0] == d);
            assert(rest.drop_first() =~= s@.skip(k + 1));
        }
        if d.start >= last_end {
            last_end = d.end;
            out.push(d);
            proof {
                assert(out@ + drop_overlaps(s@.skip(k + 1), last_end as int) =~= before_out + (seq![d]
                    + drop_overlaps(s@.skip(k + 1), d.end as int)));
            }
        }
        k += 1;
    }
    proof {
        assert(s@.skip(s@.len() as int) =~= Seq::<Span>::empty());
        assert(out@ + Seq::<Span>::empty() =~= out@);
    }
    out
}

/// The candidate spans of `b`, in scan order.
fn all_candidates(b: &[u8]) -> (r: Vec<Span>)
    ensures
        r@ == candidates(b@),
        forall|k: int| 0 <= k < r@.len() ==> well_placed(b@, #[trigger] r@[k]),
{
    let mut found = scan_email(b);
    let mut ssns = scan_ssn(b);
    let mut ips = scan_ipv4(b);
    let mut cards = scan_credit_card(b);
    found.append(&mut ssns);
    found.append(&mut ips);
    found.append(&mut cards);
    found
}

/// A valid UTF-8 sequence is split at character boundaries on both sides of
/// an ASCII byte.
pub(crate) proof fn lemma_ascii_boundary(bytes: Seq<u8>, i: int)
    requires
        valid_utf8(bytes),
        0 <= i < bytes.len(),
        bytes[i] < 128,
    ensures
        is_char_boundary(bytes, i),
        is_char_boundary(bytes, i + 1),
    decreases bytes.len(),
{
    is_char_boundary_iff_not_is_continuation_byte(bytes, i);
    let l = length_of_first_scalar(bytes);
    let pop = pop_first_scalar(bytes);
    assert(valid_first_scalar(bytes) && valid_utf8(pop));
    assert(1 <= l <= 4 && l <= bytes.len());
    assert(pop.len() == bytes.len() - l);
    if i == 0 {
        assert(l == 1);
        assert(is_char_boundary(pop, 0));
    } else {
        assert(is_char_boundary(pop, i - l));
        assert(i - l >= 0);
        assert(pop[i - l] == bytes[i]);
        lemma_ascii_boundary(pop, i - l);
    }
}

/// `text[s..e]` as an owned string, for a span with ASCII bytes at its ends.
fn span_text(text: &str, s: usize, e: usize) -> (r: String)
    requires
        well_placed(text.spec_bytes(), Span { kind: PiiKind::Email, start: s, end: e }),
    ensures
        encode_utf8(r@) == text.spec_bytes().subrange(s as int, e as int),
{
    broadcast use encode_utf8_valid_utf8;

    let ghost b = text.spec_bytes();
    proof {
        lemma_ascii_boundary(b, e - 1);
    }
    let (head, _) = text.split_at(e);
    let ghost hb = head.spec_bytes();
    proof {
        assert(hb[s as int] == b[s as int]);
        lemma_ascii_boundary(hb, s as int);
    }
    let (_, mid) = head.split_at(s);
    proof {
        assert(mid.spec_bytes() =~= b.subrange(s as int, e as int));
    }
    mid.to_owned()
}

/// Detect all personal data in `text`, sorted by position with overlaps
/// removed (the earliest, then longest, match wins).
pub fn detect(text: &str) -> (out: Vec<Detection>)
    ensures
        out@.len() == detections(text.spec_bytes()).len(),
        forall|k: int|
            #![trigger out@[k]]
            0 <= k < out@.len() ==> {
                let sp = detections(text.spec_bytes())[k];
                &&& out@[k].kind == sp.kind
                &&& out@[k].start == sp.start
                &&& out@[k].end == sp.end
                &&& encode_utf8(out@[k].text@) == text.spec_bytes().subrange(
                    sp.start as int,
                    sp.end as int,
                )
                &&& well_placed(text.spec_bytes(), sp)
            },
        forall|i: int, j: int| 0 <= i < j < out@.len() ==> out@[i].end <= out@[j].start,
{
    let b = text.as_bytes();
    let found = all_candidates(b);
    let sorted = sort_by_position(&found, Ghost(b@));
    let spans = remove_overlaps(&sorted, Ghost(b@));
    let mut out: Vec<Detection> = Vec::new();
    let mut k: usize = 0;
    while k < spans.len()
        invariant
            b@ == text.spec_bytes(),
            spans@ == detections(b@),
            k <= spans@.len(),
            out@.len() == k,
            forall|j: int| 0 <= j < spans@.len() ==> well_placed(b@, #[trigger] spans@[j]),
            forall|i: int, j: int| 0 <= i < j < spans@.len() ==> spans@[i].end <= spans@[j].start,
            forall|j: int|
                #![trigger out@[j]]
                0 <= j < k ==> {
                    &&& out@[j].kind == spans@[j].kind
                    &&& out@[j].start == spans@[j].start
                    &&& out@[j].end == spans@[j].end
                    &&& encode_utf8(out@[j].text@) == b@.subrange(
                        spans@[j].start as int,
                        spans@[j].end as int,
                    )
                },
        decreases spans@.len() - k,
    {
        let sp = spans[k];
        proof {
            assert(well_placed(b@, spans@[k as int]));
        }
        let t = span_text(text, sp.start, sp.end);
        out.push(Detection { kind: sp.kind, start: sp.start, end: sp.end, text: t });
        k += 1;
    }
    out
}

/// Whether `text` contains any personal data.
pub fn contains_pii(text: &str) -> (r: bool)
    ensures
        r == (detections(text.spec_bytes()).len() > 0),
{
    let dets = detect(text);
    dets.len() > 0
}


// ---------------------------------------------------------------------------
// Redaction.

/// The text of `b` from `cursor` on, with each span of `ds` replaced by the
/// matching entry of `reps`.
pub open spec fn spliced(b: Seq<u8>, ds: Seq<Span>, reps: Seq<Seq<char>>, cursor: int) -> Seq<char>
    decreases ds.len(),
{
    if ds.len() == 0 {
        decode_utf8(b.subrange(cursor, b.len() as int))
    } else {
        decode_utf8(b.subrange(cursor, ds[0].start as int)) + reps[0] + spliced(
            b,
            ds.drop_first(),
            reps.drop_first(),
            ds[0].end as int,
        )
    }
}

/// The default tags of the kinds of `ds`.
pub open spec fn tags_of(ds: Seq<Span>) -> Seq<Seq<char>> {
    ds.map_values(|d: Span| d.kind.tag_spec())
}

/// The views of `reps`.
pub open spec fn views_of(reps: Seq<String>) -> Seq<Seq<char>> {
    reps.map_values(|r: String| r@)
}

/// One step of `spliced`: the text up to the `k`-th span, its replacement,
/// and the rest.
proof fn lemma_spliced_step(b: Seq<u8>, ds: Seq<Span>, rs: Seq<Seq<char>>, k: int, cursor: int)
    requires
        0 <= k < ds.len(),
        rs.len() == ds.len(),
    ensures
        spliced(b, ds.skip(k), rs.skip(k), cursor) == decode_utf8(
            b.subrange(cursor, ds[k].start as int),
        ) + rs[k] + spliced(b, ds.skip(k + 1), rs.skip(k + 1), ds[k].end as int),
{
    assert(ds.skip(k).drop_first() =~= ds.skip(k + 1));
    assert(rs.skip(k).drop_first() =~= rs.skip(k + 1));
}

/// `text` with each detection replaced by the matching replacement.
fn splice(text: &str, dets: &Vec<Detection>, reps: &Vec<String>, Ghost(ds): Ghost<Seq<Span>>) -> (out:
    String)
    requires
        reps@.len() == dets@.len() == ds.len(),
        forall|k: int|
            0 <= k < ds.len() ==> (#[trigger] dets@[k]).start == ds[k].start && dets@[k].end
                == ds[k].end,
        forall|k: int| 0 <= k < ds.len() ==> well_placed(text.spec_bytes(), #[trigger] ds[k]),
        forall|i: int, j: int| 0 <= i < j < ds.len() ==> ds[i].end <= ds[j].start,
    ensures
        out@ == spliced(text.spec_bytes(), ds, views_of(reps@), 0),
{
    broadcast use encode_utf8_valid_utf8, encode_utf8_decode_utf8;

    let ghost b = text.spec_bytes();
    let ghost rs = views_of(reps@);
    let mut out = String::new();
    let mut rest: &str = text;
    let mut cursor: usize = 0;
    let mut k: usize = 0;
    proof {
        assert(rest.spec_bytes() =~= b.subrange(0, b.len() as int));
        assert(ds.skip(0) =~= ds);
        assert(rs.skip(0) =~= rs);
        assert(out@ + spliced(b, ds.skip(0), rs.skip(0), 0) =~= spliced(b, ds, rs, 0));
    }
    while k < dets.len()
        invariant
            b == text.spec_bytes(),
            rs == views_of(reps@),
            reps@.len() == dets@.len() == ds.len(),
            forall|j: int|
                0 <= j < ds.len() ==> (#[trigger] dets@[j]).start == ds[j].start && dets@[j].end
                    == ds[j].end,
            forall|j: int| 0 <= j < ds.len() ==> well_placed(b, #[trigger] ds[j]),
            forall|i: int, j: int| 0 <= i < j < ds.len() ==> ds[i].end <= ds[j].start,
            k <= ds.len(),
            cursor <= b.len(),
            k < ds.len() ==> cursor <= ds[k as int].start,
            k > 0 ==> cursor == ds[k - 1].end,
            rest.spec_bytes() == b.subrange(cursor as int, b.len() as int),
            out@ + spliced(b, ds.skip(k as int), rs.skip(k as int), cursor as int) == spliced(
                b,
                ds,
                rs,
                0,
            ),
        decreases ds.len() - k,
    {
        let d = &dets[k];
        let ghost sp = ds[k as int];
        proof {
            assert(well_placed(b, sp));
            let rb = rest.spec_bytes();
            encode_utf8_valid_utf8(rest@);
            assert(rb[sp.start - cursor] == b[sp.start as int]);
            lemma_ascii_boundary(rb, sp.start - cursor);
        }
        let (piece, after) = rest.split_at(d.start - cursor);
        proof {
            let ab = after.spec_bytes();
            encode_utf8_valid_utf8(after@);
            assert(ab =~= b.subrange(sp.start as int, b.len() as int));
            assert(ab[sp.end - 1 - sp.start] == b[sp.end - 1]);
            lemma_ascii_boundary(ab, sp.end - 1 - sp.start);
        }
        let (_, tail) = after.split_at(d.end - d.start);
        let ghost old_out = out@;
        out.append(piece);
        out.append(reps[k].as_str());
        proof {
            assert(piece.spec_bytes() =~= b.subrange(cursor as int, sp.start as int));
            encode_utf8_decode_utf8(piece@);
            assert(tail.spec_bytes() =~= b.subrange(sp.end as int, b.len() as int));
            lemma_spliced_step(b, ds, rs, k as int, cursor as int);
            assert(out@ =~= old_out + decode_utf8(b.subrange(cursor as int, sp.start as int))
                + rs[k as int]);
            if k + 1 < ds.len() {
                assert(ds[k as int].end <= ds[k + 1].start);
            }
        }
        rest = tail;
        cursor = d.end;
        k += 1;
    }
    let ghost old_out = out@;
    out.append(rest);
    proof {
        encode_utf8_decode_utf8(rest@);
        assert(ds.skip(k as int) =~= Seq::<Span>::empty());
        assert(out@ =~= old_out + spliced(b, ds.skip(k as int), rs.skip(k as int), cursor as int));
    }
    out
}

/// What `detect` guarantees, restated over the detections themselves.
proof fn lemma_detect_facts(text: &str, dets: &Vec<Detection>)
    requires
        dets@.len() == detections(text.spec_bytes()).len(),
        forall|k: int|
            #![trigger dets@[k]]
            0 <= k < dets@.len() ==> {
                let sp = detections(text.spec_bytes())[k];
                &&& dets@[k].kind == sp.kind
                &&& dets@[k].start == sp.start
                &&& dets@[k].end == sp.end
                &&& well_placed(text.spec_bytes(), sp)
            },
        forall|i: int, j: int| 0 <= i < j < dets@.len() ==> dets@[i].end <= dets@[j].start,
    ensures
        forall|k: int|
            0 <= k < dets@.len() ==> well_placed(
                text.spec_bytes(),
                #[trigger] detections(text.spec_bytes())[k],
            ),
        forall|i: int, j: int|
            0 <= i < j < dets@.len() ==> detections(text.spec_bytes())[i].end <= detections(
                text.spec_bytes(),
            )[j].start,
{
    let ds = detections(text.spec_bytes());
    assert forall|k: int| 0 <= k < dets@.len() implies well_placed(text.spec_bytes(), #[trigger] ds[k]) by {
        assert(dets@[k].start == ds[k].start);
    }
    assert forall|i: int, j: int| 0 <= i < j < dets@.len() implies ds[i].end <= ds[j].start by {
        assert(dets@[i].end == ds[i].end);
        assert(dets@[j].start == ds[j].start);
    }
}

/// Redact `text`, replacing each detection with `replacement(kind)`.
pub fn redact_with<F: Fn(PiiKind) -> String>(text: &str, replacement: F) -> (out: String)
    requires
        forall|k: PiiKind| replacement.requires((k,)),
    ensures
        exists|reps: Seq<String>|
            {
                &&& reps.len() == detections(text.spec_bytes()).len()
                &&& forall|i: int|
                    0 <= i < reps.len() ==> replacement.ensures(
                        (detections(text.spec_bytes())[i].kind,),
                        #[trigger] reps[i],
                    )
                &&& out@ == spliced(
                    text.spec_bytes(),
                    detections(text.spec_bytes()),
                    views_of(reps),
                    0,
                )
            },
{
    let ghost ds = detections(text.spec_bytes());
    let dets = detect(text);
    let mut reps: Vec<String> = Vec::new();
    let mut k: usize = 0;
    while k < dets.len()
        invariant
            ds == detections(text.spec_bytes()),
            dets@.len() == ds.len(),
            forall|j: int| 0 <= j < ds.len() ==> (#[trigger] dets@[j]).kind == ds[j].kind,
            forall|p: PiiKind| replacement.requires((p,)),
            k <= dets@.len(),
            reps@.len() == k,
            forall|j: int| 0 <= j < k ==> replacement.ensures((ds[j].kind,), #[trigger] reps@[j]),
        decreases dets@.len() - k,
    {
        let r = replacement(dets[k].kind);
        reps.push(r);
        k += 1;
    }
    proof {
        lemma_detect_facts(text, &dets);
    }
    let out = splice(text, &dets, &reps, Ghost(ds));
    proof {
        assert(forall|i: int|
            0 <= i < reps@.len() ==> replacement.ensures((ds[i].kind,), #[trigger] reps@[i]));
    }
    out
}

/// Redact `text`, replacing each detection with its default `[KIND]` tag.
pub fn redact(text: &str) -> (out: String)
    ensures
        out@ == spliced(
            text.spec_bytes(),
            detections(text.spec_bytes()),
            tags_of(detections(text.spec_bytes())),
            0,
        ),
{
    let ghost ds = detections(text.spec_bytes());
    let dets = detect(text);
    let mut reps: Vec<String> = Vec::new();
    let mut k: usize = 0;
    while k < dets.len()
        invariant
            ds == detections(text.spec_bytes()),
            dets@.len() == ds.len(),
            forall|j: int| 0 <= j < ds.len() ==> (#[trigger] dets@[j]).kind == ds[j].kind,
            k <= dets@.len(),
            reps@.len() == k,
            forall|j: int| 0 <= j < k ==> (#[trigger] reps@[j])@ == ds[j].kind.tag_spec(),
        decreases dets@.len() - k,
    {
        let r = dets[k].kind.tag().to_owned();
        reps.push(r);
        k += 1;
    }
    proof {
        lemma_detect_facts(text, &dets);
    }
    let out = splice(text, &dets, &reps, Ghost(ds));
    proof {
        assert(views_of(reps@) =~= tags_of(ds));
    }
    out
}

/// A text in which nothing is detected is redacted to itself, whatever the
/// replacements.
pub proof fn law_redact_clean_text_is_identity(text: &str, reps: Seq<Seq<char>>)
    requires
        detections(text.spec_bytes()).len() == 0,
    ensures
        spliced(text.spec_bytes(), detections(text.spec_bytes()), reps, 0) == text@,
{
    broadcast use encode_utf8_decode_utf8;

    let b = text.spec_bytes();
    assert(b.subrange(0, b.len() as int) =~= b);
}


/// A Luhn term is the digit sum of the digit, doubled when it is in a
/// doubled position, so it never exceeds 9: doubling 5 to 9 gives 10 to 18,
/// whose digits sum to 1 to 9.
pub proof fn law_luhn_term_is_digit_sum(x: u8, double: bool)
    requires
        digit(x),
    ensures
        ({
            let v: int = if double { 2 * (x - 48) } else { x - 48 };
            luhn_term(x, double) == v / 10 + v % 10
        }),
        luhn_term(x, double) <= 9,
{
}

} // verus!
