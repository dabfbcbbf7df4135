//! Operator-curated prompt templates.
//!
//! Each template declares a unique `name`, a `body` with `{{var}}` slots,
//! the `variables` it declares (every slot must be declared and every
//! declared variable used), and the modes and bundles in which it is
//! offered. A slot runs from a `{{` to the first `}}` after it; its name is
//! the text between them with surrounding whitespace trimmed.
//!
//! Bodies are scanned byte by byte: rendering copies every byte outside a
//! slot as the character with that code, so a body is reproduced exactly
//! when it is ASCII.
use crate::execution_mode::ExecutionMode;
use crate::pii_redact::lemma_ascii_boundary;
use crate::profile_bundles::BundleName;
use crate::text::{chars_of, str_eq};
use vstd::prelude::*;
use vstd::string::*;
use vstd::utf8::*;

verus! {

/// Schema version.
pub const SCHEMA_VERSION: &'static str = "1.0.0";

// ---------------------------------------------------------------------------
// Whitespace and trimming.

/// Whether `c` has Unicode's White_Space property, which is what
/// `char::is_whitespace` reports: tab through carriage return, space, next
/// line, no-break space, ogham space mark, the spaces U+2000 to U+200A, the
/// line and paragraph separators, narrow no-break space, medium mathematical
/// space and ideographic space.
pub open spec fn char_whitespace(c: char) -> bool {
    ||| '\u{9}' <= c <= '\u{d}'
    ||| c == ' '
    ||| c == '\u{85}'
    ||| c == '\u{a0}'
    ||| c == '\u{1680}'
    ||| '\u{2000}' <= c <= '\u{200a}'
    ||| c == '\u{2028}'
    ||| c == '\u{2029}'
    ||| c == '\u{202f}'
    ||| c == '\u{205f}'
    ||| c == '\u{3000}'
}

/// Whether `c` is whitespace (see [`char_whitespace`]).
fn is_whitespace(c: char) -> (r: bool)
    ensures
        r == char_whitespace(c),
{
    ('\u{9}' <= c && c <= '\u{d}') || c == ' ' || c == '\u{85}' || c == '\u{a0}' || c == '\u{1680}'
        || ('\u{2000}' <= c && c <= '\u{200a}') || c == '\u{2028}' || c == '\u{2029}' || c == '\u{202f}'
        || c == '\u{205f}' || c == '\u{3000}'
}

/// `s` without its leading whitespace.
pub open spec fn trim_front(s: Seq<char>) -> Seq<char>
    decreases s.len(),
{
    if s.len() > 0 && char_whitespace(s[0]) {
        trim_front(s.drop_first())
    } else {
        s
    }
}

/// `s` without its trailing whitespace.
pub open spec fn trim_back(s: Seq<char>) -> Seq<char>
    decreases s.len(),
{
    if s.len() > 0 && char_whitespace(s.last()) {
        trim_back(s.drop_last())
    } else {
        s
    }
}

/// `s` without leading and trailing whitespace, as `str::trim` returns it.
pub open spec fn trim_spec(s: Seq<char>) -> Seq<char> {
    trim_back(trim_front(s))
}

/// `trim_front(s)` is the suffix of `s` from `i` when `s[..i]` is all
/// whitespace.
proof fn lemma_trim_front(s: Seq<char>, i: int)
    requires
        0 <= i <= s.len(),
        forall|k: int| 0 <= k < i ==> char_whitespace(#[trigger] s[k]),
    ensures
        trim_front(s) == trim_front(s.subrange(i, s.len() as int)),
    decreases i,
{
    if i > 0 {
        lemma_trim_front(s.drop_first(), i - 1);
        assert(s.drop_first().subrange(i - 1, s.drop_first().len() as int) =~= s.subrange(
            i,
            s.len() as int,
        ));
    } else {
        assert(s.subrange(0, s.len() as int) =~= s);
    }
}

/// `trim_back(s)` is the prefix of `s` up to `i` when `s[i..]` is all
/// whitespace.
proof fn lemma_trim_back(s: Seq<char>, i: int)
    requires
        0 <= i <= s.len(),
        forall|k: int| i <= k < s.len() ==> char_whitespace(#[trigger] s[k]),
    ensures
        trim_back(s) == trim_back(s.subrange(0, i)),
    decreases s.len() - i,
{
    if i < s.len() {
        lemma_trim_back(s.drop_last(), i);
        assert(s.drop_last().subrange(0, i) =~= s.subrange(0, i));
    } else {
        assert(s.subrange(0, i) =~= s);
    }
}

/// `s` without leading and trailing whitespace.
fn trim(s: &str) -> (r: &str)
    ensures
        r@ == trim_spec(s@),
{
    let cs = chars_of(s);
    let n = cs.len();
    let mut lo: usize = 0;
    while lo < n && is_whitespace(cs[lo])
        invariant
            cs@ == s@,
            n == cs@.len(),
            lo <= n,
            forall|k: int| 0 <= k < lo ==> char_whitespace(#[trigger] cs@[k]),
        decreases n - lo,
    {
        lo += 1;
    }
    let ghost front = s@.subrange(lo as int, n as int);
    proof {
        lemma_trim_front(s@, lo as int);
        if lo < n {
            assert(front[0] == s@[lo as int]);
        } else {
            assert(front.len() == 0);
        }
        assert(trim_front(front) == front);
    }
    let mut hi: usize = n;
    while hi > lo && is_whitespace(cs[hi - 1])
        invariant
            cs@ == s@,
            n == cs@.len(),
            lo <= hi <= n,
            forall|k: int| hi <= k < n ==> char_whitespace(#[trigger] cs@[k]),
        decreases hi,
    {
        hi -= 1;
    }
    proof {
        lemma_trim_back(front, hi - lo);
        assert(front.subrange(0, hi - lo) =~= s@.subrange(lo as int, hi as int));
        let t = s@.subrange(lo as int, hi as int);
        if t.len() > 0 {
            assert(t.last() == s@[hi - 1]);
        }
        assert(trim_back(t) == t);
    }
    s.substring_char(lo, hi)
}

// ---------------------------------------------------------------------------
// Slots.

/// The first `j >= from` at which `b` holds `}}`.
pub open spec fn close_at(b: Seq<u8>, from: int) -> Option<int>
    decreases b.len() - from,
{
    if from < 0 || from + 1 >= b.len() {
        None
    } else if b[from] == 125u8 && b[from + 1] == 125u8 {
        Some(from)
    } else {
        close_at(b, from + 1)
    }
}

/// A closing `}}` found from `from` lies at or after it, inside `b`.
pub proof fn lemma_close_at(b: Seq<u8>, from: int)
    requires
        0 <= from,
    ensures
        close_at(b, from) is Some ==> {
            let j = close_at(b, from).unwrap();
            from <= j && j + 1 < b.len() && b[j] == 125u8 && b[j + 1] == 125u8
        },
    decreases b.len() - from,
{
    if from + 1 < b.len() && !(b[from] == 125u8 && b[from + 1] == 125u8) {
        lemma_close_at(b, from + 1);
    }
}

/// Where a slot opening at `i` closes: `{{` at `i` and a `}}` after it.
pub open spec fn slot_close(b: Seq<u8>, i: int) -> Option<int> {
    if 0 <= i && i + 3 < b.len() && b[i] == 123u8 && b[i + 1] == 123u8 {
        close_at(b, i + 2)
    } else {
        None
    }
}

/// The name written in the slot between `a` and `c`, trimmed.
pub open spec fn slot_name(b: Seq<u8>, a: int, c: int) -> Seq<char> {
    trim_spec(decode_utf8(b.subrange(a, c)))
}

/// The non-empty slot names of `b` from position `i` on, in order.
pub open spec fn slots_from(b: Seq<u8>, i: int) -> Seq<Seq<char>>
    decreases b.len() - i,
{
    if i < 0 || i + 3 >= b.len() {
        Seq::empty()
    } else if slot_close(b, i) is Some {
        let j = slot_close(b, i).unwrap();
        proof {
            lemma_close_at(b, i + 2);
        }
        let n = slot_name(b, i + 2, j);
        (if n.len() > 0 {
            seq![n]
        } else {
            Seq::empty()
        }) + slots_from(b, j + 2)
    } else {
        slots_from(b, i + 1)
    }
}

/// The non-empty slot names of the body `b`, in order.
pub open spec fn slots_of(b: Seq<u8>) -> Seq<Seq<char>> {
    slots_from(b, 0)
}

/// The first `j >= from` at which `bytes` holds `}}`.
fn close_from(bytes: &[u8], from: usize) -> (r: Option<usize>)
    ensures
        r == match close_at(bytes@, from as int) {
            Some(j) => Some(j as usize),
            None => None::<usize>,
        },
        r is Some ==> r.unwrap() + 1 < bytes@.len(),
{
    let n = bytes.len();
    if from >= n {
        return None;
    }
    let mut j = from;
    while j < n && !(j + 1 < n && bytes[j] == 125u8 && bytes[j + 1] == 125u8)
        invariant
            from <= j <= n,
            n == bytes@.len(),
            close_at(bytes@, from as int) == close_at(bytes@, j as int),
        decreases n - j,
    {
        j += 1;
    }
    if j < n {
        Some(j)
    } else {
        None
    }
}

/// The slot name between `a` and `c` of `body`, which has `{` at `a - 1`
/// and `}` at `c`.
fn slot_text(body: &str, a: usize, c: usize) -> (r: &str)
    requires
        1 <= a <= c < body.spec_bytes().len(),
        body.spec_bytes()[a - 1] == 123u8,
        body.spec_bytes()[c as int] == 125u8,
    ensures
        r@ == slot_name(body.spec_bytes(), a as int, c as int),
{
    broadcast use encode_utf8_valid_utf8, encode_utf8_decode_utf8;

    let ghost b = body.spec_bytes();
    proof {
        encode_utf8_valid_utf8(body@);
        lemma_ascii_boundary(b, c as int);
    }
    let (head, _) = body.split_at(c);
    let ghost hb = head.spec_bytes();
    proof {
        encode_utf8_valid_utf8(head@);
        assert(hb[a - 1] == b[a - 1]);
        lemma_ascii_boundary(hb, a - 1);
    }
    let (_, mid) = head.split_at(a);
    proof {
        assert(mid.spec_bytes() =~= b.subrange(a as int, c as int));
        encode_utf8_decode_utf8(mid@);
    }
    trim(mid)
}

/// The non-empty slot names of `body`, in order.
fn body_slots(body: &str) -> (r: Vec<String>)
    ensures
        r@.map_values(|s: String| s@) == slots_of(body.spec_bytes()),
{
    let bytes = body.as_bytes();
    let ghost b = bytes@;
    let mut out: Vec<String> = Vec::new();
    let mut i: usize = 0;
    while i < bytes.len() && bytes.len() - i > 3
        invariant
            i <= b.len(),
            b == bytes@,
            b == body.spec_bytes(),
            out@.map_values(|s: String| s@) + slots_from(b, i as int) == slots_from(b, 0),
        decreases b.len() - i,
    {
        if bytes[i] == 123u8 && bytes[i + 1] == 123u8 {
            match close_from(bytes, i + 2) {
                Some(j) => {
                    proof {
                        lemma_close_at(b, i + 2);
                    }
                    let name = slot_text(body, i + 2, j);
                    let ghost before = out@.map_values(|s: String| s@);
                    if !name.is_empty() {
                        out.push(name.to_owned());
                        proof {
                            assert(out@.map_values(|s: String| s@) =~= before.push(name@));
                            assert(before.push(name@) + slots_from(b, j + 2) =~= before + (seq![
                                name@,
                            ] + slots_from(b, j + 2)));
                        }
                    } else {
                        proof {
                            assert(name@.len() == 0);
                            assert(Seq::<Seq<char>>::empty() + slots_from(b, j + 2) =~= slots_from(
                                b,
                                j + 2,
                            ));
                        }
                    }
                    i = j + 2;
                    continue ;
                },
                None => {},
            }
        }
        i += 1;
    }
    proof {
        assert(out@.map_values(|s: String| s@) + Seq::<Seq<char>>::empty() =~= out@.map_values(
            |s: String| s@,
        ));
    }
    out
}

// ---------------------------------------------------------------------------
// Templates.

/// One template.
#[derive(Debug, Clone, PartialEq, Eq)]
pub struct PromptTemplate {
    /// Unique name.
    pub name: String,
    /// Body with `{{var}}` slots.
    pub body: String,
    /// Declared variables (must match the slots used in body).
    pub variables: Vec<String>,
    /// Modes in which this template is offered.
    pub allowed_modes: Vec<ExecutionMode>,
    /// Bundles in which this template is offered.
    pub allowed_bundles: Vec<BundleName>,
}

/// Registry envelope.
#[derive(Debug, Clone, PartialEq, Eq)]
pub struct TemplateRegistry {
    /// Schema version.
    pub schema_version: String,
    /// Templates (order = display order).
    pub templates: Vec<PromptTemplate>,
}

/// Errors.
#[derive(Debug, Clone, PartialEq, Eq)]
pub enum TemplateError {
    /// Schema drift.
    SchemaMismatch,
    /// Template name empty.
    EmptyName,
    /// Duplicate name.
    DuplicateName(String),
    /// allowed_modes empty.
    NoModes(String),
    /// allowed_bundles empty.
    NoBundles(String),
    /// Declared variable not referenced in body (template, variable).
    UnusedVariable(String, String),
    /// Body slot references an undeclared variable (template, variable).
    UndeclaredVariable(String, String),
    /// Render missing a value.
    RenderMissing(String),
    /// Unknown template.
    Unknown(String),
}

/// The abstract value of a template: its body as UTF-8 bytes.
pub ghost struct TemplateView {
    /// Name.
    pub name: Seq<char>,
    /// Body bytes.
    pub body: Seq<u8>,
    /// Declared variables.
    pub variables: Seq<Seq<char>>,
    /// Allowed modes.
    pub modes: Seq<ExecutionMode>,
    /// Allowed bundles.
    pub bundles: Seq<BundleName>,
}

/// The abstract value of an error.
pub ghost enum TemplateFault {
    /// Schema drift.
    SchemaMismatch,
    /// Template name empty.
    EmptyName,
    /// Duplicate name.
    DuplicateName(Seq<char>),
    /// allowed_modes empty.
    NoModes(Seq<char>),
    /// allowed_bundles empty.
    NoBundles(Seq<char>),
    /// Declared variable not referenced in body.
    UnusedVariable(Seq<char>, Seq<char>),
    /// Body slot references an undeclared variable.
    UndeclaredVariable(Seq<char>, Seq<char>),
    /// Render missing a value.
    RenderMissing(Seq<char>),
    /// Unknown template.
    Unknown(Seq<char>),
}

/// Views of a list of strings.
pub open spec fn strs(v: Seq<String>) -> Seq<Seq<char>> {
    v.map_values(|s: String| s@)
}

impl View for PromptTemplate {
    type V = TemplateView;

    open spec fn view(&self) -> TemplateView {
        TemplateView {
            name: self.name@,
            body: encode_utf8(self.body@),
            variables: strs(self.variables@),
            modes: self.allowed_modes@,
            bundles: self.allowed_bundles@,
        }
    }
}

impl View for TemplateError {
    type V = TemplateFault;

    open spec fn view(&self) -> TemplateFault {
        match self {
            TemplateError::SchemaMismatch => TemplateFault::SchemaMismatch,
            TemplateError::EmptyName => TemplateFault::EmptyName,
            TemplateError::DuplicateName(n) => TemplateFault::DuplicateName(n@),
            TemplateError::NoModes(n) => TemplateFault::NoModes(n@),
            TemplateError::NoBundles(n) => TemplateFault::NoBundles(n@),
            TemplateError::UnusedVariable(n, v) => TemplateFault::UnusedVariable(n@, v@),
            TemplateError::UndeclaredVariable(n, v) => TemplateFault::UndeclaredVariable(n@, v@),
            TemplateError::RenderMissing(v) => TemplateFault::RenderMissing(v@),
            TemplateError::Unknown(n) => TemplateFault::Unknown(n@),
        }
    }
}

/// The first element of `xs` that `ys` lacks.
pub open spec fn first_missing(xs: Seq<Seq<char>>, ys: Seq<Seq<char>>) -> Option<Seq<char>>
    decreases xs.len(),
{
    if xs.len() == 0 {
        None
    } else if !ys.contains(xs[0]) {
        Some(xs[0])
    } else {
        first_missing(xs.drop_first(), ys)
    }
}

/// What is wrong with template `t` on its own, checked in this order: an
/// empty name, no modes, no bundles, a slot naming an undeclared variable,
/// a declared variable no slot uses.
pub open spec fn template_check(t: TemplateView) -> Option<TemplateFault> {
    if t.name.len() == 0 {
        Some(TemplateFault::EmptyName)
    } else if t.modes.len() == 0 {
        Some(TemplateFault::NoModes(t.name))
    } else if t.bundles.len() == 0 {
        Some(TemplateFault::NoBundles(t.name))
    } else {
        match first_missing(slots_of(t.body), t.variables) {
            Some(s) => Some(TemplateFault::UndeclaredVariable(t.name, s)),
            None => match first_missing(t.variables, slots_of(t.body)) {
                Some(v) => Some(TemplateFault::UnusedVariable(t.name, v)),
                None => None,
            },
        }
    }
}

/// Whether the variable map `m` has a key spelled `k`.
pub open spec fn has_var(m: Map<String, String>, k: Seq<char>) -> bool {
    exists|s: String| #[trigger] m.dom().contains(s) && s@ == k
}

/// The value stored under the key spelled `k`.
pub open spec fn var_value(m: Map<String, String>, k: Seq<char>) -> Seq<char> {
    m[choose|s: String| #[trigger] m.dom().contains(s) && s@ == k]@
}

/// `BTreeMap::get` with a `str` key: the value under the key spelled `key`.
#[verifier::external_body]
fn lookup<'a>(vars: &'a std::collections::BTreeMap<String, String>, key: &str) -> (r: Option<
    &'a String,
>)
    ensures
        match r {
            Some(v) => has_var(vars@, key@) && v@ == var_value(vars@, key@),
            None => !has_var(vars@, key@),
        },
{
    vars.get(key)
}

/// `BTreeMap::contains_key` with a `str` key.
#[verifier::external_body]
fn has_key(vars: &std::collections::BTreeMap<String, String>, key: &str) -> (r: bool)
    ensures
        r == has_var(vars@, key@),
{
    vars.contains_key(key)
}

/// `String::push`.
#[verifier::external_body]
fn push_char(s: &mut String, c: char)
    ensures
        final(s)@ == old(s)@.push(c),
{
    s.push(c)
}

/// The first declared variable that `m` has no value for.
pub open spec fn first_unset(vs: Seq<Seq<char>>, m: Map<String, String>) -> Option<Seq<char>>
    decreases vs.len(),
{
    if vs.len() == 0 {
        None
    } else if !has_var(m, vs[0]) {
        Some(vs[0])
    } else {
        first_unset(vs.drop_first(), m)
    }
}

/// Why rendering `t` with `m` fails, if it does.
pub open spec fn render_check(t: TemplateView, m: Map<String, String>) -> Option<TemplateFault> {
    match template_check(t) {
        Some(f) => Some(f),
        None => match first_unset(t.variables, m) {
            Some(v) => Some(TemplateFault::RenderMissing(v)),
            None => None,
        },
    }
}

/// The rendering of body `b` from position `i`: each slot replaced by the
/// value of its name (nothing when `m` has none), every other byte copied
/// as the character with that code.
pub open spec fn render_from(b: Seq<u8>, i: int, m: Map<String, String>) -> Seq<char>
    decreases b.len() - i,
{
    if i < 0 || i >= b.len() {
        Seq::empty()
    } else if slot_close(b, i) is Some {
        let j = slot_close(b, i).unwrap();
        proof {
            lemma_close_at(b, i + 2);
        }
        let n = slot_name(b, i + 2, j);
        (if has_var(m, n) {
            var_value(m, n)
        } else {
            Seq::empty()
        }) + render_from(b, j + 2, m)
    } else {
        seq![b[i] as char] + render_from(b, i + 1, m)
    }
}

/// Whether `xs` holds `x`.
fn contains_string(xs: &Vec<String>, x: &str) -> (r: bool)
    ensures
        r == strs(xs@).contains(x@),
{
    let mut i: usize = 0;
    while i < xs.len()
        invariant
            i <= xs@.len(),
            forall|j: int| 0 <= j < i ==> xs@[j]@ != x@,
        decreases xs@.len() - i,
    {
        if str_eq(xs[i].as_str(), x) {
            proof {
                assert(strs(xs@)[i as int] == x@);
            }
            return true;
        }
        i += 1;
    }
    proof {
        if strs(xs@).contains(x@) {
            let j = choose|j: int| 0 <= j < strs(xs@).len() && strs(xs@)[j] == x@;
            assert(xs@[j]@ == x@);
        }
    }
    false
}

/// The first of `xs` that `ys` lacks.
fn find_missing(xs: &Vec<String>, ys: &Vec<String>) -> (r: Option<usize>)
    ensures
        match r {
            Some(i) => i < xs@.len() && first_missing(strs(xs@), strs(ys@)) == Some(xs@[i as int]@),
            None => first_missing(strs(xs@), strs(ys@)) is None,
        },
{
    let ghost all = strs(xs@);
    let mut i: usize = 0;
    proof {
        assert(all.skip(0) =~= all);
    }
    while i < xs.len()
        invariant
            all == strs(xs@),
            i <= xs@.len(),
            first_missing(all, strs(ys@)) == first_missing(all.skip(i as int), strs(ys@)),
        decreases xs@.len() - i,
    {
        proof {
            assert(all.skip(i as int).drop_first() =~= all.skip(i + 1));
        }
        if !contains_string(ys, xs[i].as_str()) {
            return Some(i);
        }
        i += 1;
    }
    None
}

impl PromptTemplate {
    /// Validate this template in isolation (slots vs declared variables,
    /// non-empty fields).
    pub fn validate(&self) -> (r: Result<(), TemplateError>)
        ensures
            match r {
                Ok(()) => template_check(self@) is None,
                Err(e) => template_check(self@) == Some(e@),
            },
    {
        if self.name.as_str().is_empty() {
            return Err(TemplateError::EmptyName);
        }
        if self.allowed_modes.len() == 0 {
            return Err(TemplateError::NoModes(self.name.clone()));
        }
        if self.allowed_bundles.len() == 0 {
            return Err(TemplateError::NoBundles(self.name.clone()));
        }
        let slots = body_slots(self.body.as_str());
        match find_missing(&slots, &self.variables) {
            Some(i) => {
                return Err(TemplateError::UndeclaredVariable(self.name.clone(), slots[i].clone()));
            },
            None => {},
        }
        match find_missing(&self.variables, &slots) {
            Some(i) => {
                return Err(TemplateError::UnusedVariable(self.name.clone(), self.variables[i].clone()));
            },
            None => {},
        }
        Ok(())
    }

    /// Render the template by substituting variables.
    pub fn render(&self, vars: &std::collections::BTreeMap<String, String>) -> (r: Result<
        String,
        TemplateError,
    >)
        ensures
            match r {
                Ok(s) => render_check(self@, vars@) is None && s@ == render_from(
                    self@.body,
                    0,
                    vars@,
                ),
                Err(e) => render_check(self@, vars@) == Some(e@),
            },
    {
        match self.validate() {
            Err(e) => {
                return Err(e);
            },
            Ok(()) => {},
        }
        let ghost vs = strs(self.variables@);
        let mut k: usize = 0;
        proof {
            assert(vs.skip(0) =~= vs);
        }
        while k < self.variables.len()
            invariant
                vs == strs(self.variables@),
                k <= self.variables@.len(),
                template_check(self@) is None,
                first_unset(vs, vars@) == first_unset(vs.skip(k as int), vars@),
            decreases self.variables@.len() - k,
        {
            proof {
                assert(vs.skip(k as int).drop_first() =~= vs.skip(k + 1));
            }
            if !has_key(vars, self.variables[k].as_str()) {
                proof {
                    assert(vs.skip(k as int)[0] == self.variables@[k as int]@);
                }
                return Err(TemplateError::RenderMissing(self.variables[k].clone()));
            }
            k += 1;
        }
        let body = self.body.as_str();
        let bytes = body.as_bytes();
        let ghost b = bytes@;
        let mut out = String::new();
        let mut i: usize = 0;
        proof {
            assert(out@ + render_from(b, 0, vars@) =~= render_from(b, 0, vars@));
        }
        while i < bytes.len()
            invariant
                i <= b.len(),
                b == bytes@,
                b == body.spec_bytes(),
                out@ + render_from(b, i as int, vars@) == render_from(b, 0, vars@),
            decreases b.len() - i,
        {
            if bytes.len() - i > 3 && bytes[i] == 123u8 && bytes[i + 1] == 123u8 {
                match close_from(bytes, i + 2) {
                    Some(j) => {
                        proof {
                            lemma_close_at(b, i + 2);
                        }
                        let name = slot_text(body, i + 2, j);
                        let ghost before = out@;
                        match lookup(vars, name) {
                            Some(v) => {
                                out.append(v.as_str());
                            },
                            None => {},
                        }
                        proof {
                            let piece = if has_var(vars@, name@) {
                                var_value(vars@, name@)
                            } else {
                                Seq::<char>::empty()
                            };
                            assert(out@ =~= before + piece);
                            assert(before + (piece + render_from(b, j + 2, vars@)) =~= out@
                                + render_from(b, j + 2, vars@));
                        }
                        i = j + 2;
                        continue ;
                    },
                    None => {},
                }
            }
            let ghost before = out@;
            let c = bytes[i] as char;
            push_char(&mut out, c);
            proof {
                assert(before + (seq![c] + render_from(b, i + 1, vars@)) =~= out@ + render_from(
                    b,
                    i + 1,
                    vars@,
                ));
            }
            i += 1;
        }
        proof {
            assert(out@ + Seq::<char>::empty() =~= out@);
        }
        Ok(out)
    }

    /// Whether the template is offered in the (mode, bundle) context.
    pub fn is_available(&self, mode: ExecutionMode, bundle: BundleName) -> (r: bool)
        ensures
            r == (self.allowed_modes@.contains(mode) && self.allowed_bundles@.contains(bundle)),
    {
        let mut found_mode = false;
        let mut i: usize = 0;
        while i < self.allowed_modes.len()
            invariant
                i <= self.allowed_modes@.len(),
                found_mode == exists|j: int| 0 <= j < i && self.allowed_modes@[j] == mode,
            decreases self.allowed_modes@.len() - i,
        {
            if self.allowed_modes[i] == mode {
                found_mode = true;
            }
            i += 1;
        }
        let mut found_bundle = false;
        let mut i: usize = 0;
        while i < self.allowed_bundles.len()
            invariant
                i <= self.allowed_bundles@.len(),
                found_bundle == exists|j: int| 0 <= j < i && self.allowed_bundles@[j] == bundle,
            decreases self.allowed_bundles@.len() - i,
        {
            if self.allowed_bundles[i] == bundle {
                found_bundle = true;
            }
            i += 1;
        }
        found_mode && found_bundle
    }
}

// ---------------------------------------------------------------------------
// The registry.

/// Views of templates.
pub open spec fn template_views(ts: Seq<PromptTemplate>) -> Seq<TemplateView> {
    ts.map_values(|t: PromptTemplate| t@)
}

/// The names of templates.
pub open spec fn names_of(ts: Seq<TemplateView>) -> Seq<Seq<char>> {
    ts.map_values(|t: TemplateView| t.name)
}

/// Why `t` cannot join the templates `ts`: it is invalid on its own, or its
/// name is taken.
pub open spec fn add_check(ts: Seq<TemplateView>, t: TemplateView) -> Option<TemplateFault> {
    match template_check(t) {
        Some(f) => Some(f),
        None => if names_of(ts).contains(t.name) {
            Some(TemplateFault::DuplicateName(t.name))
        } else {
            None
        },
    }
}

/// The first fault of the template list `ts`, checking each template in
/// order against those before it.
pub open spec fn templates_check(ts: Seq<TemplateView>) -> Option<TemplateFault>
    decreases ts.len(),
{
    if ts.len() == 0 {
        None
    } else {
        match templates_check(ts.drop_last()) {
            Some(f) => Some(f),
            None => add_check(ts.drop_last(), ts.last()),
        }
    }
}

/// The first fault of a registry: schema drift, then its templates.
pub open spec fn registry_check(schema: Seq<char>, ts: Seq<TemplateView>) -> Option<TemplateFault> {
    if schema != SCHEMA_VERSION@ {
        Some(TemplateFault::SchemaMismatch)
    } else {
        templates_check(ts)
    }
}

/// The index of the first template named `n`.
pub open spec fn index_of_name(ts: Seq<TemplateView>, n: Seq<char>) -> Option<int>
    decreases ts.len(),
{
    if ts.len() == 0 {
        None
    } else if ts[0].name == n {
        Some(0)
    } else {
        match index_of_name(ts.drop_first(), n) {
            Some(i) => Some(i + 1),
            None => None,
        }
    }
}

/// The templates of `ts` offered in the (mode, bundle) context, in order.
pub open spec fn available_of(ts: Seq<PromptTemplate>, mode: ExecutionMode, bundle: BundleName) -> Seq<
    PromptTemplate,
>
    decreases ts.len(),
{
    if ts.len() == 0 {
        Seq::empty()
    } else {
        let t = ts.last();
        available_of(ts.drop_last(), mode, bundle) + if t.allowed_modes@.contains(mode)
            && t.allowed_bundles@.contains(bundle) {
            seq![t]
        } else {
            Seq::empty()
        }
    }
}

/// A fault found in a prefix of the templates is the fault of the whole
/// list.
proof fn lemma_check_prefix(ts: Seq<TemplateView>, k: int)
    requires
        0 <= k <= ts.len(),
        templates_check(ts.take(k)) is Some,
    ensures
        templates_check(ts) == templates_check(ts.take(k)),
    decreases ts.len(),
{
    if k == ts.len() {
        assert(ts.take(k) =~= ts);
    } else {
        assert(ts.drop_last().take(k) =~= ts.take(k));
        lemma_check_prefix(ts.drop_last(), k);
    }
}

proof fn lemma_index_of_name(ts: Seq<TemplateView>, n: Seq<char>)
    ensures
        match index_of_name(ts, n) {
            Some(i) => 0 <= i < ts.len() && ts[i].name == n && forall|j: int|
                0 <= j < i ==> ts[j].name != n,
            None => forall|j: int| 0 <= j < ts.len() ==> ts[j].name != n,
        },
    decreases ts.len(),
{
    if ts.len() > 0 && ts[0].name != n {
        lemma_index_of_name(ts.drop_first(), n);
        match index_of_name(ts.drop_first(), n) {
            Some(i) => {
                assert forall|j: int| 0 <= j < i + 1 implies ts[j].name != n by {
                    if j > 0 {
                        assert(ts[j] == ts.drop_first()[j - 1]);
                    }
                }
            },
            None => {
                assert forall|j: int| 0 <= j < ts.len() implies ts[j].name != n by {
                    if j > 0 {
                        assert(ts[j] == ts.drop_first()[j - 1]);
                    }
                }
            },
        }
    }
}

/// The first index below `n` holding a template named `name`, or `n`.
fn find_name(ts: &Vec<PromptTemplate>, n: usize, name: &str) -> (r: usize)
    requires
        n <= ts@.len(),
    ensures
        r <= n,
        r < n ==> ts@[r as int].name@ == name@,
        forall|j: int| 0 <= j < r ==> ts@[j].name@ != name@,
{
    let mut i: usize = 0;
    while i < n
        invariant
            n <= ts@.len(),
            i <= n,
            forall|j: int| 0 <= j < i ==> ts@[j].name@ != name@,
        decreases n - i,
    {
        if str_eq(ts[i].name.as_str(), name) {
            return i;
        }
        i += 1;
    }
    n
}

impl TemplateRegistry {
    /// New empty registry.
    pub fn new() -> (r: Self)
        ensures
            r.schema_version@ == SCHEMA_VERSION@,
            r.templates@.len() == 0,
    {
        TemplateRegistry { schema_version: SCHEMA_VERSION.to_owned(), templates: Vec::new() }
    }

    /// Add a template; rejects invalid templates and duplicate names.
    pub fn add(&mut self, t: PromptTemplate) -> (r: Result<(), TemplateError>)
        ensures
            final(self).schema_version == old(self).schema_version,
            match r {
                Ok(()) => add_check(template_views(old(self).templates@), t@) is None
                    && final(self).templates@ == old(self).templates@.push(t),
                Err(e) => add_check(template_views(old(self).templates@), t@) == Some(e@)
                    && final(self).templates@ == old(self).templates@,
            },
    {
        match t.validate() {
            Err(e) => {
                return Err(e);
            },
            Ok(()) => {},
        }
        let n = self.templates.len();
        let at = find_name(&self.templates, n, t.name.as_str());
        let ghost tv = template_views(self.templates@);
        proof {
            assert(names_of(tv).contains(t.name@) == (at < n)) by {
                if at < n {
                    assert(names_of(tv)[at as int] == t.name@);
                }
                if names_of(tv).contains(t.name@) {
                    let j = choose|j: int| 0 <= j < names_of(tv).len() && names_of(tv)[j] == t.name@;
                    assert(self.templates@[j].name@ == t.name@);
                }
            }
        }
        if at < n {
            return Err(TemplateError::DuplicateName(t.name));
        }
        self.templates.push(t);
        Ok(())
    }

    /// Lookup by name: the first template with that name.
    pub fn get(&self, name: &str) -> (r: Result<&PromptTemplate, TemplateError>)
        ensures
            match index_of_name(template_views(self.templates@), name@) {
                Some(i) => r == Ok::<&PromptTemplate, TemplateError>(&self.templates@[i]),
                None => r matches Err(e) && e@ == TemplateFault::Unknown(name@),
            },
    {
        let n = self.templates.len();
        let at = find_name(&self.templates, n, name);
        let ghost tv = template_views(self.templates@);
        proof {
            lemma_index_of_name(tv, name@);
            match index_of_name(tv, name@) {
                Some(i) => {
                    assert(tv[i].name == self.templates@[i].name@);
                    if (at as int) < i {
                        assert(tv[at as int].name == self.templates@[at as int].name@);
                    }
                    if i < at {
                        assert(tv[i].name == self.templates@[i].name@);
                    }
                },
                None => {
                    if at < n {
                        assert(tv[at as int].name == self.templates@[at as int].name@);
                    }
                },
            }
        }
        if at < n {
            Ok(&self.templates[at])
        } else {
            Err(TemplateError::Unknown(name.to_owned()))
        }
    }

    /// Render a named template.
    pub fn render(&self, name: &str, vars: &std::collections::BTreeMap<String, String>) -> (r:
        Result<String, TemplateError>)
        ensures
            match index_of_name(template_views(self.templates@), name@) {
                Some(i) => match r {
                    Ok(s) => render_check(self.templates@[i]@, vars@) is None && s@ == render_from(
                        self.templates@[i]@.body,
                        0,
                        vars@,
                    ),
                    Err(e) => render_check(self.templates@[i]@, vars@) == Some(e@),
                },
                None => r matches Err(e) && e@ == TemplateFault::Unknown(name@),
            },
    {
        match self.get(name) {
            Ok(t) => t.render(vars),
            Err(e) => Err(e),
        }
    }

    /// The templates offered in the (mode, bundle) context, in order.
    pub fn available_in(&self, mode: ExecutionMode, bundle: BundleName) -> (r: Vec<
        &PromptTemplate,
    >)
        ensures
            r@.map_values(|t: &PromptTemplate| *t) == available_of(self.templates@, mode, bundle),
    {
        let mut picked: Vec<&PromptTemplate> = Vec::new();
        let mut i: usize = 0;
        while i < self.templates.len()
            invariant
                i <= self.templates@.len(),
                picked@.map_values(|t: &PromptTemplate| *t) == available_of(
                    self.templates@.take(i as int),
                    mode,
                    bundle,
                ),
            decreases self.templates@.len() - i,
        {
            let t = &self.templates[i];
            let ghost before = picked@;
            proof {
                assert(self.templates@.take(i + 1).drop_last() =~= self.templates@.take(i as int));
                assert(self.templates@.take(i + 1).last() == *t);
            }
            if t.is_available(mode, bundle) {
                picked.push(t);
                proof {
                    assert(picked@.map_values(|t: &PromptTemplate| *t) =~= before.map_values(
                        |t: &PromptTemplate| *t,
                    ).push(*t));
                }
            } else {
                proof {
                    assert(available_of(self.templates@.take(i + 1), mode, bundle) =~= available_of(
                        self.templates@.take(i as int),
                        mode,
                        bundle,
                    ));
                }
            }
            i += 1;
        }
        proof {
            assert(self.templates@.take(self.templates@.len() as int) =~= self.templates@);
        }
        picked
    }

    /// Validate: the schema version, then each template in order, on its
    /// own and against the names before it.
    pub fn validate(&self) -> (r: Result<(), TemplateError>)
        ensures
            match r {
                Ok(()) => registry_check(self.schema_version@, template_views(self.templates@))
                    is None,
                Err(e) => registry_check(self.schema_version@, template_views(self.templates@))
                    == Some(e@),
            },
    {
        if !str_eq(self.schema_version.as_str(), SCHEMA_VERSION) {
            return Err(TemplateError::SchemaMismatch);
        }
        let ghost tv = template_views(self.templates@);
        let mut i: usize = 0;
        proof {
            assert(tv.take(0) =~= Seq::<TemplateView>::empty());
        }
        while i < self.templates.len()
            invariant
                tv == template_views(self.templates@),
                self.schema_version@ == SCHEMA_VERSION@,
                i <= self.templates@.len(),
                templates_check(tv.take(i as int)) is None,
            decreases self.templates@.len() - i,
        {
            proof {
                assert(tv.take(i + 1).drop_last() =~= tv.take(i as int));
                assert(tv.take(i + 1).last() == self.templates@[i as int]@);
            }
            match self.templates[i].validate() {
                Err(e) => {
                    proof {
                        lemma_check_prefix(tv, i + 1);
                    }
                    return Err(e);
                },
                Ok(()) => {},
            }
            let at = find_name(&self.templates, i, self.templates[i].name.as_str());
            proof {
                let pre = tv.take(i as int);
                let nm = self.templates@[i as int].name@;
                assert(names_of(pre).contains(nm) == (at < i)) by {
                    if at < i {
                        assert(names_of(pre)[at as int] == nm);
                    }
                    if names_of(pre).contains(nm) {
                        let j = choose|j: int| 0 <= j < names_of(pre).len() && names_of(pre)[j] == nm;
                        assert(self.templates@[j].name@ == nm);
                    }
                }
            }
            if at < i {
                proof {
                    lemma_check_prefix(tv, i + 1);
                }
                return Err(TemplateError::DuplicateName(self.templates[i].name.clone()));
            }
            i += 1;
        }
        proof {
            assert(tv.take(self.templates@.len() as int) =~= tv);
        }
        Ok(())
    }
}

impl Default for TemplateRegistry {
    /// An empty registry.
    fn default() -> (r: Self)
        ensures
            r.schema_version@ == SCHEMA_VERSION@,
            r.templates@.len() == 0,
    {
        Self::new()
    }
}

/// A template that was added is what a lookup of its name finds.
pub proof fn law_added_template_is_found(ts: Seq<TemplateView>, t: TemplateView)
    requires
        add_check(ts, t) is None,
    ensures
        index_of_name(ts.push(t), t.name) == Some(ts.len() as int),
{
    lemma_index_of_name(ts.push(t), t.name);
    match index_of_name(ts.push(t), t.name) {
        Some(i) => {
            if i < ts.len() {
                assert(names_of(ts)[i] == t.name);
            }
        },
        None => {
            assert(ts.push(t)[ts.len() as int].name == t.name);
        },
    }
}

/// Adding a template that `add` accepts keeps a valid template list valid.
pub proof fn law_add_keeps_templates_valid(ts: Seq<TemplateView>, t: TemplateView)
    requires
        templates_check(ts) is None,
        add_check(ts, t) is None,
    ensures
        templates_check(ts.push(t)) is None,
{
    assert(ts.push(t).drop_last() =~= ts);
}

} // verus!
