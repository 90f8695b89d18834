//! The selector language.
//!
//! ```text
//! selectors  := selector (',' selector)* END
//! selector   := '.' | segment*          ('.' alone: the root path)
//! segment    := '.' ident | '.*' | '*' | '[' body ']'
//! body       := int | '"' (('\' '"') | any-but-'"')* '"'
//!             | ':' | int ':' int | ':' int | int ':'
//! ident      := (letter | '_') (letter | digit | '_')*      (ASCII)
//! int        := digit+                                       (fits in u64)
//! ```
//!
//! No whitespace is allowed anywhere. A quoted key drops each backslash that is
//! not itself escaped and keeps the character after it.
use vstd::prelude::*;

use crate::redaction::{pattern_view, Segment, Step};

verus! {

pub open spec fn is_digit(c: char) -> bool {
    '0' <= c && c <= '9'
}

pub open spec fn is_ident_start(c: char) -> bool {
    ('a' <= c && c <= 'z') || ('A' <= c && c <= 'Z') || c == '_'
}

pub open spec fn is_ident_char(c: char) -> bool {
    is_ident_start(c) || is_digit(c)
}

/// The end of the run of digits that starts at `p`.
pub open spec fn digits_end(s: Seq<char>, p: int) -> int
    decreases s.len() - p,
{
    if 0 <= p < s.len() && is_digit(s[p]) {
        digits_end(s, p + 1)
    } else {
        p
    }
}

/// The end of the run of identifier characters that starts at `p`.
pub open spec fn ident_end(s: Seq<char>, p: int) -> int
    decreases s.len() - p,
{
    if 0 <= p < s.len() && is_ident_char(s[p]) {
        ident_end(s, p + 1)
    } else {
        p
    }
}

/// The decimal value of a string of digits.
pub open spec fn digits_value(d: Seq<char>) -> nat
    decreases d.len(),
{
    if d.len() == 0 {
        0
    } else {
        digits_value(d.drop_last()) * 10 + ((d.last() as u32 - '0' as u32) as nat)
    }
}

/// The position of the quote that closes a quoted key whose text starts at `p`,
/// or the end of the input where none does.
pub open spec fn string_end(s: Seq<char>, p: int) -> int
    decreases s.len() - p,
{
    if p < 0 || p >= s.len() {
        s.len() as int
    } else if s[p] == '"' {
        p
    } else if s[p] == '\\' && p + 1 < s.len() && s[p + 1] == '"' {
        string_end(s, p + 2)
    } else {
        string_end(s, p + 1)
    }
}

/// The text of a quoted key: a backslash is dropped and the character after it kept.
pub open spec fn unescape(t: Seq<char>) -> Seq<char>
    decreases t.len(),
{
    if t.len() == 0 {
        Seq::empty()
    } else if t[0] == '\\' {
        if t.len() == 1 {
            Seq::empty()
        } else {
            seq![t[1]] + unescape(t.subrange(2, t.len() as int))
        }
    } else {
        seq![t[0]] + unescape(t.subrange(1, t.len() as int))
    }
}

/// The outcome of reading one piece of the input.
pub enum Scan<T> {
    /// What was read, and the position after it.
    Next(T, int),
    /// The position at which the input departs from the grammar.
    Fail(int),
}

/// The integer whose digits start at `p`: its value and end, or `None` when it
/// does not fit in `u64`.
pub open spec fn number(s: Seq<char>, p: int) -> Option<(u64, int)> {
    let d = digits_end(s, p);
    let v = digits_value(s.subrange(p, d));
    if v <= u64::MAX {
        Some((v as u64, d))
    } else {
        None
    }
}

/// The subscript whose body starts at `q`, just after `[`.
pub open spec fn subscript(s: Seq<char>, q: int) -> Scan<Step> {
    if q >= s.len() {
        Scan::Fail(q)
    } else if s[q] == '"' {
        let e = string_end(s, q + 1);
        if e >= s.len() {
            Scan::Fail(e)
        } else if e + 1 < s.len() && s[e + 1] == ']' {
            Scan::Next(Step::Key(unescape(s.subrange(q + 1, e))), e + 2)
        } else {
            Scan::Fail(e + 1)
        }
    } else if s[q] == ':' {
        if q + 1 < s.len() && s[q + 1] == ']' {
            Scan::Next(Step::Range(None, None), q + 2)
        } else if q + 1 < s.len() && is_digit(s[q + 1]) {
            match number(s, q + 1) {
                None => Scan::Fail(q + 1),
                Some((v, d)) => if d < s.len() && s[d] == ']' {
                    Scan::Next(Step::Range(None, Some(v)), d + 1)
                } else {
                    Scan::Fail(d)
                },
            }
        } else {
            Scan::Fail(q + 1)
        }
    } else if is_digit(s[q]) {
        match number(s, q) {
            None => Scan::Fail(q),
            Some((v, d)) => if d < s.len() && s[d] == ']' {
                Scan::Next(Step::Index(v), d + 1)
            } else if d < s.len() && s[d] == ':' {
                if d + 1 < s.len() && s[d + 1] == ']' {
                    Scan::Next(Step::Range(Some(v), None), d + 2)
                } else if d + 1 < s.len() && is_digit(s[d + 1]) {
                    match number(s, d + 1) {
                        None => Scan::Fail(d + 1),
                        Some((w, e)) => if e < s.len() && s[e] == ']' {
                            Scan::Next(Step::Range(Some(v), Some(w)), e + 1)
                        } else {
                            Scan::Fail(e)
                        },
                    }
                } else {
                    Scan::Fail(d + 1)
                }
            } else {
                Scan::Fail(d)
            },
        }
    } else {
        Scan::Fail(q)
    }
}

/// The segment that starts at `p`; `first` when no step of the current selector
/// has been read. The result is `None` for the lone `.` of the root path.
pub open spec fn segment(s: Seq<char>, p: int, first: bool) -> Scan<Option<Step>> {
    if s[p] == '.' {
        if first && (p + 1 == s.len() || s[p + 1] == ',') {
            Scan::Next(None, p + 1)
        } else if p + 1 < s.len() && s[p + 1] == '*' {
            Scan::Next(Some(Step::Wildcard), p + 2)
        } else if p + 1 < s.len() && is_ident_start(s[p + 1]) {
            let e = ident_end(s, p + 1);
            Scan::Next(Some(Step::Key(s.subrange(p + 1, e))), e)
        } else {
            Scan::Fail(p + 1)
        }
    } else if s[p] == '*' {
        Scan::Next(Some(Step::Wildcard), p + 1)
    } else if s[p] == '[' {
        match subscript(s, p + 1) {
            Scan::Next(st, q) => Scan::Next(Some(st), q),
            Scan::Fail(e) => Scan::Fail(e),
        }
    } else {
        Scan::Fail(p)
    }
}

/// The patterns read from position `p` on, where `acc` holds the steps already
/// read of the current selector; or the position of the first departure from
/// the grammar.
pub open spec fn selectors_from(s: Seq<char>, p: int, acc: Seq<Step>) -> Result<Seq<Seq<Step>>, int>
    decreases s.len() - p,
{
    if p < 0 || p >= s.len() {
        Ok(seq![acc])
    } else if s[p] == ',' {
        match selectors_from(s, p + 1, Seq::empty()) {
            Ok(r) => Ok(seq![acc] + r),
            Err(e) => Err(e),
        }
    } else {
        proof {
            lemma_segment_advances(s, p, acc.len() == 0);
        }
        match segment(s, p, acc.len() == 0) {
            Scan::Next(st, q) => selectors_from(
                s,
                q,
                match st {
                    Some(x) => acc.push(x),
                    None => acc,
                },
            ),
            Scan::Fail(e) => Err(e),
        }
    }
}

/// The patterns that selector text denotes, or the position at which it departs
/// from the grammar.
pub open spec fn parse_selectors(s: Seq<char>) -> Result<Seq<Seq<Step>>, int> {
    selectors_from(s, 0, Seq::empty())
}

pub proof fn lemma_digits_end(s: Seq<char>, p: int)
    requires
        0 <= p <= s.len(),
    ensures
        p <= digits_end(s, p) <= s.len(),
        forall|i: int| p <= i < digits_end(s, p) ==> is_digit(#[trigger] s[i]),
        digits_end(s, p) < s.len() ==> !is_digit(s[digits_end(s, p)]),
    decreases s.len() - p,
{
    if p < s.len() && is_digit(s[p]) {
        lemma_digits_end(s, p + 1);
    }
}

pub proof fn lemma_ident_end(s: Seq<char>, p: int)
    requires
        0 <= p <= s.len(),
    ensures
        p <= ident_end(s, p) <= s.len(),
        forall|i: int| p <= i < ident_end(s, p) ==> is_ident_char(#[trigger] s[i]),
        ident_end(s, p) < s.len() ==> !is_ident_char(s[ident_end(s, p)]),
    decreases s.len() - p,
{
    if p < s.len() && is_ident_char(s[p]) {
        lemma_ident_end(s, p + 1);
    }
}

pub proof fn lemma_string_end(s: Seq<char>, p: int)
    requires
        0 <= p,
    ensures
        p <= string_end(s, p) || string_end(s, p) == s.len(),
        string_end(s, p) <= s.len(),
        string_end(s, p) < s.len() ==> s[string_end(s, p)] == '"',
    decreases s.len() - p,
{
    if p < s.len() && s[p] != '"' {
        if s[p] == '\\' && p + 1 < s.len() && s[p + 1] == '"' {
            lemma_string_end(s, p + 2);
        } else {
            lemma_string_end(s, p + 1);
        }
    }
}

pub proof fn lemma_segment_advances(s: Seq<char>, p: int, first: bool)
    requires
        0 <= p < s.len(),
    ensures
        segment(s, p, first) matches Scan::Next(_, q) ==> p < q <= s.len(),
        segment(s, p, first) matches Scan::Fail(e) ==> 0 <= e <= s.len(),
{
    lemma_digits_end(s, p + 1);
    lemma_ident_end(s, p + 1);
    lemma_string_end(s, p + 2);
    if p + 1 < s.len() && is_digit(s[p + 1]) {
        let d = digits_end(s, p + 1);
        if d < s.len() {
            lemma_digits_end(s, d + 1);
        }
    }
    if p + 2 <= s.len() {
        lemma_digits_end(s, p + 2);
    }
    if p + 2 < s.len() && is_digit(s[p + 2]) {
        let d = digits_end(s, p + 2);
        if d < s.len() {
            lemma_digits_end(s, d + 1);
        }
    }
}

/// A failure of the selector list lies within the text or at its end.
pub proof fn lemma_selectors_from_in_bounds(s: Seq<char>, p: int, acc: Seq<Step>)
    requires
        0 <= p <= s.len(),
    ensures
        selectors_from(s, p, acc) matches Err(e) ==> 0 <= e <= s.len(),
    decreases s.len() - p,
{
    if p < s.len() {
        if s[p] == ',' {
            lemma_selectors_from_in_bounds(s, p + 1, Seq::empty());
        } else {
            lemma_segment_advances(s, p, acc.len() == 0);
            match segment(s, p, acc.len() == 0) {
                Scan::Next(st, q) => lemma_selectors_from_in_bounds(
                    s,
                    q,
                    match st {
                        Some(x) => acc.push(x),
                        None => acc,
                    },
                ),
                Scan::Fail(_) => {},
            }
        }
    }
}

/// A parse failure lies within the text or at its end.
pub proof fn lemma_parse_error_in_bounds(s: Seq<char>)
    ensures
        parse_selectors(s) matches Err(e) ==> 0 <= e <= s.len(),
{
    lemma_selectors_from_in_bounds(s, 0, Seq::empty());
}

/// A prefix of a string of digits has no greater value.
pub proof fn lemma_digits_value_prefix(t: Seq<char>, k: int)
    requires
        0 <= k <= t.len(),
    ensures
        digits_value(t.take(k)) <= digits_value(t),
    decreases t.len(),
{
    if k < t.len() {
        assert(t.drop_last().take(k) =~= t.take(k));
        lemma_digits_value_prefix(t.drop_last(), k);
    } else {
        assert(t.take(k) =~= t);
    }
}

/// Relies on String::push: appends one character.
#[verifier::external_body]
fn push_char(s: &mut String, c: char)
    ensures
        final(s)@ == old(s)@.push(c),
{
    s.push(c)
}

fn char_is_digit(c: char) -> (r: bool)
    ensures
        r == is_digit(c),
{
    '0' <= c && c <= '9'
}

fn char_is_ident_start(c: char) -> (r: bool)
    ensures
        r == is_ident_start(c),
{
    ('a' <= c && c <= 'z') || ('A' <= c && c <= 'Z') || c == '_'
}

fn scan_digits_end(s: &Vec<char>, p: usize) -> (r: usize)
    requires
        p <= s@.len(),
    ensures
        r == digits_end(s@, p as int),
{
    let mut i = p;
    while i < s.len() && char_is_digit(s[i])
        invariant
            p <= i <= s@.len(),
            digits_end(s@, i as int) == digits_end(s@, p as int),
        decreases s@.len() - i,
    {
        i += 1;
    }
    i
}

fn scan_ident_end(s: &Vec<char>, p: usize) -> (r: usize)
    requires
        p <= s@.len(),
    ensures
        r == ident_end(s@, p as int),
{
    let mut i = p;
    while i < s.len() && (char_is_ident_start(s[i]) || char_is_digit(s[i]))
        invariant
            p <= i <= s@.len(),
            ident_end(s@, i as int) == ident_end(s@, p as int),
        decreases s@.len() - i,
    {
        i += 1;
    }
    i
}

fn scan_string_end(s: &Vec<char>, p: usize) -> (r: usize)
    requires
        p <= s@.len(),
    ensures
        r == string_end(s@, p as int),
{
    let mut i = p;
    while i < s.len() && s[i] != '"'
        invariant
            p <= i <= s@.len(),
            string_end(s@, i as int) == string_end(s@, p as int),
        decreases s@.len() - i,
    {
        if s[i] == '\\' && i + 1 < s.len() && s[i + 1] == '"' {
            i += 2;
        } else {
            i += 1;
        }
    }
    i
}

fn scan_number(s: &Vec<char>, p: usize) -> (r: Option<(u64, usize)>)
    requires
        p <= s@.len(),
    ensures
        match number(s@, p as int) {
            Some((v, d)) => r == Some((v, d as usize)),
            None => r is None,
        },
{
    let d = scan_digits_end(s, p);
    proof {
        lemma_digits_end(s@, p as int);
    }
    let mut acc: u64 = 0;
    let mut i = p;
    assert(s@.subrange(p as int, p as int) =~= Seq::<char>::empty());
    while i < d
        invariant
            p <= i <= d <= s@.len(),
            d == digits_end(s@, p as int),
            forall|k: int| p <= k < d ==> is_digit(#[trigger] s@[k]),
            acc == digits_value(s@.subrange(p as int, i as int)),
        decreases d - i,
    {
        let c = s[i];
        let dig = (c as u32 - '0' as u32) as u64;
        assert(s@.subrange(p as int, i + 1).drop_last() =~= s@.subrange(p as int, i as int));
        if acc > (u64::MAX - dig) / 10 {
            proof {
                let t = s@.subrange(p as int, d as int);
                assert(t.take(i + 1 - p) =~= s@.subrange(p as int, i + 1));
                lemma_digits_value_prefix(t, i + 1 - p);
                assert(acc * 10 + dig > u64::MAX) by (nonlinear_arith)
                    requires
                        acc > (u64::MAX - dig) / 10,
                        dig <= 9,
                ;
            }
            return None;
        }
        acc = acc * 10 + dig;
        i += 1;
    }
    Some((acc, d))
}

/// The characters `s[a..b]` as a string.
fn text_of(s: &Vec<char>, a: usize, b: usize) -> (r: String)
    requires
        a <= b <= s@.len(),
    ensures
        r@ == s@.subrange(a as int, b as int),
{
    let mut out = String::new();
    let mut i = a;
    while i < b
        invariant
            a <= i <= b <= s@.len(),
            out@ == s@.subrange(a as int, i as int),
        decreases b - i,
    {
        push_char(&mut out, s[i]);
        assert(out@ =~= s@.subrange(a as int, i + 1));
        i += 1;
    }
    out
}

/// The decoded text of the quoted key `s[a..b]`.
fn unescape_text(s: &Vec<char>, a: usize, b: usize) -> (r: String)
    requires
        a <= b <= s@.len(),
    ensures
        r@ == unescape(s@.subrange(a as int, b as int)),
{
    let mut out = String::new();
    let mut i = a;
    while i < b
        invariant
            a <= i <= b <= s@.len(),
            out@ + unescape(s@.subrange(i as int, b as int)) == unescape(s@.subrange(a as int, b as int)),
        decreases b - i,
    {
        let ghost t = s@.subrange(i as int, b as int);
        if s[i] == '\\' {
            if i + 1 == b {
                assert(unescape(t) == Seq::<char>::empty());
                assert(unescape(s@.subrange(b as int, b as int)) == Seq::<char>::empty());
                i += 1;
            } else {
                assert(t.subrange(2, t.len() as int) =~= s@.subrange(i + 2, b as int));
                let ghost before = out@;
                push_char(&mut out, s[i + 1]);
                assert(out@ + unescape(s@.subrange(i + 2, b as int)) =~= before + unescape(t));
                i += 2;
            }
        } else {
            assert(t.subrange(1, t.len() as int) =~= s@.subrange(i + 1, b as int));
            let ghost before = out@;
            push_char(&mut out, s[i]);
            assert(out@ + unescape(s@.subrange(i + 1, b as int)) =~= before + unescape(t));
            i += 1;
        }
    }
    assert(s@.subrange(b as int, b as int) =~= Seq::<char>::empty());
    assert(out@ + Seq::<char>::empty() =~= out@);
    out
}

fn scan_subscript(s: &Vec<char>, q: usize) -> (r: Result<(Segment, usize), usize>)
    requires
        q <= s@.len(),
        s@.len() + 2 < usize::MAX,
    ensures
        match subscript(s@, q as int) {
            Scan::Next(st, n) => r is Ok && r->Ok_0.0@ == st && r->Ok_0.1 == n,
            Scan::Fail(e) => r == Err::<(Segment, usize), usize>(e as usize),
        },
{
    let n = s.len();
    if q >= n {
        return Err(q);
    }
    if s[q] == '"' {
        let e = scan_string_end(s, q + 1);
        proof {
            lemma_string_end(s@, q + 1);
        }
        if e >= n {
            Err(e)
        } else if e + 1 < n && s[e + 1] == ']' {
            Ok((Segment::Key(unescape_text(s, q + 1, e)), e + 2))
        } else {
            Err(e + 1)
        }
    } else if s[q] == ':' {
        if q + 1 < n && s[q + 1] == ']' {
            Ok((Segment::Range(None, None), q + 2))
        } else if q + 1 < n && char_is_digit(s[q + 1]) {
            proof {
                lemma_digits_end(s@, q + 1);
            }
            match scan_number(s, q + 1) {
                None => Err(q + 1),
                Some((v, d)) => if d < n && s[d] == ']' {
                    Ok((Segment::Range(None, Some(v)), d + 1))
                } else {
                    Err(d)
                },
            }
        } else {
            Err(q + 1)
        }
    } else if char_is_digit(s[q]) {
        proof {
            lemma_digits_end(s@, q as int);
        }
        match scan_number(s, q) {
            None => Err(q),
            Some((v, d)) => if d < n && s[d] == ']' {
                Ok((Segment::Index(v), d + 1))
            } else if d < n && s[d] == ':' {
                if d + 1 < n && s[d + 1] == ']' {
                    Ok((Segment::Range(Some(v), None), d + 2))
                } else if d + 1 < n && char_is_digit(s[d + 1]) {
                    proof {
                        lemma_digits_end(s@, d + 1);
                    }
                    match scan_number(s, d + 1) {
                        None => Err(d + 1),
                        Some((w, e)) => if e < n && s[e] == ']' {
                            Ok((Segment::Range(Some(v), Some(w)), e + 1))
                        } else {
                            Err(e)
                        },
                    }
                } else {
                    Err(d + 1)
                }
            } else {
                Err(d)
            },
        }
    } else {
        Err(q)
    }
}

fn scan_segment(s: &Vec<char>, p: usize, first: bool) -> (r: Result<(Option<Segment>, usize), usize>)
    requires
        p < s@.len(),
        s@.len() + 2 < usize::MAX,
    ensures
        match segment(s@, p as int, first) {
            Scan::Next(st, n) => r is Ok && r->Ok_0.1 == n && match st {
                Some(x) => r->Ok_0.0 is Some && r->Ok_0.0->Some_0@ == x,
                None => r->Ok_0.0 is None,
            },
            Scan::Fail(e) => r == Err::<(Option<Segment>, usize), usize>(e as usize),
        },
{
    let n = s.len();
    if s[p] == '.' {
        if first && (p + 1 == n || s[p + 1] == ',') {
            Ok((None, p + 1))
        } else if p + 1 < n && s[p + 1] == '*' {
            Ok((Some(Segment::Wildcard), p + 2))
        } else if p + 1 < n && char_is_ident_start(s[p + 1]) {
            let e = scan_ident_end(s, p + 1);
            proof {
                lemma_ident_end(s@, p + 1);
            }
            Ok((Some(Segment::Key(text_of(s, p + 1, e))), e))
        } else {
            Err(p + 1)
        }
    } else if s[p] == '*' {
        Ok((Some(Segment::Wildcard), p + 1))
    } else if s[p] == '[' {
        match scan_subscript(s, p + 1) {
            Ok((st, q)) => Ok((Some(st), q)),
            Err(e) => Err(e),
        }
    } else {
        Err(p)
    }
}

/// `done` followed by what `r` holds, or the failure of `r`.
pub open spec fn after(done: Seq<Seq<Step>>, r: Result<Seq<Seq<Step>>, int>) -> Result<Seq<Seq<Step>>, int> {
    match r {
        Ok(x) => Ok(done + x),
        Err(e) => Err(e),
    }
}

/// The views of a list of patterns.
pub open spec fn patterns_view(ps: Seq<Vec<Segment>>) -> Seq<Seq<Step>> {
    ps.map_values(|p: Vec<Segment>| pattern_view(p))
}

/// Reads selector text against the selector grammar.
pub struct SelectParser;

impl SelectParser {
    /// The patterns of selector text given as characters, or the position of the
    /// first character (or of the end) at which the text departs from the grammar.
    pub fn parse_selectors(s: &Vec<char>) -> (r: Result<Vec<Vec<Segment>>, usize>)
        requires
            s@.len() + 2 < usize::MAX,
        ensures
            match parse_selectors(s@) {
                Ok(ps) => r is Ok && patterns_view(r->Ok_0@) == ps,
                Err(e) => r == Err::<Vec<Vec<Segment>>, usize>(e as usize),
            },
    {
        let n = s.len();
        let mut done: Vec<Vec<Segment>> = Vec::new();
        let mut acc: Vec<Segment> = Vec::new();
        let mut p: usize = 0;
        assert(patterns_view(done@) =~= Seq::<Seq<Step>>::empty());
        assert(pattern_view(acc) =~= Seq::<Step>::empty());
        assert(after(Seq::empty(), selectors_from(s@, 0, Seq::empty())) =~= parse_selectors(s@)) by {
            match selectors_from(s@, 0, Seq::empty()) {
                Ok(x) => assert(Seq::<Seq<Step>>::empty() + x =~= x),
                Err(_) => {},
            }
        }
        while p < n
            invariant
                n == s@.len(),
                n + 2 < usize::MAX,
                p <= n,
                parse_selectors(s@) == after(patterns_view(done@), selectors_from(s@, p as int, pattern_view(acc))),
            decreases n - p,
        {
            let ghost dv = patterns_view(done@);
            let ghost av = pattern_view(acc);
            if s[p] == ',' {
                done.push(acc);
                acc = Vec::new();
                proof {
                    assert(patterns_view(done@) =~= dv.push(av));
                    assert(pattern_view(acc) =~= Seq::<Step>::empty());
                    match selectors_from(s@, p + 1, Seq::empty()) {
                        Ok(x) => assert(dv + (seq![av] + x) =~= dv.push(av) + x),
                        Err(_) => {},
                    }
                }
                p += 1;
            } else {
                proof {
                    lemma_segment_advances(s@, p as int, av.len() == 0);
                }
                match scan_segment(s, p, acc.len() == 0) {
                    Err(e) => {
                        return Err(e);
                    },
                    Ok((st, q)) => {
                        match st {
                            Some(x) => {
                                acc.push(x);
                                assert(pattern_view(acc) =~= av.push(x@));
                            },
                            None => {},
                        }
                        p = q;
                    },
                }
            }
        }
        let ghost dv = patterns_view(done@);
        let ghost av = pattern_view(acc);
        done.push(acc);
        assert(patterns_view(done@) =~= dv + seq![av]);
        Ok(done)
    }
}

} // verus!
