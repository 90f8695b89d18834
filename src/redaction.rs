use vstd::prelude::*;

use crate::content::{same, Content, PathKey};
use crate::parser::{lemma_parse_error_in_bounds, parse_selectors, patterns_view, SelectParser};

verus! {

/// One step of a path pattern, as a mathematical value.
pub enum Step {
    Wildcard,
    Key(Seq<char>),
    Index(u64),
    Range(Option<u64>, Option<u64>),
}

/// One step of a compiled path pattern.
#[derive(Debug, PartialEq, Eq)]
pub enum Segment {
    /// Any key or index.
    Wildcard,
    /// A map key or field name, compared by its text.
    Key(String),
    /// A sequence position.
    Index(u64),
    /// A span of sequence positions with optional bounds; not matchable.
    Range(Option<u64>, Option<u64>),
}

impl View for Segment {
    type V = Step;

    open spec fn view(&self) -> Step {
        match self {
            Segment::Wildcard => Step::Wildcard,
            Segment::Key(k) => Step::Key(k@),
            Segment::Index(i) => Step::Index(*i),
            Segment::Range(a, b) => Step::Range(*a, *b),
        }
    }
}

/// The view of a pattern: its steps in order.
pub open spec fn pattern_view(p: Vec<Segment>) -> Seq<Step> {
    p@.map_values(|s: Segment| s@)
}

/// The keys of a concrete path.
pub open spec fn path_keys(path: Seq<Content>) -> Seq<PathKey> {
    path.map_values(|c: Content| c.key())
}

/// A path key for a sequence position.
pub open spec fn index_key(i: int) -> PathKey {
    PathKey { text: None, index: Some(i as u64) }
}

/// A path key for a field name.
pub open spec fn text_key(t: Seq<char>) -> PathKey {
    PathKey { text: Some(t), index: None }
}

/// Whether one step accepts one path element.
pub open spec fn step_matches(step: Step, k: PathKey) -> bool {
    match step {
        Step::Wildcard => true,
        Step::Key(t) => k.text == Some(t),
        Step::Index(i) => k.index == Some(i),
        Step::Range(_, _) => false,
    }
}

/// A pattern accepts exactly the paths of its own length whose elements its steps accept.
pub open spec fn pattern_matches(p: Seq<Step>, path: Seq<PathKey>) -> bool {
    &&& p.len() == path.len()
    &&& forall|i: int| 0 <= i < p.len() ==> step_matches(#[trigger] p[i], path[i])
}

/// A selector accepts a path when every one of its alternatives does.
pub open spec fn selector_matches(sel: Seq<Seq<Step>>, path: Seq<PathKey>) -> bool {
    forall|j: int| 0 <= j < sel.len() ==> pattern_matches(#[trigger] sel[j], path)
}

/// Some alternative holds a range step.
pub open spec fn has_range(sel: Seq<Seq<Step>>) -> bool {
    exists|j: int, i: int| 0 <= j < sel.len() && 0 <= i < sel[j].len() && (#[trigger] sel[j][i]) is Range
}

/// `output` is `input` redacted at `path`: a clone of `red` where the selector matches,
/// else the same container with each child redacted at its extended path, else `input`.
pub open spec fn redacted(
    sel: Seq<Seq<Step>>,
    path: Seq<PathKey>,
    input: Content,
    output: Content,
    red: Content,
) -> bool
    decreases input,
{
    if selector_matches(sel, path) {
        same(red, output)
    } else {
        match input {
            Content::List(v) => output is List && v@.len() == output->List_0@.len()
                && forall|i: int| 0 <= i < v@.len() ==> redacted(sel, path.push(index_key(i)), #[trigger] v@[i], output->List_0@[i], red),
            Content::Tuple(v) => output is Tuple && v@.len() == output->Tuple_0@.len()
                && forall|i: int| 0 <= i < v@.len() ==> redacted(sel, path.push(index_key(i)), #[trigger] v@[i], output->Tuple_0@[i], red),
            Content::TupleStruct(n, v) => output is TupleStruct && output->TupleStruct_0@ == n@
                && v@.len() == output->TupleStruct_1@.len()
                && forall|i: int| 0 <= i < v@.len() ==> redacted(sel, path.push(index_key(i)), #[trigger] v@[i], output->TupleStruct_1@[i], red),
            Content::TupleVariant(n, k, m, v) => output is TupleVariant && output->TupleVariant_0@ == n@
                && output->TupleVariant_1 == k && output->TupleVariant_2@ == m@
                && v@.len() == output->TupleVariant_3@.len()
                && forall|i: int| 0 <= i < v@.len() ==> redacted(sel, path.push(index_key(i)), #[trigger] v@[i], output->TupleVariant_3@[i], red),
            Content::Mapping(v) => output is Mapping && v@.len() == output->Mapping_0@.len()
                && forall|i: int| 0 <= i < v@.len() ==> {
                    &&& same(#[trigger] v@[i].0, output->Mapping_0@[i].0)
                    &&& redacted(sel, path.push(v@[i].0.key()), v@[i].1, output->Mapping_0@[i].1, red)
                },
            Content::Struct(n, v) => output is Struct && output->Struct_0@ == n@
                && v@.len() == output->Struct_1@.len()
                && forall|i: int| 0 <= i < v@.len() ==> {
                    &&& (#[trigger] v@[i]).0@ == output->Struct_1@[i].0@
                    &&& redacted(sel, path.push(text_key(v@[i].0@)), v@[i].1, output->Struct_1@[i].1, red)
                },
            Content::StructVariant(n, k, m, v) => output is StructVariant && output->StructVariant_0@ == n@
                && output->StructVariant_1 == k && output->StructVariant_2@ == m@
                && v@.len() == output->StructVariant_3@.len()
                && forall|i: int| 0 <= i < v@.len() ==> {
                    &&& (#[trigger] v@[i]).0@ == output->StructVariant_3@[i].0@
                    &&& redacted(sel, path.push(text_key(v@[i].0@)), v@[i].1, output->StructVariant_3@[i].1, red)
                },
            _ => same(input, output),
        }
    }
}

/// The 1-based line of position `pos` of `s`.
pub open spec fn line_at(s: Seq<char>, pos: int) -> nat
    decreases pos,
{
    if pos <= 0 {
        1
    } else if s[pos - 1] == '\n' {
        line_at(s, pos - 1) + 1
    } else {
        line_at(s, pos - 1)
    }
}

/// The 1-based column of position `pos` of `s`: one more than the number of
/// characters between the last line break before it and it.
pub open spec fn column_at(s: Seq<char>, pos: int) -> nat
    decreases pos,
{
    if pos <= 0 {
        1
    } else if s[pos - 1] == '\n' {
        1
    } else {
        column_at(s, pos - 1) + 1
    }
}

/// Selector text that departs from the grammar, with the place where it does.
#[derive(Debug)]
pub struct SelectorParseError {
    line: usize,
    column: usize,
}

impl View for SelectorParseError {
    /// Line and column, both 1-based.
    type V = (nat, nat);

    closed spec fn view(&self) -> (nat, nat) {
        (self.line as nat, self.column as nat)
    }
}

impl SelectorParseError {
    /// The column of where the error occurred.
    pub fn column(&self) -> (r: usize)
        ensures
            r == self@.1,
    {
        self.column
    }

    /// The line of where the error occurred.
    pub fn line(&self) -> (r: usize)
        ensures
            r == self@.0,
    {
        self.line
    }

    /// The error at position `pos` of `s`.
    fn at(s: &Vec<char>, pos: usize) -> (r: SelectorParseError)
        requires
            pos <= s@.len(),
            s@.len() < usize::MAX,
        ensures
            r@ == (line_at(s@, pos as int), column_at(s@, pos as int)),
    {
        let mut line: usize = 1;
        let mut column: usize = 1;
        let mut i: usize = 0;
        while i < pos
            invariant
                i <= pos <= s@.len() < usize::MAX,
                line == line_at(s@, i as int),
                column == column_at(s@, i as int),
                1 <= line <= i + 1,
                1 <= column <= i + 1,
            decreases pos - i,
        {
            if s[i] == '\n' {
                line += 1;
                column = 1;
            } else {
                column += 1;
            }
            i += 1;
        }
        SelectorParseError { line, column }
    }
}

/// The characters of a string.
fn chars_of(text: &str) -> (r: Vec<char>)
    ensures
        r@ == text@,
{
    let n = text.unicode_len();
    let mut out: Vec<char> = Vec::new();
    let mut i: usize = 0;
    while i < n
        invariant
            n == text@.len(),
            i <= n,
            out@ == text@.subrange(0, i as int),
        decreases n - i,
    {
        out.push(text.get_char(i));
        assert(out@ =~= text@.subrange(0, i + 1));
        i += 1;
    }
    assert(out@ =~= text@);
    out
}

/// A compiled selector: alternative path patterns, each a sequence of segments.
#[derive(Debug)]
pub struct Selector {
    selectors: Vec<Vec<Segment>>,
}

impl View for Selector {
    type V = Seq<Seq<Step>>;

    closed spec fn view(&self) -> Seq<Seq<Step>> {
        patterns_view(self.selectors@)
    }
}


/// Equal trees offer equal path keys.
proof fn lemma_same_key(a: Content, b: Content)
    requires
        same(a, b),
    ensures
        a.key() == b.key(),
{
}

/// Pushing an element extends the path keys by its key.
proof fn lemma_push_key(path: Seq<Content>, c: Content)
    ensures
        path_keys(path.push(c)) == path_keys(path).push(c.key()),
{
    assert(path_keys(path.push(c)) =~= path_keys(path).push(c.key()));
}

impl Selector {
    /// Compiles selector text: the patterns it denotes, or the line and column at
    /// which it departs from the grammar.
    pub fn parse(selector: &str) -> (r: Result<Selector, SelectorParseError>)
        requires
            selector@.len() + 2 < usize::MAX,
        ensures
            match parse_selectors(selector@) {
                Ok(ps) => r is Ok && r->Ok_0@ == ps,
                Err(e) => r is Err && r->Err_0@ == (line_at(selector@, e), column_at(selector@, e)),
            },
    {
        let chars = chars_of(selector);
        match SelectParser::parse_selectors(&chars) {
            Ok(patterns) => Ok(Selector { selectors: patterns }),
            Err(pos) => {
                proof {
                    lemma_parse_error_in_bounds(chars@);
                }
                Err(SelectorParseError::at(&chars, pos))
            },
        }
    }

    /// A selector made of the given alternative patterns.
    pub fn from_patterns(patterns: Vec<Vec<Segment>>) -> (r: Selector)
        ensures
            r@ == patterns@.map_values(|p: Vec<Segment>| pattern_view(p)),
    {
        Selector { selectors: patterns }
    }

    /// The alternative patterns, in the order of the text.
    pub fn patterns(&self) -> (r: &Vec<Vec<Segment>>)
        ensures
            patterns_view(r@) == self@,
    {
        &self.selectors
    }

    /// Whether some alternative holds a range segment, which matching cannot evaluate.
    pub fn has_range(&self) -> (r: bool)
        ensures
            r == has_range(self@),
    {
        let mut j: usize = 0;
        while j < self.selectors.len()
            invariant
                j <= self@.len(),
                self@.len() == self.selectors@.len(),
                forall|jj: int, i: int|
                    0 <= jj < j && 0 <= i < self@[jj].len() ==> !(#[trigger] self@[jj][i] is Range),
            decreases self.selectors@.len() - j,
        {
            let p = &self.selectors[j];
            assert(self@[j as int] == pattern_view(*p));
            let mut i: usize = 0;
            while i < p.len()
                invariant
                    i <= p@.len(),
                    j < self@.len(),
                    self@[j as int] == pattern_view(*p),
                    forall|ii: int| 0 <= ii < i ==> !(#[trigger] self@[j as int][ii] is Range),
                decreases p@.len() - i,
            {
                if let Segment::Range(_, _) = &p[i] {
                    assert(self@[j as int][i as int] is Range);
                    return true;
                }
                i += 1;
            }
            j += 1;
        }
        false
    }

    /// Whether every alternative pattern accepts `path`; true when there are none.
    pub fn is_match(&self, path: &[Content]) -> (r: bool)
        requires
            !has_range(self@),
        ensures
            r == selector_matches(self@, path_keys(path@)),
    {
        let ghost keys = path_keys(path@);
        let mut j: usize = 0;
        while j < self.selectors.len()
            invariant
                j <= self@.len(),
                self@.len() == self.selectors@.len(),
                !has_range(self@),
                keys == path_keys(path@),
                forall|jj: int| 0 <= jj < j ==> pattern_matches(#[trigger] self@[jj], keys),
            decreases self.selectors@.len() - j,
        {
            let p = &self.selectors[j];
            assert(self@[j as int] == pattern_view(*p));
            if p.len() != path.len() {
                assert(!pattern_matches(self@[j as int], keys));
                return false;
            }
            let mut i: usize = 0;
            while i < p.len()
                invariant
                    i <= p@.len(),
                    p@.len() == path@.len(),
                    j < self@.len(),
                    !has_range(self@),
                    keys == path_keys(path@),
                    self@[j as int] == pattern_view(*p),
                    forall|ii: int| 0 <= ii < i ==> step_matches(#[trigger] self@[j as int][ii], keys[ii]),
                decreases p@.len() - i,
            {
                let element = &path[i];
                assert(keys[i as int] == element.key());
                assert(self@[j as int][i as int] == p@[i as int]@);
                let ok = match &p[i] {
                    Segment::Wildcard => true,
                    Segment::Key(k) => match element {
                        Content::Str(t) => t.eq(k),
                        _ => false,
                    },
                    Segment::Index(n) => match element.as_u64() {
                        Some(m) => m == *n,
                        None => false,
                    },
                    Segment::Range(_, _) => {
                        assert(self@[j as int][i as int] is Range);
                        false
                    },
                };
                if !ok {
                    assert(!step_matches(self@[j as int][i as int], keys[i as int]));
                    return false;
                }
                i += 1;
            }
            j += 1;
        }
        true
    }

    /// Replaces every subtree of `value` whose path the selector matches by a copy of
    /// `redaction`; the copy is not searched again.
    pub fn redact(&self, value: Content, redaction: &Content) -> (r: Content)
        requires
            !has_range(self@),
        ensures
            redacted(self@, Seq::empty(), value, r, *redaction),
    {
        let mut path: Vec<Content> = Vec::new();
        assert(path_keys(path@) =~= Seq::<PathKey>::empty());
        self.redact_impl(&value, redaction, &mut path)
    }

    fn redact_impl(&self, value: &Content, redaction: &Content, path: &mut Vec<Content>) -> (r: Content)
        requires
            !has_range(self@),
        ensures
            final(path)@ == old(path)@,
            redacted(self@, path_keys(old(path)@), *value, r, *redaction),
        decreases *value,
    {
        if self.is_match(path.as_slice()) {
            return redaction.deep_clone();
        }
        match value {
            Content::List(v) => Content::List(self.redact_items(v, redaction, path)),
            Content::Tuple(v) => Content::Tuple(self.redact_items(v, redaction, path)),
            Content::TupleStruct(n, v) => Content::TupleStruct(
                n.clone(),
                self.redact_items(v, redaction, path),
            ),
            Content::TupleVariant(n, k, m, v) => Content::TupleVariant(
                n.clone(),
                *k,
                m.clone(),
                self.redact_items(v, redaction, path),
            ),
            Content::Mapping(v) => Content::Mapping(self.redact_entries(v, redaction, path)),
            Content::Struct(n, v) => Content::Struct(n.clone(), self.redact_fields(v, redaction, path)),
            Content::StructVariant(n, k, m, v) => Content::StructVariant(
                n.clone(),
                *k,
                m.clone(),
                self.redact_fields(v, redaction, path),
            ),
            _ => value.deep_clone(),
        }
    }

    /// Redacts the children of a positional container, child `i` at the path extended by `i`.
    fn redact_items(&self, v: &Vec<Content>, redaction: &Content, path: &mut Vec<Content>) -> (r: Vec<Content>)
        requires
            !has_range(self@),
        ensures
            final(path)@ == old(path)@,
            r@.len() == v@.len(),
            forall|i: int| 0 <= i < v@.len() ==> redacted(
                self@,
                path_keys(old(path)@).push(index_key(i)),
                #[trigger] v@[i],
                r@[i],
                *redaction,
            ),
        decreases v,
    {
        let ghost p0 = path@;
        let mut out: Vec<Content> = Vec::new();
        let mut i: usize = 0;
        while i < v.len()
            invariant
                !has_range(self@),
                path@ == p0,
                i <= v@.len(),
                out@.len() == i,
                forall|j: int| 0 <= j < i ==> redacted(
                    self@,
                    path_keys(p0).push(index_key(j)),
                    #[trigger] v@[j],
                    out@[j],
                    *redaction,
                ),
            decreases v@.len() - i,
        {
            let key = Content::U64(i as u64);
            proof {
                lemma_push_key(p0, key);
            }
            path.push(key);
            let x = self.redact_impl(&v[i], redaction, path);
            path.pop();
            out.push(x);
            i += 1;
        }
        out
    }

    /// Redacts the values of a mapping, each at the path extended by its key.
    fn redact_entries(
        &self,
        v: &Vec<(Content, Content)>,
        redaction: &Content,
        path: &mut Vec<Content>,
    ) -> (r: Vec<(Content, Content)>)
        requires
            !has_range(self@),
        ensures
            final(path)@ == old(path)@,
            r@.len() == v@.len(),
            forall|i: int| 0 <= i < v@.len() ==> {
                &&& same(#[trigger] v@[i].0, r@[i].0)
                &&& redacted(self@, path_keys(old(path)@).push(v@[i].0.key()), v@[i].1, r@[i].1, *redaction)
            },
        decreases v,
    {
        let ghost p0 = path@;
        let mut out: Vec<(Content, Content)> = Vec::new();
        let mut i: usize = 0;
        while i < v.len()
            invariant
                !has_range(self@),
                path@ == p0,
                i <= v@.len(),
                out@.len() == i,
                forall|j: int| 0 <= j < i ==> {
                    &&& same(#[trigger] v@[j].0, out@[j].0)
                    &&& redacted(self@, path_keys(p0).push(v@[j].0.key()), v@[j].1, out@[j].1, *redaction)
                },
            decreases v@.len() - i,
        {
            let key = v[i].0.deep_clone();
            proof {
                lemma_same_key(v@[i as int].0, key);
                lemma_push_key(p0, key);
            }
            path.push(key);
            let x = self.redact_impl(&v[i].1, redaction, path);
            path.pop();
            out.push((v[i].0.deep_clone(), x));
            i += 1;
        }
        out
    }

    /// Redacts the fields of a record, each at the path extended by its name.
    fn redact_fields(
        &self,
        v: &Vec<(String, Content)>,
        redaction: &Content,
        path: &mut Vec<Content>,
    ) -> (r: Vec<(String, Content)>)
        requires
            !has_range(self@),
        ensures
            final(path)@ == old(path)@,
            r@.len() == v@.len(),
            forall|i: int| 0 <= i < v@.len() ==> {
                &&& (#[trigger] v@[i]).0@ == r@[i].0@
                &&& redacted(self@, path_keys(old(path)@).push(text_key(v@[i].0@)), v@[i].1, r@[i].1, *redaction)
            },
        decreases v,
    {
        let ghost p0 = path@;
        let mut out: Vec<(String, Content)> = Vec::new();
        let mut i: usize = 0;
        while i < v.len()
            invariant
                !has_range(self@),
                path@ == p0,
                i <= v@.len(),
                out@.len() == i,
                forall|j: int| 0 <= j < i ==> {
                    &&& (#[trigger] v@[j]).0@ == out@[j].0@
                    &&& redacted(self@, path_keys(p0).push(text_key(v@[j].0@)), v@[j].1, out@[j].1, *redaction)
                },
            decreases v@.len() - i,
        {
            let key = Content::Str(v[i].0.clone());
            proof {
                lemma_push_key(p0, key);
            }
            path.push(key);
            let x = self.redact_impl(&v[i].1, redaction, path);
            path.pop();
            out.push((v[i].0.clone(), x));
            i += 1;
        }
        out
    }
}

/// A selector without alternatives matches every path.
pub proof fn law_no_alternatives_match_every_path(sel: Selector, path: Seq<PathKey>)
    requires
        sel@.len() == 0,
    ensures
        selector_matches(sel@, path),
{
}

/// A selector of one single-step pattern matches exactly the one-element paths
/// whose element that step accepts: a key by its exact text, an index by its
/// integer view, a wildcard anything.
pub proof fn law_single_step_pattern(step: Step, path: Seq<PathKey>)
    ensures
        selector_matches(seq![seq![step]], path) <==> (path.len() == 1 && step_matches(step, path[0])),
{
    let sel = seq![seq![step]];
    if selector_matches(sel, path) {
        assert(pattern_matches(sel[0], path));
        assert(step_matches(sel[0][0], path[0]));
    }
    if path.len() == 1 && step_matches(step, path[0]) {
        assert(pattern_matches(sel[0], path));
    }
}

/// Where the selector matches, the result is the replacement itself: nothing
/// inside the replacement is searched or redacted again.
pub proof fn law_replacement_is_not_searched(
    sel: Seq<Seq<Step>>,
    path: Seq<PathKey>,
    input: Content,
    output: Content,
    red: Content,
)
    requires
        selector_matches(sel, path),
        redacted(sel, path, input, output, red),
    ensures
        same(red, output),
{
}

/// Compiling the same text twice gives selectors with the same patterns.
pub proof fn law_parse_is_stable(text: Seq<char>, a: Selector, b: Selector)
    requires
        parse_selectors(text) is Ok,
        a@ == parse_selectors(text)->Ok_0,
        b@ == parse_selectors(text)->Ok_0,
    ensures
        a@ == b@,
{
}

} // verus!
