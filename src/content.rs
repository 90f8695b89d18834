use vstd::prelude::*;

verus! {

/// A generic value tree: scalar leaves and seven kinds of containers.
#[derive(Debug, PartialEq)]
pub enum Content {
    Bool(bool),
    U64(u64),
    I64(i64),
    Char(char),
    Str(String),
    Unit,
    Null,
    /// An ordered sequence.
    List(Vec<Content>),
    /// A fixed-arity tuple.
    Tuple(Vec<Content>),
    /// A named record with positional fields.
    TupleStruct(String, Vec<Content>),
    /// A tagged variant with positional fields: type name, variant index, variant name.
    TupleVariant(String, u32, String, Vec<Content>),
    /// An ordered key/value mapping.
    Mapping(Vec<(Content, Content)>),
    /// A named record with named fields.
    Struct(String, Vec<(String, Content)>),
    /// A tagged variant with named fields: type name, variant index, variant name.
    StructVariant(String, u32, String, Vec<(String, Content)>),
}

/// What a path element offers to matching: its text view and its unsigned-integer view.
pub struct PathKey {
    pub text: Option<Seq<char>>,
    pub index: Option<u64>,
}

/// Two sequences of children that are pairwise `same`.
pub open spec fn same_items(x: Seq<Content>, y: Seq<Content>) -> bool
    decreases x,
{
    x.len() == y.len() && forall|i: int| 0 <= i < x.len() ==> same(#[trigger] x[i], y[i])
}

/// Deep structural equality of two trees, comparing strings by their characters.
pub open spec fn same(a: Content, b: Content) -> bool
    decreases a,
{
    match a {
        Content::Str(s) => b is Str && b->Str_0@ == s@,
        Content::List(v) => b is List && v@.len() == b->List_0@.len()
            && forall|i: int| 0 <= i < v@.len() ==> same(#[trigger] v@[i], b->List_0@[i]),
        Content::Tuple(v) => b is Tuple && v@.len() == b->Tuple_0@.len()
            && forall|i: int| 0 <= i < v@.len() ==> same(#[trigger] v@[i], b->Tuple_0@[i]),
        Content::TupleStruct(n, v) => b is TupleStruct && b->TupleStruct_0@ == n@
            && v@.len() == b->TupleStruct_1@.len()
            && forall|i: int| 0 <= i < v@.len() ==> same(#[trigger] v@[i], b->TupleStruct_1@[i]),
        Content::TupleVariant(n, k, m, v) => b is TupleVariant && b->TupleVariant_0@ == n@
            && b->TupleVariant_1 == k && b->TupleVariant_2@ == m@
            && v@.len() == b->TupleVariant_3@.len()
            && forall|i: int| 0 <= i < v@.len() ==> same(#[trigger] v@[i], b->TupleVariant_3@[i]),
        Content::Mapping(v) => b is Mapping && v@.len() == b->Mapping_0@.len()
            && forall|i: int| 0 <= i < v@.len() ==> {
                &&& same(#[trigger] v@[i].0, b->Mapping_0@[i].0)
                &&& same(v@[i].1, b->Mapping_0@[i].1)
            },
        Content::Struct(n, v) => b is Struct && b->Struct_0@ == n@
            && v@.len() == b->Struct_1@.len()
            && forall|i: int| 0 <= i < v@.len() ==> {
                &&& (#[trigger] v@[i]).0@ == b->Struct_1@[i].0@
                &&& same(v@[i].1, b->Struct_1@[i].1)
            },
        Content::StructVariant(n, k, m, v) => b is StructVariant && b->StructVariant_0@ == n@
            && b->StructVariant_1 == k && b->StructVariant_2@ == m@
            && v@.len() == b->StructVariant_3@.len()
            && forall|i: int| 0 <= i < v@.len() ==> {
                &&& (#[trigger] v@[i]).0@ == b->StructVariant_3@[i].0@
                &&& same(v@[i].1, b->StructVariant_3@[i].1)
            },
        _ => a == b,
    }
}

impl Content {
    /// The text view: the characters of a string leaf.
    pub open spec fn text_view(self) -> Option<Seq<char>> {
        match self {
            Content::Str(s) => Some(s@),
            _ => None,
        }
    }

    /// The unsigned-integer view: an integer leaf that is not negative.
    pub open spec fn index_view(self) -> Option<u64> {
        match self {
            Content::U64(n) => Some(n),
            Content::I64(n) => if n >= 0 { Some(n as u64) } else { None },
            _ => None,
        }
    }

    /// Both views, as a path element offers them to matching.
    pub open spec fn key(self) -> PathKey {
        PathKey { text: self.text_view(), index: self.index_view() }
    }

    /// The text of a string leaf.
    pub fn as_str(&self) -> (r: Option<&str>)
        ensures
            match r {
                Some(s) => self.text_view() == Some(s@),
                None => self.text_view() is None,
            },
    {
        match self {
            Content::Str(s) => Some(s.as_str()),
            _ => None,
        }
    }

    /// The value of an integer leaf that is not negative.
    pub fn as_u64(&self) -> (r: Option<u64>)
        ensures
            r == self.index_view(),
    {
        match self {
            Content::U64(n) => Some(*n),
            Content::I64(n) => if *n >= 0 { Some(*n as u64) } else { None },
            _ => None,
        }
    }

    /// A deep copy of the tree.
    pub fn deep_clone(&self) -> (r: Content)
        ensures
            same(*self, r),
        decreases *self,
    {
        match self {
            Content::Bool(b) => Content::Bool(*b),
            Content::U64(n) => Content::U64(*n),
            Content::I64(n) => Content::I64(*n),
            Content::Char(c) => Content::Char(*c),
            Content::Str(s) => Content::Str(s.clone()),
            Content::Unit => Content::Unit,
            Content::Null => Content::Null,
            Content::List(v) => Content::List(clone_items(v)),
            Content::Tuple(v) => Content::Tuple(clone_items(v)),
            Content::TupleStruct(n, v) => Content::TupleStruct(n.clone(), clone_items(v)),
            Content::TupleVariant(n, k, m, v) => Content::TupleVariant(
                n.clone(),
                *k,
                m.clone(),
                clone_items(v),
            ),
            Content::Mapping(v) => Content::Mapping(clone_entries(v)),
            Content::Struct(n, v) => Content::Struct(n.clone(), clone_fields(v)),
            Content::StructVariant(n, k, m, v) => Content::StructVariant(
                n.clone(),
                *k,
                m.clone(),
                clone_fields(v),
            ),
        }
    }
}

fn clone_items(v: &Vec<Content>) -> (r: Vec<Content>)
    ensures
        r@.len() == v@.len(),
        forall|i: int| 0 <= i < v@.len() ==> same(#[trigger] v@[i], r@[i]),
    decreases v,
{
    let mut out: Vec<Content> = Vec::new();
    let mut i: usize = 0;
    while i < v.len()
        invariant
            i <= v@.len(),
            out@.len() == i,
            forall|j: int| 0 <= j < i ==> same(#[trigger] v@[j], out@[j]),
        decreases v@.len() - i,
    {
        out.push(v[i].deep_clone());
        i += 1;
    }
    out
}

fn clone_entries(v: &Vec<(Content, Content)>) -> (r: Vec<(Content, Content)>)
    ensures
        r@.len() == v@.len(),
        forall|i: int| 0 <= i < v@.len() ==> {
            &&& same(#[trigger] v@[i].0, r@[i].0)
            &&& same(v@[i].1, r@[i].1)
        },
    decreases v,
{
    let mut out: Vec<(Content, Content)> = Vec::new();
    let mut i: usize = 0;
    while i < v.len()
        invariant
            i <= v@.len(),
            out@.len() == i,
            forall|j: int| 0 <= j < i ==> {
                &&& same(#[trigger] v@[j].0, out@[j].0)
                &&& same(v@[j].1, out@[j].1)
            },
        decreases v@.len() - i,
    {
        let k = v[i].0.deep_clone();
        let x = v[i].1.deep_clone();
        out.push((k, x));
        i += 1;
    }
    out
}

fn clone_fields(v: &Vec<(String, Content)>) -> (r: Vec<(String, Content)>)
    ensures
        r@.len() == v@.len(),
        forall|i: int| 0 <= i < v@.len() ==> {
            &&& (#[trigger] v@[i]).0@ == r@[i].0@
            &&& same(v@[i].1, r@[i].1)
        },
    decreases v,
{
    let mut out: Vec<(String, Content)> = Vec::new();
    let mut i: usize = 0;
    while i < v.len()
        invariant
            i <= v@.len(),
            out@.len() == i,
            forall|j: int| 0 <= j < i ==> {
                &&& (#[trigger] v@[j]).0@ == out@[j].0@
                &&& same(v@[j].1, out@[j].1)
            },
        decreases v@.len() - i,
    {
        out.push((v[i].0.clone(), v[i].1.deep_clone()));
        i += 1;
    }
    out
}

} // verus!
