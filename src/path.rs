use vstd::prelude::*;
use crate::text::{chars_of, push_chars, string_from_chars};

verus! {

/// One step of a path.
#[derive(Debug, PartialEq, Eq)]
pub enum Segment {
    /// An object member name, or an array index written in decimal (`-` for
    /// the end of an array).
    Field(String),
    /// Selects the first array element whose members match every
    /// `(name, value)` condition.
    Filter(Vec<(String, String)>),
}

/// The mathematical form of a segment.
pub enum Seg {
    Field(Seq<char>),
    Filter(Seq<(Seq<char>, Seq<char>)>),
}

pub open spec fn conds_view(cs: Seq<(String, String)>) -> Seq<(Seq<char>, Seq<char>)> {
    cs.map_values(|c: (String, String)| (c.0@, c.1@))
}

impl View for Segment {
    type V = Seg;

    open spec fn view(&self) -> Seg {
        match self {
            Segment::Field(f) => Seg::Field(f@),
            Segment::Filter(cs) => Seg::Filter(conds_view(cs@)),
        }
    }
}

/// A path into a document: a sequence of segments, the root being the empty
/// sequence.
#[derive(Debug, Default, PartialEq, Eq)]
pub struct Spath {
    pub segments: Vec<Segment>,
}

pub open spec fn segs_view(v: Seq<Segment>) -> Seq<Seg> {
    v.map_values(|s: Segment| s@)
}

impl View for Spath {
    type V = Seq<Seg>;

    open spec fn view(&self) -> Seq<Seg> {
        segs_view(self.segments@)
    }
}

/// A path that cannot be parsed.
#[derive(Debug, PartialEq, Eq)]
pub enum PathError {
    /// The text is not a path; `position` is the byte offset of the first
    /// character that does not fit.
    InvalidSyntax { position: usize, message: String },
}

impl PathError {
    pub fn invalid_syntax(position: usize, message: &str) -> (r: Self)
        ensures
            r == (PathError::InvalidSyntax { position, message: r->message }),
            r->message@ == message@,
    {
        PathError::InvalidSyntax { position, message: message.to_owned() }
    }
}

/// Copies a list of filter conditions.
pub fn clone_conds(cs: &Vec<(String, String)>) -> (r: Vec<(String, String)>)
    ensures
        conds_view(r@) == conds_view(cs@),
{
    let mut out: Vec<(String, String)> = Vec::new();
    let mut i: usize = 0;
    while i < cs.len()
        invariant
            i <= cs.len(),
            out@.len() == i,
            forall|j: int| 0 <= j < i ==> #[trigger] out@[j].0@ == cs@[j].0@ && out@[j].1@ == cs@[j].1@,
        decreases cs.len() - i,
    {
        out.push((cs[i].0.clone(), cs[i].1.clone()));
        i += 1;
    }
    assert(conds_view(out@) =~= conds_view(cs@));
    out
}

impl Clone for Segment {
    fn clone(&self) -> (r: Self)
        ensures
            r@ == self@,
    {
        match self {
            Segment::Field(f) => Segment::Field(f.clone()),
            Segment::Filter(cs) => Segment::Filter(clone_conds(cs)),
        }
    }
}

/// The text of one filter condition list: `k1=v1,k2=v2`.
pub open spec fn conds_text(cs: Seq<(Seq<char>, Seq<char>)>) -> Seq<char>
    decreases cs.len(),
{
    if cs.len() == 0 {
        Seq::empty()
    } else if cs.len() == 1 {
        cs[0].0 + seq!['='] + cs[0].1
    } else {
        conds_text(cs.drop_last()) + seq![','] + cs.last().0 + seq!['='] + cs.last().1
    }
}

/// One character of a field name as written in a path: `~` as `~0`, `/` as
/// `~1`, any other as itself.
pub open spec fn escape_char(c: char) -> Seq<char> {
    if c == '~' {
        seq!['~', '0']
    } else if c == '/' {
        seq!['~', '1']
    } else {
        seq![c]
    }
}

/// A field name as written in a path.
pub open spec fn escape(f: Seq<char>) -> Seq<char>
    decreases f.len(),
{
    if f.len() == 0 {
        Seq::empty()
    } else {
        escape(f.drop_last()) + escape_char(f.last())
    }
}

/// The text of a segment, with its leading `/`.
pub open spec fn seg_text(s: Seg) -> Seq<char> {
    match s {
        Seg::Field(f) => seq!['/'] + escape(f),
        Seg::Filter(cs) => seq!['/', '['] + conds_text(cs) + seq![']'],
    }
}

/// The text of a path: its segments' texts one after the other.
pub open spec fn path_text(p: Seq<Seg>) -> Seq<char>
    decreases p.len(),
{
    if p.len() == 0 {
        Seq::empty()
    } else {
        path_text(p.drop_last()) + seg_text(p.last())
    }
}

/// Whether `a` is a proper prefix of `b`.
pub open spec fn proper_prefix(a: Seq<Seg>, b: Seq<Seg>) -> bool {
    a.len() < b.len() && b.subrange(0, a.len() as int) == a
}

impl Spath {
    /// The root path.
    pub fn root() -> (r: Spath)
        ensures
            r@ == Seq::<Seg>::empty(),
    {
        let r = Spath { segments: Vec::new() };
        assert(r@ =~= Seq::<Seg>::empty());
        r
    }

    pub fn is_empty(&self) -> (r: bool)
        ensures
            r == (self@.len() == 0),
    {
        self.segments.len() == 0
    }

    pub fn len(&self) -> (r: usize)
        ensures
            r == self@.len(),
    {
        self.segments.len()
    }

    /// A copy of this path.
    pub fn duplicate(&self) -> (r: Spath)
        ensures
            r@ == self@,
    {
        let mut segments: Vec<Segment> = Vec::new();
        let mut i: usize = 0;
        while i < self.segments.len()
            invariant
                i <= self.segments.len(),
                segments@.len() == i,
                forall|j: int| 0 <= j < i ==> #[trigger] segments@[j]@ == self.segments@[j]@,
            decreases self.segments.len() - i,
        {
            segments.push(self.segments[i].clone());
            i += 1;
        }
        let r = Spath { segments };
        assert(r@ =~= self@);
        r
    }

    /// This path extended by one segment.
    pub fn push(&self, segment: Segment) -> (r: Spath)
        ensures
            r@ == self@.push(segment@),
    {
        let mut p = self.duplicate();
        p.segments.push(segment);
        assert(p@ =~= self@.push(segment@));
        p
    }

    /// This path extended by a filter with the single condition `key=value`.
    pub fn push_filter(&self, key: &str, value: &str) -> (r: Spath)
        ensures
            r@ == self@.push(Seg::Filter(seq![(key@, value@)])),
    {
        let mut cs: Vec<(String, String)> = Vec::new();
        cs.push((key.to_owned(), value.to_owned()));
        assert(conds_view(cs@) =~= seq![(key@, value@)]);
        self.push(Segment::Filter(cs))
    }

    /// The path without its last segment; `None` for the root.
    pub fn parent(&self) -> (r: Option<Spath>)
        ensures
            self@.len() == 0 ==> r is None,
            self@.len() > 0 ==> r is Some && r->0@ == self@.drop_last(),
    {
        if self.segments.len() == 0 {
            None
        } else {
            let mut p = self.duplicate();
            p.segments.pop();
            assert(p@ =~= self@.drop_last());
            Some(p)
        }
    }

    /// The name in the last segment, where the path ends in a field.
    pub fn field(&self) -> (r: Option<String>)
        ensures
            match r {
                Some(f) => self@.len() > 0 && self@.last() == Seg::Field(f@),
                None => self@.len() == 0 || self@.last() is Filter,
            },
    {
        let n = self.segments.len();
        if n == 0 {
            return None;
        }
        match &self.segments[n - 1] {
            Segment::Field(f) => Some(f.clone()),
            Segment::Filter(_) => None,
        }
    }

    /// The last segment, where there is one.
    pub fn last_segment(&self) -> (r: Option<&Segment>)
        ensures
            match r {
                Some(s) => self@.len() > 0 && s@ == self@.last(),
                None => self@.len() == 0,
            },
    {
        let n = self.segments.len();
        if n == 0 {
            None
        } else {
            Some(&self.segments[n - 1])
        }
    }

    /// Whether this path is a proper prefix of `other`, that is, whether it
    /// leads to a value that holds the one `other` leads to.
    pub fn is_parent_of(&self, other: &Spath) -> (r: bool)
        ensures
            r == proper_prefix(self@, other@),
    {
        let n = self.segments.len();
        if n >= other.segments.len() {
            return false;
        }
        let mut i: usize = 0;
        while i < n
            invariant
                n == self@.len(),
                n < other@.len(),
                i <= n,
                forall|j: int| 0 <= j < i ==> self@[j] == other@[j],
            decreases n - i,
        {
            if !same_segment(&self.segments[i], &other.segments[i]) {
                assert(other@.subrange(0, n as int)[i as int] == other@[i as int]);
                return false;
            }
            i += 1;
        }
        assert(other@.subrange(0, n as int) =~= self@);
        true
    }

    /// Whether two paths have the same segments.
    pub fn same(&self, other: &Spath) -> (r: bool)
        ensures
            r == (self@ == other@),
    {
        let n = self.segments.len();
        if n != other.segments.len() {
            return false;
        }
        let mut i: usize = 0;
        while i < n
            invariant
                n == self@.len(),
                n == other@.len(),
                i <= n,
                forall|j: int| 0 <= j < i ==> self@[j] == other@[j],
            decreases n - i,
        {
            if !same_segment(&self.segments[i], &other.segments[i]) {
                assert(self@[i as int] != other@[i as int]);
                return false;
            }
            i += 1;
        }
        assert(self@ =~= other@);
        true
    }

    /// The text of the path, as `path_text` gives it.
    pub fn to_text(&self) -> (r: String)
        ensures
            r@ == path_text(self@),
    {
        let mut out: Vec<char> = Vec::new();
        let mut i: usize = 0;
        while i < self.segments.len()
            invariant
                i <= self.segments.len(),
                out@ == path_text(self@.subrange(0, i as int)),
            decreases self.segments.len() - i,
        {
            push_segment_text(&mut out, &self.segments[i]);
            proof {
                let p = self@.subrange(0, i as int + 1);
                assert(p.drop_last() =~= self@.subrange(0, i as int));
            }
            i += 1;
        }
        assert(self@.subrange(0, i as int) =~= self@);
        string_from_chars(&out)
    }
}

/// Appends the text of one segment.
fn push_segment_text(out: &mut Vec<char>, s: &Segment)
    ensures
        final(out)@ == old(out)@ + seg_text(s@),
{
    out.push('/');
    match s {
        Segment::Field(f) => {
            let fc = chars_of(f.as_str());
            let ghost start = out@;
            let mut i: usize = 0;
            while i < fc.len()
                invariant
                    i <= fc.len(),
                    out@ == start + escape(fc@.subrange(0, i as int)),
                decreases fc.len() - i,
            {
                let c = fc[i];
                if c == '~' {
                    out.push('~');
                    out.push('0');
                } else if c == '/' {
                    out.push('~');
                    out.push('1');
                } else {
                    out.push(c);
                }
                proof {
                    let a = fc@.subrange(0, i as int + 1);
                    assert(a.drop_last() =~= fc@.subrange(0, i as int));
                    assert(a.last() == c);
                    assert(out@ =~= start + escape(a));
                }
                i += 1;
            }
            assert(fc@.subrange(0, i as int) =~= f@);
            assert(final(out)@ =~= old(out)@ + seg_text(s@));
        },
        Segment::Filter(cs) => {
            out.push('[');
            let ghost start = out@;
            let mut i: usize = 0;
            while i < cs.len()
                invariant
                    i <= cs.len(),
                    out@ == start + conds_text(conds_view(cs@.subrange(0, i as int))),
                decreases cs.len() - i,
            {
                if i > 0 {
                    out.push(',');
                }
                push_chars(out, cs[i].0.as_str());
                out.push('=');
                push_chars(out, cs[i].1.as_str());
                proof {
                    let a = conds_view(cs@.subrange(0, i as int + 1));
                    assert(a.drop_last() =~= conds_view(cs@.subrange(0, i as int)));
                    assert(out@ =~= start + conds_text(a));
                }
                i += 1;
            }
            out.push(']');
            assert(cs@.subrange(0, i as int) =~= cs@);
            assert(out@ =~= old(out)@ + seg_text(s@));
        },
    }
}

/// Whether two segments are the same.
pub fn same_segment(a: &Segment, b: &Segment) -> (r: bool)
    ensures
        r == (a@ == b@),
{
    match (a, b) {
        (Segment::Field(x), Segment::Field(y)) => *x == *y,
        (Segment::Filter(xs), Segment::Filter(ys)) => {
            if xs.len() != ys.len() {
                assert(conds_view(xs@).len() != conds_view(ys@).len());
                return false;
            }
            let mut i: usize = 0;
            while i < xs.len()
                invariant
                    i <= xs.len(),
                    xs.len() == ys.len(),
                    *a == Segment::Filter(*xs),
                    *b == Segment::Filter(*ys),
                    forall|j: int| 0 <= j < i ==> conds_view(xs@)[j] == conds_view(ys@)[j],
                decreases xs.len() - i,
            {
                if xs[i].0 != ys[i].0 || xs[i].1 != ys[i].1 {
                    assert(conds_view(xs@)[i as int] != conds_view(ys@)[i as int]);
                    assert(a@ == Seg::Filter(conds_view(xs@)));
                    assert(b@ == Seg::Filter(conds_view(ys@)));
                    return false;
                }
                i += 1;
            }
            assert(conds_view(xs@) =~= conds_view(ys@));
            true
        },
        _ => false,
    }
}

} // verus!
