//! Field paths: ordered sequences of addressing segments, with a parser
//! for the textual form `a.b[0]."quoted field".c` and its inverse renderer.

use vstd::prelude::*;

verus! {

/// One addressing step of a path: a field name or an array index.
///
/// A field segment that was written in quotes keeps its quotes in the
/// stored name: quoting is structural, not an escape mechanism.
#[derive(Debug)]
pub enum Segment {
    Field(String),
    Index(usize),
}

impl Clone for Segment {
    fn clone(&self) -> (r: Segment)
        ensures
            r@ == self@,
    {
        match self {
            Segment::Field(s) => Segment::Field(s.clone()),
            Segment::Index(i) => Segment::Index(*i),
        }
    }
}

/// The mathematical model of a [`Segment`].
pub enum SegView {
    Field(Seq<char>),
    Index(int),
}

impl View for Segment {
    type V = SegView;

    open spec fn view(&self) -> SegView {
        match self {
            Segment::Field(s) => SegView::Field(s@),
            Segment::Index(i) => SegView::Index(*i as int),
        }
    }
}

impl Segment {
    /// A field segment with the given name, taken verbatim.
    pub fn field(name: &str) -> (r: Segment)
        ensures
            r@ == SegView::Field(name@),
    {
        Segment::Field(name.to_owned())
    }

    /// An index segment.
    pub fn index(i: usize) -> (r: Segment)
        ensures
            r@ == SegView::Index(i as int),
    {
        Segment::Index(i)
    }

    /// A whole string as one field segment, with no interpretation.
    pub fn from(name: &str) -> (r: Segment)
        ensures
            r@ == SegView::Field(name@),
    {
        Segment::Field(name.to_owned())
    }
}

impl PartialEq for Segment {
    fn eq(&self, other: &Segment) -> (r: bool) {
        match (self, other) {
            (Segment::Field(a), Segment::Field(b)) => a.eq(b),
            (Segment::Index(a), Segment::Index(b)) => *a == *b,
            _ => false,
        }
    }
}

impl vstd::std_specs::cmp::PartialEqSpecImpl for Segment {
    open spec fn obeys_eq_spec() -> bool {
        true
    }

    open spec fn eq_spec(&self, other: &Segment) -> bool {
        self@ == other@
    }
}

/// Why a textual path failed to parse.
#[derive(Debug, Clone, Copy, PartialEq, Eq, Structural)]
pub enum LookupError {
    /// The input was the empty string. A path has at least one segment.
    EmptyPath,
    /// The input did not follow the path grammar, or an index overflowed.
    InvalidPath,
}

/// An ordered sequence of [`Segment`]s addressing a place in a value tree.
///
/// A path produced by the parser has at least one segment; zero-length
/// textual paths are a parse error, never a value.
#[derive(Debug)]
pub struct Lookup {
    segments: Vec<Segment>,
}

impl Clone for Lookup {
    fn clone(&self) -> (r: Lookup)
        ensures
            r@ == self@,
    {
        let mut segments: Vec<Segment> = Vec::new();
        let n = self.segments.len();
        let mut i: usize = 0;
        while i < n
            invariant
                n == self.segments.len(),
                self@.len() == n,
                i <= n,
                segments@.len() == i,
                views_of(segments@) =~= self@.take(i as int),
            decreases n - i,
        {
            let ghost pre = segments@;
            let seg = self.segments[i].clone();
            proof {
                assert(seg@ == self.segments@[i as int]@);
            }
            segments.push(seg);
            proof {
                assert(segments@ == pre.push(seg));
                assert forall|k: int| 0 <= k < i + 1 implies views_of(segments@)[k] == self@.take(
                    (i + 1) as int,
                )[k] by {
                    assert(views_of(segments@)[k] == segments@[k]@);
                    assert(self@[k] == self.segments@[k]@);
                    if k < i {
                        assert(views_of(pre)[k] == pre[k]@);
                        assert(views_of(pre)[k] == self@.take(i as int)[k]);
                    }
                }
                assert(views_of(segments@) =~= self@.take((i + 1) as int));
            }
            i = i + 1;
        }
        proof {
            assert(views_of(segments@) =~= self@);
        }
        Lookup { segments }
    }
}

/// The views of a sequence of segments, in order.
pub open spec fn views_of(segs: Seq<Segment>) -> Seq<SegView> {
    Seq::new(segs.len(), |i: int| segs[i]@)
}

impl View for Lookup {
    type V = Seq<SegView>;

    closed spec fn view(&self) -> Seq<SegView> {
        views_of(self.segments@)
    }
}

impl PartialEq for Lookup {
    fn eq(&self, other: &Lookup) -> (r: bool)
        ensures
            r == (self@ == other@),
    {
        let n = self.segments.len();
        if n != other.segments.len() {
            proof {
                assert(self@.len() != other@.len());
            }
            return false;
        }
        let mut i: usize = 0;
        while i < n
            invariant
                n == self.segments.len() == other.segments.len(),
                i <= n,
                forall|k: int| 0 <= k < i ==> self@[k] == other@[k],
            decreases n - i,
        {
            if !(self.segments[i] == other.segments[i]) {
                proof {
                    assert(self@[i as int] != other@[i as int]);
                }
                return false;
            }
            i = i + 1;
        }
        proof {
            assert(self@ =~= other@);
        }
        true
    }
}

impl vstd::std_specs::cmp::PartialEqSpecImpl for Lookup {
    open spec fn obeys_eq_spec() -> bool {
        true
    }

    open spec fn eq_spec(&self, other: &Lookup) -> bool {
        self@ == other@
    }
}

impl Lookup {
    /// The path holding exactly the given segments.
    pub fn new(segments: Vec<Segment>) -> (r: Lookup)
        ensures
            r@ == views_of(segments@),
    {
        Lookup { segments }
    }

    /// A whole string as a single field segment, with no interpretation
    /// of `.`, `[` or `"`: for callers that know the string is one key.
    pub fn from(s: &str) -> (r: Lookup)
        ensures
            r@ == seq![SegView::Field(s@)],
    {
        let mut segments: Vec<Segment> = Vec::new();
        segments.push(Segment::field(s));
        proof {
            assert(views_of(segments@) =~= seq![SegView::Field(s@)]);
        }
        Lookup { segments }
    }

    /// How many segments the path has.
    pub fn len(&self) -> (r: usize)
        ensures
            r == self@.len(),
    {
        self.segments.len()
    }

    /// Whether the path has no segments. A parsed path never is.
    pub fn is_empty(&self) -> (r: bool)
        ensures
            r == (self@.len() == 0),
    {
        self.segments.len() == 0
    }

    /// The segment at position `i` over the flattened segment sequence.
    pub fn get(&self, i: usize) -> (r: &Segment)
        requires
            i < self@.len(),
        ensures
            r@ == self@[i as int],
    {
        &self.segments[i]
    }

    /// Replaces the segment at position `i`.
    pub fn set(&mut self, i: usize, seg: Segment)
        requires
            i < old(self)@.len(),
        ensures
            final(self)@ == old(self)@.update(i as int, seg@),
    {
        self.segments[i] = seg;
        proof {
            assert(final(self)@ =~= old(self)@.update(i as int, seg@));
        }
    }

    /// Appends a segment at the tail.
    pub fn push(&mut self, seg: Segment)
        ensures
            final(self)@ == old(self)@.push(seg@),
    {
        self.segments.push(seg);
        proof {
            assert(final(self)@ =~= old(self)@.push(seg@));
        }
    }

    /// Removes and returns the tail segment, if any.
    pub fn pop(&mut self) -> (r: Option<Segment>)
        ensures
            old(self)@.len() == 0 ==> r is None && final(self)@ == old(self)@,
            old(self)@.len() > 0 ==> (r matches Some(s) && s@ == old(self)@.last()
                && final(self)@ == old(self)@.drop_last()),
    {
        if self.segments.len() == 0 {
            None
        } else {
            let s = self.segments.pop().unwrap();
            proof {
                assert(final(self)@ =~= old(self)@.drop_last());
            }
            Some(s)
        }
    }

    /// The segments from position `from` (inclusive) to `to` (exclusive),
    /// as a fresh vector.
    pub fn slice(&self, from: usize, to: usize) -> (r: Vec<Segment>)
        requires
            from <= to <= self@.len(),
        ensures
            views_of(r@) == self@.subrange(from as int, to as int),
    {
        let mut out: Vec<Segment> = Vec::new();
        let mut i: usize = from;
        while i < to
            invariant
                from <= i <= to <= self.segments.len(),
                self@.len() == self.segments.len(),
                out@.len() == i - from,
                views_of(out@) =~= self@.subrange(from as int, i as int),
            decreases to - i,
        {
            let ghost pre = out@;
            let seg = self.segments[i].clone();
            proof {
                assert(seg@ == self@[i as int]);
            }
            out.push(seg);
            proof {
                assert(out@ == pre.push(seg));
                assert forall|k: int| 0 <= k < i + 1 - from implies views_of(out@)[k]
                    == self@.subrange(from as int, (i + 1) as int)[k] by {
                    assert(views_of(out@)[k] == out@[k]@);
                    if k < i - from {
                        assert(views_of(pre)[k] == pre[k]@);
                        assert(views_of(pre)[k] == self@.subrange(from as int, i as int)[k]);
                    }
                }
                assert(views_of(out@) =~= self@.subrange(from as int, (i + 1) as int));
            }
            i = i + 1;
        }
        proof {
            assert(views_of(out@) =~= self@.subrange(from as int, to as int));
        }
        out
    }

    /// The segments, front to back, for iteration by reference.
    pub fn segments(&self) -> (r: &Vec<Segment>)
        ensures
            views_of(r@) == self@,
    {
        &self.segments
    }

    /// The segments, front to back, consuming the path.
    pub fn into_segments(self) -> (r: Vec<Segment>)
        ensures
            views_of(r@) == self@,
    {
        self.segments
    }

    /// Appends all segments of `other`, mutating `self`.
    pub fn extend(&mut self, other: Lookup)
        ensures
            final(self)@ == old(self)@ + other@,
    {
        let rest = other.segments;
        let n = rest.len();
        let mut i: usize = 0;
        while i < n
            invariant
                n == rest.len(),
                i <= n,
                self.segments@.len() == old(self)@.len() + i,
                views_of(self.segments@) =~= old(self)@ + views_of(rest@).take(i as int),
            decreases n - i,
        {
            let ghost pre = self.segments@;
            let seg = rest[i].clone();
            proof {
                assert(seg@ == views_of(rest@)[i as int]);
            }
            self.segments.push(seg);
            proof {
                assert(self.segments@ == pre.push(seg));
                assert forall|k: int| 0 <= k < pre.len() + 1 implies views_of(self.segments@)[k]
                    == (old(self)@ + views_of(rest@).take((i + 1) as int))[k] by {
                    assert(views_of(self.segments@)[k] == self.segments@[k]@);
                    if k < pre.len() {
                        assert(views_of(pre)[k] == pre[k]@);
                        assert(views_of(pre)[k] == (old(self)@ + views_of(rest@).take(
                            i as int,
                        ))[k]);
                    }
                }
                assert(views_of(self.segments@) =~= old(self)@ + views_of(rest@).take(
                    (i + 1) as int,
                ));
            }
            i = i + 1;
        }
        proof {
            assert(views_of(rest@).take(n as int) =~= views_of(rest@));
            assert(final(self)@ =~= old(self)@ + views_of(rest@));
        }
    }
}

} // verus!
