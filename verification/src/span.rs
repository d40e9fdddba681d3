//! Byte positions and source ranges.
//!
//! A [`BytePos`] is an offset into one file. Every query is keyed by a file, so
//! the file is always known from context, and positions in one file are
//! unaffected by edits to any other.
use crate::text;
use std::ops::Add;
use vstd::prelude::*;
use vstd::string::*;
use vstd::utf8::*;

verus! {

/// A byte offset into one source file.
///
/// The width caps a single file at four gibibytes.
#[derive(Copy, Clone, PartialEq, Eq, Structural, PartialOrd, Ord, Hash, Debug)]
pub struct BytePos(pub u32);

impl BytePos {
    /// The start of a file.
    pub fn zero() -> (pos: BytePos)
        ensures
            pos == BytePos(0),
    {
        BytePos(0)
    }
}

impl vstd::std_specs::ops::AddSpecImpl<u32> for BytePos {
    open spec fn obeys_add_spec() -> bool {
        true
    }

    open spec fn add_req(self, rhs: u32) -> bool {
        self.0 + rhs <= u32::MAX
    }

    open spec fn add_spec(self, rhs: u32) -> BytePos {
        BytePos((self.0 + rhs) as u32)
    }
}

impl Add<u32> for BytePos {
    type Output = BytePos;

    fn add(self, rhs: u32) -> (sum: BytePos) {
        BytePos(self.0 + rhs)
    }
}

/// A half-open byte range `[lo, hi)` within one source file.
///
/// Attached to everything the compiler can complain about. Diagnostics are only
/// as good as the spans reaching them, so nearly every syntactic item carries
/// one.
#[derive(Copy, Clone, PartialEq, Eq, Structural, Hash, Debug)]
pub struct Span {
    lo: BytePos,
    hi: BytePos,
}

impl Span {
    /// The span from `lo` to `hi`, as a mathematical value.
    pub closed spec fn of(lo: BytePos, hi: BytePos) -> Span {
        Span { lo, hi }
    }

    /// Where the span starts.
    pub closed spec fn spec_lo(self) -> BytePos {
        self.lo
    }

    /// Where the span ends.
    pub closed spec fn spec_hi(self) -> BytePos {
        self.hi
    }

    /// A span is well formed when it is not inverted.
    pub open spec fn wf(self) -> bool {
        self.spec_lo().0 <= self.spec_hi().0
    }

    /// Every bound of `other` lies within the bounds of this span.
    pub open spec fn covers(self, other: Span) -> bool {
        self.spec_lo().0 <= other.spec_lo().0 && other.spec_hi().0 <= self.spec_hi().0
    }

    /// The span from the lesser start to the greater end of the two.
    pub open spec fn union(self, other: Span) -> Span {
        Span::of(
            if other.spec_lo().0 < self.spec_lo().0 {
                other.spec_lo()
            } else {
                self.spec_lo()
            },
            if other.spec_hi().0 > self.spec_hi().0 {
                other.spec_hi()
            } else {
                self.spec_hi()
            },
        )
    }

    /// A span is determined by its two ends.
    pub broadcast proof fn lemma_of(lo: BytePos, hi: BytePos)
        ensures
            (#[trigger] Span::of(lo, hi)).spec_lo() == lo,
            Span::of(lo, hi).spec_hi() == hi,
    {
    }

    /// Two spans with the same ends are the same span.
    pub proof fn lemma_ends_determine(a: Span, b: Span)
        requires
            a.spec_lo() == b.spec_lo(),
            a.spec_hi() == b.spec_hi(),
        ensures
            a == b,
    {
    }

    /// The union of two spans covers both of them, and is covered by every span
    /// that does.
    pub proof fn lemma_union_is_smallest(a: Span, b: Span, outer: Span)
        ensures
            a.union(b).covers(a),
            a.union(b).covers(b),
            outer.covers(a) && outer.covers(b) ==> outer.covers(a.union(b)),
            a.wf() && b.wf() ==> a.union(b).wf(),
    {
    }

    /// The order in which spans are united does not matter.
    pub proof fn lemma_union_commutes(a: Span, b: Span)
        ensures
            a.union(b) == b.union(a),
    {
    }

    /// Nor does the grouping.
    pub proof fn lemma_union_associates(a: Span, b: Span, c: Span)
        ensures
            a.union(b).union(c) == a.union(b.union(c)),
    {
    }

    /// The union of nested spans is the outer one.
    pub proof fn lemma_union_of_nested(outer: Span, inner: Span)
        requires
            outer.covers(inner),
        ensures
            outer.union(inner) == outer,
            inner.union(outer) == outer,
    {
    }

    /// The span of something that was generated rather than written, and so
    /// corresponds to no source text.
    pub fn dummy() -> (span: Span)
        ensures
            span == Span::of(BytePos(0), BytePos(0)),
            span.wf(),
    {
        Span { lo: BytePos(0), hi: BytePos(0) }
    }

    /// The span from `lo` to `hi`.
    ///
    /// An inverted span is always a bug in whoever computed it, and it surfaces
    /// far from its cause if it is allowed to propagate.
    pub fn new(lo: BytePos, hi: BytePos) -> (span: Span)
        requires
            lo.0 <= hi.0,
        ensures
            span == Span::of(lo, hi),
            span.spec_lo() == lo,
            span.spec_hi() == hi,
            span.wf(),
    {
        Span { lo, hi }
    }

    /// Where the span starts.
    #[verifier::when_used_as_spec(spec_lo)]
    pub fn lo(self) -> (lo: BytePos)
        ensures
            lo == self.spec_lo(),
    {
        self.lo
    }

    /// Where the span ends.
    #[verifier::when_used_as_spec(spec_hi)]
    pub fn hi(self) -> (hi: BytePos)
        ensures
            hi == self.spec_hi(),
    {
        self.hi
    }

    /// How many bytes the span covers.
    pub fn len(self) -> (len: u32)
        requires
            self.wf(),
        ensures
            len == self.spec_hi().0 - self.spec_lo().0,
    {
        self.hi.0 - self.lo.0
    }

    /// Whether the span covers nothing.
    pub fn is_empty(self) -> (empty: bool)
        ensures
            empty <==> self.spec_lo() == self.spec_hi(),
    {
        self.lo == self.hi
    }

    /// The smallest span covering both `self` and `other`.
    ///
    /// The workhorse of the parser: a node's span is the union of the spans of
    /// its first and last tokens.
    pub fn to(self, other: Span) -> (span: Span)
        ensures
            span == self.union(other),
            self.wf() || other.wf() ==> span.wf(),
    {
        Span {
            lo: if other.lo.0 < self.lo.0 {
                other.lo
            } else {
                self.lo
            },
            hi: if other.hi.0 > self.hi.0 {
                other.hi
            } else {
                self.hi
            },
        }
    }

    /// The text this span covers within `source`.
    pub fn slice(self, source: &str) -> (covered: &str)
        requires
            self.wf(),
            is_char_boundary(source.spec_bytes(), self.spec_lo().0 as int),
            is_char_boundary(source.spec_bytes(), self.spec_hi().0 as int),
        ensures
            covered.spec_bytes() == source.spec_bytes().subrange(
                self.spec_lo().0 as int,
                self.spec_hi().0 as int,
            ),
    {
        proof {
            let bytes = source.spec_bytes();
            encode_utf8_valid_utf8(source@);
            text::lemma_boundary_in_bounds(bytes, self.hi.0 as int);
            text::lemma_boundary_in_prefix(bytes, self.lo.0 as int, self.hi.0 as int);
        }
        let before = source.split_at(self.hi.0 as usize).0;
        let covered = before.split_at(self.lo.0 as usize).1;
        covered
    }
}

} // verus!
