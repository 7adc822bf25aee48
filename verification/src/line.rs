//! Border-line segments and their equivalence under reversal.
//!
//! A `Line` is a polyline of at least two points. Two lines are the same
//! border if one is the reverse of the other; comparison first orients
//! both by the order of their endpoints so that only one direction has
//! to be checked. `==` on `Line` means exactly this equivalence.

use vstd::prelude::*;
use crate::point::Point;

verus! {

/// A polyline: an ordered sequence of points with endpoints distinguished.
#[derive(Debug)]
pub struct Line {
    pub vertices: Vec<Point>,
}

/// Whether the sequence runs from its smaller endpoint to its larger one
/// (in the total order of `Point::spec_key`).
pub open spec fn seq_is_ordered(s: Seq<Point>) -> bool {
    s.first().spec_key() < s.last().spec_key()
}

/// What `==` on `Line` means: if both sequences run in the same
/// direction they must agree pointwise, otherwise one must be the
/// reverse of the other.
pub open spec fn line_equiv(a: Seq<Point>, b: Seq<Point>) -> bool {
    if seq_is_ordered(a) == seq_is_ordered(b) {
        a =~= b
    } else {
        a =~= b.reverse()
    }
}

/// Copies a point sequence.
pub fn copy_points(points: &Vec<Point>) -> (r: Vec<Point>)
    ensures
        r@ == points@,
{
    let mut out: Vec<Point> = Vec::new();
    let mut i: usize = 0;
    while i < points.len()
        invariant
            i <= points@.len(),
            out@ =~= points@.subrange(0, i as int),
        decreases points@.len() - i,
    {
        out.push(points[i]);
        i += 1;
    }
    proof {
        assert(out@ =~= points@);
    }
    out
}

impl Line {
    pub open spec fn view(self) -> Seq<Point> {
        self.vertices@
    }

    /// A line has at least two vertices.
    pub open spec fn wf(self) -> bool {
        self@.len() >= 2
    }

    pub fn new(points: &Vec<Point>) -> (r: Line)
        ensures
            r@ == points@,
    {
        Line { vertices: copy_points(points) }
    }

    /// The same polyline walked end to start.
    pub fn reverse(&self) -> (r: Line)
        ensures
            r@ == self@.reverse(),
    {
        let n = self.vertices.len();
        let mut out: Vec<Point> = Vec::new();
        let mut i: usize = 0;
        while i < n
            invariant
                n == self@.len(),
                i <= n,
                out@.len() == i,
                forall|j: int| 0 <= j < i ==> out@[j] == self@[n - 1 - j],
            decreases n - i,
        {
            out.push(self.vertices[n - 1 - i]);
            i += 1;
        }
        proof {
            assert(out@ =~= self@.reverse());
        }
        Line { vertices: out }
    }

    /// Splices `other` in front of `self`, dropping `other`'s last point
    /// when it duplicates `self`'s first (the shared seam junction).
    pub fn join_first(&mut self, other: Line)
        requires
            old(self)@.len() >= 1,
            other@.len() >= 1,
        ensures
            other@.last() == old(self)@.first() ==> final(self)@ == other@.drop_last()
                + old(self)@,
            other@.last() != old(self)@.first() ==> final(self)@ == other@ + old(self)@,
    {
        let mut out = other;
        let o_last = out.vertices[out.vertices.len() - 1];
        let s_first = self.vertices[0];
        if o_last == s_first {
            out.vertices.pop();
        }
        let n = self.vertices.len();
        let ghost head = out.vertices@;
        let mut i: usize = 0;
        while i < n
            invariant
                n == self@.len(),
                self@ == old(self)@,
                i <= n,
                out.vertices@ =~= head + self@.subrange(0, i as int),
            decreases n - i,
        {
            out.vertices.push(self.vertices[i]);
            i += 1;
        }
        proof {
            assert(out.vertices@ =~= head + self@);
            if o_last == s_first {
                assert(head =~= other@.drop_last());
            }
        }
        self.vertices = out.vertices;
    }
}

/// Exec comparison of two point sequences.
fn seq_points_equal(a: &Vec<Point>, b: &Vec<Point>) -> (r: bool)
    ensures
        r <==> a@ =~= b@,
{
    if a.len() != b.len() {
        return false;
    }
    let mut i: usize = 0;
    while i < a.len()
        invariant
            a@.len() == b@.len(),
            i <= a@.len(),
            forall|j: int| 0 <= j < i ==> a@[j] == b@[j],
        decreases a@.len() - i,
    {
        if a[i] != b[i] {
            return false;
        }
        i += 1;
    }
    true
}

impl PartialEq for Line {
    /// Two lines are equal when one is the other, possibly reversed:
    /// both are oriented by their endpoints before comparing.
    fn eq(&self, other: &Line) -> (r: bool) {
        if self.vertices.len() == 0 || other.vertices.len() == 0 {
            proof {
                if self@.len() != other@.len() {
                    assert(!line_equiv(self@, other@));
                } else {
                    assert(self@ =~= other@);
                }
            }
            return self.vertices.len() == other.vertices.len();
        }
        let a_ordered = self.vertices[0].key() < self.vertices[self.vertices.len() - 1].key();
        let b_ordered = other.vertices[0].key() < other.vertices[other.vertices.len() - 1].key();
        if a_ordered == b_ordered {
            seq_points_equal(&self.vertices, &other.vertices)
        } else {
            let rev = other.reverse();
            seq_points_equal(&self.vertices, &rev.vertices)
        }
    }
}

impl Eq for Line {}

impl vstd::std_specs::cmp::PartialEqSpecImpl for Line {
    open spec fn obeys_eq_spec() -> bool {
        true
    }

    open spec fn eq_spec(&self, other: &Line) -> bool {
        line_equiv(self@, other@)
    }
}

/// Line equivalence is reflexive.
pub proof fn lemma_line_equiv_reflexive(a: Seq<Point>)
    ensures
        line_equiv(a, a),
{
}

/// A line and its reverse are the same border, as long as its endpoints
/// differ (a closed loop, whose first and last points coincide, counts
/// as unordered in both directions and equals its reverse only when it
/// is a palindrome).
pub proof fn lemma_line_equiv_reverse(a: Seq<Point>)
    requires
        a.len() >= 2,
        a.first() != a.last(),
    ensures
        line_equiv(a, a.reverse()),
{
    crate::point::lemma_point_key_injective(a.first(), a.last());
    assert(a.reverse().first() == a.last());
    assert(a.reverse().last() == a.first());
    assert(a =~= a.reverse().reverse());
}

/// Line equivalence is symmetric.
pub proof fn lemma_line_equiv_symmetric(a: Seq<Point>, b: Seq<Point>)
    requires
        line_equiv(a, b),
    ensures
        line_equiv(b, a),
{
    if seq_is_ordered(a) != seq_is_ordered(b) {
        assert(b =~= a.reverse()) by {
            assert(a =~= b.reverse());
            assert(b.reverse().reverse() =~= b);
        }
    }
}

/// Line equivalence is transitive.
pub proof fn lemma_line_equiv_transitive(a: Seq<Point>, b: Seq<Point>, c: Seq<Point>)
    requires
        line_equiv(a, b),
        line_equiv(b, c),
    ensures
        line_equiv(a, c),
{
    if seq_is_ordered(a) == seq_is_ordered(b) {
        if seq_is_ordered(b) != seq_is_ordered(c) {
            assert(a =~= c.reverse());
        }
    } else {
        if seq_is_ordered(b) == seq_is_ordered(c) {
            assert(a =~= c.reverse());
        } else {
            assert(a =~= b.reverse());
            assert(b =~= c.reverse());
            assert(a =~= c) by {
                assert(c.reverse().reverse() =~= c);
            }
        }
    }
}

} // verus!
