//! Cutting rings at junction points into border segments.
//!
//! A ring is walked from its first position; every interior position
//! holding a junction ("cut") point closes the current segment and opens
//! the next one. If the walk produced at least two segments and the
//! ring's seam (its first point) is not itself a junction, the last
//! segment is spliced in front of the first, because the seam is an
//! artifact of where the ring happened to start.

use vstd::prelude::*;
use crate::point::Point;
use crate::line::Line;
use crate::topology::contains_point;

verus! {

/// Reassembles consecutive segments: each segment after the first starts
/// with the point the previous one ended on, so that point is taken once.
pub open spec fn glue(views: Seq<Seq<Point>>) -> Seq<Point>
    decreases views.len(),
{
    if views.len() == 0 {
        Seq::empty()
    } else if views.len() == 1 {
        views[0]
    } else {
        glue(views.drop_last()) + views.last().skip(1)
    }
}

/// The point sequences of a list of lines.
pub open spec fn line_views(ls: Seq<Line>) -> Seq<Seq<Point>> {
    ls.map_values(|l: Line| l@)
}

/// The whole contract of cutting one ring at the junction list `cp`:
/// at least one segment of at least two points each; consecutive
/// segments share their junction point; every inner segment boundary is
/// a junction; the segments glue back to the ring, or — when the seam
/// was spliced away — to the ring read cyclically from its last
/// junction (the seam's duplicate dropped on a closed ring); a ring
/// touching no junction at all stays whole; and on a closed ring no
/// junction is ever interior to a segment.
pub open spec fn spec_cut_of(ring: Seq<Point>, cp: Seq<Point>, segs: Seq<Line>) -> bool {
    &&& segs.len() >= 1
    &&& forall|t: int| 0 <= t < segs.len() ==> (#[trigger] segs[t])@.len() >= 2
    &&& forall|t: int|
        0 <= t < segs.len() - 1 ==> (#[trigger] segs[t])@.last() == segs[t + 1]@.first()
    &&& forall|t: int| 1 <= t < segs.len() ==> cp.contains((#[trigger] segs[t])@.first())
    &&& (glue(line_views(segs)) == ring || (exists|c: int|
        0 < c < ring.len() - 1 && #[trigger] cp.contains(ring[c]) && !cp.contains(ring.first())
            && ((ring.first() == ring.last() && glue(line_views(segs)) == ring.subrange(
            c,
            ring.len() - 1,
        ) + ring.subrange(0, c + 1)) || (ring.first() != ring.last() && glue(line_views(segs))
            == ring.subrange(c, ring.len() as int) + ring.subrange(0, c + 1)))))
    &&& ((forall|u: int| 0 <= u < ring.len() ==> !cp.contains(#[trigger] ring[u])) ==> segs.len()
        == 1 && segs[0]@ == ring)
    &&& forall|t: int, u: int|
        0 <= t < segs.len() && 0 <= u < segs[t]@.len() ==> ring.contains(#[trigger] segs[t]@[u])
    &&& (ring.first() == ring.last() ==> forall|t: int, u: int|
        0 <= t < segs.len() && 0 < u < segs[t]@.len() - 1 ==> !cp.contains(
            #[trigger] segs[t]@[u],
        ))
}

/// The segments of a list of per-ring blocks, in ring order.
pub open spec fn flatten_blocks(blocks: Seq<Seq<Line>>) -> Seq<Line>
    decreases blocks.len(),
{
    if blocks.len() == 0 {
        Seq::empty()
    } else {
        flatten_blocks(blocks.drop_last()) + blocks.last()
    }
}

/// Every segment of the flattening lies in one of the blocks.
pub proof fn lemma_flatten_blocks_member(blocks: Seq<Seq<Line>>, j: int)
    requires
        0 <= j < flatten_blocks(blocks).len(),
    ensures
        exists|k: int, t: int|
            0 <= k < blocks.len() && 0 <= t < blocks[k].len() && #[trigger] blocks[k][t]
                == flatten_blocks(blocks)[j],
    decreases blocks.len(),
{
    if blocks.len() > 0 {
        let head = flatten_blocks(blocks.drop_last());
        if j < head.len() {
            lemma_flatten_blocks_member(blocks.drop_last(), j);
            let (k, t) = choose|k: int, t: int|
                0 <= k < blocks.drop_last().len() && 0 <= t < blocks.drop_last()[k].len()
                    && #[trigger] blocks.drop_last()[k][t] == head[j];
            assert(blocks[k][t] == flatten_blocks(blocks)[j]);
        } else {
            let m = blocks.len() - 1;
            let t = j - head.len();
            assert(blocks[m][t] == flatten_blocks(blocks)[j]);
        }
    }
}

/// Segments that are consecutive subranges of `s` (at the positions in
/// `bounds`, each shared with its neighbour) glue back to the subrange
/// they jointly cover.
proof fn lemma_glue_segments(s: Seq<Point>, views: Seq<Seq<Point>>, bounds: Seq<int>)
    requires
        bounds.len() == views.len() + 1,
        views.len() >= 1,
        0 <= bounds[0],
        bounds.last() + 1 <= s.len(),
        forall|t: int| 0 <= t < views.len() ==> bounds[t] < #[trigger] bounds[t + 1],
        forall|t: int|
            0 <= t < views.len() ==> #[trigger] views[t] == s.subrange(bounds[t], bounds[t + 1]
                + 1),
    ensures
        glue(views) == s.subrange(bounds[0], bounds.last() + 1),
    decreases views.len(),
{
    if views.len() == 1 {
        assert(glue(views) == views[0]);
    } else {
        let m = views.len() - 1;
        let vh = views.drop_last();
        let bh = bounds.drop_last();
        assert forall|t: int| 0 <= t < vh.len() implies bh[t] < #[trigger] bh[t + 1] by {
            assert(bounds[t] < bounds[t + 1]);
        }
        assert forall|t: int| 0 <= t < vh.len() implies #[trigger] vh[t] == s.subrange(
            bh[t],
            bh[t + 1] + 1,
        ) by {
            assert(views[t] == s.subrange(bounds[t], bounds[t + 1] + 1));
        }
        assert(bounds[m] < bounds[m + 1]);
        assert(bh.last() + 1 <= s.len());
        lemma_bounds_sorted(bounds, 0, m);
        assert(0 <= bounds[m]);
        lemma_glue_segments(s, vh, bh);
        assert(views.last().skip(1) =~= s.subrange(bounds[m] + 1, bounds[m + 1] + 1)) by {
            assert(views[m] == s.subrange(bounds[m], bounds[m + 1] + 1));
        }
        assert(s.subrange(bounds[0], bounds[m] + 1) + s.subrange(bounds[m] + 1, bounds[m + 1] + 1)
            =~= s.subrange(bounds[0], bounds[m + 1] + 1));
        assert(glue(views) == glue(vh) + views.last().skip(1));
    }
}

/// A position strictly between two consecutive bounds is not itself a
/// bound and lies strictly inside the whole covered range.
proof fn lemma_between_bounds(bounds: Seq<int>, lo: int, pos: int)
    requires
        bounds.len() >= 2,
        forall|t: int| 0 <= t < bounds.len() - 1 ==> bounds[t] < #[trigger] bounds[t + 1],
        0 <= lo < bounds.len() - 1,
        bounds[lo] < pos < bounds[lo + 1],
    ensures
        !bounds.contains(pos),
        bounds[0] < pos < bounds[bounds.len() - 1],
{
    if bounds.contains(pos) {
        let w = choose|w: int| 0 <= w < bounds.len() && bounds[w] == pos;
        if w <= lo {
            if w < lo {
                lemma_bounds_sorted(bounds, w, lo);
            }
            assert(bounds[w] <= bounds[lo]);
        } else {
            if w > lo + 1 {
                lemma_bounds_sorted(bounds, lo + 1, w);
            }
            assert(bounds[w] >= bounds[lo + 1]);
        }
        assert(false);
    }
    if lo > 0 {
        lemma_bounds_sorted(bounds, 0, lo);
    }
    if lo + 1 < bounds.len() - 1 {
        lemma_bounds_sorted(bounds, lo + 1, bounds.len() - 1);
    }
}

/// Gluing a spliced segment list: the seam segment (last junction to the
/// ring end, continued from the ring start to the first junction) in
/// front of the remaining middle segments covers the ring read
/// cyclically from the last junction.
proof fn lemma_splice_glue(s: Seq<Point>, views2: Seq<Seq<Point>>, bounds0: Seq<int>, e: int)
    requires
        s.len() >= 2,
        bounds0.len() >= 3,
        views2.len() == bounds0.len() - 2,
        bounds0[0] == 0,
        bounds0[bounds0.len() - 1] == s.len() - 1,
        forall|t: int| 0 <= t < bounds0.len() - 1 ==> bounds0[t] < #[trigger] bounds0[t + 1],
        e == s.len() - 1 || e == s.len(),
        views2[0] == s.subrange(bounds0[bounds0.len() - 2], e) + s.subrange(0, bounds0[1] + 1),
        forall|t: int|
            1 <= t < views2.len() ==> #[trigger] views2[t] == s.subrange(bounds0[t], bounds0[t + 1]
                + 1),
    ensures
        glue(views2) == s.subrange(bounds0[bounds0.len() - 2], e) + s.subrange(
            0,
            bounds0[bounds0.len() - 2] + 1,
        ),
{
    let n = s.len() as int;
    let k = bounds0.len() - 2;
    let c = bounds0[k];
    let c1 = bounds0[1];
    assert(bounds0[0int] < bounds0[0int + 1]);
    assert(bounds0[k] < bounds0[k + 1]);
    if k > 1 {
        lemma_bounds_sorted(bounds0, 1, k);
    }
    assert(0 < c1);
    assert(c1 <= c);
    assert(c < n - 1);
    let shift = e - c;
    let s2 = s.subrange(c, e) + s;
    let bounds2 = Seq::new(
        (bounds0.len() - 1) as nat,
        |t: int|
            if t == 0 {
                0int
            } else {
                shift + bounds0[t]
            },
    );
    assert forall|t: int| 0 <= t < views2.len() implies #[trigger] views2[t] == s2.subrange(
        bounds2[t],
        bounds2[t + 1] + 1,
    ) by {
        if t == 0 {
            assert(bounds2[1] == shift + c1);
            assert(views2[0] =~= s2.subrange(0, shift + c1 + 1));
        } else {
            assert(views2[t] == s.subrange(bounds0[t], bounds0[t + 1] + 1));
            lemma_bounds_sorted(bounds0, 0, t);
            lemma_bounds_sorted(bounds0, t + 1, k + 1);
            assert(bounds0[t + 1] <= n - 1);
            assert(views2[t] =~= s2.subrange(shift + bounds0[t], shift + bounds0[t + 1] + 1));
        }
    }
    assert forall|t: int| 0 <= t < views2.len() implies bounds2[t] < #[trigger] bounds2[t
        + 1] by {
        if t == 0 {
        } else {
            assert(bounds0[t] < bounds0[t + 1]);
        }
    }
    assert(bounds2[bounds2.len() - 1] == shift + c);
    lemma_glue_segments(s2, views2, bounds2);
    assert(glue(views2) == s2.subrange(0, shift + c + 1));
    assert(s2.subrange(0, shift + c + 1) =~= s.subrange(c, e) + s.subrange(0, c + 1));
}

/// Copies `points[a..=b]`.
fn segment_of(points: &Vec<Point>, a: usize, b: usize) -> (r: Vec<Point>)
    requires
        a <= b < points@.len(),
    ensures
        r@ == points@.subrange(a as int, b + 1),
{
    let n = points.len();
    let mut out: Vec<Point> = Vec::new();
    let mut i: usize = a;
    while i <= b
        invariant
            a <= i <= b + 1,
            b < n == points@.len(),
            out@ =~= points@.subrange(a as int, i as int),
        decreases b + 1 - i,
    {
        out.push(points[i]);
        i += 1;
    }
    proof {
        assert(out@ =~= points@.subrange(a as int, b + 1));
    }
    out
}

/// Walks the ring once, closing a segment at every interior junction
/// position and at the ring's last index. Returns the segments and the
/// positions they were cut at (first entry 0, last entry the ring's
/// last index, junction positions in between).
#[verifier::rlimit(100)]
fn scan_segments(points: &Vec<Point>, cut_points: &Vec<Point>) -> (r: (Vec<Line>, Ghost<
    Seq<int>,
>))
    requires
        points@.len() >= 2,
    ensures
        ({
            let lines = r.0@;
            let b = r.1@;
            let s = points@;
            let n = s.len() as int;
            &&& b.len() == lines.len() + 1
            &&& lines.len() >= 1
            &&& b[0] == 0
            &&& b[b.len() - 1] == n - 1
            &&& forall|t: int| 0 <= t < b.len() - 1 ==> b[t] < #[trigger] b[t + 1]
            &&& forall|t: int|
                1 <= t < b.len() - 1 ==> 0 < #[trigger] b[t] < n - 1 && cut_points@.contains(
                    s[b[t]],
                )
            &&& forall|t: int|
                0 <= t < lines.len() ==> (#[trigger] lines[t])@ == s.subrange(b[t], b[t + 1] + 1)
            &&& forall|u: int|
                0 < u < n - 1 && !b.contains(u) ==> !cut_points@.contains(#[trigger] s[u])
            &&& glue(line_views(lines)) == s
        }),
{
    let ghost s = points@;
    let n = points.len();
    let mut ring_lines: Vec<Line> = Vec::new();
    let mut start: usize = 0;
    let ghost mut bounds: Seq<int> = seq![0int];
    let mut i: usize = 1;
    while i < n - 1
        invariant
            2 <= n == s.len(),
            s == points@,
            1 <= i <= n - 1,
            start < i,
            bounds.len() == ring_lines@.len() + 1,
            bounds[0] == 0,
            bounds.last() == start as int,
            forall|t: int| 0 <= t < bounds.len() - 1 ==> bounds[t] < #[trigger] bounds[t + 1],
            forall|t: int|
                1 <= t < bounds.len() ==> 0 < #[trigger] bounds[t] < n - 1
                    && cut_points@.contains(s[bounds[t]]),
            forall|t: int|
                0 <= t < ring_lines@.len() ==> (#[trigger] ring_lines@[t])@ == s.subrange(
                    bounds[t],
                    bounds[t + 1] + 1,
                ),
            forall|u: int| 0 < u < i && !bounds.contains(u) ==> !cut_points@.contains(#[trigger] s[u]),
        decreases n - 1 - i,
    {
        let ghost bprev = bounds;
        let is_cut_here = contains_point(cut_points, points[i]);
        if is_cut_here {
            let seg = segment_of(points, start, i);
            ring_lines.push(Line { vertices: seg });
            proof {
                bounds = bounds.push(i as int);
            }
            start = i;
        }
        proof {
            assert forall|u: int|
                0 < u < i + 1 && !bounds.contains(u) implies !cut_points@.contains(
                #[trigger] s[u]) by {
                if u == i {
                    if is_cut_here {
                        assert(bounds[bounds.len() - 1] == i as int);
                        assert(bounds.contains(i as int));
                    }
                } else {
                    if bprev.contains(u) {
                        let w = choose|w: int| 0 <= w < bprev.len() && bprev[w] == u;
                        assert(bounds[w] == u);
                        assert(bounds.contains(u));
                    }
                }
            }
        }
        i += 1;
    }
    let ghost bexit = bounds;
    let seg = segment_of(points, start, n - 1);
    ring_lines.push(Line { vertices: seg });
    proof {
        bounds = bounds.push(n - 1);
    }
    proof {
        assert forall|u: int|
            0 < u < n - 1 && !bounds.contains(u) implies !cut_points@.contains(
            #[trigger] s[u]) by {
            if bexit.contains(u) {
                let w = choose|w: int| 0 <= w < bexit.len() && bexit[w] == u;
                assert(bounds[w] == u);
                assert(bounds.contains(u));
            }
        }
        lemma_glue_segments(s, line_views(ring_lines@), bounds);
        assert(glue(line_views(ring_lines@)) == s.subrange(0, n as int));
        assert(s.subrange(0, n as int) =~= s);
    }
    (ring_lines, Ghost(bounds))
}

/// Cuts one ring at its interior junction points; the result satisfies
/// the whole per-ring contract [`spec_cut_of`].
#[verifier::rlimit(100)]
pub fn cut_ring(points: &Vec<Point>, cut_points: &Vec<Point>) -> (r: Vec<Line>)
    requires
        points@.len() >= 2,
    ensures
        spec_cut_of(points@, cut_points@, r@),
{
    let ghost s = points@;
    let n = points.len();
    let scan = scan_segments(points, cut_points);
    let mut ring_lines: Vec<Line> = scan.0;
    let ghost bounds: Seq<int> = scan.1@;
    let ghost bounds0 = bounds;
    let ghost lines0 = ring_lines@;
    let spliced: bool;
    let ghost mut last_cut: int = 0;
    if ring_lines.len() >= 2 {
        let first_point = ring_lines[0].vertices[0];
        proof {
            assert(ring_lines@[0]@ == s.subrange(bounds[0], bounds[1] + 1));
            assert(first_point == s[0]);
        }
        if !contains_point(cut_points, first_point) {
            spliced = true;
            proof {
                last_cut = bounds[bounds.len() - 2];
            }
            let z_opt = ring_lines.pop();
            let z = z_opt.unwrap();
            let mut a1 = ring_lines.remove(0);
            proof {
                assert(z@ == s.subrange(last_cut, n as int));
                assert(a1@ == s.subrange(0, bounds[1] + 1));
                assert(z@.last() == s.last());
                assert(a1@.first() == s.first());
            }
            a1.join_first(z);
            ring_lines.insert(0, a1);
        } else {
            spliced = false;
        }
    } else {
        spliced = false;
    }
    proof {
        if spliced {
            let k = bounds0.len() - 2;
            let c = bounds0[k];
            let c1 = bounds0[1];
            let e: int = if s.first() == s.last() {
                n - 1
            } else {
                n as int
            };
            let joined = ring_lines@[0]@;
            assert(joined == if s.first() == s.last() {
                s.subrange(c, n as int).drop_last() + s.subrange(0, c1 + 1)
            } else {
                s.subrange(c, n as int) + s.subrange(0, c1 + 1)
            });
            assert(s.subrange(c, n as int).drop_last() =~= s.subrange(c, n - 1));
            let views2 = line_views(ring_lines@);
            assert(views2.len() == ring_lines@.len());
            assert(ring_lines@.len() == lines0.len() - 1);
            assert(views2[0] == s.subrange(c, e) + s.subrange(0, c1 + 1));
            assert forall|t: int| 1 <= t < views2.len() implies #[trigger] views2[t]
                == s.subrange(bounds0[t], bounds0[t + 1] + 1) by {
                assert(ring_lines@[t] == lines0[t]);
                assert(lines0[t]@ == s.subrange(bounds0[t], bounds0[t + 1] + 1));
            }
            lemma_splice_glue(s, views2, bounds0, e);
            assert(0 < c < n - 1 && cut_points@.contains(s[c]));
            assert(!cut_points@.contains(s.first()));
            if s.first() == s.last() {
                assert(glue(line_views(ring_lines@)) == s.subrange(c, n - 1) + s.subrange(
                    0,
                    c + 1,
                ));
            } else {
                assert(glue(line_views(ring_lines@)) == s.subrange(c, n as int) + s.subrange(
                    0,
                    c + 1,
                ));
            }
        }
        // Segment lengths.
        assert forall|t: int| 0 <= t < ring_lines@.len() implies (#[trigger] ring_lines@[t])@.len()
            >= 2 by {
            if !(spliced && t == 0) {
                assert(lines0[t]@ == s.subrange(bounds0[t], bounds0[t + 1] + 1));
            }
        }
        // Interior points of segments are never junctions (closed rings).
        if s.first() == s.last() {
            lemma_interior_non_cut(s, cut_points@, ring_lines@, lines0, bounds0, spliced);
        }
        // Chaining, junction boundaries and the junction-free case.
        lemma_cut_structure(s, cut_points@, ring_lines@, lines0, bounds0, spliced);
        assert(spec_cut_of(points@, cut_points@, ring_lines@));
    }
    ring_lines
}

/// Structure of the produced segment list: consecutive segments share
/// their junction point; every inner segment boundary is a junction;
/// and a ring touching no junction at all stays whole.
proof fn lemma_cut_structure(
    s: Seq<Point>,
    cut: Seq<Point>,
    lines: Seq<Line>,
    lines0: Seq<Line>,
    bounds0: Seq<int>,
    spliced: bool,
)
    requires
        s.len() >= 2,
        bounds0.len() == lines0.len() + 1,
        bounds0.len() >= 2,
        bounds0[0] == 0,
        bounds0[bounds0.len() - 1] == s.len() - 1,
        forall|t: int| 0 <= t < bounds0.len() - 1 ==> bounds0[t] < #[trigger] bounds0[t + 1],
        forall|t: int|
            1 <= t < bounds0.len() - 1 ==> 0 < #[trigger] bounds0[t] < s.len() - 1
                && cut.contains(s[bounds0[t]]),
        forall|t: int|
            0 <= t < lines0.len() ==> (#[trigger] lines0[t])@ == s.subrange(
                bounds0[t],
                bounds0[t + 1] + 1,
            ),
        spliced ==> lines0.len() >= 2 && lines.len() == lines0.len() - 1 && (lines[0]@
            == s.subrange(bounds0[bounds0.len() - 2], s.len() as int) + s.subrange(
            0,
            bounds0[1] + 1,
        ) || lines[0]@ == s.subrange(bounds0[bounds0.len() - 2], s.len() - 1) + s.subrange(
            0,
            bounds0[1] + 1,
        )) && (forall|t: int| 1 <= t < lines.len() ==> #[trigger] lines[t] == lines0[t]),
        !spliced ==> lines == lines0,
    ensures
        forall|t: int|
            0 <= t < lines.len() - 1 ==> (#[trigger] lines[t])@.last() == lines[t + 1]@.first(),
        forall|t: int| 1 <= t < lines.len() ==> cut.contains((#[trigger] lines[t])@.first()),
        (forall|u: int| 0 <= u < s.len() ==> !cut.contains(#[trigger] s[u])) ==> lines.len() == 1
            && lines[0]@ == s,
        forall|t: int, u: int|
            0 <= t < lines.len() && 0 <= u < lines[t]@.len() ==> s.contains(
                #[trigger] lines[t]@[u],
            ),
{
    let n = s.len() as int;
    assert forall|t: int, u: int|
        0 <= t < lines.len() && 0 <= u < lines[t]@.len() implies s.contains(
        #[trigger] lines[t]@[u]) by {
        if spliced && t == 0 {
            let k = bounds0.len() - 2;
            let c = bounds0[k];
            lemma_bounds_sorted(bounds0, 0, k);
            assert(bounds0[k] < bounds0[k + 1]);
            let len1 = lines[0]@.len() - (bounds0[1] + 1);
            if u < len1 {
                assert(lines[0]@[u] == s[c + u]);
            } else {
                assert(lines[0]@[u] == s[u - len1]);
            }
        } else {
            assert(lines[t] == lines0[t]);
            assert(lines0[t]@ == s.subrange(bounds0[t], bounds0[t + 1] + 1));
            if t > 0 {
                lemma_bounds_sorted(bounds0, 0, t);
            }
            if t + 1 < bounds0.len() - 1 {
                lemma_bounds_sorted(bounds0, t + 1, bounds0.len() - 1);
            }
            assert(lines[t]@[u] == s[bounds0[t] + u]);
        }
    }
    assert forall|t: int|
        0 <= t < lines.len() - 1 implies (#[trigger] lines[t])@.last()
        == lines[t + 1]@.first() by {
        if spliced && t == 0 {
            let c1 = bounds0[1];
            assert(lines[0]@.last() == s[c1]);
            assert(lines[1] == lines0[1]);
            assert(lines0[1]@ == s.subrange(bounds0[1], bounds0[2] + 1));
            assert(lines0[1]@.first() == s[c1]);
        } else {
            assert(lines[t] == lines0[t]);
            assert(lines[t + 1] == lines0[t + 1]);
            assert(lines0[t]@ == s.subrange(bounds0[t], bounds0[t + 1] + 1));
            assert(lines0[t + 1]@ == s.subrange(bounds0[t + 1], bounds0[t + 2] + 1));
            assert(lines0[t]@.last() == s[bounds0[t + 1]]);
            assert(lines0[t + 1]@.first() == s[bounds0[t + 1]]);
        }
    }
    assert forall|t: int| 1 <= t < lines.len() implies cut.contains(
        (#[trigger] lines[t])@.first(),
    ) by {
        assert(lines[t] == lines0[t]);
        assert(lines0[t]@ == s.subrange(bounds0[t], bounds0[t + 1] + 1));
        assert(lines0[t]@.first() == s[bounds0[t]]);
        assert(cut.contains(s[bounds0[t]]));
    }
    if forall|u: int| 0 <= u < s.len() ==> !cut.contains(#[trigger] s[u]) {
        assert(bounds0.len() == 2) by {
            if bounds0.len() > 2 {
                assert(cut.contains(s[bounds0[1]]));
                assert(0 < bounds0[1] < n - 1);
                assert(!cut.contains(s[bounds0[1]]));
            }
        }
        assert(lines0.len() == 1);
        assert(!spliced);
        assert(lines[0]@ == s.subrange(0, n));
        assert(lines[0]@ =~= s);
    }
}

/// On a closed ring, no point interior to a produced segment is a
/// junction: segments are cut exactly at junctions, and a spliced seam
/// segment passes only through the (non-junction) seam.
proof fn lemma_interior_non_cut(
    s: Seq<Point>,
    cut: Seq<Point>,
    lines: Seq<Line>,
    lines0: Seq<Line>,
    bounds0: Seq<int>,
    spliced: bool,
)
    requires
        s.len() >= 2,
        bounds0.len() == lines0.len() + 1,
        bounds0.len() >= 2,
        bounds0[0] == 0,
        bounds0[bounds0.len() - 1] == s.len() - 1,
        forall|t: int| 0 <= t < bounds0.len() - 1 ==> bounds0[t] < #[trigger] bounds0[t + 1],
        forall|t: int|
            0 <= t < lines0.len() ==> (#[trigger] lines0[t])@ == s.subrange(
                bounds0[t],
                bounds0[t + 1] + 1,
            ),
        forall|u: int| 0 < u < s.len() - 1 && !bounds0.contains(u) ==> !cut.contains(#[trigger] s[u]),
        spliced ==> lines0.len() >= 2 && !cut.contains(s.first()) && lines.len() == lines0.len()
            - 1 && lines[0]@ == s.subrange(bounds0[bounds0.len() - 2], s.len() - 1) + s.subrange(
            0,
            bounds0[1] + 1,
        ) && (forall|t: int| 1 <= t < lines.len() ==> #[trigger] lines[t] == lines0[t]),
        !spliced ==> lines == lines0,
    ensures
        forall|t: int, u: int|
            0 <= t < lines.len() && 0 < u < lines[t]@.len() - 1 ==> !cut.contains(
                #[trigger] lines[t]@[u],
            ),
{
    let n = s.len() as int;
    assert forall|t: int, u: int|
        0 <= t < lines.len() && 0 < u < lines[t]@.len() - 1 implies !cut.contains(
        #[trigger] lines[t]@[u]) by {
        if spliced && t == 0 {
            let k = bounds0.len() - 2;
            let c = bounds0[k];
            lemma_bounds_sorted(bounds0, 0, k);
            assert(bounds0[k] < bounds0[k + 1]);
            assert(0 < c < n - 1);
            let len1 = n - 1 - c;
            if u < len1 {
                assert(lines[0]@[u] == s[c + u]);
                lemma_between_bounds(bounds0, k, c + u);
            } else {
                let c1 = bounds0[1];
                assert(bounds0[0int] < bounds0[0int + 1]);
                if k > 1 {
                    lemma_bounds_sorted(bounds0, 1, k);
                }
                assert(0 < c1 <= c);
                assert(lines[0]@.len() == len1 + c1 + 1);
                let v = u - len1;
                assert(v < c1);
                assert(lines[0]@[u] == s[v]);
                if v == 0 {
                } else {
                    lemma_between_bounds(bounds0, 0, v);
                }
            }
        } else {
            assert(lines[t] == lines0[t]);
            assert(lines0[t]@ == s.subrange(bounds0[t], bounds0[t + 1] + 1));
            if t > 0 {
                lemma_bounds_sorted(bounds0, 0, t);
            }
            if t + 1 < bounds0.len() - 1 {
                lemma_bounds_sorted(bounds0, t + 1, bounds0.len() - 1);
            }
            assert(0 <= bounds0[t]);
            assert(bounds0[t + 1] <= n - 1);
            let pos = bounds0[t] + u;
            assert(lines[t]@[u] == s[pos]);
            lemma_between_bounds(bounds0, t, pos);
        }
    }
}

/// Strictly increasing adjacent bounds are strictly increasing overall.
proof fn lemma_bounds_sorted(bounds: Seq<int>, t2: int, t3: int)
    requires
        forall|t: int| 0 <= t < bounds.len() - 1 ==> bounds[t] < #[trigger] bounds[t + 1],
        0 <= t2 < t3 < bounds.len(),
    ensures
        bounds[t2] < bounds[t3],
    decreases t3 - t2,
{
    if t3 == t2 + 1 {
    } else {
        lemma_bounds_sorted(bounds, t2, t3 - 1);
        assert(bounds[t3 - 1] < bounds[t3 - 1 + 1]);
    }
}

} // verus!

verus! {

use crate::topology::{Ring, PointReferences, contains_u32, spec_pref_incident, spec_shared_prefs,
    mark_area_incident, UNNUMBERED_AREA};
use std::collections::HashMap;

/// Cuts every ring: the output is, ring by ring, exactly the cut of
/// that ring — the concatenation of one segment block per ring, each
/// block satisfying the whole per-ring contract ([`spec_cut_of`]).
pub fn cut_rings(rings: &Vec<Ring>, cut_points: &Vec<Point>) -> (r: Vec<Line>)
    requires
        forall|k: int| 0 <= k < rings@.len() ==> (#[trigger] rings@[k])@.len() >= 2,
    ensures
        exists|blocks: Seq<Seq<Line>>|
            r@ == #[trigger] flatten_blocks(blocks) && blocks.len() == rings@.len() && (forall|
                k: int,
            |
                0 <= k < blocks.len() ==> spec_cut_of(
                    rings@[k]@,
                    cut_points@,
                    #[trigger] blocks[k],
                )),
        forall|t: int| 0 <= t < r@.len() ==> (#[trigger] r@[t])@.len() >= 2,
        (forall|k: int|
            0 <= k < rings@.len() ==> (#[trigger] rings@[k])@.first() == rings@[k]@.last())
            ==> forall|t: int, u: int|
            0 <= t < r@.len() && 0 < u < r@[t]@.len() - 1 ==> !cut_points@.contains(
                #[trigger] r@[t]@[u],
            ),
{
    let mut out: Vec<Line> = Vec::new();
    let ghost mut blocks: Seq<Seq<Line>> = Seq::empty();
    let mut k: usize = 0;
    while k < rings.len()
        invariant
            k <= rings@.len(),
            forall|k2: int| 0 <= k2 < rings@.len() ==> (#[trigger] rings@[k2])@.len() >= 2,
            blocks.len() == k,
            out@ == flatten_blocks(blocks),
            forall|k2: int|
                0 <= k2 < k ==> spec_cut_of(rings@[k2]@, cut_points@, #[trigger] blocks[k2]),
            forall|t: int| 0 <= t < out@.len() ==> (#[trigger] out@[t])@.len() >= 2,
            (forall|k2: int|
                0 <= k2 < rings@.len() ==> (#[trigger] rings@[k2])@.first()
                    == rings@[k2]@.last()) ==> forall|t: int, u: int|
                0 <= t < out@.len() && 0 < u < out@[t]@.len() - 1 ==> !cut_points@.contains(
                    #[trigger] out@[t]@[u],
                ),
        decreases rings@.len() - k,
    {
        let mut lines = cut_ring(&rings[k].points, cut_points);
        let ghost out_before = out@;
        let ghost lines_here = lines@;
        out.append(&mut lines);
        proof {
            assert(out@ == out_before + lines_here);
            let ghost blocks0 = blocks;
            blocks = blocks.push(lines_here);
            assert(blocks.drop_last() =~= blocks0);
            assert(blocks.last() == lines_here);
            assert(flatten_blocks(blocks) == flatten_blocks(blocks0) + lines_here);
            if forall|k2: int|
                0 <= k2 < rings@.len() ==> (#[trigger] rings@[k2])@.first()
                    == rings@[k2]@.last() {
                assert(rings@[k as int]@.first() == rings@[k as int]@.last());
                assert forall|t: int, u: int|
                    0 <= t < out@.len() && 0 < u < out@[t]@.len() - 1
                    implies !cut_points@.contains(#[trigger] out@[t]@[u]) by {
                    if t < out_before.len() {
                        assert(out@[t] == out_before[t]);
                    } else {
                        assert(out@[t] == lines_here[t - out_before.len()]);
                    }
                }
            }
        }
        k += 1;
    }
    out
}

/// How many members of `vs` are the same border as `x` (equal under
/// reversal).
pub open spec fn equiv_count(vs: Seq<Seq<Point>>, x: Seq<Point>) -> nat
    decreases vs.len(),
{
    if vs.len() == 0 {
        0
    } else {
        equiv_count(vs.drop_last(), x) + if line_equiv(vs.last(), x) {
            1nat
        } else {
            0nat
        }
    }
}

use crate::line::line_equiv;

/// Counts the lines equivalent to `x`.
fn count_equiv_to(lines: &Vec<Line>, x: &Line) -> (r: usize)
    ensures
        r == equiv_count(line_views(lines@), x@),
{
    let mut r: usize = 0;
    let mut j: usize = 0;
    while j < lines.len()
        invariant
            j <= lines@.len(),
            r <= j,
            r == equiv_count(line_views(lines@.take(j as int)), x@),
        decreases lines@.len() - j,
    {
        let lj = &lines[j];
        if lj == x {
            r += 1;
        }
        proof {
            let v1 = line_views(lines@.take(j + 1));
            assert(v1.drop_last() =~= line_views(lines@.take(j as int)));
            assert(v1.last() == lines@[j as int]@);
        }
        j += 1;
    }
    proof {
        assert(lines@.take(lines@.len() as int) =~= lines@);
    }
    r
}

/// Whether some member of `out` is the same border as `x`.
fn contains_equiv(out: &Vec<Line>, x: &Line) -> (r: bool)
    ensures
        r <==> exists|t: int| 0 <= t < out@.len() && line_equiv((#[trigger] out@[t])@, x@),
{
    let mut t: usize = 0;
    while t < out.len()
        invariant
            t <= out@.len(),
            forall|t2: int| 0 <= t2 < t ==> !line_equiv((#[trigger] out@[t2])@, x@),
        decreases out@.len() - t,
    {
        let lt = &out[t];
        if lt == x {
            proof {
                assert(line_equiv(out@[t as int]@, x@));
            }
            return true;
        }
        t += 1;
    }
    false
}

/// What keeping the shared borders means: every kept line occurs at
/// least twice among the segments (under reverse-equivalence) and is one
/// of them; every segment occurring at least twice has a kept
/// representative; and no two kept lines are the same border.
pub open spec fn spec_dedup_of(src: Seq<Line>, kept: Seq<Line>) -> bool {
    &&& forall|t: int|
        0 <= t < kept.len() ==> equiv_count(line_views(src), (#[trigger] kept[t])@) >= 2
    &&& forall|t: int|
        0 <= t < kept.len() ==> exists|j: int| 0 <= j < src.len() && (#[trigger] kept[t])@
            == src[j]@
    &&& forall|j: int|
        0 <= j < src.len() && equiv_count(line_views(src), (#[trigger] src[j])@) >= 2 ==> exists|
            t: int,
        | 0 <= t < kept.len() && line_equiv(kept[t]@, src[j]@)
    &&& forall|t1: int, t2: int|
        0 <= t1 < t2 < kept.len() ==> !line_equiv((#[trigger] kept[t1])@, (#[trigger] kept[t2])@)
}

/// Keeps one representative of every border that occurs at least twice
/// among the segments; a border cut from only one ring is an edge of the
/// combined polygon's outside and is dropped.
pub fn dedup_shared(lines: &Vec<Line>) -> (r: Vec<Line>)
    ensures
        spec_dedup_of(lines@, r@),
{
    let mut out: Vec<Line> = Vec::new();
    let mut j: usize = 0;
    while j < lines.len()
        invariant
            j <= lines@.len(),
            forall|t: int|
                0 <= t < out@.len() ==> equiv_count(line_views(lines@), (#[trigger] out@[t])@)
                    >= 2,
            forall|t: int|
                0 <= t < out@.len() ==> exists|j2: int|
                    0 <= j2 < lines@.len() && (#[trigger] out@[t])@ == lines@[j2]@,
            forall|j2: int|
                0 <= j2 < j && equiv_count(line_views(lines@), (#[trigger] lines@[j2])@) >= 2
                    ==> exists|t: int| 0 <= t < out@.len() && line_equiv(out@[t]@, lines@[j2]@),
            forall|t1: int, t2: int|
                0 <= t1 < t2 < out@.len() ==> !line_equiv(
                    (#[trigger] out@[t1])@,
                    (#[trigger] out@[t2])@,
                ),
        decreases lines@.len() - j,
    {
        let lj = &lines[j];
        let ghost out0 = out@;
        let c = count_equiv_to(lines, lj);
        if c >= 2 {
            if !contains_equiv(&out, lj) {
                out.push(Line::new(&lj.vertices));
                proof {
                    assert(out@[out@.len() - 1]@ == lines@[j as int]@);
                    crate::line::lemma_line_equiv_reflexive(lines@[j as int]@);
                }
            }
        }
        proof {
            assert forall|j2: int|
                0 <= j2 < j + 1 && equiv_count(line_views(lines@), (#[trigger] lines@[j2])@)
                    >= 2 implies exists|t: int|
                0 <= t < out@.len() && line_equiv(out@[t]@, lines@[j2]@) by {
                if j2 < j {
                    let t = choose|t: int|
                        0 <= t < out0.len() && line_equiv(out0[t]@, lines@[j2]@);
                    assert(out@[t]@ == out0[t]@);
                    assert(line_equiv(out@[t]@, lines@[j2]@));
                }
            }
        }
        j += 1;
    }
    out
}

/// Classifies the retained borders: a border whose endpoints share
/// exactly one prefecture is a sub-prefectural (area) border; one whose
/// endpoints share two or more prefectures is a prefecture border. A
/// border sharing none is dropped.
pub fn classify_lines(lines: Vec<Line>, refs: &PointReferences, table: &HashMap<u32, u32>) -> (r:
    (Vec<Line>, Vec<Line>))
    requires
        refs.wf(),
        forall|t: int| 0 <= t < lines@.len() ==> (#[trigger] lines@[t])@.len() >= 1,
        forall|p: Point, a: u32|
            #[trigger] mark_area_incident(refs.marks(), p, a) && a != UNNUMBERED_AREA
                ==> table@.contains_key(a),
    ensures
        r.0@ == lines@.filter(
            (|l: Line| spec_shared_prefs(refs.marks(), table@, l@.first(), l@.last()).len() == 1),
        ),
        r.1@ == lines@.filter(
            (|l: Line| spec_shared_prefs(refs.marks(), table@, l@.first(), l@.last()).len() >= 2),
        ),
{
    let ghost all = lines@;
    let ghost pred1 = (|l: Line| spec_shared_prefs(refs.marks(), table@, l@.first(), l@.last()).len() == 1);
    let ghost pred2 = (|l: Line| spec_shared_prefs(refs.marks(), table@, l@.first(), l@.last()).len() >= 2);
    let mut rest = lines;
    let mut area_lines: Vec<Line> = Vec::new();
    let mut pref_lines: Vec<Line> = Vec::new();
    let ghost mut t: int = 0;
    while rest.len() > 0
        invariant
            refs.wf(),
            0 <= t <= all.len(),
            rest@ == all.skip(t),
            forall|t2: int| 0 <= t2 < all.len() ==> (#[trigger] all[t2])@.len() >= 1,
            forall|p: Point, a: u32|
                #[trigger] mark_area_incident(refs.marks(), p, a) && a != UNNUMBERED_AREA
                    ==> table@.contains_key(a),
            pred1 == (|l: Line| spec_shared_prefs(refs.marks(), table@, l@.first(), l@.last()).len() == 1),
            pred2 == (|l: Line| spec_shared_prefs(refs.marks(), table@, l@.first(), l@.last()).len() >= 2),
            area_lines@ == all.take(t).filter(pred1),
            pref_lines@ == all.take(t).filter(pred2),
        decreases rest@.len(),
    {
        let l = rest.remove(0);
        proof {
            assert(l == all[t]);
            assert(rest@ =~= all.skip(t + 1));
        }
        let n_shared = shared_pref_count(refs, &l, table);
        if n_shared == 1 {
            area_lines.push(l);
        } else if n_shared >= 2 {
            pref_lines.push(l);
        }
        proof {
            reveal(Seq::filter);
            assert(all.take(t + 1).drop_last() =~= all.take(t));
            assert(all.take(t + 1).last() == all[t]);
            assert(area_lines@ == all.take(t + 1).filter(pred1));
            assert(pref_lines@ == all.take(t + 1).filter(pred2));
            t = t + 1;
        }
    }
    proof {
        assert(all.take(all.len() as int) =~= all);
    }
    (area_lines, pref_lines)
}

/// The number of prefectures shared by the two endpoints of `line`.
pub fn shared_pref_count(refs: &PointReferences, line: &Line, table: &HashMap<u32, u32>) -> (r:
    usize)
    requires
        refs.wf(),
        line@.len() >= 1,
        forall|p: Point, a: u32|
            #[trigger] mark_area_incident(refs.marks(), p, a) && a != UNNUMBERED_AREA
                ==> table@.contains_key(a),
    ensures
        r == spec_shared_prefs(refs.marks(), table@, line@.first(), line@.last()).len(),
{
    let first = line.vertices[0];
    let last = line.vertices[line.vertices.len() - 1];
    let pf = refs.pref_references(first, table);
    let pl = refs.pref_references(last, table);
    let mut shared: Vec<u32> = Vec::new();
    let mut w: usize = 0;
    while w < pf.len()
        invariant
            w <= pf@.len(),
            pf@.no_duplicates(),
            shared@.no_duplicates(),
            forall|pr: u32|
                #[trigger] shared@.contains(pr) <==> exists|w2: int|
                    0 <= w2 < w && pf@[w2] == pr && pl@.contains(pr),
        decreases pf@.len() - w,
    {
        let x = pf[w];
        let ghost sh0 = shared@;
        if contains_u32(&pl, x) && !contains_u32(&shared, x) {
            shared.push(x);
        }
        proof {
            assert forall|pr: u32| #[trigger] shared@.contains(pr) implies exists|w2: int|
                0 <= w2 < w + 1 && pf@[w2] == pr && pl@.contains(pr) by {
                if sh0.contains(pr) {
                    let w2 = choose|w2: int| 0 <= w2 < w && pf@[w2] == pr && pl@.contains(pr);
                    assert(0 <= w2 < w + 1 && pf@[w2] == pr && pl@.contains(pr));
                } else {
                    assert(shared@ == sh0.push(x));
                    assert(pr == x);
                    assert(pf@[w as int] == pr && pl@.contains(pr));
                }
            }
            assert forall|pr: u32|
                (exists|w2: int| 0 <= w2 < w + 1 && pf@[w2] == pr && pl@.contains(pr))
                implies #[trigger] shared@.contains(pr) by {
                let w2 = choose|w2: int| 0 <= w2 < w + 1 && pf@[w2] == pr && pl@.contains(pr);
                if w2 < w {
                    assert(sh0.contains(pr));
                    let v = choose|v: int| 0 <= v < sh0.len() && sh0[v] == pr;
                    assert(shared@[v] == pr);
                } else {
                    assert(pr == x);
                    if sh0.contains(x) {
                        let v = choose|v: int| 0 <= v < sh0.len() && sh0[v] == pr;
                        assert(shared@[v] == pr);
                    } else {
                        assert(shared@[shared@.len() - 1] == pr);
                    }
                }
            }
        }
        w += 1;
    }
    proof {
        let target = spec_shared_prefs(refs.marks(), table@, line@.first(), line@.last());
        assert forall|pr: u32| #[trigger] shared@.contains(pr) <==> target.contains(pr) by {
            if shared@.contains(pr) {
                let w2 = choose|w2: int|
                    0 <= w2 < pf@.len() && pf@[w2] == pr && pl@.contains(pr);
                assert(pf@.contains(pr));
            }
            if target.contains(pr) {
                assert(spec_pref_incident(refs.marks(), table@, line@.first(), pr));
                assert(spec_pref_incident(refs.marks(), table@, line@.last(), pr));
                assert(pf@.contains(pr));
                let w2 = choose|w2: int| 0 <= w2 < pf@.len() && pf@[w2] == pr;
                assert(pl@.contains(pr));
            }
        }
        assert(shared@.to_set() =~= target);
        shared@.unique_seq_to_set();
    }
    shared.len()
}

} // verus!
