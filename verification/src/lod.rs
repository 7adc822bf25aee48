//! Level-of-detail strips: interned, sentinel-delimited border lines.
//!
//! Each level packs its (already simplified) lines into one flat index
//! sequence: a line's vertex indices, then the reserved index 0 as a
//! separator, with the trailing separator dropped. Index 0 can serve as
//! the separator because the interner holds a dummy at index 0 that no
//! finite geometry can collide with.

use vstd::prelude::*;
use crate::point::Point;
use crate::line::Line;
use crate::cut::line_views;
use crate::interner::{VertexBuffer, point_is_ordinary, dummy_point,
    lemma_ordinary_point_is_not_dummy};

verus! {

/// The packed shape of a list of lines: each line's points, `None`
/// between lines.
pub open spec fn flat_with_sentinels(views: Seq<Seq<Point>>) -> Seq<Option<Point>>
    decreases views.len(),
{
    if views.len() == 0 {
        Seq::empty()
    } else if views.len() == 1 {
        views[0].map_values(|p: Point| Some(p))
    } else {
        flat_with_sentinels(views.drop_last()) + seq![None] + views.last().map_values(
            |p: Point| Some(p),
        )
    }
}

/// As [`flat_with_sentinels`], but with a separator after every line.
pub open spec fn flat_trailing(views: Seq<Seq<Point>>) -> Seq<Option<Point>>
    decreases views.len(),
{
    if views.len() == 0 {
        Seq::empty()
    } else {
        flat_trailing(views.drop_last()) + views.last().map_values(|p: Point| Some(p)) + seq![
            None,
        ]
    }
}

proof fn lemma_flat_trailing(views: Seq<Seq<Point>>)
    requires
        views.len() >= 1,
    ensures
        flat_trailing(views) == flat_with_sentinels(views) + seq![None],
    decreases views.len(),
{
    if views.len() == 1 {
        assert(flat_trailing(views.drop_last()) == Seq::<Option<Point>>::empty());
        assert(flat_trailing(views) =~= flat_with_sentinels(views) + seq![None]);
    } else {
        lemma_flat_trailing(views.drop_last());
        assert(flat_trailing(views) == flat_with_sentinels(views.drop_last()) + seq![None]
            + views.last().map_values(|p: Point| Some(p)) + seq![None]);
        assert(flat_with_sentinels(views.drop_last()) + seq![None] + views.last().map_values(
            |p: Point| Some(p),
        ) + seq![None] =~= flat_with_sentinels(views) + seq![None]);
    }
}

/// The total number of points over a list of lines.
pub open spec fn total_points(ls: Seq<Line>) -> nat
    decreases ls.len(),
{
    if ls.len() == 0 {
        0
    } else {
        total_points(ls.drop_last()) + ls.last()@.len()
    }
}

proof fn lemma_total_points_prefix(ls: Seq<Line>, m: int)
    requires
        0 <= m <= ls.len(),
    ensures
        total_points(ls.take(m)) <= total_points(ls),
    decreases ls.len() - m,
{
    if m == ls.len() {
        assert(ls.take(m) =~= ls);
    } else {
        assert(ls.take(m + 1).drop_last() =~= ls.take(m));
        lemma_total_points_prefix(ls, m + 1);
    }
}

proof fn lemma_total_points_take(ls: Seq<Line>, j: int)
    requires
        0 <= j < ls.len(),
    ensures
        total_points(ls.take(j + 1)) == total_points(ls.take(j)) + ls[j]@.len(),
{
    assert(ls.take(j + 1).drop_last() =~= ls.take(j));
    assert(ls.take(j + 1).last() == ls[j]);
}

/// Interns every vertex of every line and packs the indices into one
/// sentinel-delimited strip. Every emitted index is in range of the
/// final vertex array; separators are exactly the zeros, and a real
/// vertex never receives index 0.
pub fn pack_lines(vb: &mut VertexBuffer, lines: &Vec<Line>) -> (r: Vec<u32>)
    requires
        old(vb).wf(),
        forall|t: int, w: int|
            0 <= t < lines@.len() && 0 <= w < lines@[t]@.len() ==> point_is_ordinary(
                #[trigger] lines@[t]@[w],
            ),
        old(vb).points().len() + total_points(lines@) <= u32::MAX,
    ensures
        final(vb).wf(),
        final(vb).points().len() <= old(vb).points().len() + total_points(lines@),
        old(vb).points().len() <= final(vb).points().len(),
        forall|i: int|
            0 <= i < old(vb).points().len() ==> #[trigger] final(vb).points()[i]
                == old(vb).points()[i],
        r@.len() == flat_with_sentinels(line_views(lines@)).len(),
        forall|t: int|
            0 <= t < r@.len() && flat_with_sentinels(line_views(lines@))[t] is None
                ==> #[trigger] r@[t] == 0,
        forall|t: int|
            0 <= t < r@.len() && flat_with_sentinels(line_views(lines@))[t] is Some
                ==> #[trigger] r@[t] != 0 && r@[t] < final(vb).points().len()
                && final(vb).points()[r@[t] as int]
                == flat_with_sentinels(line_views(lines@))[t]->0,
        forall|t: int| 0 <= t < r@.len() ==> #[trigger] r@[t] < final(vb).points().len(),
{
    let ghost base = old(vb).points().len() as int;
    proof {
        vb.lemma_wf_dummy();
    }
    let mut out: Vec<u32> = Vec::new();
    let mut j: usize = 0;
    while j < lines.len()
        invariant
            vb.wf(),
            j <= lines@.len(),
            forall|t: int, w: int|
                0 <= t < lines@.len() && 0 <= w < lines@[t]@.len() ==> point_is_ordinary(
                    #[trigger] lines@[t]@[w],
                ),
            base + total_points(lines@) <= u32::MAX,
            base <= vb.points().len() <= base + total_points(lines@.take(j as int)),
            forall|i: int|
                0 <= i < base ==> #[trigger] vb.points()[i] == old(vb).points()[i],
            vb.points()[0] == dummy_point(),
            out@.len() == flat_trailing(line_views(lines@.take(j as int))).len(),
            forall|t: int|
                0 <= t < out@.len() && flat_trailing(line_views(lines@.take(j as int)))[t] is None
                    ==> #[trigger] out@[t] == 0,
            forall|t: int|
                0 <= t < out@.len() && flat_trailing(line_views(lines@.take(j as int)))[t] is Some
                    ==> #[trigger] out@[t] != 0 && out@[t] < vb.points().len() && vb.points()[
                    out@[t] as int
                ] == flat_trailing(line_views(lines@.take(j as int)))[t]->0,
        decreases lines@.len() - j,
    {
        let line = &lines[j];
        let ghost flat0 = flat_trailing(line_views(lines@.take(j as int)));
        let ghost vbp0 = vb.points();
        proof {
            lemma_total_points_take(lines@, j as int);
            lemma_total_points_prefix(lines@, j + 1);
        }
        let n = line.vertices.len();
        let mut w: usize = 0;
        while w < n
            invariant
                vb.wf(),
                j < lines@.len(),
                line == &lines@[j as int],
                n == line@.len(),
                w <= n,
                forall|t: int, w2: int|
                    0 <= t < lines@.len() && 0 <= w2 < lines@[t]@.len() ==> point_is_ordinary(
                        #[trigger] lines@[t]@[w2],
                    ),
                base + total_points(lines@) <= u32::MAX,
                total_points(lines@.take(j + 1)) <= total_points(lines@),
                total_points(lines@.take(j + 1)) == total_points(lines@.take(j as int))
                    + line@.len(),
                vbp0.len() <= base + total_points(lines@.take(j as int)),
                base <= vbp0.len(),
                vbp0.len() <= vb.points().len() <= vbp0.len() + w,
                forall|i: int| 0 <= i < vbp0.len() ==> #[trigger] vb.points()[i] == vbp0[i],
                forall|i: int|
                    0 <= i < base ==> #[trigger] vb.points()[i] == old(vb).points()[i],
                vb.points()[0] == dummy_point(),
                out@.len() == flat0.len() + w,
                forall|t: int|
                    0 <= t < flat0.len() && flat0[t] is None ==> #[trigger] out@[t] == 0,
                forall|t: int|
                    0 <= t < flat0.len() && flat0[t] is Some ==> #[trigger] out@[t] != 0 && out@[t]
                        < vb.points().len() && vb.points()[out@[t] as int] == flat0[t]->0,
                forall|t: int|
                    flat0.len() <= t < out@.len() ==> #[trigger] out@[t] != 0 && out@[t]
                        < vb.points().len() && vb.points()[out@[t] as int] == line@[t
                        - flat0.len()],
            decreases n - w,
        {
            let p = line.vertices[w];
            let ghost vb_before = vb.points();
            let idx = vb.insert(p);
            proof {
                lemma_ordinary_point_is_not_dummy(p);
                assert(idx < base + total_points(lines@.take(j + 1)));
                assert forall|i: int|
                    0 <= i < vbp0.len() implies #[trigger] vb.points()[i] == vbp0[i] by {
                    assert(vb.points()[i] == vb_before[i]);
                }
            }
            out.push(idx as u32);
            w += 1;
        }
        out.push(0);
        proof {
            let lv1 = line_views(lines@.take(j + 1));
            assert(lv1.drop_last() =~= line_views(lines@.take(j as int)));
            assert(lv1.last() == line@);
            assert(flat_trailing(lv1) == flat_trailing(lv1.drop_last()) + line@.map_values(
                |p: Point| Some(p),
            ) + seq![None]);
            assert(out@.len() == flat_trailing(lv1).len());
            assert forall|t: int|
                0 <= t < out@.len() && flat_trailing(lv1)[t] is None implies #[trigger] out@[t]
                == 0 by {
                if t < flat0.len() {
                    assert(flat_trailing(lv1)[t] == flat0[t]);
                } else if t < flat0.len() + line@.len() {
                    assert(flat_trailing(lv1)[t] == Some(line@[t - flat0.len()]));
                }
            }
            assert forall|t: int|
                0 <= t < out@.len() && flat_trailing(lv1)[t] is Some implies #[trigger] out@[t]
                != 0 && out@[t] < vb.points().len() && vb.points()[out@[t] as int]
                == flat_trailing(lv1)[t]->0 by {
                if t < flat0.len() {
                    assert(flat_trailing(lv1)[t] == flat0[t]);
                } else if t < flat0.len() + line@.len() {
                    assert(flat_trailing(lv1)[t] == Some(line@[t - flat0.len()]));
                }
            }
            lemma_total_points_take(lines@, j as int);
        }
        j += 1;
    }
    let ghost out_before_pop = out@;
    let popped = out.pop();
    proof {
        assert(lines@.take(lines@.len() as int) =~= lines@);
        let lv = line_views(lines@);
        if lines@.len() == 0 {
            assert(flat_trailing(lv).len() == 0);
            assert(out@.len() == 0);
            assert(flat_with_sentinels(lv).len() == 0);
        } else {
            lemma_flat_trailing(lv);
            assert(out_before_pop.len() == flat_with_sentinels(lv).len() + 1);
            assert(out@ == out_before_pop.subrange(0, out_before_pop.len() - 1));
            assert forall|t: int| 0 <= t < out@.len() implies out@[t] == out_before_pop[t]
                && flat_trailing(lv)[t] == flat_with_sentinels(lv)[t] by {}
        }
    }
    out
}

} // verus!

verus! {

/// The total number of points over a list of levels.
pub open spec fn total_levels(levels: Seq<Vec<Line>>) -> nat
    decreases levels.len(),
{
    if levels.len() == 0 {
        0
    } else {
        total_levels(levels.drop_last()) + total_points(levels.last()@)
    }
}

proof fn lemma_total_levels_take(levels: Seq<Vec<Line>>, j: int)
    requires
        0 <= j < levels.len(),
    ensures
        total_levels(levels.take(j + 1)) == total_levels(levels.take(j)) + total_points(
            levels[j]@,
        ),
{
    assert(levels.take(j + 1).drop_last() =~= levels.take(j));
    assert(levels.take(j + 1).last() == levels[j]);
}

proof fn lemma_total_levels_prefix(levels: Seq<Vec<Line>>, m: int)
    requires
        0 <= m <= levels.len(),
    ensures
        total_levels(levels.take(m)) <= total_levels(levels),
    decreases levels.len() - m,
{
    if m == levels.len() {
        assert(levels.take(m) =~= levels);
    } else {
        assert(levels.take(m + 1).drop_last() =~= levels.take(m));
        lemma_total_levels_prefix(levels, m + 1);
    }
}

/// Packs one strip per level (each level holds the lines already
/// simplified for its tolerance), all levels sharing one interner. Every
/// index of every level is in range of the final vertex array.
pub fn gen_lod(vb: &mut VertexBuffer, levels: Vec<Vec<Line>>) -> (r: Vec<Vec<u32>>)
    requires
        old(vb).wf(),
        forall|lv: int, t: int, w: int|
            0 <= lv < levels@.len() && 0 <= t < levels@[lv]@.len() && 0 <= w
                < levels@[lv]@[t]@.len() ==> point_is_ordinary(#[trigger] levels@[lv]@[t]@[w]),
        old(vb).points().len() + total_levels(levels@) <= u32::MAX,
    ensures
        final(vb).wf(),
        old(vb).points().len() <= final(vb).points().len(),
        forall|i: int|
            0 <= i < old(vb).points().len() ==> #[trigger] final(vb).points()[i]
                == old(vb).points()[i],
        r@.len() == levels@.len(),
        forall|lv: int|
            0 <= lv < r@.len() ==> (#[trigger] r@[lv])@.len() == flat_with_sentinels(
                line_views(levels@[lv]@),
            ).len(),
        forall|lv: int, t: int|
            0 <= lv < r@.len() && 0 <= t < r@[lv]@.len() && flat_with_sentinels(
                line_views(levels@[lv]@),
            )[t] is None ==> #[trigger] r@[lv]@[t] == 0,
        forall|lv: int, t: int|
            0 <= lv < r@.len() && 0 <= t < r@[lv]@.len() && flat_with_sentinels(
                line_views(levels@[lv]@),
            )[t] is Some ==> #[trigger] r@[lv]@[t] != 0 && final(vb).points()[r@[lv]@[t] as int]
                == flat_with_sentinels(line_views(levels@[lv]@))[t]->0,
        forall|lv: int, t: int|
            0 <= lv < r@.len() && 0 <= t < r@[lv]@.len() ==> #[trigger] r@[lv]@[t]
                < final(vb).points().len(),
{
    let ghost base = old(vb).points().len() as int;
    let ghost all = levels@;
    let mut rest = levels;
    let mut out: Vec<Vec<u32>> = Vec::new();
    let ghost mut lv: int = 0;
    while rest.len() > 0
        invariant
            vb.wf(),
            0 <= lv <= all.len(),
            rest@ == all.skip(lv),
            out@.len() == lv,
            forall|lv2: int, t: int, w: int|
                0 <= lv2 < all.len() && 0 <= t < all[lv2]@.len() && 0 <= w
                    < all[lv2]@[t]@.len() ==> point_is_ordinary(#[trigger] all[lv2]@[t]@[w]),
            base + total_levels(all) <= u32::MAX,
            base <= vb.points().len() <= base + total_levels(all.take(lv)),
            forall|i: int|
                0 <= i < base ==> #[trigger] vb.points()[i] == old(vb).points()[i],
            forall|lv2: int|
                0 <= lv2 < lv ==> (#[trigger] out@[lv2])@.len() == flat_with_sentinels(
                    line_views(all[lv2]@),
                ).len(),
            forall|lv2: int, t: int|
                0 <= lv2 < lv && 0 <= t < out@[lv2]@.len() && flat_with_sentinels(
                    line_views(all[lv2]@),
                )[t] is None ==> #[trigger] out@[lv2]@[t] == 0,
            forall|lv2: int, t: int|
                0 <= lv2 < lv && 0 <= t < out@[lv2]@.len() && flat_with_sentinels(
                    line_views(all[lv2]@),
                )[t] is Some ==> #[trigger] out@[lv2]@[t] != 0 && vb.points()[out@[lv2]@[t] as int]
                    == flat_with_sentinels(line_views(all[lv2]@))[t]->0,
            forall|lv2: int, t: int|
                0 <= lv2 < lv && 0 <= t < out@[lv2]@.len() ==> #[trigger] out@[lv2]@[t]
                    < vb.points().len(),
        decreases rest@.len(),
    {
        let level = rest.remove(0);
        proof {
            assert(level == all[lv]);
            assert(rest@ =~= all.skip(lv + 1));
            lemma_total_levels_take(all, lv);
            lemma_total_levels_prefix(all, lv + 1);
            assert forall|t: int, w: int|
                0 <= t < level@.len() && 0 <= w < level@[t]@.len() implies point_is_ordinary(
                #[trigger] level@[t]@[w]) by {
                assert(point_is_ordinary(all[lv]@[t]@[w]));
            }
        }
        let ghost vbp0 = vb.points();
        let strip = pack_lines(vb, &level);
        out.push(strip);
        proof {
            assert forall|lv2: int, t: int|
                0 <= lv2 < lv + 1 && 0 <= t < out@[lv2]@.len() && flat_with_sentinels(
                    line_views(all[lv2]@),
                )[t] is Some implies #[trigger] out@[lv2]@[t] != 0 && vb.points()[out@[lv2]@[
                t
            ] as int] == flat_with_sentinels(line_views(all[lv2]@))[t]->0 by {
                if lv2 < lv {
                    assert(out@[lv2]@[t] < vbp0.len());
                    assert(vb.points()[out@[lv2]@[t] as int] == vbp0[out@[lv2]@[t] as int]);
                }
            }
            assert forall|lv2: int, t: int|
                0 <= lv2 < lv + 1 && 0 <= t < out@[lv2]@.len() implies #[trigger] out@[lv2]@[t]
                < vb.points().len() by {
                if lv2 < lv {
                    assert(out@[lv2]@[t] < vbp0.len());
                }
            }
            lv = lv + 1;
        }
    }
    proof {
        assert(all.take(all.len() as int) =~= all);
    }
    out
}

/// The scale-to-level table: each schedule entry's scale threshold,
/// paired with its level index, in schedule order.
pub fn scale_level_map_of(thresholds: &Vec<u32>) -> (r: Vec<(u32, usize)>)
    ensures
        r@.len() == thresholds@.len(),
        forall|i: int| 0 <= i < r@.len() ==> #[trigger] r@[i] == (thresholds@[i], i as usize),
{
    let mut out: Vec<(u32, usize)> = Vec::new();
    let mut i: usize = 0;
    while i < thresholds.len()
        invariant
            i <= thresholds@.len(),
            out@.len() == i,
            forall|j: int| 0 <= j < i ==> #[trigger] out@[j] == (thresholds@[j], j as usize),
        decreases thresholds@.len() - i,
    {
        out.push((thresholds[i], i));
        i += 1;
    }
    out
}

} // verus!
