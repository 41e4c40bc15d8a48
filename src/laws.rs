use vstd::prelude::*;
use crate::geometry::{BBox, Threshold, iou_exceeds_spec, contains_spec, iou_spec, inter_area, union_area, area, min_int, max_int};
use crate::dedup::{Detection, same, mentions, retain_unmarked, scan, dedup_from, dedup_spec, lemma_retain_len};

verus! {

/// Neither an overlap above `t` from `a` to `b` nor containment either way.
pub open spec fn apart(a: BBox, b: BBox, t: Threshold) -> bool {
    !iou_exceeds_spec(a, b, t) && !contains_spec(a, b) && !contains_spec(b, a)
}

proof fn lemma_retain_members(s: Seq<Detection>, marks: Seq<Detection>)
    ensures
        forall|i: int|
            0 <= i < retain_unmarked(s, marks).len() ==> s.contains(
                #[trigger] retain_unmarked(s, marks)[i],
            ) && !mentions(marks, retain_unmarked(s, marks)[i]),
    decreases s.len(),
{
    if s.len() > 0 {
        let p = retain_unmarked(s.drop_last(), marks);
        let r = retain_unmarked(s, marks);
        lemma_retain_members(s.drop_last(), marks);
        assert forall|i: int| 0 <= i < r.len() implies s.contains(r[i]) && !mentions(marks, r[i]) by {
            if i < p.len() {
                assert(r[i] == p[i]);
                let w = choose|w: int| 0 <= w < s.drop_last().len() && s.drop_last()[w] == p[i];
                assert(s[w] == p[i]);
            } else {
                assert(r[i] == s.last());
                assert(s[s.len() - 1] == s.last());
            }
        }
    }
}

proof fn lemma_retain_unmarked_none(s: Seq<Detection>)
    ensures
        retain_unmarked(s, seq![]) == s,
    decreases s.len(),
{
    if s.len() > 0 {
        lemma_retain_unmarked_none(s.drop_last());
        assert(!mentions(seq![], s.last()));
        assert(s.drop_last().push(s.last()) =~= s);
    }
}

proof fn lemma_dedup_from_subset(work: Seq<Detection>, t: Threshold, coins: Seq<bool>, k: nat)
    ensures
        dedup_from(work, t, coins, k).len() <= work.len(),
        forall|i: int|
            0 <= i < dedup_from(work, t, coins, k).len() ==> work.contains(
                #[trigger] dedup_from(work, t, coins, k)[i],
            ),
    decreases work.len(),
{
    if work.len() > 0 {
        let d = work[0];
        let rest = work.drop_first();
        let r = scan(d, rest, t, coins, k);
        let next = retain_unmarked(rest, r.1);
        let tail = dedup_from(next, t, coins, r.2);
        let out = dedup_from(work, t, coins, k);
        lemma_retain_len(rest, r.1);
        lemma_retain_members(rest, r.1);
        lemma_dedup_from_subset(next, t, coins, r.2);
        assert forall|i: int| 0 <= i < out.len() implies work.contains(out[i]) by {
            let x = out[i];
            if r.0 && i == 0 {
                assert(work[0] == x);
            } else {
                let ti = if r.0 { i - 1 } else { i };
                assert(x == tail[ti]);
                let a = choose|a: int| 0 <= a < next.len() && next[a] == x;
                assert(rest.contains(next[a]));
                let b = choose|b: int| 0 <= b < rest.len() && rest[b] == x;
                assert(work[b + 1] == x);
            }
        }
    }
}

/// Every detection in the output is equal to some detection of the input,
/// and the output is no longer than the input, whatever the coins.
pub proof fn lemma_output_is_subset(dets: Seq<Detection>, t: Threshold, coins: Seq<bool>)
    ensures
        dedup_spec(dets, t, coins).len() <= dets.len(),
        forall|i: int|
            0 <= i < dedup_spec(dets, t, coins).len() ==> dets.contains(
                #[trigger] dedup_spec(dets, t, coins)[i],
            ),
{
    lemma_dedup_from_subset(dets, t, coins, 0);
}

proof fn lemma_mentions_prepend(o: Detection, marks: Seq<Detection>, x: Detection)
    ensures
        mentions(seq![o] + marks, o),
        mentions(marks, x) ==> mentions(seq![o] + marks, x),
{
    let m2 = seq![o] + marks;
    assert(same(m2[0], o));
    if mentions(marks, x) {
        let m = choose|m: int| 0 <= m < marks.len() && #[trigger] same(marks[m], x);
        assert(same(m2[m + 1], x));
    }
}

proof fn lemma_scan_kept_apart(
    d: Detection,
    rest: Seq<Detection>,
    t: Threshold,
    coins: Seq<bool>,
    k: nat,
)
    ensures
        scan(d, rest, t, coins, k).0 ==> forall|i: int|
            0 <= i < rest.len() ==> mentions(scan(d, rest, t, coins, k).1, #[trigger] rest[i])
                || apart(d.bbox, rest[i].bbox, t),
    decreases rest.len(),
{
    if rest.len() > 0 {
        let o = rest[0];
        let tl = rest.drop_first();
        lemma_scan_kept_apart(d, tl, t, coins, k + 1);
        lemma_scan_kept_apart(d, tl, t, coins, k);
        let r = scan(d, rest, t, coins, k);
        if r.0 {
            assert forall|i: int| 0 <= i < rest.len() implies mentions(r.1, #[trigger] rest[i])
                || apart(d.bbox, rest[i].bbox, t) by {
                let x = rest[i];
                if contains_spec(d.bbox, o.bbox) {
                    let r2 = scan(d, tl, t, coins, k);
                    lemma_mentions_prepend(o, r2.1, x);
                    if i > 0 {
                        assert(x == tl[i - 1]);
                    }
                } else if iou_exceeds_spec(d.bbox, o.bbox, t) {
                    let r2 = scan(d, tl, t, coins, k + 1);
                    lemma_mentions_prepend(o, r2.1, x);
                    if i > 0 {
                        assert(x == tl[i - 1]);
                    }
                } else if i > 0 {
                    assert(x == tl[i - 1]);
                }
            }
        }
    }
}

proof fn lemma_dedup_from_apart(work: Seq<Detection>, t: Threshold, coins: Seq<bool>, k: nat)
    ensures
        forall|i: int, j: int|
            0 <= i < j < dedup_from(work, t, coins, k).len() ==> apart(
                #[trigger] dedup_from(work, t, coins, k)[i].bbox,
                #[trigger] dedup_from(work, t, coins, k)[j].bbox,
                t,
            ),
    decreases work.len(),
{
    if work.len() > 0 {
        let d = work[0];
        let rest = work.drop_first();
        let r = scan(d, rest, t, coins, k);
        let next = retain_unmarked(rest, r.1);
        let tail = dedup_from(next, t, coins, r.2);
        let out = dedup_from(work, t, coins, k);
        lemma_retain_len(rest, r.1);
        lemma_retain_members(rest, r.1);
        lemma_dedup_from_subset(next, t, coins, r.2);
        lemma_dedup_from_apart(next, t, coins, r.2);
        lemma_scan_kept_apart(d, rest, t, coins, k);
        if r.0 {
            assert forall|i: int, j: int| 0 <= i < j < out.len() implies apart(
                out[i].bbox,
                out[j].bbox,
                t,
            ) by {
                assert(out[j] == tail[j - 1]);
                if i == 0 {
                    let x = tail[j - 1];
                    let a = choose|a: int| 0 <= a < next.len() && next[a] == x;
                    assert(rest.contains(next[a]) && !mentions(r.1, next[a]));
                    let b = choose|b: int| 0 <= b < rest.len() && rest[b] == x;
                    assert(mentions(r.1, rest[b]) || apart(d.bbox, rest[b].bbox, t));
                } else {
                    assert(out[i] == tail[i - 1]);
                }
            }
        }
    }
}

/// For any two detections of the output, the earlier one's overlap with the
/// later one is not above the threshold and neither box contains the other:
/// every ambiguous overlap and every containment has been resolved.
pub proof fn lemma_output_pairwise_apart(dets: Seq<Detection>, t: Threshold, coins: Seq<bool>)
    ensures
        forall|i: int, j: int|
            0 <= i < j < dedup_spec(dets, t, coins).len() ==> {
                let a = #[trigger] dedup_spec(dets, t, coins)[i].bbox;
                let b = #[trigger] dedup_spec(dets, t, coins)[j].bbox;
                !iou_exceeds_spec(a, b, t) && !contains_spec(a, b) && !contains_spec(b, a)
            },
{
    lemma_dedup_from_apart(dets, t, coins, 0);
}

/// The empty input gives the empty output, whatever the threshold and coins.
pub proof fn lemma_empty_input(t: Threshold, coins: Seq<bool>)
    ensures
        dedup_spec(seq![], t, coins) == Seq::<Detection>::empty(),
{
}

proof fn lemma_scan_quiet(d: Detection, rest: Seq<Detection>, t: Threshold, coins: Seq<bool>, k: nat)
    requires
        forall|i: int| 0 <= i < rest.len() ==> apart(d.bbox, #[trigger] rest[i].bbox, t),
    ensures
        scan(d, rest, t, coins, k) == (true, Seq::<Detection>::empty(), k),
    decreases rest.len(),
{
    if rest.len() > 0 {
        assert(apart(d.bbox, rest[0].bbox, t));
        let tl = rest.drop_first();
        assert forall|i: int| 0 <= i < tl.len() implies apart(d.bbox, #[trigger] tl[i].bbox, t) by {
            assert(tl[i] == rest[i + 1]);
        }
        lemma_scan_quiet(d, tl, t, coins, k);
    }
}

proof fn lemma_dedup_from_quiet(work: Seq<Detection>, t: Threshold, coins: Seq<bool>, k: nat)
    requires
        forall|i: int, j: int|
            0 <= i < work.len() && 0 <= j < work.len() && i != j ==> !iou_exceeds_spec(
                #[trigger] work[i].bbox,
                #[trigger] work[j].bbox,
                t,
            ) && !contains_spec(work[i].bbox, work[j].bbox),
    ensures
        dedup_from(work, t, coins, k) == work,
    decreases work.len(),
{
    if work.len() > 0 {
        let d = work[0];
        let rest = work.drop_first();
        assert forall|i: int| 0 <= i < rest.len() implies apart(d.bbox, #[trigger] rest[i].bbox, t) by {
            assert(rest[i] == work[i + 1]);
            assert(!iou_exceeds_spec(work[0].bbox, work[i + 1].bbox, t));
            assert(!contains_spec(work[i + 1].bbox, work[0].bbox));
        }
        lemma_scan_quiet(d, rest, t, coins, k);
        lemma_retain_unmarked_none(rest);
        assert forall|i: int, j: int|
            0 <= i < rest.len() && 0 <= j < rest.len() && i != j implies !iou_exceeds_spec(
                #[trigger] rest[i].bbox,
                #[trigger] rest[j].bbox,
                t,
            ) && !contains_spec(rest[i].bbox, rest[j].bbox) by {
            assert(rest[i] == work[i + 1] && rest[j] == work[j + 1]);
        }
        lemma_dedup_from_quiet(rest, t, coins, k);
        assert(seq![d] + rest =~= work);
    }
}

/// When no box overlaps another above the threshold and none contains
/// another, the output is the input itself, in the same order.
pub proof fn lemma_no_overlap_fixed_point(dets: Seq<Detection>, t: Threshold, coins: Seq<bool>)
    requires
        forall|i: int, j: int|
            0 <= i < dets.len() && 0 <= j < dets.len() && i != j ==> !iou_exceeds_spec(
                #[trigger] dets[i].bbox,
                #[trigger] dets[j].bbox,
                t,
            ) && !contains_spec(dets[i].bbox, dets[j].bbox),
    ensures
        dedup_spec(dets, t, coins) == dets,
{
    lemma_dedup_from_quiet(dets, t, coins, 0);
}

/// Intersection over union does not depend on the order of the two boxes.
pub proof fn lemma_iou_symmetric(a: BBox, b: BBox)
    ensures
        iou_spec(a, b) == iou_spec(b, a),
        inter_area(a, b) == inter_area(b, a),
{
    assert(min_int(a.x2 as int, b.x2 as int) == min_int(b.x2 as int, a.x2 as int));
    assert(max_int(a.x1 as int, b.x1 as int) == max_int(b.x1 as int, a.x1 as int));
    assert(min_int(a.y2 as int, b.y2 as int) == min_int(b.y2 as int, a.y2 as int));
    assert(max_int(a.y1 as int, b.y1 as int) == max_int(b.y1 as int, a.y1 as int));
}

/// Of two detections one of whose boxes strictly contains the other's, the
/// outer one alone survives, in either order, whatever the threshold and the
/// coins.
pub proof fn lemma_containment_pair(outer: Detection, inner: Detection, t: Threshold, coins: Seq<bool>)
    requires
        contains_spec(outer.bbox, inner.bbox),
        outer.bbox != inner.bbox,
    ensures
        dedup_spec(seq![outer, inner], t, coins) == seq![outer],
        dedup_spec(seq![inner, outer], t, coins) == seq![outer],
{
    let e = Seq::<Detection>::empty();
    // outer first: it marks inner, which leaves the worklist
    let w1 = seq![outer, inner];
    assert(w1.drop_first() =~= seq![inner]);
    assert(seq![inner].drop_first() =~= e);
    assert(scan(outer, e, t, coins, 0) == (true, e, 0nat));
    assert(scan(outer, seq![inner], t, coins, 0) == (true, seq![inner] + e, 0nat));
    assert(seq![inner] + e =~= seq![inner]);
    assert(seq![inner].drop_last() =~= e);
    assert(same(seq![inner][0], inner));
    assert(mentions(seq![inner], inner));
    assert(seq![inner].last() == inner);
    assert(retain_unmarked(e, seq![inner]) == e);
    assert(retain_unmarked(seq![inner], seq![inner]) =~= e);
    assert(dedup_from(e, t, coins, 0) == e);
    assert(seq![outer] + e =~= seq![outer]);
    // inner first: outer contains it, so it is dropped and outer stays
    let w2 = seq![inner, outer];
    assert(w2.drop_first() =~= seq![outer]);
    assert(seq![outer].drop_first() =~= e);
    assert(!contains_spec(inner.bbox, outer.bbox));
    assert(scan(inner, seq![outer], t, coins, 0) == (false, e, 0nat));
    assert(seq![outer].drop_last() =~= e);
    assert(!mentions(e, outer));
    assert(e.push(outer) =~= seq![outer]);
    assert(seq![outer].last() == outer);
    assert(retain_unmarked(e, e) == e);
    assert(retain_unmarked(seq![outer], e) == seq![outer]);
    assert(scan(outer, e, t, coins, 0) == (true, e, 0nat));
    assert(retain_unmarked(e, e) == e);
    assert(dedup_from(seq![outer], t, coins, 0) == seq![outer] + e);
}

/// A box whose corners are in order.
pub open spec fn well_formed_box(b: BBox) -> bool {
    b.x1 <= b.x2 && b.y1 <= b.y2
}

proof fn lemma_inter_bounded(a: BBox, b: BBox)
    requires
        well_formed_box(a),
        well_formed_box(b),
    ensures
        0 <= inter_area(a, b) <= area(a),
        0 <= inter_area(a, b) <= area(b),
{
    let w = max_int(min_int(a.x2 as int, b.x2 as int) - max_int(a.x1 as int, b.x1 as int), 0);
    let h = max_int(min_int(a.y2 as int, b.y2 as int) - max_int(a.y1 as int, b.y1 as int), 0);
    let wa = a.x2 - a.x1;
    let ha = a.y2 - a.y1;
    let wb = b.x2 - b.x1;
    let hb = b.y2 - b.y1;
    assert(0 <= w <= wa && 0 <= h <= ha && w <= wb && h <= hb);
    assert(0 <= w * h <= wa * ha) by (nonlinear_arith)
        requires
            0 <= w <= wa,
            0 <= h <= ha,
    ;
    assert(w * h <= wb * hb) by (nonlinear_arith)
        requires
            0 <= w <= wb,
            0 <= h <= hb,
    ;
}

/// With a threshold of zero and boxes whose corners are in order, no two
/// detections of the output share any area, whatever the coins: every
/// overlap was treated as ambiguous and resolved.
pub proof fn lemma_zero_threshold_no_overlap(dets: Seq<Detection>, t: Threshold, coins: Seq<bool>)
    requires
        t.num == 0,
        t.wf(),
        forall|i: int| 0 <= i < dets.len() ==> well_formed_box(#[trigger] dets[i].bbox),
    ensures
        forall|i: int, j: int|
            0 <= i < j < dedup_spec(dets, t, coins).len() ==> inter_area(
                #[trigger] dedup_spec(dets, t, coins)[i].bbox,
                #[trigger] dedup_spec(dets, t, coins)[j].bbox,
            ) == 0,
{
    let out = dedup_spec(dets, t, coins);
    lemma_output_is_subset(dets, t, coins);
    lemma_output_pairwise_apart(dets, t, coins);
    assert forall|i: int, j: int| 0 <= i < j < out.len() implies inter_area(
        #[trigger] out[i].bbox,
        #[trigger] out[j].bbox,
    ) == 0 by {
        let a = out[i].bbox;
        let b = out[j].bbox;
        assert(dets.contains(out[i]));
        assert(dets.contains(out[j]));
        assert(well_formed_box(a) && well_formed_box(b));
        lemma_inter_bounded(a, b);
        assert(!iou_exceeds_spec(a, b, t));
        let n = iou_spec(a, b).0;
        assert(n * (t.den as int) <= 0);
        assert(n <= 0) by (nonlinear_arith)
            requires
                n * (t.den as int) <= 0,
                t.den > 0,
        ;
    }
}

/// `idx` picks `r` out of `s`: increasing positions of `s` holding the
/// entries of `r` in order.
pub open spec fn picks(r: Seq<Detection>, s: Seq<Detection>, idx: Seq<int>) -> bool {
    &&& idx.len() == r.len()
    &&& forall|k: int| 0 <= k < idx.len() ==> 0 <= #[trigger] idx[k] < s.len() && r[k] == s[idx[k]]
    &&& forall|k1: int, k2: int| 0 <= k1 < k2 < idx.len() ==> #[trigger] idx[k1] < #[trigger] idx[k2]
}

proof fn lemma_retain_picks(s: Seq<Detection>, marks: Seq<Detection>) -> (idx: Seq<int>)
    ensures
        picks(retain_unmarked(s, marks), s, idx),
    decreases s.len(),
{
    if s.len() == 0 {
        seq![]
    } else {
        let p = lemma_retain_picks(s.drop_last(), marks);
        if mentions(marks, s.last()) {
            p
        } else {
            let idx = p.push(s.len() - 1);
            assert(idx[idx.len() - 1] == s.len() - 1);
            idx
        }
    }
}

proof fn lemma_picks_compose(
    r: Seq<Detection>,
    m: Seq<Detection>,
    s: Seq<Detection>,
    i1: Seq<int>,
    i2: Seq<int>,
) -> (idx: Seq<int>)
    requires
        picks(r, m, i1),
        picks(m, s, i2),
    ensures
        picks(r, s, idx),
{
    let idx = Seq::new(i1.len(), |k: int| i2[i1[k]]);
    assert forall|k: int| 0 <= k < idx.len() implies 0 <= #[trigger] idx[k] < s.len() && r[k]
        == s[idx[k]] by {
        assert(0 <= i1[k] < m.len());
    }
    assert forall|k1: int, k2: int| 0 <= k1 < k2 < idx.len() implies #[trigger] idx[k1]
        < #[trigger] idx[k2] by {
        assert(i1[k1] < i1[k2]);
        assert(0 <= i1[k1] && i1[k2] < m.len());
    }
    idx
}

proof fn lemma_dedup_from_picks(work: Seq<Detection>, t: Threshold, coins: Seq<bool>, k: nat) -> (idx: Seq<int>)
    ensures
        picks(dedup_from(work, t, coins, k), work, idx),
    decreases work.len(),
{
    if work.len() == 0 {
        seq![]
    } else {
        let d = work[0];
        let rest = work.drop_first();
        let r = scan(d, rest, t, coins, k);
        let next = retain_unmarked(rest, r.1);
        lemma_retain_len(rest, r.1);
        let tail = dedup_from(next, t, coins, r.2);
        let i_tail = lemma_dedup_from_picks(next, t, coins, r.2);
        let i_next = lemma_retain_picks(rest, r.1);
        let i_rest = lemma_picks_compose(tail, next, rest, i_tail, i_next);
        let shifted = Seq::new(i_rest.len(), |q: int| i_rest[q] + 1);
        assert forall|q: int| 0 <= q < shifted.len() implies 0 <= #[trigger] shifted[q] < work.len()
            && tail[q] == work[shifted[q]] by {
            assert(0 <= i_rest[q] < rest.len());
        }
        assert forall|q1: int, q2: int| 0 <= q1 < q2 < shifted.len() implies #[trigger] shifted[q1]
            < #[trigger] shifted[q2] by {
            assert(i_rest[q1] < i_rest[q2]);
        }
        if r.0 {
            let idx = seq![0int] + shifted;
            let out = seq![d] + tail;
            assert forall|q: int| 0 <= q < idx.len() implies 0 <= #[trigger] idx[q] < work.len()
                && out[q] == work[idx[q]] by {
                if q > 0 {
                    assert(idx[q] == shifted[q - 1]);
                }
            }
            assert forall|q1: int, q2: int| 0 <= q1 < q2 < idx.len() implies #[trigger] idx[q1]
                < #[trigger] idx[q2] by {
                assert(idx[q2] == shifted[q2 - 1]);
                if q1 > 0 {
                    assert(idx[q1] == shifted[q1 - 1]);
                }
            }
            idx
        } else {
            shifted
        }
    }
}

/// The output is a subsequence of the input, whatever the coins: each
/// output detection equals an input detection, at increasing input
/// positions, so nothing is made up and the input order is kept.
pub proof fn lemma_output_is_subsequence(dets: Seq<Detection>, t: Threshold, coins: Seq<bool>)
    ensures
        exists|idx: Seq<int>| picks(dedup_spec(dets, t, coins), dets, idx),
{
    let idx = lemma_dedup_from_picks(dets, t, coins, 0);
    assert(picks(dedup_spec(dets, t, coins), dets, idx));
}

} // verus!
