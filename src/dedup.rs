use vstd::prelude::*;
use rand::Rng;
use crate::geometry::{BBox, Threshold, iou_exceeds_spec, contains_spec, iou_exceeds, is_contained};

verus! {

/// A labelled box produced by a detector. The label is carried through
/// unchanged and plays no part in the overlap rules.
#[derive(Debug)]
pub struct Detection {
    pub label: String,
    pub bbox: BBox,
}

impl Detection {
    pub fn new(label: String, bbox: BBox) -> (r: Detection)
        ensures
            r.label == label,
            r.bbox == bbox,
    {
        Detection { label, bbox }
    }

    /// An independent copy holding the same label and box.
    pub fn copy(&self) -> (r: Detection)
        ensures
            r == *self,
    {
        Detection { label: self.label.clone(), bbox: self.bbox }
    }
}

/// Two detections are the same value when label text and box agree.
pub open spec fn same(a: Detection, b: Detection) -> bool {
    a.label@ == b.label@ && a.bbox == b.bbox
}

impl PartialEq for Detection {
    fn eq(&self, other: &Detection) -> (r: bool) {
        self.label == other.label && self.bbox == other.bbox
    }
}

impl vstd::std_specs::cmp::PartialEqSpecImpl for Detection {
    open spec fn obeys_eq_spec() -> bool {
        true
    }

    open spec fn eq_spec(&self, other: &Detection) -> bool {
        same(*self, *other)
    }
}

/// Some entry of `marks` is the same value as `x`.
pub open spec fn mentions(marks: Seq<Detection>, x: Detection) -> bool {
    exists|m: int| 0 <= m < marks.len() && #[trigger] same(marks[m], x)
}

/// The entries of `s`, in order, that are not the same value as any mark.
pub open spec fn retain_unmarked(s: Seq<Detection>, marks: Seq<Detection>) -> Seq<Detection>
    decreases s.len(),
{
    if s.len() == 0 {
        seq![]
    } else {
        let p = retain_unmarked(s.drop_last(), marks);
        if mentions(marks, s.last()) {
            p
        } else {
            p.push(s.last())
        }
    }
}

/// The `k`-th coin: `true` (heads) removes the other detection, `false`
/// (tails) drops the candidate. Coins past the end of the sequence are tails.
pub open spec fn coin_at(coins: Seq<bool>, k: nat) -> bool {
    k < coins.len() && coins[k as int]
}

/// The scan of candidate `d` against the detections `rest` that follow it,
/// with coins read from position `k`. Gives whether `d` is kept, the
/// detections marked for removal, and the position of the next unread coin.
pub open spec fn scan(d: Detection, rest: Seq<Detection>, t: Threshold, coins: Seq<bool>, k: nat)
    -> (bool, Seq<Detection>, nat)
    decreases rest.len(),
{
    if rest.len() == 0 {
        (true, seq![], k)
    } else {
        let o = rest[0];
        if contains_spec(d.bbox, o.bbox) {
            let r = scan(d, rest.drop_first(), t, coins, k);
            (r.0, seq![o] + r.1, r.2)
        } else if contains_spec(o.bbox, d.bbox) {
            (false, seq![], k)
        } else if iou_exceeds_spec(d.bbox, o.bbox, t) {
            if coin_at(coins, k) {
                let r = scan(d, rest.drop_first(), t, coins, k + 1);
                (r.0, seq![o] + r.1, r.2)
            } else {
                (false, seq![], k + 1)
            }
        } else {
            scan(d, rest.drop_first(), t, coins, k)
        }
    }
}

/// The worklist procedure from worklist `work`, coins read from position `k`:
/// the first detection is scanned against the rest, the marked values leave
/// the worklist, and the candidate is emitted when the scan keeps it.
pub open spec fn dedup_from(work: Seq<Detection>, t: Threshold, coins: Seq<bool>, k: nat) -> Seq<
    Detection,
>
    decreases work.len(),
    via dedup_from_decreases
{
    if work.len() == 0 {
        seq![]
    } else {
        let d = work[0];
        let rest = work.drop_first();
        let r = scan(d, rest, t, coins, k);
        let tail = dedup_from(retain_unmarked(rest, r.1), t, coins, r.2);
        if r.0 {
            seq![d] + tail
        } else {
            tail
        }
    }
}

/// The deduplicated detections for input `dets`, threshold `t` and coin
/// sequence `coins`, each ambiguous overlap taking the next coin.
pub open spec fn dedup_spec(dets: Seq<Detection>, t: Threshold, coins: Seq<bool>) -> Seq<Detection> {
    dedup_from(dets, t, coins, 0)
}

pub proof fn lemma_retain_len(s: Seq<Detection>, marks: Seq<Detection>)
    ensures
        retain_unmarked(s, marks).len() <= s.len(),
    decreases s.len(),
{
    if s.len() > 0 {
        lemma_retain_len(s.drop_last(), marks);
    }
}

#[via_fn]
proof fn dedup_from_decreases(work: Seq<Detection>, t: Threshold, coins: Seq<bool>, k: nat) {
    if work.len() > 0 {
        let r = scan(work[0], work.drop_first(), t, coins, k);
        lemma_retain_len(work.drop_first(), r.1);
    }
}

/// Whether some entry of `marks` is the same value as `x`.
fn is_marked(marks: &Vec<Detection>, x: &Detection) -> (r: bool)
    ensures
        r == mentions(marks@, *x),
{
    let mut found = false;
    let mut i: usize = 0;
    while i < marks.len()
        invariant
            i <= marks.len(),
            found == exists|m: int| 0 <= m < i && #[trigger] same(marks@[m], *x),
        decreases marks.len() - i,
    {
        if marks[i].label == x.label && marks[i].bbox == x.bbox {
            found = true;
            assert(same(marks@[i as int], *x));
        }
        i += 1;
    }
    found
}

/// Copies of the entries of `work`, in order, that no mark equals in value.
fn retain_unmarked_exec(work: &Vec<Detection>, marks: &Vec<Detection>) -> (r: Vec<Detection>)
    ensures
        r@ == retain_unmarked(work@, marks@),
{
    let mut next: Vec<Detection> = Vec::new();
    let mut i: usize = 0;
    while i < work.len()
        invariant
            i <= work.len(),
            next@ == retain_unmarked(work@.subrange(0, i as int), marks@),
        decreases work.len() - i,
    {
        assert(work@.subrange(0, i + 1).drop_last() =~= work@.subrange(0, i as int));
        if !is_marked(marks, &work[i]) {
            next.push(work[i].copy());
        }
        i += 1;
    }
    assert(work@.subrange(0, work.len() as int) =~= work@);
    next
}

/// The result of a scan resumed after marks `marks` were collected.
pub open spec fn resumed(marks: Seq<Detection>, r: (bool, Seq<Detection>, nat)) -> (
    bool,
    Seq<Detection>,
    nat,
) {
    (r.0, marks + r.1, r.2)
}

/// The coin sequences that a run may still be following: the given ones,
/// or, where coins are drawn, any sequence that begins with those drawn.
spec fn admits(draw: bool, given: Seq<bool>, drawn: Seq<bool>, c: Seq<bool>) -> bool {
    if draw {
        drawn.len() <= c.len() && c.take(drawn.len() as int) == drawn
    } else {
        c == given
    }
}

proof fn lemma_admits_prefix(draw: bool, given: Seq<bool>, short: Seq<bool>, long: Seq<bool>, c: Seq<bool>)
    requires
        admits(draw, given, long, c),
        short.len() <= long.len(),
        long.take(short.len() as int) == short,
    ensures
        admits(draw, given, short, c),
{
    if draw {
        assert(c.take(short.len() as int) =~= c.take(long.len() as int).take(short.len() as int));
    }
}

proof fn lemma_admits_push(given: Seq<bool>, drawn: Seq<bool>, b: bool, c: Seq<bool>)
    requires
        admits(true, given, drawn.push(b), c),
    ensures
        admits(true, given, drawn, c),
        coin_at(c, drawn.len()) == b,
{
    assert(drawn.push(b).take(drawn.len() as int) =~= drawn);
    lemma_admits_prefix(true, given, drawn, drawn.push(b), c);
    assert(c[drawn.len() as int] == c.take(drawn.len() + 1int)[drawn.len() as int]);
}

/// The worklist procedure, with its coins read from `coins` or, where
/// `draw` holds, drawn fresh for each ambiguous overlap and handed back.
fn dedup_run(detections: Vec<Detection>, iou_threshold: Threshold, coins: &Vec<bool>, draw: bool) -> (r: (
    Vec<Detection>,
    Ghost<Seq<bool>>,
))
    requires
        iou_threshold.wf(),
    ensures
        !draw ==> r.0@ == dedup_spec(detections@, iou_threshold, coins@),
        draw ==> r.0@ == dedup_spec(detections@, iou_threshold, r.1@),
{
    let ghost t = iou_threshold;
    let mut work = detections;
    let mut out: Vec<Detection> = Vec::new();
    let mut k: usize = 0;
    let ghost mut gk: nat = 0;
    let ghost mut drawn: Seq<bool> = seq![];
    assert forall|c: Seq<bool>| #[trigger] admits(draw, coins@, drawn, c) implies out@ + dedup_from(
        work@,
        t,
        c,
        gk,
    ) == dedup_spec(detections@, t, c) by {
        assert(out@ + dedup_from(work@, t, c, gk) =~= dedup_from(work@, t, c, gk));
    }
    while work.len() > 0
        invariant
            t == iou_threshold,
            t.wf(),
            draw ==> gk == drawn.len(),
            !draw ==> k == (if gk < coins.len() { gk } else { coins.len() as nat }),
            forall|c: Seq<bool>| #[trigger]
                admits(draw, coins@, drawn, c) ==> out@ + dedup_from(work@, t, c, gk) == dedup_spec(
                    detections@,
                    t,
                    c,
                ),
        decreases work.len(),
    {
        let ghost w0 = work@;
        let ghost o0 = out@;
        let ghost gk0 = gk;
        let ghost drawn0 = drawn;
        let d = work.remove(0);
        assert(work@ =~= w0.drop_first());
        let n = work.len();
        let mut keep = true;
        let mut marks: Vec<Detection> = Vec::new();
        let mut j: usize = 0;
        let ghost mut jk: nat = gk;
        assert(work@.subrange(0, n as int) =~= work@);
        assert(drawn.take(drawn0.len() as int) =~= drawn0);
        assert forall|c: Seq<bool>| #[trigger] admits(draw, coins@, drawn, c) implies scan(
            d,
            work@,
            t,
            c,
            gk0,
        ) == resumed(marks@, scan(d, work@.subrange(0, n as int), t, c, jk)) by {
            assert(marks@ + scan(d, work@, t, c, jk).1 =~= scan(d, work@, t, c, jk).1);
        }
        while keep && j < n
            invariant
                t == iou_threshold,
                t.wf(),
                n == work.len(),
                j <= n,
                jk >= gk0,
                draw ==> jk == drawn.len(),
                !draw ==> k == (if jk < coins.len() { jk } else { coins.len() as nat }),
                drawn0.len() <= drawn.len(),
                drawn.take(drawn0.len() as int) == drawn0,
                forall|c: Seq<bool>| #[trigger]
                    admits(draw, coins@, drawn, c) ==> scan(d, work@, t, c, gk0) == (if keep {
                        resumed(marks@, scan(d, work@.subrange(j as int, n as int), t, c, jk))
                    } else {
                        (false, marks@, jk)
                    }),
            decreases n - j,
        {
            let o = &work[j];
            let ghost tail = work@.subrange(j as int, n as int);
            let ghost after = work@.subrange(j + 1, n as int);
            assert(tail.drop_first() =~= after);
            assert(tail[0] == *o);
            let ghost m0 = marks@;
            let ghost jk0 = jk;
            let ghost dr0 = drawn;
            if is_contained(&d.bbox, &o.bbox) {
                marks.push(o.copy());
                assert forall|c: Seq<bool>| #[trigger] admits(draw, coins@, drawn, c) implies scan(
                    d,
                    work@,
                    t,
                    c,
                    gk0,
                ) == resumed(marks@, scan(d, after, t, c, jk)) by {
                    assert(marks@ + scan(d, after, t, c, jk).1 =~= m0 + (seq![*o] + scan(
                        d,
                        after,
                        t,
                        c,
                        jk,
                    ).1));
                }
            } else if is_contained(&o.bbox, &d.bbox) {
                keep = false;
            } else if iou_exceeds(&d.bbox, &o.bbox, iou_threshold) {
                let heads = if draw {
                    let b = fair_coin();
                    proof {
                        drawn = drawn.push(b);
                    }
                    b
                } else if k < coins.len() {
                    let b = coins[k];
                    k += 1;
                    b
                } else {
                    false
                };
                proof {
                    jk = jk + 1;
                    if draw {
                        assert(drawn.take(drawn0.len() as int) =~= dr0.take(drawn0.len() as int));
                    }
                }
                assert forall|c: Seq<bool>| #[trigger] admits(draw, coins@, drawn, c) implies admits(
                    draw,
                    coins@,
                    dr0,
                    c,
                ) && coin_at(c, jk0) == heads by {
                    if draw {
                        lemma_admits_push(coins@, dr0, heads, c);
                    }
                }
                if heads {
                    marks.push(o.copy());
                    assert forall|c: Seq<bool>| #[trigger] admits(draw, coins@, drawn, c) implies scan(
                        d,
                        work@,
                        t,
                        c,
                        gk0,
                    ) == resumed(marks@, scan(d, after, t, c, jk)) by {
                        assert(admits(draw, coins@, dr0, c));
                        assert(marks@ + scan(d, after, t, c, jk).1 =~= m0 + (seq![*o] + scan(
                            d,
                            after,
                            t,
                            c,
                            jk,
                        ).1));
                    }
                } else {
                    keep = false;
                    assert forall|c: Seq<bool>| #[trigger] admits(draw, coins@, drawn, c) implies scan(
                        d,
                        work@,
                        t,
                        c,
                        gk0,
                    ) == (false, marks@, jk) by {
                        assert(admits(draw, coins@, dr0, c));
                    }
                }
            }
            j += 1;
        }
        proof {
            if keep {
                assert(work@.subrange(j as int, n as int) =~= Seq::<Detection>::empty());
                assert(marks@ + Seq::<Detection>::empty() =~= marks@);
            }
        }
        let next = retain_unmarked_exec(&work, &marks);
        proof {
            lemma_retain_len(work@, marks@);
        }
        work = next;
        proof {
            gk = jk;
        }
        if keep {
            out.push(d);
        }
        assert forall|c: Seq<bool>| #[trigger] admits(draw, coins@, drawn, c) implies out@ + dedup_from(
            work@,
            t,
            c,
            gk,
        ) == dedup_spec(detections@, t, c) by {
            lemma_admits_prefix(draw, coins@, drawn0, drawn, c);
            assert(scan(d, w0.drop_first(), t, c, gk0) == (keep, marks@, jk));
            if keep {
                assert(o0 + (seq![d] + dedup_from(work@, t, c, gk)) =~= out@ + dedup_from(
                    work@,
                    t,
                    c,
                    gk,
                ));
            }
        }
    }
    assert(admits(draw, coins@, drawn, if draw { drawn } else { coins@ })) by {
        assert(drawn.take(drawn.len() as int) =~= drawn);
    }
    assert(out@ + Seq::<Detection>::empty() =~= out@);
    (out, Ghost(drawn))
}

/// Deduplicates `detections`: each candidate in worklist order is scanned
/// against the detections left behind it. A box inside the candidate's (or
/// equal to it) is marked for removal, and a candidate inside another box is
/// dropped, with no coin. An ambiguous overlap (IOU above `iou_threshold`,
/// neither box containing the other) is resolved by the next entry of
/// `coins` (`true` removes the other detection, `false` drops the candidate;
/// missing coins are `false`).
/// Removal is by value: a mark takes out every worklist entry equal to the
/// marked detection. Each candidate scans the rest of the worklist, so the
/// work grows with the square of the number of detections.
pub fn deduplicate(detections: Vec<Detection>, iou_threshold: Threshold, coins: &Vec<bool>) -> (r:
    Vec<Detection>)
    requires
        iou_threshold.wf(),
    ensures
        r@ == dedup_spec(detections@, iou_threshold, coins@),
{
    dedup_run(detections, iou_threshold, coins, false).0
}

/// Relies on rand::thread_rng and Rng::gen_ratio(1, 2): a fair coin drawn from
/// the thread's generator. Nothing is known of the outcome.
#[verifier::external_body]
fn fair_coin() -> (r: bool) {
    rand::thread_rng().gen_ratio(1, 2)
}

/// Deduplicates `detections`, drawing a fresh fair coin at each ambiguous
/// overlap. The result is the deduplication under some coin sequence.
pub fn post_process(detections: Vec<Detection>, iou_threshold: Threshold) -> (r: Vec<Detection>)
    requires
        iou_threshold.wf(),
    ensures
        exists|coins: Seq<bool>| r@ == dedup_spec(detections@, iou_threshold, coins),
{
    let no_coins: Vec<bool> = Vec::new();
    let (r, drawn) = dedup_run(detections, iou_threshold, &no_coins, true);
    assert(r@ == dedup_spec(detections@, iou_threshold, drawn@));
    r
}

} // verus!
