//! Why a partition that settles keeps at most as many segments as it was
//! given: a cut leaves the splitting segment and a piece in a front bucket
//! that no later round can shrink, so a run that settles never cuts.
use vstd::prelude::*;
use crate::geometry::{
    classify,
    lemma_cut_point_on_divider,
    plan_dx,
    plan_dz,
    seg_valid,
    side_of,
    side_value,
    split_pieces,
    SegModel,
    Side,
};
use crate::partitioning::{
    buckets,
    compact,
    cut_count,
    lemma_buckets_count,
    needs_split,
    piece_placement,
    placement,
    round_out,
    rounds,
    step,
};

verus! {

/// Every segment of the group is valid.
pub open spec fn all_valid(g: Seq<SegModel>) -> bool {
    forall|i: int| 0 <= i < g.len() ==> seg_valid(#[trigger] g[i])
}

pub open spec fn queue_valid(q: Seq<Seq<SegModel>>) -> bool {
    forall|i: int| 0 <= i < q.len() ==> all_valid(#[trigger] q[i])
}

/// Number of segments over all groups.
pub open spec fn total(q: Seq<Seq<SegModel>>) -> nat
    decreases q.len(),
{
    if q.len() == 0 {
        0
    } else {
        total(q.drop_last()) + q.last().len()
    }
}

/// A group of two or more that all lie in front of its first segment:
/// every round gives it back whole as its own front bucket.
pub open spec fn stuck(g: Seq<SegModel>) -> bool {
    g.len() >= 2 && forall|i: int| 0 <= i < g.len() ==> side_of(g[0], #[trigger] g[i]) == Side::Front
}

pub open spec fn has_stuck(q: Seq<Seq<SegModel>>) -> bool {
    exists|i: int| 0 <= i < q.len() && stuck(#[trigger] q[i])
}

/// Some group of the queue has a segment cut in the next round.
pub open spec fn cuts(q: Seq<Seq<SegModel>>) -> bool {
    exists|i: int| 0 <= i < q.len() && #[trigger] q[i].len() >= 2 && cut_count(q[i], q[i][0]) > 0
}

proof fn lemma_self_front(s: SegModel)
    ensures
        side_of(s, s) == Side::Front,
{
    let (x, z, w) = (s.p0.x, s.p0.z, s.p0.w);
    assert(plan_dx(s.p0, s.p0) == 0 && plan_dz(s.p0, s.p0) == 0) by (nonlinear_arith)
        requires
            plan_dx(s.p0, s.p0) == x * w - x * w,
            plan_dz(s.p0, s.p0) == z * w - z * w,
    ;
    let (a, b) = (plan_dx(s.p1, s.p0), plan_dz(s.p1, s.p0));
    assert(b * 0 - a * 0 == 0 && b * a - a * b == 0) by (nonlinear_arith);
}

proof fn lemma_all_front_buckets(g: Seq<SegModel>, rep: SegModel)
    requires
        forall|i: int| 0 <= i < g.len() ==> side_of(rep, #[trigger] g[i]) == Side::Front,
    ensures
        buckets(g, rep) == (Seq::<SegModel>::empty(), g),
    decreases g.len(),
{
    if g.len() > 0 {
        lemma_all_front_buckets(g.drop_last(), rep);
        assert(side_of(rep, g[g.len() - 1]) == Side::Front);
        assert(Seq::<SegModel>::empty() + seq![] =~= Seq::<SegModel>::empty());
        assert(g.drop_last() + seq![g.last()] =~= g);
    }
}

proof fn lemma_step_append(a: Seq<Seq<SegModel>>, b: Seq<Seq<SegModel>>)
    ensures
        step(a + b) == step(a) + step(b),
    decreases b.len(),
{
    if b.len() == 0 {
        assert(a + b =~= a);
        assert(step(a) + step(b) =~= step(a));
    } else {
        lemma_step_append(a, b.drop_last());
        assert((a + b).drop_last() =~= a + b.drop_last());
        assert((a + b).last() == b.last());
        assert(step(a + b) =~= step(a) + step(b));
    }
}

/// Splitting the queue around group `i`: the round puts what group `i`
/// becomes right after what the groups before it become.
proof fn lemma_step_at(q: Seq<Seq<SegModel>>, i: int)
    requires
        0 <= i < q.len(),
    ensures
        ({
            let before = step(q.take(i));
            let out = round_out(q[i]);
            &&& before.len() + out.len() <= step(q).len()
            &&& forall|j: int| 0 <= j < out.len() ==> step(q)[before.len() + j] == #[trigger] out[j]
        }),
{
    let head = q.take(i);
    let rest = q.skip(i + 1);
    assert(q =~= head + seq![q[i]] + rest);
    lemma_step_append(head + seq![q[i]], rest);
    lemma_step_append(head, seq![q[i]]);
    let one = seq![q[i]];
    assert(one.drop_last() =~= Seq::<Seq<SegModel>>::empty());
    assert(step(one.drop_last()) == Seq::<Seq<SegModel>>::empty());
    assert(one.last() == q[i]);
    assert(step(one) == step(one.drop_last()) + round_out(one.last()));
    assert(step(one) =~= round_out(q[i]));
}

proof fn lemma_stuck_round_out(g: Seq<SegModel>)
    requires
        stuck(g),
    ensures
        round_out(g) == seq![Seq::<SegModel>::empty(), g],
{
    lemma_all_front_buckets(g, g[0]);
}

/// A stuck group keeps the queue in need of a split, round after round.
proof fn lemma_stuck_persists(q: Seq<Seq<SegModel>>)
    requires
        has_stuck(q),
    ensures
        has_stuck(step(q)),
        needs_split(q),
{
    let i = choose|i: int| 0 <= i < q.len() && stuck(#[trigger] q[i]);
    lemma_step_at(q, i);
    lemma_stuck_round_out(q[i]);
    let k = step(q.take(i)).len() + 1int;
    assert(round_out(q[i])[1] == q[i]);
    assert(step(q)[k] == q[i]);
    assert(q[i].len() >= 2);
}

/// The front bucket of a group split against its own first segment starts
/// with that segment, lies wholly in front of it, and gains a piece for
/// every cut.
proof fn lemma_front_bucket(h: Seq<SegModel>, rep: SegModel)
    requires
        h.len() >= 1,
        h[0] == rep,
        all_valid(h),
    ensures
        buckets(h, rep).1.len() >= 1 + cut_count(h, rep),
        buckets(h, rep).1[0] == rep,
        forall|i: int|
            0 <= i < buckets(h, rep).1.len() ==> side_of(rep, #[trigger] buckets(h, rep).1[i])
                == Side::Front,
    decreases h.len(),
{
    let f = buckets(h, rep).1;
    if h.len() == 1 {
        lemma_self_front(rep);
        assert(h.drop_last() =~= Seq::<SegModel>::empty());
        assert(h.last() == rep);
        assert(buckets(h.drop_last(), rep).1 == Seq::<SegModel>::empty());
        assert(cut_count(h.drop_last(), rep) == 0);
        assert(f =~= seq![rep]);
        assert(cut_count(h, rep) == 0);
    } else {
        let d = h.drop_last();
        assert(d[0] == rep);
        assert(all_valid(d)) by {
            assert forall|i: int| 0 <= i < d.len() implies seg_valid(#[trigger] d[i]) by {
                assert(d[i] == h[i]);
            }
        }
        lemma_front_bucket(d, rep);
        let s = h.last();
        assert(seg_valid(s) && seg_valid(rep)) by {
            assert(h[h.len() - 1] == s);
            assert(h[0] == rep);
        }
        let fd = buckets(d, rep).1;
        let pf = placement(rep, s).1;
        assert(f == fd + pf);
        if side_of(rep, s) == Side::Neither {
            if let Some((a, b)) = split_pieces(s, rep) {
                lemma_cut_point_on_divider(s, rep);
                let c0 = side_value(rep, s.p0);
                let c1 = side_value(rep, s.p1);
                assert(side_of(rep, a) == classify(c0, 0));
                assert(side_of(rep, b) == classify(0, c1));
                assert(pf.len() >= 1);
                assert forall|i: int| 0 <= i < pf.len() implies side_of(rep, #[trigger] pf[i])
                    == Side::Front by {
                    let (ba, fa) = piece_placement(rep, a);
                    let (bb, fb) = piece_placement(rep, b);
                    assert(pf == fa + fb);
                }
            }
        }
        assert(pf.len() >= (if side_of(rep, s) == Side::Neither && split_pieces(s, rep) is Some {
            1nat
        } else {
            0nat
        }));
        assert(cut_count(h, rep) == cut_count(d, rep) + (if side_of(rep, s) == Side::Neither
            && split_pieces(s, rep) is Some {
            1nat
        } else {
            0nat
        }));
        assert forall|i: int| 0 <= i < f.len() implies side_of(rep, #[trigger] f[i])
            == Side::Front by {
            if i < fd.len() {
                assert(f[i] == fd[i]);
            } else {
                assert(f[i] == pf[i - fd.len()]);
            }
        }
    }
}

/// A group that has a segment cut leaves a stuck front bucket.
proof fn lemma_cut_makes_stuck(q: Seq<Seq<SegModel>>)
    requires
        queue_valid(q),
        cuts(q),
    ensures
        has_stuck(step(q)),
{
    let i = choose|i: int|
        0 <= i < q.len() && #[trigger] q[i].len() >= 2 && cut_count(q[i], q[i][0]) > 0;
    let g = q[i];
    assert(all_valid(g));
    lemma_front_bucket(g, g[0]);
    let f = buckets(g, g[0]).1;
    assert(stuck(f));
    lemma_step_at(q, i);
    let k = step(q.take(i)).len() + 1int;
    assert(round_out(g)[1] == f);
    assert(step(q)[k] == f);
}

proof fn lemma_total_append(a: Seq<Seq<SegModel>>, b: Seq<Seq<SegModel>>)
    ensures
        total(a + b) == total(a) + total(b),
    decreases b.len(),
{
    if b.len() == 0 {
        assert(a + b =~= a);
    } else {
        lemma_total_append(a, b.drop_last());
        assert((a + b).drop_last() =~= a + b.drop_last());
        assert((a + b).last() == b.last());
    }
}

/// Without a cut, a round keeps the number of segments.
proof fn lemma_total_step(q: Seq<Seq<SegModel>>)
    requires
        !cuts(q),
    ensures
        total(step(q)) == total(q),
    decreases q.len(),
{
    if q.len() > 0 {
        let d = q.drop_last();
        let g = q.last();
        assert(!cuts(d)) by {
            if cuts(d) {
                let i = choose|i: int|
                    0 <= i < d.len() && #[trigger] d[i].len() >= 2 && cut_count(d[i], d[i][0]) > 0;
                assert(q[i] == d[i]);
            }
        }
        lemma_total_step(d);
        lemma_total_append(step(d), round_out(g));
        assert(total(q) == total(d) + g.len());
        let e = Seq::<Seq<SegModel>>::empty();
        assert(total(e) == 0);
        if g.len() <= 1 {
            assert(seq![g].drop_last() =~= e);
            assert(total(seq![g]) == g.len());
        } else {
            assert(q[q.len() - 1] == g);
            assert(q[q.len() - 1].len() >= 2);
            assert(cut_count(g, g[0]) == 0);
            lemma_buckets_count(g, g[0]);
            let (b, f) = buckets(g, g[0]);
            assert(seq![b, f].drop_last() =~= seq![b]);
            assert(seq![b].drop_last() =~= e);
            assert(total(seq![b]) == b.len());
            assert(total(seq![b, f]) == b.len() + f.len());
        }
        assert(total(round_out(g)) == g.len());
    }
}

proof fn lemma_valid_buckets(g: Seq<SegModel>, rep: SegModel)
    requires
        all_valid(g),
        seg_valid(rep),
    ensures
        all_valid(buckets(g, rep).0),
        all_valid(buckets(g, rep).1),
    decreases g.len(),
{
    if g.len() > 0 {
        let d = g.drop_last();
        assert(all_valid(d)) by {
            assert forall|i: int| 0 <= i < d.len() implies seg_valid(#[trigger] d[i]) by {
                assert(d[i] == g[i]);
            }
        }
        lemma_valid_buckets(d, rep);
        let s = g.last();
        assert(seg_valid(s)) by {
            assert(g[g.len() - 1] == s);
        }
        let (pb, pf) = placement(rep, s);
        if side_of(rep, s) == Side::Neither {
            if let Some((a, b)) = split_pieces(s, rep) {
                lemma_cut_point_on_divider(s, rep);
            }
        }
        assert(all_valid(pb) && all_valid(pf));
        let (b0, f0) = buckets(d, rep);
        assert forall|i: int| 0 <= i < (b0 + pb).len() implies seg_valid(#[trigger] (b0 + pb)[i]) by {
            if i >= b0.len() {
                assert((b0 + pb)[i] == pb[i - b0.len()]);
            }
        }
        assert forall|i: int| 0 <= i < (f0 + pf).len() implies seg_valid(#[trigger] (f0 + pf)[i]) by {
            if i >= f0.len() {
                assert((f0 + pf)[i] == pf[i - f0.len()]);
            }
        }
    }
}

proof fn lemma_valid_step(q: Seq<Seq<SegModel>>)
    requires
        queue_valid(q),
    ensures
        queue_valid(step(q)),
    decreases q.len(),
{
    if q.len() > 0 {
        let d = q.drop_last();
        let g = q.last();
        assert(queue_valid(d)) by {
            assert forall|i: int| 0 <= i < d.len() implies all_valid(#[trigger] d[i]) by {
                assert(d[i] == q[i]);
            }
        }
        lemma_valid_step(d);
        assert(all_valid(g)) by {
            assert(q[q.len() - 1] == g);
        }
        let out = round_out(g);
        if g.len() >= 2 {
            assert(seg_valid(g[0]));
            lemma_valid_buckets(g, g[0]);
        }
        assert(queue_valid(out)) by {
            assert forall|i: int| 0 <= i < out.len() implies all_valid(#[trigger] out[i]) by {
                if g.len() >= 2 {
                    let (b, f) = buckets(g, g[0]);
                    assert(out[0] == b && out[1] == f);
                }
            }
        }
        let s = step(d) + out;
        assert forall|i: int| 0 <= i < s.len() implies all_valid(#[trigger] s[i]) by {
            if i >= step(d).len() {
                assert(s[i] == out[i - step(d).len()]);
            }
        }
    }
}

proof fn lemma_compact_len(q: Seq<Seq<SegModel>>)
    requires
        !needs_split(q),
    ensures
        compact(q).len() == total(q),
    decreases q.len(),
{
    if q.len() > 0 {
        let d = q.drop_last();
        assert(!needs_split(d)) by {
            assert forall|i: int| 0 <= i < d.len() implies #[trigger] d[i].len() <= 1 by {
                assert(d[i] == q[i]);
                assert(!(q[i].len() >= 2));
            }
        }
        lemma_compact_len(d);
        assert(!(q[q.len() - 1].len() >= 2));
    }
}

/// After any number of rounds, either some group is stuck, or the queue
/// still holds as many segments as at the start, all valid.
proof fn lemma_rounds_keep_total(start: Seq<Seq<SegModel>>, k: nat)
    requires
        queue_valid(start),
    ensures
        has_stuck(rounds(start, k)) || (total(rounds(start, k)) == total(start) && queue_valid(
            rounds(start, k),
        )),
    decreases k,
{
    if k > 0 {
        let prev = rounds(start, (k - 1) as nat);
        lemma_rounds_keep_total(start, (k - 1) as nat);
        if has_stuck(prev) {
            lemma_stuck_persists(prev);
        } else if cuts(prev) {
            lemma_cut_makes_stuck(prev);
        } else {
            lemma_total_step(prev);
            lemma_valid_step(prev);
        }
    }
}

/// A partition of valid segments that has settled after `k` rounds
/// returns at most as many segments as it was given.
pub proof fn lemma_partition_length(segs: Seq<SegModel>, k: nat)
    requires
        all_valid(segs),
        !needs_split(rounds(seq![segs], k)),
    ensures
        compact(rounds(seq![segs], k)).len() <= segs.len(),
{
    let start = seq![segs];
    assert(queue_valid(start)) by {
        assert forall|i: int| 0 <= i < start.len() implies all_valid(#[trigger] start[i]) by {
            assert(start[i] == segs);
        }
    }
    lemma_rounds_keep_total(start, k);
    if has_stuck(rounds(start, k)) {
        lemma_stuck_persists(rounds(start, k));
    }
    assert(start.drop_last() =~= Seq::<Seq<SegModel>>::empty());
    assert(total(start.drop_last()) == 0);
    assert(start.last() == segs);
    assert(total(start) == segs.len());
    lemma_compact_len(rounds(start, k));
}

} // verus!
