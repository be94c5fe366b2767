//! Binary space partitioning of a group of segments: one split step, and
//! the driver that repeats it round by round until no group needs a split.
use vstd::prelude::*;
use crate::geometry::{seg_valid, side_of, split_pieces, Seg, SegModel, Side};
use crate::settling::{all_valid, lemma_partition_length};
use crate::tree::{Direction, Node};

verus! {

pub open spec fn models(v: Seq<Seg>) -> Seq<SegModel> {
    v.map_values(|s: Seg| s@)
}

pub open spec fn group_models(v: Seq<Vec<Seg>>) -> Seq<Seq<SegModel>> {
    v.map_values(|g: Vec<Seg>| models(g@))
}

/// Where a piece of a cut segment goes, as `(back, front)`.
pub open spec fn piece_placement(rep: SegModel, p: SegModel) -> (Seq<SegModel>, Seq<SegModel>) {
    if side_of(rep, p) == Side::Back {
        (seq![p], seq![])
    } else {
        (seq![], seq![p])
    }
}

/// Where segment `s` goes when its group is split against `rep`, as
/// `(back, front)`. A straddling segment is cut by `rep`'s line and each
/// piece placed by its own side; one that cannot be cut goes to the back.
pub open spec fn placement(rep: SegModel, s: SegModel) -> (Seq<SegModel>, Seq<SegModel>) {
    match side_of(rep, s) {
        Side::Front => (seq![], seq![s]),
        Side::Back => (seq![s], seq![]),
        Side::Neither => match split_pieces(s, rep) {
            None => (seq![s], seq![]),
            Some((a, b)) => {
                let (ba, fa) = piece_placement(rep, a);
                let (bb, fb) = piece_placement(rep, b);
                (ba + bb, fa + fb)
            },
        },
    }
}

/// The back and front buckets of `group` split against `rep`, in group order.
pub open spec fn buckets(group: Seq<SegModel>, rep: SegModel) -> (Seq<SegModel>, Seq<SegModel>)
    decreases group.len(),
{
    if group.len() == 0 {
        (seq![], seq![])
    } else {
        let (b, f) = buckets(group.drop_last(), rep);
        let (pb, pf) = placement(rep, group.last());
        (b + pb, f + pf)
    }
}

/// How many segments of `group` are cut in two by `rep`'s line.
pub open spec fn cut_count(group: Seq<SegModel>, rep: SegModel) -> nat
    decreases group.len(),
{
    if group.len() == 0 {
        0
    } else {
        let s = group.last();
        cut_count(group.drop_last(), rep) + if side_of(rep, s) == Side::Neither && split_pieces(
            s,
            rep,
        ) is Some {
            1nat
        } else {
            0nat
        }
    }
}

/// What one group becomes in a round: itself when it holds at most one
/// segment, else its back bucket and its front bucket, split against its
/// first segment.
pub open spec fn round_out(g: Seq<SegModel>) -> Seq<Seq<SegModel>> {
    if g.len() <= 1 {
        seq![g]
    } else {
        let (b, f) = buckets(g, g[0]);
        seq![b, f]
    }
}

/// One round over all groups, in queue order.
pub open spec fn step(groups: Seq<Seq<SegModel>>) -> Seq<Seq<SegModel>>
    decreases groups.len(),
{
    if groups.len() == 0 {
        seq![]
    } else {
        step(groups.drop_last()) + round_out(groups.last())
    }
}

pub open spec fn needs_split(groups: Seq<Seq<SegModel>>) -> bool {
    exists|i: int| 0 <= i < groups.len() && #[trigger] groups[i].len() >= 2
}

/// The groups after `k` rounds.
pub open spec fn rounds(groups: Seq<Seq<SegModel>>, k: nat) -> Seq<Seq<SegModel>>
    decreases k,
{
    if k == 0 {
        groups
    } else {
        step(rounds(groups, (k - 1) as nat))
    }
}

/// The first segment of each non-empty group, in queue order.
pub open spec fn compact(groups: Seq<Seq<SegModel>>) -> Seq<SegModel>
    decreases groups.len(),
{
    if groups.len() == 0 {
        seq![]
    } else {
        let g = groups.last();
        compact(groups.drop_last()) + if g.len() == 0 {
            seq![]
        } else {
            seq![g[0]]
        }
    }
}

/// Why partitioning failed.
#[derive(Debug)]
pub enum PartitionError {
    /// Some group still held two or more segments after the allowed number
    /// of rounds; these are the groups at that point.
    NotConverged { groups: Vec<Vec<Seg>> },
}

fn push_model(v: &mut Vec<Seg>, s: Seg)
    ensures
        models(final(v)@) == models(old(v)@) + seq![s@],
{
    v.push(s);
    assert(models(final(v)@) =~= models(old(v)@) + seq![s@]);
}

/// Places `s` into the buckets of a group split against `rep`.
fn place(rep: Seg, s: Seg, back: &mut Vec<Seg>, front: &mut Vec<Seg>)
    ensures
        models(final(back)@) == models(old(back)@) + placement(rep@, s@).0,
        models(final(front)@) == models(old(front)@) + placement(rep@, s@).1,
{
    match rep.determine_side(s) {
        Side::Front => {
            push_model(front, s);
            assert(models(old(back)@) + seq![] =~= models(old(back)@));
        },
        Side::Back => {
            push_model(back, s);
            assert(models(old(front)@) + seq![] =~= models(old(front)@));
        },
        Side::Neither => {
            match s.split_by(rep) {
                None => {
                    push_model(back, s);
                    assert(models(old(front)@) + seq![] =~= models(old(front)@));
                },
                Some((a, b)) => {
                    let ghost (ba, fa) = piece_placement(rep@, a@);
                    let ghost (bb, fb) = piece_placement(rep@, b@);
                    let ghost back0 = models(back@);
                    let ghost front0 = models(front@);
                    place_piece(rep, a, back, front);
                    place_piece(rep, b, back, front);
                    assert(models(back@) =~= back0 + (ba + bb));
                    assert(models(front@) =~= front0 + (fa + fb));
                },
            }
        },
    }
}

fn place_piece(rep: Seg, p: Seg, back: &mut Vec<Seg>, front: &mut Vec<Seg>)
    requires
        side_of(rep@, p@) != Side::Neither,
    ensures
        models(final(back)@) == models(old(back)@) + piece_placement(rep@, p@).0,
        models(final(front)@) == models(old(front)@) + piece_placement(rep@, p@).1,
{
    match rep.determine_side(p) {
        Side::Back => {
            push_model(back, p);
            assert(models(old(front)@) + seq![] =~= models(old(front)@));
        },
        _ => {
            push_model(front, p);
            assert(models(old(back)@) + seq![] =~= models(old(back)@));
        },
    }
}

/// Every segment of `v` satisfies its invariant.
fn valid_models(v: &Vec<Seg>)
    ensures
        all_valid(models(v@)),
{
    let mut i: usize = 0;
    while i < v.len()
        invariant
            i <= v.len(),
            forall|j: int| 0 <= j < i ==> seg_valid(#[trigger] models(v@)[j]),
        decreases v.len() - i,
    {
        v[i].reveal_valid();
        i += 1;
    }
}

/// The back and front buckets of `group` split against its first segment.
fn split_buckets(group: &Vec<Seg>) -> (r: (Vec<Seg>, Vec<Seg>))
    requires
        group.len() >= 1,
    ensures
        (models(r.0@), models(r.1@)) == buckets(models(group@), group@[0]@),
{
    let rep = group[0];
    let mut back: Vec<Seg> = Vec::new();
    let mut front: Vec<Seg> = Vec::new();
    let mut i: usize = 0;
    while i < group.len()
        invariant
            i <= group.len(),
            rep == group@[0],
            (models(back@), models(front@)) == buckets(models(group@).take(i as int), rep@),
        decreases group.len() - i,
    {
        place(rep, group[i], &mut back, &mut front);
        assert(models(group@).take(i + 1).drop_last() =~= models(group@).take(i as int));
        i += 1;
    }
    assert(models(group@).take(i as int) =~= models(group@));
    (back, front)
}

/// Splits a non-empty group against its first segment: a node whose value
/// is the group, whose left child holds the back bucket and whose right
/// child holds the front bucket.
pub fn front_back(segs: Vec<Seg>) -> (r: Node<Vec<Seg>>)
    requires
        segs.len() >= 1,
    ensures
        r.spec_value() == segs,
        r.spec_child(Direction::Left) matches Some(c) && c.is_leaf_of(c.spec_value()) && models(
            c.spec_value()@,
        ) == buckets(models(segs@), segs@[0]@).0,
        r.spec_child(Direction::Right) matches Some(c) && c.is_leaf_of(c.spec_value()) && models(
            c.spec_value()@,
        ) == buckets(models(segs@), segs@[0]@).1,
{
    let (back, front) = split_buckets(&segs);
    let mut node = Node::new(segs);
    let left = node.create_child(back, Direction::Left);
    let right = node.create_child(front, Direction::Right);
    assert(left is Ok && right is Ok);
    node
}

/// Whether some group holds two or more segments.
fn any_needs_split(groups: &Vec<Vec<Seg>>) -> (r: bool)
    ensures
        r == needs_split(group_models(groups@)),
{
    let mut i: usize = 0;
    while i < groups.len()
        invariant
            i <= groups.len(),
            forall|j: int| 0 <= j < i ==> groups@[j].len() <= 1,
        decreases groups.len() - i,
    {
        if groups[i].len() >= 2 {
            assert(group_models(groups@)[i as int].len() >= 2);
            return true;
        }
        i += 1;
    }
    assert forall|j: int| 0 <= j < group_models(groups@).len() implies #[trigger] group_models(
        groups@,
    )[j].len() <= 1 by {
        assert(groups@[j].len() <= 1);
    }
    false
}

fn push_group(v: &mut Vec<Vec<Seg>>, g: Vec<Seg>)
    ensures
        group_models(final(v)@) == group_models(old(v)@) + seq![models(g@)],
{
    v.push(g);
    assert(group_models(final(v)@) =~= group_models(old(v)@) + seq![models(g@)]);
}

/// One round over the queue of groups.
fn run_round(groups: Vec<Vec<Seg>>) -> (r: Vec<Vec<Seg>>)
    ensures
        group_models(r@) == step(group_models(groups@)),
{
    let ghost all = group_models(groups@);
    let mut rest = groups;
    let mut next: Vec<Vec<Seg>> = Vec::new();
    let ghost mut done: int = 0;
    while rest.len() > 0
        invariant
            0 <= done <= all.len(),
            rest.len() == all.len() - done,
            group_models(rest@) == all.subrange(done, all.len() as int),
            group_models(next@) == step(all.subrange(0, done)),
        decreases rest.len(),
    {
        let ghost before = rest@;
        let g = rest.remove(0);
        assert(group_models(before)[0] == all[done]);
        assert(models(g@) == all[done]);
        assert forall|j: int| 0 <= j < rest.len() implies #[trigger] group_models(rest@)[j]
            == all.subrange(done + 1, all.len() as int)[j] by {
            assert(rest@[j] == before[j + 1]);
            assert(group_models(before)[j + 1] == all.subrange(done, all.len() as int)[j + 1]);
        }
        assert(group_models(rest@) =~= all.subrange(done + 1, all.len() as int));
        assert(all.subrange(0, done + 1).drop_last() =~= all.subrange(0, done));
        if g.len() <= 1 {
            push_group(&mut next, g);
        } else {
            let (back, front) = split_buckets(&g);
            let ghost queued = group_models(next@);
            push_group(&mut next, back);
            push_group(&mut next, front);
            assert(group_models(next@) =~= queued + round_out(all[done]));
        }
        proof {
            done = done + 1;
        }
    }
    assert(all.subrange(0, done) =~= all);
    next
}

/// The first segment of each non-empty group, in queue order.
fn compact_groups(groups: &Vec<Vec<Seg>>) -> (r: Vec<Seg>)
    ensures
        models(r@) == compact(group_models(groups@)),
{
    let ghost all = group_models(groups@);
    let mut out: Vec<Seg> = Vec::new();
    let mut i: usize = 0;
    while i < groups.len()
        invariant
            i <= groups.len(),
            all == group_models(groups@),
            models(out@) == compact(all.take(i as int)),
        decreases groups.len() - i,
    {
        assert(all.take(i + 1).drop_last() =~= all.take(i as int));
        if groups[i].len() > 0 {
            push_model(&mut out, groups[i][0]);
        } else {
            assert(models(out@) + seq![] =~= models(out@));
        }
        i += 1;
    }
    assert(all.take(i as int) =~= all);
    out
}

/// A round leaves a queue in which no group needs a split unchanged.
pub proof fn lemma_settled_round(groups: Seq<Seq<SegModel>>)
    requires
        !needs_split(groups),
    ensures
        step(groups) == groups,
    decreases groups.len(),
{
    if groups.len() > 0 {
        let rest = groups.drop_last();
        assert forall|i: int| 0 <= i < rest.len() implies #[trigger] rest[i].len() <= 1 by {
            assert(groups[i].len() <= 1);
        }
        lemma_settled_round(rest);
        assert(groups.last().len() <= 1) by {
            assert(groups[groups.len() - 1].len() <= 1);
        }
        assert(rest + seq![groups.last()] =~= groups);
    }
}

/// Once no group needs a split, further rounds change nothing.
proof fn lemma_settled_rounds(groups: Seq<Seq<SegModel>>, k: nat, n: nat)
    requires
        k <= n,
        !needs_split(rounds(groups, k)),
    ensures
        rounds(groups, n) == rounds(groups, k),
    decreases n,
{
    if n > k {
        lemma_settled_rounds(groups, k, (n - 1) as nat);
        lemma_settled_round(rounds(groups, k));
    }
}

/// Partitions `initial_segs` round by round, from one group holding them
/// all, until no group holds two or more segments; then keeps the first
/// segment of each non-empty group, in queue order, which is never more
/// segments than it was given. Fails when a group still needs a split after
/// `max_rounds` rounds.
pub fn non_recursive_partition(initial_segs: Vec<Seg>, max_rounds: usize) -> (r: Result<
    Vec<Seg>,
    PartitionError,
>)
    ensures
        ({
            let last = rounds(seq![models(initial_segs@)], max_rounds as nat);
            &&& r is Ok <==> !needs_split(last)
            &&& r matches Ok(out) ==> models(out@) == compact(last) && out.len()
                <= initial_segs.len()
            &&& r matches Err(PartitionError::NotConverged { groups }) ==> group_models(groups@)
                == last
        }),
{
    valid_models(&initial_segs);
    let ghost start = seq![models(initial_segs@)];
    let mut groups: Vec<Vec<Seg>> = Vec::new();
    push_group(&mut groups, initial_segs);
    assert(group_models(groups@) =~= start);
    let mut count: usize = 0;
    let mut settled = !any_needs_split(&groups);
    while !settled
        invariant
            count <= max_rounds,
            start == seq![models(initial_segs@)],
            group_models(groups@) == rounds(start, count as nat),
            settled == !needs_split(group_models(groups@)),
        decreases max_rounds - count,
    {
        if count == max_rounds {
            assert(needs_split(rounds(start, max_rounds as nat)));
            let r = Err(PartitionError::NotConverged { groups });
            assert(r matches Err(PartitionError::NotConverged { groups }) && group_models(groups@)
                == rounds(start, max_rounds as nat));
            return r;
        }
        groups = run_round(groups);
        count += 1;
        settled = !any_needs_split(&groups);
    }
    proof {
        lemma_settled_rounds(start, count as nat, max_rounds as nat);
        lemma_partition_length(models(initial_segs@), max_rounds as nat);
    }
    let out = compact_groups(&groups);
    assert(out.len() == models(out@).len());
    Ok(out)
}

/// Splitting a group loses no segment: the two buckets together hold the
/// group's segments, plus one more for each segment that was cut in two.
pub proof fn lemma_buckets_count(group: Seq<SegModel>, rep: SegModel)
    ensures
        buckets(group, rep).0.len() + buckets(group, rep).1.len() == group.len() + cut_count(
            group,
            rep,
        ),
        buckets(group, rep).0.len() + buckets(group, rep).1.len() >= group.len(),
    decreases group.len(),
{
    if group.len() > 0 {
        lemma_buckets_count(group.drop_last(), rep);
        let s = group.last();
        let (pb, pf) = placement(rep, s);
        if side_of(rep, s) == Side::Neither {
            if let Some((a, b)) = split_pieces(s, rep) {
                assert(pb.len() + pf.len() == 2);
            }
        }
    }
}

/// A queue of one group that holds at most one segment is settled: every
/// round leaves it as it is, and compacting it gives that group back.
pub proof fn lemma_settled_input(segs: Seq<SegModel>, k: nat)
    requires
        segs.len() <= 1,
    ensures
        rounds(seq![segs], k) == seq![segs],
        compact(seq![segs]) == segs,
    decreases k,
{
    let start = seq![segs];
    assert(!needs_split(start)) by {
        assert forall|i: int| 0 <= i < start.len() implies #[trigger] start[i].len() <= 1 by {
            assert(start[i] == segs);
        }
    }
    lemma_settled_rounds(start, 0, k);
    assert(start.drop_last() =~= Seq::<Seq<SegModel>>::empty());
    assert(compact(start.drop_last()) == Seq::<SegModel>::empty());
    assert(start.last() == segs);
    if segs.len() == 0 {
        assert(compact(start) =~= segs);
    } else {
        assert(compact(start) =~= seq![segs[0]]);
        assert(segs =~= seq![segs[0]]);
    }
}

} // verus!
