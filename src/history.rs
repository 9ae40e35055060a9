use vstd::multiset::Multiset;
use vstd::prelude::*;

use crate::simple_pq::{is_max_of, max_of};

verus! {

broadcast use {
    vstd::multiset::group_multiset_properties,
    vstd::multiset::group_multiset_axioms,
    vstd::seq_lib::group_to_multiset_ensures,
    vstd::seq_lib::lemma_multiset_commutative,
};

/// One call on a queue, as seen by the queue.
pub enum Op {
    Enqueue(usize),
    Dequeue,
}

/// What one call does to the resident items `m`, and the item it hands out.
/// A dequeue on an empty queue has not completed: it changes nothing and
/// hands out nothing.
pub open spec fn step(m: Multiset<usize>, op: Op) -> (Multiset<usize>, Option<usize>) {
    match op {
        Op::Enqueue(v) => (m.insert(v), None),
        Op::Dequeue => if m.len() == 0 {
            (m, None)
        } else {
            (m.remove(max_of(m)), Some(max_of(m)))
        },
    }
}

/// The resident items after the calls `ops` on a queue that held `m`, and
/// the items that the completed dequeues handed out, in order.
pub open spec fn run(m: Multiset<usize>, ops: Seq<Op>) -> (Multiset<usize>, Seq<usize>)
    decreases ops.len(),
{
    if ops.len() == 0 {
        (m, Seq::empty())
    } else {
        let (m1, out) = step(m, ops[0]);
        let (m2, rest) = run(m1, ops.drop_first());
        match out {
            Some(v) => (m2, seq![v] + rest),
            None => (m2, rest),
        }
    }
}

/// The items that the enqueues among `ops` add.
pub open spec fn enqueued(ops: Seq<Op>) -> Multiset<usize>
    decreases ops.len(),
{
    if ops.len() == 0 {
        Multiset::empty()
    } else {
        match ops[0] {
            Op::Enqueue(v) => enqueued(ops.drop_first()).insert(v),
            Op::Dequeue => enqueued(ops.drop_first()),
        }
    }
}

/// One enqueue of each item of `vs`, in order.
pub open spec fn enqueues(vs: Seq<usize>) -> Seq<Op> {
    vs.map_values(|v: usize| Op::Enqueue(v))
}

/// `n` dequeues.
pub open spec fn dequeues(n: nat) -> Seq<Op> {
    Seq::new(n, |i: int| Op::Dequeue)
}

/// `s` never rises.
pub open spec fn non_increasing(s: Seq<usize>) -> bool {
    forall|i: int, j: int| 0 <= i <= j < s.len() ==> s[i] >= s[j]
}

/// Every non-empty multiset of items has a greatest item.
pub proof fn lemma_max_exists(m: Multiset<usize>)
    requires
        m.len() > 0,
    ensures
        is_max_of(m, max_of(m)),
    decreases m.len(),
{
    let x = m.choose();
    let rest = m.remove(x);
    if rest.len() == 0 {
        assert forall|y: usize| m.contains(y) implies y <= x by {
            if y != x {
                assert(rest.count(y) == m.count(y));
            }
        }
        assert(is_max_of(m, x));
    } else {
        lemma_max_exists(rest);
        let y = max_of(rest);
        let w = if x >= y {
            x
        } else {
            y
        };
        assert forall|z: usize| m.contains(z) implies z <= w by {
            if z != x {
                assert(rest.count(z) == m.count(z));
                assert(rest.contains(z));
                assert(z <= y);
            }
        }
        assert(is_max_of(m, w));
    }
}

proof fn lemma_cons_to_multiset(x: usize, t: Seq<usize>)
    ensures
        (seq![x] + t).to_multiset() =~= t.to_multiset().insert(x),
{
    let e = Seq::<usize>::empty();
    assert(seq![x] =~= e.push(x));
    assert(e.to_multiset().len() == 0);
    assert(e.to_multiset() =~= Multiset::empty());
    assert((seq![x] + t).to_multiset() =~= seq![x].to_multiset().add(t.to_multiset()));
}

/// Enqueuing `vs` into a queue that holds `m` adds exactly those items and
/// hands out nothing.
proof fn lemma_run_enqueues(m: Multiset<usize>, vs: Seq<usize>)
    ensures
        run(m, enqueues(vs)) == (m.add(vs.to_multiset()), Seq::<usize>::empty()),
    decreases vs.len(),
{
    if vs.len() == 0 {
        assert(vs.to_multiset().len() == 0);
        assert(vs.to_multiset() =~= Multiset::empty());
        assert(m.add(Multiset::empty()) =~= m);
    } else {
        assert(enqueues(vs).drop_first() =~= enqueues(vs.drop_first()));
        lemma_run_enqueues(m.insert(vs[0]), vs.drop_first());
        assert(vs =~= seq![vs[0]] + vs.drop_first());
        lemma_cons_to_multiset(vs[0], vs.drop_first());
        assert(m.insert(vs[0]).add(vs.drop_first().to_multiset()) =~= m.add(vs.to_multiset()));
    }
}

/// As many dequeues as there are resident items hand out all of them, each
/// as often as it is resident, greatest first.
proof fn lemma_run_dequeues(m: Multiset<usize>)
    ensures
        run(m, dequeues(m.len())).1.to_multiset() =~= m,
        non_increasing(run(m, dequeues(m.len())).1),
    decreases m.len(),
{
    let out = run(m, dequeues(m.len())).1;
    if m.len() == 0 {
        assert(m =~= Multiset::empty());
        assert(out =~= Seq::<usize>::empty());
        assert(out.to_multiset().len() == 0);
    } else {
        lemma_max_exists(m);
        let x = max_of(m);
        let rest = m.remove(x);
        assert(rest.len() == m.len() - 1);
        assert(dequeues(m.len()).drop_first() =~= dequeues(rest.len()));
        lemma_run_dequeues(rest);
        let t = run(rest, dequeues(rest.len())).1;
        assert(out =~= seq![x] + t);
        lemma_cons_to_multiset(x, t);
        assert forall|j: int| 0 <= j < t.len() implies t[j] <= x by {
            assert(t.contains(t[j]));
            assert(rest.contains(t[j]));
            assert(rest.count(t[j]) <= m.count(t[j]));
            assert(m.contains(t[j]));
        }
        assert(non_increasing(out)) by {
            assert forall|i: int, j: int| 0 <= i <= j < out.len() implies out[i] >= out[j] by {
                if i > 0 {
                    assert(out[i] == t[i - 1] && out[j] == t[j - 1]);
                } else if j > 0 {
                    assert(out[j] == t[j - 1]);
                }
            }
        }
    }
}

/// Priority order: after the items `vs` are enqueued into a new queue, as
/// many dequeues hand out exactly those items, each as often as it was
/// enqueued, from greatest to least: `vs` sorted in descending order.
pub proof fn lemma_priority_order(vs: Seq<usize>)
    ensures
        ({
            let (m, none_out) = run(Multiset::empty(), enqueues(vs));
            let out = run(m, dequeues(vs.len())).1;
            &&& none_out.len() == 0
            &&& non_increasing(out)
            &&& out.to_multiset() == vs.to_multiset()
        }),
{
    lemma_run_enqueues(Multiset::empty(), vs);
    let m = run(Multiset::<usize>::empty(), enqueues(vs)).0;
    assert(m =~= vs.to_multiset());
    lemma_run_dequeues(m);
}

/// Nothing is lost or duplicated: over any sequence of calls, the items
/// handed out together with those still resident are exactly the items
/// that were resident at first and those enqueued; so the items handed out
/// from a new queue are a sub-multiset of those enqueued.
pub proof fn lemma_no_loss(m: Multiset<usize>, ops: Seq<Op>)
    ensures
        run(m, ops).1.to_multiset().add(run(m, ops).0) =~= m.add(enqueued(ops)),
        m.len() == 0 ==> run(m, ops).1.to_multiset().subset_of(enqueued(ops)),
    decreases ops.len(),
{
    if ops.len() == 0 {
        assert(run(m, ops).1.to_multiset().len() == 0);
        assert(run(m, ops).1.to_multiset() =~= Multiset::empty());
        assert(enqueued(ops) =~= Multiset::empty());
    } else {
        let (m1, o) = step(m, ops[0]);
        let tail = ops.drop_first();
        lemma_no_loss(m1, tail);
        let (m2, rest) = run(m1, tail);
        match ops[0] {
            Op::Enqueue(v) => {
                assert(run(m, ops) == (m2, rest));
                assert(enqueued(ops) == enqueued(tail).insert(v));
                assert(rest.to_multiset().add(m2) =~= m.add(enqueued(ops)));
            },
            Op::Dequeue => {
                assert(enqueued(ops) == enqueued(tail));
                if m.len() == 0 {
                    assert(run(m, ops) == (m2, rest));
                } else {
                    lemma_max_exists(m);
                    let x = max_of(m);
                    assert(run(m, ops) == (m2, seq![x] + rest));
                    lemma_cons_to_multiset(x, rest);
                    assert forall|v: usize|
                        #[trigger] (seq![x] + rest).to_multiset().add(m2).count(v) == m.add(
                            enqueued(ops),
                        ).count(v) by {
                        assert(rest.to_multiset().add(m2).count(v) == m1.add(enqueued(tail)).count(
                            v,
                        ));
                        if v == x {
                            assert(m1.count(v) == m.count(v) - 1);
                        } else {
                            assert(m1.count(v) == m.count(v));
                        }
                    }
                    assert((seq![x] + rest).to_multiset().add(m2) =~= m.add(enqueued(ops)));
                }
            },
        }
    }
    if m.len() == 0 {
        let (fin, out) = run(m, ops);
        assert(m =~= Multiset::empty());
        assert forall|v: usize| #[trigger]
            out.to_multiset().count(v) <= enqueued(ops).count(v) by {
            assert(out.to_multiset().add(fin).count(v) == m.add(enqueued(ops)).count(v));
        }
    }
}

} // verus!
