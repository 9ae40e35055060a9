use vstd::multiset::Multiset;
use vstd::prelude::*;

use crate::error::PQError;
use crate::history::{non_increasing, step, Op};
use crate::PriorityQueue;

verus! {

broadcast use vstd::seq_lib::group_to_multiset_ensures;

/// Each item of `s` but the first is at most the item at its parent index,
/// as in a binary max-heap.
spec fn heap_ordered(s: Seq<usize>) -> bool {
    forall|i: int| 0 < i < s.len() ==> s[(i - 1) / 2] >= #[trigger] s[i]
}

/// `x` is resident in `m` and no resident item is greater.
pub open spec fn is_max_of(m: Multiset<usize>, x: usize) -> bool {
    m.contains(x) && forall|y: usize| m.contains(y) ==> y <= x
}

/// The greatest item of a non-empty multiset.
pub open spec fn max_of(m: Multiset<usize>) -> usize {
    choose|x: usize| is_max_of(m, x)
}

/// In a heap-ordered `s`, the first item is at least every item.
proof fn lemma_first_is_greatest(s: Seq<usize>, i: int)
    requires
        heap_ordered(s),
        0 <= i < s.len(),
    ensures
        s[0] >= s[i],
    decreases i,
{
    if i > 0 {
        lemma_first_is_greatest(s, (i - 1) / 2);
    }
}

/// Exchanges the items at `i` and `j`.
fn swap_items(v: &mut Vec<usize>, i: usize, j: usize)
    requires
        i < old(v).len(),
        j < old(v).len(),
    ensures
        final(v)@ == old(v)@.update(i as int, old(v)@[j as int]).update(j as int, old(v)@[i as int]),
        final(v)@.to_multiset() == old(v)@.to_multiset(),
{
    let ghost s = v@;
    let a = v[i];
    let b = v[j];
    v.set(i, b);
    v.set(j, a);
    proof {
        let s1 = s.update(i as int, b);
        assert(s1.to_multiset() == s.to_multiset().insert(b).remove(a));
        assert(v@.to_multiset() == s1.to_multiset().insert(a).remove(s1[j as int]));
        assert(v@.to_multiset() =~= s.to_multiset());
    }
}

/// The resident items of one queue, kept as a binary max-heap: the greatest
/// item is always the first, and adding or taking out an item costs a number
/// of steps logarithmic in how many are resident.
pub struct SimplePQ {
    items: Vec<usize>,
}

impl View for SimplePQ {
    type V = Multiset<usize>;

    closed spec fn view(&self) -> Multiset<usize> {
        self.items@.to_multiset()
    }
}

impl SimplePQ {
    #[verifier::type_invariant]
    closed spec fn inv(self) -> bool {
        heap_ordered(self.items@)
    }

    /// A queue with no resident items.
    pub fn new() -> (r: Self)
        ensures
            r@ == Multiset::<usize>::empty(),
    {
        let r = SimplePQ { items: Vec::new() };
        assert(r.items@ =~= Seq::<usize>::empty());
        r
    }

    /// The number of resident items.
    pub fn len(&self) -> (r: usize)
        ensures
            r == self@.len(),
    {
        self.items.len()
    }

    /// Whether no item is resident.
    pub fn is_empty(&self) -> (r: bool)
        ensures
            r == (self@.len() == 0),
    {
        self.items.len() == 0
    }

    /// Adds `item` to the resident items.
    pub fn push(&mut self, item: usize)
        ensures
            final(self)@ == old(self)@.insert(item),
    {
        let mut taken = SimplePQ::new();
        std::mem::swap(self, &mut taken);
        proof {
            use_type_invariant(&taken);
        }
        let mut items = taken.items;
        let ghost target = items@.to_multiset().insert(item);
        items.push(item);
        let mut k: usize = items.len() - 1;
        while k > 0 && items[(k - 1) / 2] < items[k]
            invariant
                k < items.len(),
                items@.to_multiset() == target,
                forall|i: int|
                    0 < i < items.len() && i != k ==> items[(i - 1) / 2] >= #[trigger] items[i],
                k > 0 ==> forall|c: int|
                    0 < c < items.len() && (c - 1) / 2 == k ==> items[(k - 1) / 2]
                        >= #[trigger] items[c],
            decreases k,
        {
            let p = (k - 1) / 2;
            swap_items(&mut items, p, k);
            k = p;
        }
        *self = SimplePQ { items };
    }

    /// Removes and returns the greatest resident item, or `None` when none is
    /// resident.
    pub fn pop_max(&mut self) -> (r: Option<usize>)
        ensures
            old(self)@.len() == 0 ==> r is None && final(self)@ == old(self)@,
            old(self)@.len() > 0 ==> {
                &&& r == Some(max_of(old(self)@))
                &&& is_max_of(old(self)@, max_of(old(self)@))
                &&& final(self)@ == old(self)@.remove(max_of(old(self)@))
            },
    {
        let mut taken = SimplePQ::new();
        std::mem::swap(self, &mut taken);
        proof {
            use_type_invariant(&taken);
        }
        let mut items = taken.items;
        if items.len() == 0 {
            *self = SimplePQ { items };
            return None;
        }
        let ghost s = items@;
        let last = items.len() - 1;
        swap_items(&mut items, 0, last);
        let top = match items.pop() {
            Some(x) => x,
            None => {
                *self = SimplePQ { items };
                return None;
            },
        };
        proof {
            let swapped = s.update(0, s[last as int]).update(last as int, s[0]);
            assert(top == s[0]);
            assert(items@ =~= swapped.remove(last as int));
            assert(items@.to_multiset() == s.to_multiset().remove(top));
            assert(is_max_of(s.to_multiset(), top)) by {
                assert(s.contains(top));
                assert forall|y: usize| s.to_multiset().contains(y) implies y <= top by {
                    assert(s.contains(y));
                    let i = choose|i: int| 0 <= i < s.len() && s[i] == y;
                    lemma_first_is_greatest(s, i);
                }
            }
            assert(max_of(s.to_multiset()) == top);
        }
        let len = items.len();
        let ghost target = items@.to_multiset();
        let mut k: usize = 0;
        let mut done = len == 0;
        while !done
            invariant
                items.len() == len,
                items@.to_multiset() == target,
                !done ==> k < len,
                forall|i: int|
                    0 < i < len && (i - 1) / 2 != k ==> items[(i - 1) / 2] >= #[trigger] items[i],
                k > 0 && !done ==> forall|c: int|
                    0 < c < len && (c - 1) / 2 == k ==> items[(k - 1) / 2] >= #[trigger] items[c],
                done ==> heap_ordered(items@),
            decreases len - k + (if done {
                0int
            } else {
                1int
            }),
        {
            if k >= len / 2 {
                done = true;
            } else {
                let l = 2 * k + 1;
                let m = if l + 1 < len && items[l + 1] > items[l] {
                    l + 1
                } else {
                    l
                };
                if items[m] > items[k] {
                    swap_items(&mut items, k, m);
                    k = m;
                } else {
                    done = true;
                }
            }
        }
        *self = SimplePQ { items };
        Some(top)
    }

    /// Takes out every resident item, one `pop_max` at a time. The items come
    /// out greatest first, each as often as it was resident: the resident
    /// items sorted in descending order.
    pub fn drain(&mut self) -> (r: Vec<usize>)
        ensures
            non_increasing(r@),
            r@.to_multiset() == old(self)@,
            final(self)@ == Multiset::<usize>::empty(),
    {
        let ghost start = self@;
        let mut r: Vec<usize> = Vec::new();
        proof {
            broadcast use vstd::multiset::group_multiset_axioms;

            assert(r@.to_multiset().len() == 0);
            assert(r@.to_multiset() =~= Multiset::empty());
            assert(r@.to_multiset().add(self@) =~= start);
        }
        while !self.is_empty()
            invariant
                r@.to_multiset().add(self@) == start,
                non_increasing(r@),
                forall|i: int, y: usize| 0 <= i < r.len() && self@.contains(y) ==> r@[i] >= y,
            ensures
                r@.to_multiset().add(self@) == start,
                non_increasing(r@),
                self@.len() == 0,
            decreases self@.len(),
        {
            let ghost before = self@;
            let ghost rb = r@;
            let x = match self.pop_max() {
                Some(x) => x,
                None => break,
            };
            r.push(x);
            proof {
                broadcast use {vstd::multiset::group_multiset_axioms, vstd::multiset::group_multiset_properties};

                assert(before.contains(x));
                assert(r@ =~= rb.push(x));
                assert(r@.to_multiset().add(self@) =~= start);
                assert forall|i: int, y: usize|
                    0 <= i < r.len() && self@.contains(y) implies r@[i] >= y by {
                    assert(before.count(y) >= self@.count(y));
                    assert(before.contains(y));
                }
            }
        }
        proof {
            broadcast use {vstd::multiset::group_multiset_axioms, vstd::multiset::group_multiset_properties};

            assert(self@ =~= Multiset::empty());
            assert(r@.to_multiset() =~= start);
        }
        r
    }
}

impl Default for SimplePQ {
    fn default() -> (r: Self)
        ensures
            r@ == Multiset::<usize>::empty(),
    {
        SimplePQ::new()
    }
}

/// Used by one owner, a queue cannot block: a `dequeue` on an empty queue
/// would wait for an `enqueue` that no other party can make, so `dequeue`
/// asks for a resident item.
impl PriorityQueue<usize> for SimplePQ {
    type Error = PQError;

    open spec fn can_dequeue(&self) -> bool {
        self@.len() > 0
    }

    fn enqueue(&mut self, item: usize) -> (r: Result<(), PQError>)
        ensures
            r == Ok::<(), PQError>(()),
            final(self)@ == old(self)@.insert(item),
            step(old(self)@, Op::Enqueue(item)) == (final(self)@, None::<usize>),
    {
        self.push(item);
        Ok(())
    }

    fn dequeue(&mut self) -> (r: Result<usize, PQError>)
        ensures
            r == Ok::<usize, PQError>(max_of(old(self)@)),
            is_max_of(old(self)@, max_of(old(self)@)),
            final(self)@ == old(self)@.remove(max_of(old(self)@)),
            step(old(self)@, Op::Dequeue) == (final(self)@, Some(max_of(old(self)@))),
    {
        match self.pop_max() {
            Some(item) => Ok(item),
            None => Err(PQError::LockError),
        }
    }
}

} // verus!
