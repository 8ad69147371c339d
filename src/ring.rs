use vstd::arithmetic::div_mod::{
    lemma_fundamental_div_mod, lemma_fundamental_div_mod_converse, lemma_mod_pos_bound,
    lemma_small_mod,
};
use vstd::prelude::*;

verus! {

/// One element of the ring: its value and the slots of its two neighbours.
///
/// `prev` names the node inserted just after this one (the newer neighbour),
/// `next` the node inserted just before it (the older neighbour). Once the
/// ring is full the newest node's `prev` wraps round to the oldest node.
pub struct Node<T> {
    pub value: T,
    pub prev: Option<usize>,
    pub next: Option<usize>,
}

impl<T> Node<T> {
    /// A node that holds `value` and is not linked to anything yet.
    pub fn new(value: T) -> (r: Self)
        ensures
            r.value == value,
            r.prev is None,
            r.next is None,
    {
        Node { value, prev: None, next: None }
    }
}

/// Slot of the older neighbour of slot `i` while the ring is still filling.
pub open spec fn chain_next(i: int) -> Option<usize> {
    if i > 0 { Some((i - 1) as usize) } else { None }
}

/// Slot of the newer neighbour of slot `i` while the ring holds `len` nodes
/// and is still filling.
pub open spec fn chain_prev(i: int, len: int) -> Option<usize> {
    if i + 1 < len { Some((i + 1) as usize) } else { None }
}

/// Slot of the older neighbour of slot `i` in a closed ring of `len` nodes.
pub open spec fn cycle_next(i: int, len: int) -> Option<usize> {
    if i > 0 { Some((i - 1) as usize) } else { Some((len - 1) as usize) }
}

/// Slot of the newer neighbour of slot `i` in a closed ring of `len` nodes.
pub open spec fn cycle_prev(i: int, len: int) -> Option<usize> {
    if i + 1 < len { Some((i + 1) as usize) } else { Some(0usize) }
}

/// The sequence `s` (newest first) after `v` is inserted at the head of a
/// ring that holds at most `cap` elements: the oldest element leaves when
/// the ring is already full.
pub open spec fn inserted<T>(s: Seq<T>, cap: nat, v: T) -> Seq<T> {
    if s.len() < cap {
        seq![v] + s
    } else {
        seq![v] + s.drop_last()
    }
}

/// Position from the head reached by `k` steps towards newer elements round
/// a closed ring of `n` elements (stepping past the newest reaches the oldest).
pub open spec fn back_position(k: int, n: int) -> int {
    if k % n == 0 {
        0
    } else {
        n - k % n
    }
}

/// One more step round a cycle of `n`.
proof fn lemma_mod_step(k: int, n: int)
    requires
        0 <= k,
        0 < n,
    ensures
        0 <= k % n < n,
        (k + 1) % n == if k % n + 1 < n {
            k % n + 1
        } else {
            0
        },
{
    lemma_fundamental_div_mod(k, n);
    lemma_mod_pos_bound(k, n);
    let q = k / n;
    let r = k % n;
    assert(k == q * n + r) by (nonlinear_arith)
        requires
            k == n * q + r,
    ;
    if r + 1 < n {
        lemma_fundamental_div_mod_converse(k + 1, n, q, r + 1);
    } else {
        assert(k + 1 == (q + 1) * n + 0) by (nonlinear_arith)
            requires
                k == n * q + r,
                r + 1 == n,
        ;
        lemma_fundamental_div_mod_converse(k + 1, n, q + 1, 0);
    }
}

/// A ring of at most `max` elements that grows at its head.
pub struct Tweak<T> {
    max: usize,
    length: usize,
    head: Option<usize>,
    nodes: Vec<Node<T>>,
}

impl<T> Tweak<T> {
    /// The fixed number of elements the ring can hold.
    pub closed spec fn capacity(&self) -> nat {
        self.max as nat
    }

    /// Slot of the current head, or 0 when the ring is empty.
    pub closed spec fn head_slot(&self) -> int {
        match self.head {
            Some(h) => h as int,
            None => 0,
        }
    }

    /// Slot that holds the element at position `k` from the head
    /// (`0 <= k <= len`; position `len` is the head again).
    pub closed spec fn slot_of(&self, k: int) -> int {
        let h = self.head_slot();
        if k <= h {
            h - k
        } else {
            h + self.length - k
        }
    }

    /// Position from the head of the element that slot `i` holds.
    pub closed spec fn position_of_slot(&self, i: int) -> int {
        let h = self.head_slot();
        if i <= h {
            h - i
        } else {
            h + self.length - i
        }
    }

    /// The elements, newest first.
    pub closed spec fn view(&self) -> Seq<T> {
        Seq::new(self.length as nat, |k: int| self.nodes@[self.slot_of(k)].value)
    }

    /// The ring is well formed: while it fills, slot `i` holds the `i`-th
    /// element inserted and the links form a simple chain from the head; once
    /// full, the links form a closed cycle through every slot.
    pub closed spec fn wf(&self) -> bool {
        &&& 1 <= self.max
        &&& self.length <= self.max
        &&& self.nodes@.len() == self.length
        &&& (self.length == 0 <==> self.head is None)
        &&& (self.head matches Some(h) ==> h < self.length)
        &&& (self.length < self.max ==> {
            &&& (0 < self.length ==> self.head == Some((self.length - 1) as usize))
            &&& forall|i: int|
                0 <= i < self.length ==> {
                    &&& (#[trigger] self.nodes@[i]).next == chain_next(i)
                    &&& self.nodes@[i].prev == chain_prev(i, self.length as int)
                }
        })
        &&& (self.length == self.max ==> forall|i: int|
            0 <= i < self.length ==> {
                &&& (#[trigger] self.nodes@[i]).next == cycle_next(i, self.length as int)
                &&& self.nodes@[i].prev == cycle_prev(i, self.length as int)
            })
    }

    /// The value held in slot `i`.
    pub closed spec fn value_at_slot(&self, i: int) -> T {
        self.nodes@[i].value
    }

    /// The slot reached from the head by following `k` `next` links, or
    /// `None` when the ring is empty or a link on the way is absent.
    pub closed spec fn reach_next(&self, k: nat) -> Option<int>
        decreases k,
    {
        if k == 0 {
            match self.head {
                Some(h) => Some(h as int),
                None => None,
            }
        } else {
            match self.reach_next((k - 1) as nat) {
                Some(i) => if 0 <= i < self.nodes@.len() {
                    match self.nodes@[i].next {
                        Some(n) => Some(n as int),
                        None => None,
                    }
                } else {
                    None
                },
                None => None,
            }
        }
    }

    /// The slot reached from the head by following `k` `prev` links, or
    /// `None` when the ring is empty or a link on the way is absent.
    pub closed spec fn reach_prev(&self, k: nat) -> Option<int>
        decreases k,
    {
        if k == 0 {
            match self.head {
                Some(h) => Some(h as int),
                None => None,
            }
        } else {
            match self.reach_prev((k - 1) as nat) {
                Some(i) => if 0 <= i < self.nodes@.len() {
                    match self.nodes@[i].prev {
                        Some(n) => Some(n as int),
                        None => None,
                    }
                } else {
                    None
                },
                None => None,
            }
        }
    }

    /// Where `k` `next` links lead from the head: round the cycle once the
    /// ring is full, down the chain to its oldest node and no further while
    /// it fills.
    proof fn lemma_reach_next(&self, k: nat)
        requires
            self.wf(),
            0 < self.length,
        ensures
            self.length == self.max ==> self.reach_next(k) == Some(
                self.slot_of(k as int % self.length as int),
            ),
            self.length < self.max ==> self.reach_next(k) == if k < self.length {
                Some(self.slot_of(k as int))
            } else {
                None::<int>
            },
        decreases k,
    {
        let n = self.length as int;
        if k > 0 {
            self.lemma_reach_next((k - 1) as nat);
            lemma_mod_step((k - 1) as int, n);
            let j = (k - 1) as int % n;
            if self.length == self.max {
                assert(self.nodes@[self.slot_of(j)].next == cycle_next(self.slot_of(j), n));
            } else if k < self.length {
                assert(self.nodes@[self.slot_of(j)].next == chain_next(self.slot_of(j)));
            } else if k == self.length {
                assert(self.nodes@[self.slot_of(k - 1)].next == chain_next(self.slot_of(k - 1)));
            }
        }
    }

    /// Where `k` `prev` links lead from the head: round the cycle the other
    /// way once the ring is full; nowhere while it fills, since the head has
    /// no newer neighbour.
    proof fn lemma_reach_prev(&self, k: nat)
        requires
            self.wf(),
            0 < self.length,
        ensures
            self.length == self.max ==> self.reach_prev(k) == Some(
                self.slot_of(back_position(k as int, self.length as int)),
            ),
            self.length < self.max ==> self.reach_prev(k) == if k == 0 {
                Some(self.slot_of(0))
            } else {
                None::<int>
            },
        decreases k,
    {
        let n = self.length as int;
        if k > 0 {
            self.lemma_reach_prev((k - 1) as nat);
            lemma_mod_step((k - 1) as int, n);
            let p = back_position((k - 1) as int, n);
            if self.length == self.max {
                assert(self.nodes@[self.slot_of(p)].prev == cycle_prev(self.slot_of(p), n));
            } else if k == 1 {
                assert(self.nodes@[self.slot_of(0)].prev == chain_prev(self.slot_of(0), n));
            }
        }
    }

    /// The number of nodes the arena holds.
    pub closed spec fn allocated(&self) -> nat {
        self.nodes@.len()
    }

    /// A well-formed ring never holds more elements than its capacity.
    pub proof fn lemma_len_within_capacity(&self)
        requires
            self.wf(),
        ensures
            self@.len() <= self.capacity(),
    {
    }

    /// Following `next` links from the head visits the elements newest
    /// first: after `k` links (`k < len`) it stands on the slot that holds
    /// the element at position `k`.
    pub proof fn lemma_links_follow_order(&self, k: nat)
        requires
            self.wf(),
            k < self@.len(),
        ensures
            self.reach_next(k) matches Some(i) && self.value_at_slot(i) == self@[k as int],
    {
        self.lemma_reach_next(k);
        lemma_small_mod(k, self.length as nat);
    }

    /// Once the ring is full, following `next` from the head as many times
    /// as it has elements comes back to the head, and following `prev` as
    /// many times does too. While it fills, the chain from the head ends
    /// after its oldest element and the head has no newer neighbour.
    pub proof fn lemma_cycle_closure(&self)
        requires
            self.wf(),
            0 < self@.len(),
        ensures
            self.reach_next(0) is Some,
            self.reach_prev(0) == self.reach_next(0),
            self@.len() == self.capacity() ==> {
                &&& self.reach_next(self@.len()) == self.reach_next(0)
                &&& self.reach_prev(self@.len()) == self.reach_next(0)
            },
            self@.len() < self.capacity() ==> {
                &&& self.reach_next(self@.len()) is None
                &&& self.reach_prev(1) is None
            },
    {
        let n = self.length as int;
        self.lemma_reach_next(self.length as nat);
        self.lemma_reach_prev(self.length as nat);
        self.lemma_reach_prev(1);
        lemma_mod_step(n - 1, n);
        lemma_mod_step(0, n);
    }

    /// Every node in the arena holds a live element and is reached exactly
    /// once by following `next` links from the head `len` times, so nothing
    /// is left over and nothing is visited twice when the ring is released.
    pub proof fn lemma_every_node_once(&self)
        requires
            self.wf(),
        ensures
            self.allocated() == self@.len(),
            forall|i: int|
                0 <= i < self.allocated() ==> {
                    &&& 0 <= #[trigger] self.position_of_slot(i) < self@.len()
                    &&& self.reach_next(self.position_of_slot(i) as nat) == Some(i)
                },
            forall|k1: nat, k2: nat|
                k1 < k2 < self@.len() ==> #[trigger] self.reach_next(k1) != #[trigger] self.reach_next(k2),
    {
        assert forall|k: nat| k < self@.len() implies #[trigger] self.reach_next(k) == Some(
            self.slot_of(k as int),
        ) by {
            self.lemma_reach_next(k);
            lemma_small_mod(k, self.length as nat);
        }
        assert forall|i: int| 0 <= i < self.allocated() implies {
            &&& 0 <= #[trigger] self.position_of_slot(i) < self@.len()
            &&& self.reach_next(self.position_of_slot(i) as nat) == Some(i)
        } by {
            let k = self.position_of_slot(i);
            assert(self.reach_next(k as nat) == Some(self.slot_of(k)));
        }
    }

    /// The element reached from the head by following `steps` `next` links:
    /// round and round once the ring is full; while it fills, `None` once
    /// the walk passes the oldest element; `None` when the ring is empty.
    pub fn follow_next(&self, steps: usize) -> (r: Option<&T>)
        requires
            self.wf(),
        ensures
            self@.len() == 0 ==> r is None,
            0 < self@.len() == self.capacity() ==> r == Some(
                &self@[steps as int % self@.len() as int],
            ),
            0 < self@.len() < self.capacity() ==> r == if (steps as int) < self@.len() {
                Some(&self@[steps as int])
            } else {
                None
            },
    {
        let mut cur: usize = match self.head {
            Some(h) => h,
            None => {
                return None;
            },
        };
        let mut i: usize = 0;
        while i < steps
            invariant
                self.wf(),
                0 < self.length,
                i <= steps,
                cur < self.length,
                self.reach_next(i as nat) == Some(cur as int),
            decreases steps - i,
        {
            proof {
                self.lemma_reach_next((i + 1) as nat);
                lemma_mod_step(i as int, self.length as int);
            }
            match self.nodes[cur].next {
                Some(n) => {
                    cur = n;
                },
                None => {
                    return None;
                },
            }
            i = i + 1;
        }
        proof {
            self.lemma_reach_next(steps as nat);
            lemma_mod_step(steps as int, self.length as int);
        }
        Some(&self.nodes[cur].value)
    }

    /// The element reached from the head by following `steps` `prev` links:
    /// from the newest to the oldest and on round the ring once it is full;
    /// while it fills, only the head itself (`steps == 0`) is reached;
    /// `None` when the ring is empty.
    pub fn follow_prev(&self, steps: usize) -> (r: Option<&T>)
        requires
            self.wf(),
        ensures
            self@.len() == 0 ==> r is None,
            0 < self@.len() == self.capacity() ==> r == Some(
                &self@[back_position(steps as int, self@.len() as int)],
            ),
            0 < self@.len() < self.capacity() ==> r == if steps == 0 {
                Some(&self@[0])
            } else {
                None
            },
    {
        let mut cur: usize = match self.head {
            Some(h) => h,
            None => {
                return None;
            },
        };
        let mut i: usize = 0;
        while i < steps
            invariant
                self.wf(),
                0 < self.length,
                i <= steps,
                cur < self.length,
                self.reach_prev(i as nat) == Some(cur as int),
            decreases steps - i,
        {
            proof {
                self.lemma_reach_prev((i + 1) as nat);
                lemma_mod_step(i as int, self.length as int);
            }
            match self.nodes[cur].prev {
                Some(n) => {
                    cur = n;
                },
                None => {
                    return None;
                },
            }
            i = i + 1;
        }
        proof {
            self.lemma_reach_prev(steps as nat);
            lemma_mod_step(steps as int, self.length as int);
        }
        Some(&self.nodes[cur].value)
    }

    /// An empty ring that will hold at most `max` elements. Nothing is
    /// allocated until the first insertion.
    pub fn new(max: usize) -> (r: Self)
        requires
            1 <= max,
        ensures
            r.wf(),
            r.capacity() == max,
            r@ == Seq::<T>::empty(),
    {
        let r = Tweak { max, length: 0, head: None, nodes: Vec::new() };
        assert(r@ =~= Seq::<T>::empty());
        r
    }

    /// Inserts `value` as the new head. While the ring fills, the element
    /// count grows by one; the insertion that fills it closes the links into
    /// a cycle; once full, the oldest element is evicted and its slot holds
    /// the new head.
    pub fn insert_from_head(&mut self, value: T)
        requires
            old(self).wf(),
        ensures
            final(self).wf(),
            final(self).capacity() == old(self).capacity(),
            final(self)@ == inserted(old(self)@, old(self).capacity(), value),
    {
        let ghost before = self@;
        let mut new = Node::new(value);
        let remaining: usize = self.max - self.length;
        match self.head {
            None => {
                if remaining == 1 {
                    // a ring of one closes on itself at once
                    new.prev = Some(0);
                    new.next = Some(0);
                }
                self.nodes.push(new);
                self.head = Some(0);
                self.length = 1;
                assert(self@ =~= inserted(before, self.max as nat, value));
            },
            Some(h) => {
                if remaining == 0 {
                    let evicted: usize = self.nodes[h].prev.unwrap();
                    let survivor: usize = self.nodes[evicted].prev.unwrap();
                    new.prev = Some(survivor);
                    new.next = Some(h);
                    // the evicted node is dropped here and its slot reused
                    self.nodes.set(evicted, new);
                    self.nodes[h].prev = Some(evicted);
                    self.nodes[survivor].next = Some(evicted);
                    self.head = Some(evicted);
                    assert(self@ =~= inserted(before, self.max as nat, value));
                } else if remaining == 1 {
                    // this insertion fills the ring: find the node that the
                    // new head's `prev` must reach to close the cycle
                    let slot: usize = self.nodes.len();
                    new.next = Some(h);
                    let iteration: usize = self.max - 2;
                    let mut tail: usize = h;
                    let mut i: usize = 0;
                    while i < iteration
                        invariant
                            self.wf(),
                            self.length + 1 == self.max,
                            self.head == Some(h),
                            h + 2 == self.max,
                            iteration == self.max - 2,
                            i <= iteration,
                            tail == h - i,
                        decreases iteration - i,
                    {
                        tail = self.nodes[tail].next.unwrap();
                        i = i + 1;
                    }
                    new.prev = Some(tail);
                    self.nodes.push(new);
                    self.nodes[h].prev = Some(slot);
                    self.nodes[tail].next = Some(slot);
                    self.head = Some(slot);
                    self.length = self.length + 1;
                    assert(self@ =~= inserted(before, self.max as nat, value));
                } else {
                    let slot: usize = self.nodes.len();
                    new.next = Some(h);
                    self.nodes.push(new);
                    self.nodes[h].prev = Some(slot);
                    self.head = Some(slot);
                    self.length = self.length + 1;
                    assert(self@ =~= inserted(before, self.max as nat, value));
                }
            },
        }
    }

    /// The number of elements held.
    pub fn len(&self) -> (r: usize)
        requires
            self.wf(),
        ensures
            r == self@.len(),
    {
        self.length
    }
}

} // verus!
