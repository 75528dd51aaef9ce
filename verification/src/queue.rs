//! First-in-first-out queues with a shared abstract contract.
//!
//! Each queue is modelled by a `Seq<T>` of the values it currently holds,
//! front first. The two relations [`enqueued`] and [`dequeued`] say what a
//! single operation does to that sequence; all queue types promise exactly
//! these relations, so they are interchangeable building blocks.

use vstd::prelude::*;
use std::collections::VecDeque;

verus! {

/// One enqueue appends the value at the back of the abstract contents.
pub open spec fn enqueued<T>(before: Seq<T>, value: T, after: Seq<T>) -> bool {
    after == before.push(value)
}

/// One dequeue takes the front value, if any; on an empty queue it
/// returns nothing and leaves the contents unchanged.
pub open spec fn dequeued<T>(before: Seq<T>, result: Option<T>, after: Seq<T>) -> bool {
    if before.len() == 0 {
        result is None && after == before
    } else {
        result == Some(before[0]) && after == before.drop_first()
    }
}

/// One link of the linked queue: a payload slot and the arena index of the
/// successor link, if one exists yet.
///
/// The queue's front link is a sentinel whose payload has already been
/// consumed (or never existed), so a link's payload is optional and no
/// default value of `T` is ever fabricated.
pub struct Node<T> {
    pub value: Option<T>,
    pub next: Option<usize>,
}

impl<T> Node<T> {
    pub fn new(value: T) -> (n: Node<T>)
        ensures
            n.value == Some(value),
            n.next is None,
    {
        Node { value: Some(value), next: None }
    }
}

/// A Michael-Scott-style linked queue laid out in an arena.
///
/// Links live in `nodes` and point to each other by index instead of by raw
/// pointer. `head` always names a sentinel link; the live chain runs from
/// `head` along `next` links to `tail`. A dequeued sentinel is *retired* onto
/// the `free` list and its slot is reused only by a later enqueue, once it is
/// no longer reachable from the chain; this stands in for the reclamation
/// discipline a pointer-based queue would need. The ghost `chain` records the
/// indices of the chain in link order and carries the structural invariants.
pub struct Queue<T> {
    nodes: Vec<Node<T>>,
    free: Vec<usize>,
    head: usize,
    tail: usize,
    chain: Ghost<Seq<usize>>,
}

impl<T> View for Queue<T> {
    type V = Seq<T>;

    /// The values held by the queue, front first: the payloads of every
    /// chain link after the sentinel.
    closed spec fn view(&self) -> Seq<T> {
        Seq::new(
            (self.chain@.len() - 1) as nat,
            |i: int| self.nodes@[self.chain@[i + 1] as int].value.unwrap(),
        )
    }
}

impl<T> Queue<T> {
    /// Structural well-formedness: the ghost chain really describes the
    /// arena. The sentinel holds no live value, every later link holds one,
    /// `tail` is the last link, no slot appears twice, and no retired slot
    /// is still reachable from the chain.
    pub closed spec fn wf(&self) -> bool {
        let ch = self.chain@;
        &&& ch.len() >= 1
        &&& ch[0] == self.head
        &&& ch[ch.len() - 1] == self.tail
        &&& forall|i: int| 0 <= i < ch.len() ==> #[trigger] ch[i] < self.nodes@.len()
        &&& forall|i: int|
            0 <= i < ch.len() - 1 ==> #[trigger] self.nodes@[ch[i] as int].next == Some(ch[i + 1])
        &&& self.nodes@[ch[ch.len() - 1] as int].next is None
        &&& forall|i: int, j: int| 0 <= i < j < ch.len() ==> ch[i] != ch[j]
        &&& self.nodes@[self.head as int].value is None
        &&& forall|i: int| 1 <= i < ch.len() ==> #[trigger] self.nodes@[ch[i] as int].value is Some
        &&& forall|i: int| 0 <= i < self.free@.len() ==> #[trigger] self.free@[i] < self.nodes@.len()
        &&& forall|i: int, j: int| 0 <= i < j < self.free@.len() ==> self.free@[i] != self.free@[j]
        &&& forall|i: int, j: int|
            0 <= i < self.free@.len() && 0 <= j < ch.len() ==> self.free@[i] != ch[j]
    }

    /// The arena slots the queue can still reach: the chain from the
    /// sentinel to the tail.
    pub closed spec fn live_slots(&self) -> Set<usize> {
        self.chain@.to_set()
    }

    /// The arena slots that have been retired and await reuse.
    pub closed spec fn retired_slots(&self) -> Set<usize> {
        self.free@.to_set()
    }

    pub fn new() -> (q: Queue<T>)
        ensures
            q.wf(),
            q@ == Seq::<T>::empty(),
    {
        let mut nodes: Vec<Node<T>> = Vec::new();
        nodes.push(Node { value: None, next: None });
        let ghost ch: Seq<usize> = seq![0usize];
        let q = Queue {
            nodes,
            free: Vec::new(),
            head: 0,
            tail: 0,
            chain: Ghost(ch),
        };
        proof {
            assert(q@ =~= Seq::<T>::empty());
        }
        q
    }

    pub fn enqueue(&mut self, value: T)
        requires
            old(self).wf(),
        ensures
            final(self).wf(),
            enqueued(old(self)@, value, final(self)@),
    {
        let node = Node::new(value);
        let idx: usize;
        match self.free.pop() {
            Some(i) => {
                proof {
                    assert(old(self).free@[old(self).free@.len() - 1] < old(self).nodes@.len());
                }
                idx = i;
                let slot = &mut self.nodes[idx];
                *slot = node;
            }
            None => {
                idx = self.nodes.len();
                self.nodes.push(node);
            }
        }
        proof {
            // The fresh slot is not reachable, not retired, and in bounds.
            assert(idx < self.nodes@.len());
            assert(forall|j: int|
                0 <= j < old(self).chain@.len() ==> #[trigger] old(self).chain@[j] != idx);
            assert(forall|j: int|
                0 <= j < self.free@.len() ==> #[trigger] self.free@[j] == old(self).free@[j]);
            assert(forall|j: int| 0 <= j < self.free@.len() ==> #[trigger] self.free@[j] != idx);
            assert(forall|k: int|
                0 <= k < old(self).nodes@.len() && k != idx ==> self.nodes@[k]
                    == old(self).nodes@[k]);
            assert(self.nodes@[idx as int].value == Some(value));
            assert(self.nodes@[idx as int].next is None);
        }
        let t = self.tail;
        let tail_node = &mut self.nodes[t];
        tail_node.next = Some(idx);
        self.tail = idx;
        proof {
            self.chain@ = self.chain@.push(idx);
        }
        proof {
            let ch = old(self).chain@;
            let ch2 = self.chain@;
            assert(ch2.len() == ch.len() + 1);
            assert(t == ch[ch.len() - 1]);
            assert(t != idx);
            assert(self.nodes@[t as int].next == Some(idx));
            assert(self.nodes@[t as int].value == old(self).nodes@[t as int].value);
            assert(forall|k: int|
                0 <= k < old(self).nodes@.len() && k != idx && k != t ==> self.nodes@[k]
                    == old(self).nodes@[k]);
            assert forall|i: int| 0 <= i < ch2.len() - 1 implies #[trigger] self.nodes@[ch2[i] as int].next
                == Some(ch2[i + 1]) by {
                if i < ch.len() - 1 {
                    assert(ch2[i] == ch[i]);
                    assert(ch[i] != t);
                    assert(ch[i] != idx);
                } else {
                    assert(ch2[i] == t);
                }
            }
            assert forall|i: int| 1 <= i < ch2.len() implies #[trigger] self.nodes@[ch2[i] as int].value
                is Some by {
                if i < ch.len() {
                    assert(old(self).nodes@[ch[i] as int].value is Some);
                    assert(self.nodes@[ch[i] as int].value == old(self).nodes@[ch[i] as int].value);
                }
            }
            assert(self.nodes@[self.head as int].value is None);
            assert(self.wf());
            assert forall|i: int| 0 <= i < old(self)@.len() implies self@[i] == old(self)@[i] by {
                assert(ch2[i + 1] == ch[i + 1]);
                assert(ch[i + 1] != idx);
                assert(self.nodes@[ch[i + 1] as int].value
                    == old(self).nodes@[ch[i + 1] as int].value);
            }
            assert(self@[old(self)@.len() as int] == value);
            assert(self@ =~= old(self)@.push(value));
        }
    }

    pub fn dequeue(&mut self) -> (r: Option<T>)
        requires
            old(self).wf(),
        ensures
            final(self).wf(),
            dequeued(old(self)@, r, final(self)@),
    {
        let h = self.head;
        proof {
            assert(self.chain@[0] < self.nodes@.len());
        }
        let next = self.nodes[h].next;
        match next {
            None => {
                proof {
                    let ch = self.chain@;
                    if ch.len() > 1 {
                        assert(self.nodes@[ch[0] as int].next == Some(ch[1]));
                    }
                    assert(ch.len() == 1);
                    assert(self@ =~= Seq::<T>::empty());
                }
                None
            }
            Some(nxt) => {
                proof {
                    let ch = self.chain@;
                    assert(self.nodes@[ch[ch.len() - 1] as int].next is None);
                    assert(ch.len() >= 2);
                    assert(self.nodes@[ch[0] as int].next == Some(ch[1]));
                    assert(nxt == ch[1]);
                    assert(ch[1] < self.nodes@.len());
                    assert(self.nodes@[ch[1] as int].value is Some);
                }
                let node = &mut self.nodes[nxt];
                let val = node.value.take();
                self.free.push(h);
                self.head = nxt;
                proof {
                    self.chain@ = self.chain@.drop_first();
                }
                proof {
                    let ch = old(self).chain@;
                    let ch2 = self.chain@;
                    assert(ch2 =~= ch.subrange(1, ch.len() as int));
                    assert(val == old(self).nodes@[ch[1] as int].value);
                    assert(val == Some(old(self)@[0]));
                    assert(forall|k: int|
                        0 <= k < old(self).nodes@.len() && k != ch[1] ==> self.nodes@[k]
                            == old(self).nodes@[k]);
                    assert(self.nodes@[ch[1] as int].value is None);
                    assert(self.nodes@[ch[1] as int].next
                        == old(self).nodes@[ch[1] as int].next);
                    assert forall|i: int| 0 <= i < ch2.len() - 1 implies #[trigger] self.nodes@[ch2[i] as int].next
                        == Some(ch2[i + 1]) by {
                        assert(ch2[i] == ch[i + 1]);
                        assert(old(self).nodes@[ch[i + 1] as int].next == Some(ch[i + 2]));
                    }
                    assert forall|i: int| 1 <= i < ch2.len() implies #[trigger] self.nodes@[ch2[i] as int].value
                        is Some by {
                        assert(ch2[i] == ch[i + 1]);
                        assert(ch[i + 1] != ch[1]);
                    }
                    // The retired sentinel joins the free list without clashing.
                    assert(forall|j: int|
                        0 <= j < old(self).free@.len() ==> #[trigger] old(self).free@[j] != h);
                    assert(self.wf());
                    assert forall|i: int| 0 <= i < self@.len() implies self@[i]
                        == old(self)@[i + 1] by {
                        assert(ch2[i + 1] == ch[i + 2]);
                        assert(ch[i + 2] != ch[1]);
                    }
                    assert(self@ =~= old(self)@.drop_first());
                }
                val
            }
        }
    }
}

/// A queue split into two buffers so that appends and removals touch
/// different ends: values enter `tail` and are consumed from `head`, with an
/// amortized transfer step draining `tail` into `head` when `head` runs dry.
///
/// The whole check-and-drain sequence runs under exclusive access to both
/// buffers, so no two drains can overlap or duplicate a transfer.
pub struct LockQueue<T> {
    head: VecDeque<T>,
    tail: VecDeque<T>,
}

impl<T> View for LockQueue<T> {
    type V = Seq<T>;

    /// The queued values, front first: the consumer-side buffer followed by
    /// the producer-side buffer.
    closed spec fn view(&self) -> Seq<T> {
        self.head@ + self.tail@
    }
}

impl<T> LockQueue<T> {
    pub fn new() -> (q: Self)
        ensures
            q@ == Seq::<T>::empty(),
    {
        let q = LockQueue { head: VecDeque::new(), tail: VecDeque::new() };
        proof {
            assert(q@ =~= Seq::<T>::empty());
        }
        q
    }

    /// Drain the producer-side buffer into the consumer-side buffer,
    /// preserving order and contents.
    fn transfer(&mut self)
        ensures
            final(self)@ == old(self)@,
            final(self).head@ == old(self).head@ + old(self).tail@,
            final(self).tail@.len() == 0,
    {
        let ghost h0 = self.head@;
        let ghost t0 = self.tail@;
        while self.tail.len() > 0
            invariant
                self.head@ + self.tail@ == h0 + t0,
            decreases self.tail@.len(),
        {
            let value = self.tail.pop_front().unwrap();
            self.head.push_back(value);
            proof {
                assert(self.head@ + self.tail@ =~= h0 + t0);
            }
        }
        proof {
            assert(self.head@ =~= h0 + t0);
            assert(self@ =~= old(self)@);
        }
    }

    pub fn enqueue(&mut self, data: T)
        ensures
            enqueued(old(self)@, data, final(self)@),
    {
        self.tail.push_back(data);
        proof {
            assert(self@ =~= old(self)@.push(data));
        }
        if self.head.len() == 0 {
            self.transfer();
        }
    }

    pub fn dequeue(&mut self) -> (r: Option<T>)
        ensures
            dequeued(old(self)@, r, final(self)@),
    {
        match self.head.pop_front() {
            Some(value) => {
                proof {
                    assert(old(self)@[0] == value);
                    assert(self@ =~= old(self)@.drop_first());
                }
                Some(value)
            }
            None => {
                if self.tail.len() == 0 {
                    proof {
                        assert(old(self)@.len() == 0);
                    }
                    None
                } else {
                    self.transfer();
                    let r = self.head.pop_front();
                    proof {
                        assert(self.head@ =~= old(self).tail@.drop_first());
                        assert(r == Some(old(self)@[0]));
                        assert(self@ =~= old(self)@.drop_first());
                    }
                    r
                }
            }
        }
    }
}

/// A queue guarded by a single buffer: the baseline implementation.
pub struct SingleVecLockQueue<T> {
    queue: VecDeque<T>,
}

impl<T> View for SingleVecLockQueue<T> {
    type V = Seq<T>;

    closed spec fn view(&self) -> Seq<T> {
        self.queue@
    }
}

impl<T> SingleVecLockQueue<T> {
    pub fn new() -> (q: Self)
        ensures
            q@ == Seq::<T>::empty(),
    {
        SingleVecLockQueue { queue: VecDeque::new() }
    }

    pub fn enqueue(&mut self, data: T)
        ensures
            enqueued(old(self)@, data, final(self)@),
    {
        self.queue.push_back(data);
    }

    pub fn dequeue(&mut self) -> (r: Option<T>)
        ensures
            dequeued(old(self)@, r, final(self)@),
    {
        self.queue.pop_front()
    }
}

/// The abstract contents after enqueueing each value of `values` in order,
/// starting from contents `s`, with no interleaved dequeues.
pub open spec fn enqueue_all<T>(s: Seq<T>, values: Seq<T>) -> Seq<T>
    decreases values.len(),
{
    if values.len() == 0 {
        s
    } else {
        enqueue_all(s.push(values[0]), values.drop_first())
    }
}

proof fn lemma_enqueue_all_appends<T>(s: Seq<T>, values: Seq<T>)
    ensures
        enqueue_all(s, values) == s + values,
    decreases values.len(),
{
    if values.len() == 0 {
        assert(s + values =~= s);
    } else {
        lemma_enqueue_all_appends(s.push(values[0]), values.drop_first());
        assert(s.push(values[0]) + values.drop_first() =~= s + values);
    }
}

/// FIFO law: enqueueing `values[0], .., values[n-1]` into an empty queue
/// with no interleaved dequeues leaves exactly `values` as the contents,
/// and the i-th of n subsequent dequeues returns `values[i]`: the values
/// come back in the exact order they went in, for every n and every value
/// sequence. (`values.skip(i)` is the contents remaining before the i-th
/// dequeue.)
pub proof fn lemma_single_thread_fifo<T>(values: Seq<T>)
    ensures
        enqueue_all(Seq::<T>::empty(), values) == values,
        forall|i: int|
            0 <= i < values.len() ==> dequeued(
                #[trigger] values.skip(i),
                Some(values[i]),
                values.skip(i + 1),
            ),
{
    lemma_enqueue_all_appends(Seq::<T>::empty(), values);
    assert(Seq::<T>::empty() + values =~= values);
    assert forall|i: int| 0 <= i < values.len() implies dequeued(
        #[trigger] values.skip(i),
        Some(values[i]),
        values.skip(i + 1),
    ) by {
        assert(values.skip(i).len() > 0);
        assert(values.skip(i)[0] == values[i]);
        assert(values.skip(i).drop_first() =~= values.skip(i + 1));
    }
}

/// Conservation law: one enqueue adds exactly the enqueued value to the
/// multiset of queued contents, and one dequeue removes exactly the value
/// it returns — no value is invented, duplicated, or silently dropped. For
/// producers enqueueing disjoint values and consumers draining the queue,
/// the multiset of dequeued values therefore equals the multiset enqueued.
pub proof fn lemma_no_loss_no_duplication<T>(
    before: Seq<T>,
    value: T,
    after_enq: Seq<T>,
    result: Option<T>,
    after_deq: Seq<T>,
)
    requires
        enqueued(before, value, after_enq),
        dequeued(before, result, after_deq),
    ensures
        after_enq.to_multiset() == before.to_multiset().insert(value),
        before.len() > 0 ==> result == Some(before[0]) && before.to_multiset()
            == after_deq.to_multiset().insert(before[0]),
        before.len() == 0 ==> result is None && after_deq == before,
{
    broadcast use vstd::seq_lib::group_to_multiset_ensures;

    assert(before.push(value).to_multiset() =~= before.to_multiset().insert(value));
    if before.len() > 0 {
        assert(after_deq.insert(0, before[0]) =~= before);
        vstd::seq_lib::to_multiset_insert(after_deq, 0, before[0]);
    }
}

/// One step of a queue history: a value going in, or an attempt to take
/// one out.
pub enum QueueOp<T> {
    Enqueue(T),
    Dequeue,
}

/// The abstract contents after running a history of operations from an
/// empty queue. A dequeue on an empty queue is a no-op that observed
/// emptiness.
pub open spec fn state_after<T>(h: Seq<QueueOp<T>>) -> Seq<T>
    decreases h.len(),
{
    if h.len() == 0 {
        Seq::empty()
    } else {
        let s = state_after(h.drop_last());
        match h.last() {
            QueueOp::Enqueue(v) => s.push(v),
            QueueOp::Dequeue => if s.len() == 0 {
                s
            } else {
                s.drop_first()
            },
        }
    }
}

/// The values the dequeues of a history returned, in the order they were
/// returned.
pub open spec fn outputs_after<T>(h: Seq<QueueOp<T>>) -> Seq<T>
    decreases h.len(),
{
    if h.len() == 0 {
        Seq::empty()
    } else {
        let s = state_after(h.drop_last());
        let out = outputs_after(h.drop_last());
        match h.last() {
            QueueOp::Enqueue(v) => out,
            QueueOp::Dequeue => if s.len() == 0 {
                out
            } else {
                out.push(s[0])
            },
        }
    }
}

/// The values a history enqueued, in the order they were enqueued.
pub open spec fn enqueued_values<T>(h: Seq<QueueOp<T>>) -> Seq<T>
    decreases h.len(),
{
    if h.len() == 0 {
        Seq::empty()
    } else {
        match h.last() {
            QueueOp::Enqueue(v) => enqueued_values(h.drop_last()).push(v),
            QueueOp::Dequeue => enqueued_values(h.drop_last()),
        }
    }
}

/// Each history step is exactly one operation as the queue contracts state
/// it: an enqueue step satisfies [`enqueued`] and a dequeue step satisfies
/// [`dequeued`] with the result it observed.
pub proof fn lemma_history_step<T>(h: Seq<QueueOp<T>>, op: QueueOp<T>)
    ensures
        match op {
            QueueOp::Enqueue(v) => enqueued(state_after(h), v, state_after(h.push(op))),
            QueueOp::Dequeue => dequeued(
                state_after(h),
                if state_after(h).len() == 0 {
                    None
                } else {
                    Some(state_after(h)[0])
                },
                state_after(h.push(op)),
            ),
        },
{
    assert(h.push(op).drop_last() =~= h);
}

/// Sequential FIFO law over whole histories: however enqueues and dequeues
/// are interleaved, the values the dequeues returned are exactly the first
/// values enqueued, in enqueue order, and the queue still holds exactly the
/// rest. In particular no value is lost, duplicated or reordered, and an
/// execution of concurrent callers whose operations take effect one at a
/// time in any order behaves like this history.
pub proof fn lemma_history_is_fifo<T>(h: Seq<QueueOp<T>>)
    ensures
        outputs_after(h).len() <= enqueued_values(h).len(),
        outputs_after(h) == enqueued_values(h).take(outputs_after(h).len() as int),
        state_after(h) == enqueued_values(h).skip(outputs_after(h).len() as int),
    decreases h.len(),
{
    if h.len() == 0 {
        assert(outputs_after(h) =~= enqueued_values(h).take(0));
        assert(state_after(h) =~= enqueued_values(h).skip(0));
    } else {
        let hp = h.drop_last();
        lemma_history_is_fifo(hp);
        let enq = enqueued_values(hp);
        let out = outputs_after(hp);
        let st = state_after(hp);
        let k = out.len() as int;
        match h.last() {
            QueueOp::Enqueue(v) => {
                assert(outputs_after(h) =~= enqueued_values(h).take(k));
                assert(state_after(h) =~= enqueued_values(h).skip(k));
            }
            QueueOp::Dequeue => {
                if st.len() == 0 {
                    assert(outputs_after(h) =~= enqueued_values(h).take(k));
                    assert(state_after(h) =~= enqueued_values(h).skip(k));
                } else {
                    assert(st[0] == enq[k]);
                    assert(outputs_after(h) =~= enq.take(k + 1));
                    assert(state_after(h) =~= enq.skip(k + 1));
                }
            }
        }
    }
}

/// Reclamation law: in a well-formed linked queue, no retired slot is still
/// reachable from the chain. A dequeue hands the old sentinel to the free
/// list only after unlinking it, and an enqueue reuses only free-listed
/// slots, so a reused slot can never alias a link the queue may still read.
pub proof fn lemma_retired_slots_unreachable<T>(q: &Queue<T>)
    requires
        q.wf(),
    ensures
        q.live_slots().disjoint(q.retired_slots()),
{
    assert forall|s: usize| q.live_slots().contains(s) implies !q.retired_slots().contains(
        s,
    ) by {
        let i = choose|i: int| 0 <= i < q.chain@.len() && q.chain@[i] == s;
        if q.retired_slots().contains(s) {
            let j = choose|j: int| 0 <= j < q.free@.len() && q.free@[j] == s;
            assert(q.free@[j] != q.chain@[i]);
        }
    }
}

} // verus!
