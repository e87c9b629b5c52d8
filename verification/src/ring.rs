//! Bounded single-producer single-consumer ring.
//!
//! The producer is a capture callback that must never block and never
//! allocate: on Windows a low-level hook that overruns its budget is silently
//! uninstalled, and on any platform blocking in the callback would distort the
//! very intervals being measured. When the ring is full the producer drops the
//! sample and counts it, because a lossy capture that looks clean is worse than
//! one that admits the loss.
//!
//! Here the ring is written as plain owned data: a push and a drain are
//! ordinary `&mut` operations, and the handoff between threads is the caller's
//! business. What is stated and proved is the bookkeeping: samples come out in
//! the order they went in, a full ring refuses rather than overwrites, and every
//! refusal is counted.
use vstd::prelude::*;
use vstd::arithmetic::power2::{pow2, lemma_pow2_unfold, lemma2_to64};

verus! {

/// What a ring holds: the queued samples oldest first, the refusals not yet
/// reported, how many samples it can hold, and whether its one consumer has
/// been handed out.
pub struct RingModel<T> {
    pub contents: Seq<T>,
    pub dropped: u64,
    pub capacity: nat,
    pub consumer_taken: bool,
}

impl<T> RingModel<T> {
    /// The ring after the producer offers `v`.
    pub open spec fn pushed(self, v: T) -> RingModel<T> {
        if self.contents.len() < self.capacity {
            RingModel { contents: self.contents.push(v), ..self }
        } else {
            RingModel { dropped: wrapped_inc(self.dropped), ..self }
        }
    }

    /// The ring after the producer offers every value of `vs`, in order.
    pub open spec fn pushed_all(self, vs: Seq<T>) -> RingModel<T>
        decreases vs.len(),
    {
        if vs.len() == 0 {
            self
        } else {
            self.pushed_all(vs.drop_last()).pushed(vs.last())
        }
    }
}

/// `d + 1`, wrapping at the top of the counter's range.
pub open spec fn wrapped_inc(d: u64) -> u64 {
    if d == u64::MAX {
        0
    } else {
        (d + 1) as u64
    }
}

pub struct Ring<T: Copy + Default> {
    buf: Vec<T>,
    mask: usize,
    /// Index of the oldest queued sample.
    start: usize,
    /// Number of queued samples.
    len: usize,
    dropped: u64,
    consumer_taken: bool,
}

/// Proof that the holder is the only consumer. Handing this out once is what
/// makes the single-consumer half of the contract a type rule rather than a
/// comment.
pub struct Consumer(());

impl<T: Copy + Default> Ring<T> {
    /// The ring's internal layout is consistent: every constructor
    /// establishes this and every method keeps it.
    pub closed spec fn well_formed(self) -> bool {
        &&& self.buf@.len() == self.mask + 1
        &&& 1 <= self.mask < usize::MAX
        &&& self.start <= self.mask
        &&& self.len <= self.mask + 1
    }

    pub closed spec fn view(self) -> RingModel<T> {
        RingModel {
            contents: Seq::new(
                self.len as nat,
                |i: int| self.buf@[(self.start + i) % (self.mask + 1)],
            ),
            dropped: self.dropped,
            capacity: (self.mask + 1) as nat,
            consumer_taken: self.consumer_taken,
        }
    }

    /// A ring holding at least `capacity` samples: the capacity is rounded up
    /// to a power of two, and is never below two.
    pub fn new(capacity: usize) -> (r: Self)
        requires
            capacity <= usize::MAX / 2 + 1,
        ensures
            r.well_formed(),
            r.view().contents.len() == 0,
            r.view().dropped == 0,
            !r.view().consumer_taken,
            exists|k: nat| pow2(k) == r.view().capacity,
            r.view().capacity >= capacity,
            r.view().capacity >= 2,
            r.view().capacity == 2 || r.view().capacity / 2 < capacity,
    {
        let mut cap: usize = 2;
        let ghost mut k: nat = 1;
        proof {
            lemma2_to64();
        }
        while cap < capacity
            invariant
                2 <= cap,
                cap == pow2(k),
                capacity <= usize::MAX / 2 + 1,
                cap == 2 || cap / 2 < capacity,
                cap <= usize::MAX - 1,
            decreases usize::MAX - cap,
        {
            proof {
                lemma_pow2_unfold(k + 1);
            }
            cap = cap * 2;
            proof {
                k = k + 1;
            }
        }
        let mut v: Vec<T> = Vec::new();
        while v.len() < cap
            invariant
                v@.len() <= cap,
            decreases cap - v@.len(),
        {
            v.push(T::default());
        }
        let r = Ring { buf: v, mask: cap - 1, start: 0, len: 0, dropped: 0, consumer_taken: false };
        proof {
            assert(r.view().contents =~= Seq::<T>::empty());
        }
        r
    }

    /// The one consumer, the first time it is asked for; `None` after that.
    pub fn take_consumer(&mut self) -> (c: Option<Consumer>)
        requires
            old(self).well_formed(),
        ensures
            final(self).well_formed(),
            c is Some <==> !old(self).view().consumer_taken,
            final(self).view() == (RingModel { consumer_taken: true, ..old(self).view() }),
    {
        let taken = self.consumer_taken;
        self.consumer_taken = true;
        proof {
            assert(self.view().contents =~= old(self).view().contents);
        }
        if taken {
            None
        } else {
            Some(Consumer(()))
        }
    }

    pub fn capacity(&self) -> (c: usize)
        requires
            self.well_formed(),
        ensures
            c == self.view().capacity,
    {
        self.mask + 1
    }

    /// Producer side. Never blocks and never allocates; a full ring refuses
    /// the sample and counts the refusal.
    pub fn push(&mut self, value: T)
        requires
            old(self).well_formed(),
        ensures
            final(self).well_formed(),
            final(self).view() == old(self).view().pushed(value),
    {
        let cap = self.mask + 1;
        if self.len >= cap {
            self.dropped = self.dropped.wrapping_add(1);
            proof {
                assert(self.view().contents =~= old(self).view().contents);
            }
            return;
        }
        let slot = if self.len >= cap - self.start {
            self.len - (cap - self.start)
        } else {
            self.start + self.len
        };
        proof {
            lemma_wrap_index(self.start + self.len, cap as int);
        }
        self.buf.set(slot, value);
        self.len = self.len + 1;
        proof {
            let old_view = old(self).view();
            let new_view = self.view();
            assert forall|i: int| 0 <= i < old_view.contents.len() implies new_view.contents[i]
                == old_view.contents[i] by {
                lemma_wrap_index(self.start + i, cap as int);
            }
            assert(new_view.contents =~= old_view.contents.push(value));
        }
    }

    /// Consumer side. Appends everything queued, oldest first, and returns
    /// how many samples the producer had to refuse since the previous drain.
    pub fn drain(&mut self, _c: &mut Consumer, out: &mut Vec<T>) -> (dropped: u64)
        requires
            old(self).well_formed(),
        ensures
            final(self).well_formed(),
            final(out)@ == old(out)@ + old(self).view().contents,
            dropped == old(self).view().dropped,
            final(self).view() == (RingModel {
                contents: Seq::empty(),
                dropped: 0,
                ..old(self).view()
            }),
    {
        let ghost queued = self.view().contents;
        let ghost base = out@;
        let cap = self.mask + 1;
        let mut i: usize = 0;
        while i < self.len
            invariant
                self.buf@.len() == cap,
                self.len <= cap,
                self.start < cap,
                queued == Seq::new(self.len as nat, |j: int| self.buf@[(self.start + j) % (cap as int)]),
                out@ == base + queued.take(i as int),
                i <= self.len,
            decreases self.len - i,
        {
            let slot = if i >= cap - self.start {
                i - (cap - self.start)
            } else {
                self.start + i
            };
            proof {
                lemma_wrap_index(self.start + i, cap as int);
            }
            out.push(self.buf[slot]);
            proof {
                assert(queued.take(i + 1) =~= queued.take(i as int).push(queued[i as int]));
            }
            i = i + 1;
        }
        proof {
            assert(queued.take(i as int) =~= queued);
        }
        self.start = 0;
        self.len = 0;
        let d = self.dropped;
        self.dropped = 0;
        proof {
            assert(self.view().contents =~= Seq::<T>::empty());
        }
        d
    }

    pub fn len(&self) -> (n: usize)
        ensures
            n == self.view().contents.len(),
    {
        self.len
    }

    pub fn is_empty(&self) -> (b: bool)
        ensures
            b == (self.view().contents.len() == 0),
    {
        self.len == 0
    }
}

proof fn lemma_wrap_index(x: int, c: int)
    requires
        0 < c,
        0 <= x < 2 * c,
    ensures
        x < c ==> x % c == x,
        x >= c ==> x % c == x - c,
{
    assert(x < c ==> x % c == x) by (nonlinear_arith)
        requires
            0 < c,
            0 <= x,
    ;
    assert(x >= c ==> x % c == x - c) by (nonlinear_arith)
        requires
            0 < c,
            x < 2 * c,
    ;
}

/// Offering samples to a ring with nothing drained in between: the ring
/// accepts exactly as many as it has room for, in order, and counts every
/// other one as dropped, so accepted plus dropped always accounts for every
/// sample offered.
pub proof fn lemma_pushes_are_accounted<T>(m: RingModel<T>, vs: Seq<T>)
    requires
        m.contents.len() <= m.capacity,
        m.dropped + vs.len() <= u64::MAX,
    ensures
        ({
            let room = (m.capacity - m.contents.len()) as int;
            let taken = if vs.len() <= room {
                vs.len() as int
            } else {
                room
            };
            let after = m.pushed_all(vs);
            &&& after.contents == m.contents + vs.take(taken)
            &&& after.dropped == m.dropped + (vs.len() - taken)
            &&& after.contents.len() + after.dropped == m.contents.len() + m.dropped + vs.len()
            &&& after.capacity == m.capacity
            &&& after.consumer_taken == m.consumer_taken
        }),
    decreases vs.len(),
{
    if vs.len() > 0 {
        let init = vs.drop_last();
        lemma_pushes_are_accounted(m, init);
        let room = (m.capacity - m.contents.len()) as int;
        let prev = m.pushed_all(init);
        if init.len() < room {
            assert(vs.take(vs.len() as int) =~= init.take(init.len() as int).push(vs.last()));
        } else {
            assert(vs.take(room) =~= init.take(room));
        }
        assert(vs.take(vs.len() as int) =~= vs);
        assert(init.take(init.len() as int) =~= init);
    } else {
        assert(vs.take(0) =~= Seq::<T>::empty());
        assert(m.contents + Seq::<T>::empty() =~= m.contents);
    }
}

} // verus!
