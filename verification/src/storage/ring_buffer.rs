//! A bounded FIFO ring buffer over a caller-provided storage slab.

use vstd::prelude::*;

use crate::storage::{Empty, Full, Resettable};

verus! {

/// The physical slot index reached by walking `i` slots forward from the
/// start of a slab of `c` slots, wrapping around; 0 when there is no slab.
pub open spec fn wrap_index(c: int, i: int) -> int {
    if c <= 0 {
        0
    } else {
        i % c
    }
}

/// A ring buffer.
///
/// This ring buffer implementation provides many ways to interact with it:
///
///   * Enqueueing or dequeueing one element from corresponding side of the
///     buffer;
///   * Enqueueing or dequeueing a slice of elements from corresponding side of
///     the buffer;
///   * Accessing allocated and unallocated areas directly.
///
/// It is also zero-copy; all methods provide references into the buffer's
/// storage. Note that all references are mutable; it is considered more
/// important to allow in-place processing than to protect from accidental
/// mutation.
///
/// This implementation is suitable for both simple uses such as a FIFO queue
/// of UDP packets, and advanced ones such as a TCP reassembly buffer.
#[derive(Debug)]
pub struct RingBuffer<T> {
    storage: Vec<T>,
    read_at: usize,
    length: usize,
}

impl<T> RingBuffer<T> {
    /// The number of element slots in the storage slab.
    pub closed spec fn spec_capacity(self) -> int {
        self.storage@.len() as int
    }

    /// The number of elements currently held.
    pub closed spec fn spec_len(self) -> int {
        self.length as int
    }

    /// The physical index of the first allocated element.
    pub closed spec fn spec_read_at(self) -> int {
        self.read_at as int
    }

    /// The whole storage slab, in physical order.
    pub closed spec fn storage_seq(self) -> Seq<T> {
        self.storage@
    }

    /// The number of free slots.
    pub open spec fn spec_window(self) -> int {
        self.spec_capacity() - self.spec_len()
    }

    /// Structural invariant: the length never exceeds the capacity and the
    /// read position stays inside the slab (or at zero when there is none).
    pub open spec fn wf(self) -> bool {
        &&& self.storage_seq().len() == self.spec_capacity()
        &&& 0 <= self.spec_len() <= self.spec_capacity()
        &&& if self.spec_capacity() == 0 {
            self.spec_read_at() == 0
        } else {
            0 <= self.spec_read_at() < self.spec_capacity()
        }
    }

    /// The allocated elements in logical (FIFO) order.
    pub open spec fn contents(self) -> Seq<T> {
        Seq::new(
            self.spec_len() as nat,
            |i: int|
                self.storage_seq()[wrap_index(
                    self.spec_capacity(),
                    self.spec_read_at() + i,
                )],
        )
    }

    /// The physical index one past the last allocated element: where the next
    /// discrete enqueue writes.
    pub open spec fn spec_write_at(self) -> int {
        wrap_index(self.spec_capacity(), self.spec_read_at() + self.spec_len())
    }

    /// The largest number of elements that can be added without wrapping,
    /// from the current read position.
    pub open spec fn spec_contiguous_window(self) -> int {
        vstd::math::min(self.spec_window(), self.spec_capacity() - self.spec_write_at())
    }

    /// The read position after the empty-buffer rebase that the bulk enqueue
    /// operations perform.
    pub open spec fn spec_rebased_read_at(self) -> int {
        if self.spec_len() == 0 {
            0
        } else {
            self.spec_read_at()
        }
    }

    /// Where a bulk enqueue writes, after the empty-buffer rebase.
    pub open spec fn spec_enqueue_at(self) -> int {
        wrap_index(self.spec_capacity(), self.spec_rebased_read_at() + self.spec_len())
    }

    /// The size of the contiguous slice a bulk enqueue exposes, after the
    /// empty-buffer rebase.
    pub open spec fn spec_enqueue_window(self) -> int {
        vstd::math::min(self.spec_window(), self.spec_capacity() - self.spec_enqueue_at())
    }

    /// Create a ring buffer with the given storage.
    pub fn new(storage: Vec<T>) -> (r: RingBuffer<T>)
        ensures
            r.wf(),
            r.spec_capacity() == storage@.len(),
            r.spec_len() == 0,
            r.spec_read_at() == 0,
            r.storage_seq() == storage@,
    {
        RingBuffer { storage, read_at: 0, length: 0 }
    }

    /// Clear the ring buffer.
    pub fn clear(&mut self)
        ensures
            final(self).wf(),
            final(self).spec_len() == 0,
            final(self).spec_read_at() == 0,
            final(self).storage_seq() == old(self).storage_seq(),
            final(self).spec_capacity() == old(self).spec_capacity(),
    {
        self.read_at = 0;
        self.length = 0;
    }

    /// Return the maximum number of elements in the ring buffer.
    pub fn capacity(&self) -> (r: usize)
        ensures
            r == self.spec_capacity(),
    {
        self.storage.len()
    }

    /// Clear the ring buffer, and reset every element.
    pub fn reset(&mut self) where T: Resettable
        ensures
            final(self).wf(),
            final(self).spec_len() == 0,
            final(self).spec_read_at() == 0,
            final(self).spec_capacity() == old(self).spec_capacity(),
            forall|i: int|
                0 <= i < final(self).storage_seq().len()
                    ==> (#[trigger] final(self).storage_seq()[i]).is_reset(),
    {
        self.clear();
        let mut i: usize = 0;
        let n = self.storage.len();
        while i < n
            invariant
                i <= n,
                n == self.storage@.len(),
                self.read_at == 0,
                self.length == 0,
                forall|j: int| 0 <= j < i ==> (#[trigger] self.storage@[j]).is_reset(),
            decreases n - i,
        {
            let elem = &mut self.storage[i];
            elem.reset();
            i += 1;
        }
    }

    /// Return the current number of elements in the ring buffer.
    pub fn len(&self) -> (r: usize)
        ensures
            r == self.spec_len(),
    {
        self.length
    }

    /// Return the number of elements that can be added to the ring buffer.
    pub fn window(&self) -> (r: usize)
        requires
            self.wf(),
        ensures
            r == self.spec_window(),
    {
        self.capacity() - self.len()
    }

    /// Return the largest number of elements that can be added to the buffer
    /// without wrapping around (i.e. in a single `enqueue_many` call).
    pub fn contiguous_window(&self) -> (r: usize)
        requires
            self.wf(),
        ensures
            r == self.spec_contiguous_window(),
    {
        let cap = self.capacity();
        let w = self.window();
        let until_end = cap - self.get_idx(self.length);
        if w < until_end {
            w
        } else {
            until_end
        }
    }

    /// Query whether the buffer is empty.
    pub fn is_empty(&self) -> (r: bool)
        ensures
            r <==> self.spec_len() == 0,
    {
        self.len() == 0
    }

    /// Query whether the buffer is full.
    pub fn is_full(&self) -> (r: bool)
        requires
            self.wf(),
        ensures
            r <==> self.spec_len() == self.spec_capacity(),
    {
        self.window() == 0
    }

    /// Read-only access to the storage slab, in physical order.
    pub fn storage(&self) -> (r: &[T])
        ensures
            r@ == self.storage_seq(),
    {
        self.storage.as_slice()
    }

    /// Shorthand for `(self.read_at + idx) % self.capacity()` with an
    /// additional check to ensure that the capacity is not zero.
    fn get_idx(&self, idx: usize) -> (r: usize)
        requires
            self.wf(),
            idx <= self.spec_capacity(),
        ensures
            r == wrap_index(self.spec_capacity(), self.spec_read_at() + idx),
            self.spec_capacity() > 0 ==> r < self.spec_capacity(),
    {
        let cap = self.storage.len();
        if cap > 0 {
            if idx >= cap - self.read_at {
                let r = idx - (cap - self.read_at);
                proof {
                    let x = self.spec_read_at() + idx;
                    assert(x % (cap as int) == x - cap) by (nonlinear_arith)
                        requires
                            cap <= x < 2 * cap,
                    ;
                }
                r
            } else {
                proof {
                    let x = self.spec_read_at() + idx;
                    assert(x % (cap as int) == x) by (nonlinear_arith)
                        requires
                            0 <= x < cap,
                    ;
                }
                self.read_at + idx
            }
        } else {
            0
        }
    }
}

/// A wrapped index stays inside the slab.
proof fn lemma_wrap_index_bound(c: int, i: int)
    requires
        0 < c,
        0 <= i,
    ensures
        0 <= wrap_index(c, i) < c,
{
    assert(0 <= i % c < c) by (nonlinear_arith)
        requires
            0 < c,
            0 <= i,
    ;
}

/// Walking two different distances less than the capacity from the same
/// start lands on two different slots.
proof fn lemma_wrap_index_distinct(c: int, r: int, i: int, j: int)
    requires
        0 < c,
        0 <= r < c,
        0 <= i < c,
        0 <= j < c,
        i != j,
    ensures
        wrap_index(c, r + i) != wrap_index(c, r + j),
{
    assert((r + i) % c != (r + j) % c) by (nonlinear_arith)
        requires
            0 < c,
            0 <= r < c,
            0 <= i < c,
            0 <= j < c,
            i != j,
    ;
}

/// Wrapping an already wrapped position by a further in-range step is the
/// same as wrapping the unwrapped sum.
proof fn lemma_wrap_index_add(c: int, x: int, i: int)
    requires
        0 < c,
        0 <= x,
        0 <= i < c,
    ensures
        wrap_index(c, wrap_index(c, x) + i) == wrap_index(c, x + i),
{
    vstd::arithmetic::div_mod::lemma_add_mod_noop(x, i, c);
    vstd::arithmetic::div_mod::lemma_small_mod(i as nat, c as nat);
    vstd::arithmetic::div_mod::lemma_mod_bound(x, c);
    vstd::arithmetic::div_mod::lemma_mod_twice(x, c);
    assert((x % c + i) % c == (x + i) % c);
}

/// Appending one element at the write position extends the logical contents
/// by that element.
proof fn lemma_contents_push<T>(pre: RingBuffer<T>, post: RingBuffer<T>, v: T)
    requires
        pre.wf(),
        pre.spec_len() < pre.spec_capacity(),
        post.spec_capacity() == pre.spec_capacity(),
        post.spec_len() == pre.spec_len() + 1,
        post.spec_read_at() == pre.spec_read_at(),
        post.storage_seq() == pre.storage_seq().update(pre.spec_write_at(), v),
    ensures
        post.contents() == pre.contents().push(v),
{
    let c = pre.spec_capacity();
    let r = pre.spec_read_at();
    let l = pre.spec_len();
    lemma_wrap_index_bound(c, r + l);
    assert forall|i: int| 0 <= i < l implies post.storage_seq()[#[trigger] wrap_index(c, r + i)]
        == pre.storage_seq()[wrap_index(c, r + i)] by {
        lemma_wrap_index_bound(c, r + i);
        lemma_wrap_index_distinct(c, r, i, l);
    }
    assert(post.contents() =~= pre.contents().push(v));
}

/// Removing the head element and mutating its (now free) slot leaves the
/// remaining logical contents intact.
proof fn lemma_contents_dequeue<T>(pre: RingBuffer<T>, post: RingBuffer<T>, v: T)
    requires
        pre.wf(),
        pre.spec_len() > 0,
        post.spec_capacity() == pre.spec_capacity(),
        post.spec_len() == pre.spec_len() - 1,
        post.spec_read_at() == wrap_index(pre.spec_capacity(), pre.spec_read_at() + 1),
        post.storage_seq() == pre.storage_seq().update(pre.spec_read_at(), v),
    ensures
        post.contents() == pre.contents().skip(1),
{
    let c = pre.spec_capacity();
    let r = pre.spec_read_at();
    let l = pre.spec_len();
    assert forall|i: int| 0 <= i < l - 1 implies post.contents()[i] == pre.contents().skip(1)[i]
        by {
        assert(wrap_index(c, wrap_index(c, r + 1) + i) == wrap_index(c, r + (i + 1)))
            by (nonlinear_arith)
            requires
                0 < c,
                0 <= r < c,
                0 <= i,
        ;
        lemma_wrap_index_bound(c, r + (i + 1));
        assert(wrap_index(c, r + 0) == r) by (nonlinear_arith)
            requires
                0 < c,
                0 <= r < c,
        ;
        lemma_wrap_index_distinct(c, r, i + 1, 0);
        assert(wrap_index(c, r + (i + 1)) != r);
        assert(post.contents()[i] == post.storage_seq()[wrap_index(c, post.spec_read_at() + i)]);
        assert(pre.contents().skip(1)[i] == pre.storage_seq()[wrap_index(c, r + (i + 1))]);
    }
    assert(post.contents() =~= pre.contents().skip(1));
}

/// Mutating the slot that holds the head element rewrites the head of the
/// logical contents and nothing else.
proof fn lemma_contents_mutate_head<T>(pre: RingBuffer<T>, post: RingBuffer<T>, v: T)
    requires
        pre.wf(),
        pre.spec_len() > 0,
        post.spec_capacity() == pre.spec_capacity(),
        post.spec_len() == pre.spec_len(),
        post.spec_read_at() == pre.spec_read_at(),
        post.storage_seq() == pre.storage_seq().update(pre.spec_read_at(), v),
    ensures
        post.contents() == pre.contents().update(0, v),
{
    let c = pre.spec_capacity();
    let r = pre.spec_read_at();
    let l = pre.spec_len();
    assert(wrap_index(c, r + 0) == r) by (nonlinear_arith)
        requires
            0 < c,
            0 <= r < c,
    ;
    assert forall|i: int| 1 <= i < l implies post.storage_seq()[#[trigger] wrap_index(c, r + i)]
        == pre.storage_seq()[wrap_index(c, r + i)] by {
        lemma_wrap_index_bound(c, r + i);
        lemma_wrap_index_distinct(c, r, i, 0);
    }
    assert(post.contents() =~= pre.contents().update(0, v));
}

/// This is the "discrete" ring buffer interface: it operates with single
/// elements, and boundary conditions (empty/full) are errors.
impl<T> RingBuffer<T> {
    /// Call `f` with a single buffer element, and enqueue the element if `f`
    /// returns successfully, or return `Err(Full)` if the buffer is full.
    pub fn enqueue_one_with<'b, R, E, F>(&'b mut self, f: F) -> (r: Result<Result<R, E>, Full>)
        where F: FnOnce(&'b mut T) -> Result<R, E>
        requires
            old(self).wf(),
            forall|e: &mut T|
                *e == old(self).storage_seq()[old(self).spec_write_at()] ==> call_requires(
                    f,
                    (e,),
                ),
        ensures
            final(self).wf(),
            final(self).spec_capacity() == old(self).spec_capacity(),
            old(self).spec_len() == old(self).spec_capacity() ==> r is Err && *final(self)
                == *old(self),
            old(self).spec_len() < old(self).spec_capacity() ==> r is Ok
                && final(self).spec_read_at() == old(self).spec_read_at(),
            old(self).spec_len() < old(self).spec_capacity() ==> (r matches Ok(inner)
                ==> exists|e: &mut T|
                {
                    &&& *e == old(self).storage_seq()[old(self).spec_write_at()]
                    &&& #[trigger] call_ensures(f, (e,), inner)
                    &&& final(self).storage_seq() == old(self).storage_seq().update(
                        old(self).spec_write_at(),
                        *final(e),
                    )
                    &&& final(self).spec_len() == old(self).spec_len() + (
                    if inner is Ok {
                        1int
                    } else {
                        0int
                    })
                    &&& (inner is Ok ==> final(self).contents()
                        == old(self).contents().push(*final(e)))
                    &&& (inner is Err ==> final(self).contents() == old(self).contents())
                }),
    {
        if self.is_full() {
            return Err(Full);
        }
        let ghost pre = *self;
        let cap = self.storage.len();
        proof {
            let c = pre.spec_capacity();
            let wa = pre.spec_write_at();
            lemma_wrap_index_bound(c, pre.spec_read_at() + pre.spec_len());
            assert forall|post: Self, v: T|
                #![trigger post.contents(), pre.storage_seq().update(pre.spec_write_at(), v)]
                #![trigger post.contents(), pre.contents().push(v)]
                (post.spec_capacity() == pre.spec_capacity() && post.spec_read_at()
                    == pre.spec_read_at() && post.storage_seq() == pre.storage_seq().update(
                    wa,
                    v,
                )) implies ((post.spec_len() == pre.spec_len() + 1 ==> post.contents()
                == pre.contents().push(v)) && (post.spec_len() == pre.spec_len()
                ==> post.contents() == pre.contents())) by {
                if post.spec_len() == pre.spec_len() + 1 {
                    lemma_contents_push(pre, post, v);
                }
                if post.spec_len() == pre.spec_len() {
                    assert forall|i: int| 0 <= i < pre.spec_len() implies post.storage_seq()[
                        #[trigger] wrap_index(c, pre.spec_read_at() + i)] == pre.storage_seq()[
                        wrap_index(c, pre.spec_read_at() + i)] by {
                        lemma_wrap_index_bound(c, pre.spec_read_at() + i);
                        lemma_wrap_index_distinct(c, pre.spec_read_at(), i, pre.spec_len());
                    }
                    assert(post.contents() =~= pre.contents());
                }
            }
        }
        let index = self.get_idx(self.length);
        let elem = &mut self.storage[index];
        let res = f(elem);
        if res.is_ok() {
            self.length += 1;
        }
        Ok(res)
    }

    /// Enqueue a single element into the buffer, and return a reference to it,
    /// or return `Err(Full)` if the buffer is full.
    ///
    /// This function is a shortcut for `ring_buf.enqueue_one_with(Ok)`.
    pub fn enqueue_one(&mut self) -> (r: Result<&mut T, Full>)
        requires
            old(self).wf(),
        ensures
            final(self).wf(),
            final(self).spec_capacity() == old(self).spec_capacity(),
            old(self).spec_len() == old(self).spec_capacity() ==> r is Err && *final(self)
                == *old(self),
            old(self).spec_len() < old(self).spec_capacity() ==> {
                &&& r is Ok
                &&& *(r->Ok_0) == old(self).storage_seq()[old(self).spec_write_at()]
                &&& final(self).spec_len() == old(self).spec_len() + 1
                &&& final(self).spec_read_at() == old(self).spec_read_at()
                &&& final(self).storage_seq() == old(self).storage_seq().update(
                    old(self).spec_write_at(),
                    *final(r->Ok_0),
                )
                &&& final(self).contents() == old(self).contents().push(*final(r->Ok_0))
            },
    {
        if self.is_full() {
            return Err(Full);
        }
        let ghost pre = *self;
        let cap = self.storage.len();
        let index = self.get_idx(self.length);
        self.length = self.length + 1;
        proof {
            lemma_wrap_index_bound(pre.spec_capacity(), pre.spec_read_at() + pre.spec_len());
            assert forall|post: Self, v: T|
                #![trigger post.contents(), pre.storage_seq().update(pre.spec_write_at(), v)]
                #![trigger post.contents(), pre.contents().push(v)]
                (post.spec_capacity() == pre.spec_capacity() && post.spec_len() == pre.spec_len()
                    + 1 && post.spec_read_at() == pre.spec_read_at() && post.storage_seq()
                    == pre.storage_seq().update(pre.spec_write_at(), v)) implies post.contents()
                == pre.contents().push(v) by {
                lemma_contents_push(pre, post, v);
            }
        }
        let elem = &mut self.storage[index];
        Ok(elem)
    }

    /// Call `f` with a single buffer element, and dequeue the element if `f`
    /// returns successfully, or return `Err(Empty)` if the buffer is empty.
    pub fn dequeue_one_with<'b, R, E, F>(&'b mut self, f: F) -> (r: Result<Result<R, E>, Empty>)
        where F: FnOnce(&'b mut T) -> Result<R, E>
        requires
            old(self).wf(),
            forall|e: &mut T| *e == old(self).contents()[0] ==> call_requires(f, (e,)),
        ensures
            final(self).wf(),
            final(self).spec_capacity() == old(self).spec_capacity(),
            old(self).spec_len() == 0 ==> r is Err && *final(self) == *old(self),
            old(self).spec_len() > 0 ==> r is Ok,
            old(self).spec_len() > 0 ==> (r matches Ok(inner) ==> exists|e: &mut T|
                {
                    &&& *e == old(self).contents()[0]
                    &&& #[trigger] call_ensures(f, (e,), inner)
                    &&& final(self).storage_seq() == old(self).storage_seq().update(
                        old(self).spec_read_at(),
                        *final(e),
                    )
                    &&& (inner is Ok ==> final(self).spec_len() == old(self).spec_len() - 1
                        && final(self).spec_read_at() == wrap_index(
                        old(self).spec_capacity(),
                        old(self).spec_read_at() + 1,
                    ) && final(self).contents() == old(self).contents().skip(1))
                    &&& (inner is Err ==> final(self).spec_len() == old(self).spec_len()
                        && final(self).spec_read_at() == old(self).spec_read_at()
                        && final(self).contents() == old(self).contents().update(0, *final(e)))
                }),
    {
        if self.is_empty() {
            return Err(Empty);
        }
        let ghost pre = *self;
        proof {
            let c = pre.spec_capacity();
            let r0 = pre.spec_read_at();
            assert(wrap_index(c, r0 + 0) == r0) by (nonlinear_arith)
                requires
                    0 < c,
                    0 <= r0 < c,
            ;
            assert forall|post: Self, v: T|
                #![trigger post.contents(), pre.storage_seq().update(pre.spec_read_at(), v)]
                #![trigger post.contents(), pre.contents().update(0, v)]
                (post.spec_capacity() == pre.spec_capacity() && post.storage_seq()
                    == pre.storage_seq().update(pre.spec_read_at(), v)) implies ((
                post.spec_len() == pre.spec_len() - 1 && post.spec_read_at() == wrap_index(
                    c,
                    r0 + 1,
                ) ==> post.contents() == pre.contents().skip(1)) && (post.spec_len()
                == pre.spec_len() && post.spec_read_at() == pre.spec_read_at() ==> post.contents()
                == pre.contents().update(0, v))) by {
                if post.spec_len() == pre.spec_len() - 1 && post.spec_read_at() == wrap_index(
                    c,
                    r0 + 1,
                ) {
                    lemma_contents_dequeue(pre, post, v);
                }
                if post.spec_len() == pre.spec_len() && post.spec_read_at()
                    == pre.spec_read_at() {
                    lemma_contents_mutate_head(pre, post, v);
                }
            }
        }
        let next_at = self.get_idx(1);
        let at = self.read_at;
        let elem = &mut self.storage[at];
        let res = f(elem);
        if res.is_ok() {
            self.length -= 1;
            self.read_at = next_at;
        }
        Ok(res)
    }

    /// Dequeue an element from the buffer, and return a reference to it,
    /// or return `Err(Empty)` if the buffer is empty.
    ///
    /// This function is a shortcut for `ring_buf.dequeue_one_with(Ok)`.
    pub fn dequeue_one(&mut self) -> (r: Result<&mut T, Empty>)
        requires
            old(self).wf(),
        ensures
            final(self).wf(),
            final(self).spec_capacity() == old(self).spec_capacity(),
            old(self).spec_len() == 0 ==> r is Err && *final(self) == *old(self),
            old(self).spec_len() > 0 ==> {
                &&& r is Ok
                &&& *(r->Ok_0) == old(self).contents()[0]
                &&& final(self).spec_len() == old(self).spec_len() - 1
                &&& final(self).spec_read_at() == wrap_index(
                    old(self).spec_capacity(),
                    old(self).spec_read_at() + 1,
                )
                &&& final(self).storage_seq() == old(self).storage_seq().update(
                    old(self).spec_read_at(),
                    *final(r->Ok_0),
                )
                &&& final(self).contents() == old(self).contents().skip(1)
            },
    {
        if self.is_empty() {
            return Err(Empty);
        }
        let ghost pre = *self;
        let next_at = self.get_idx(1);
        let at = self.read_at;
        self.length -= 1;
        self.read_at = next_at;
        proof {
            let c = pre.spec_capacity();
            let r0 = pre.spec_read_at();
            assert(wrap_index(c, r0 + 0) == r0) by (nonlinear_arith)
                requires
                    0 < c,
                    0 <= r0 < c,
            ;
            assert forall|post: Self, v: T|
                #![trigger post.contents(), pre.storage_seq().update(pre.spec_read_at(), v)]
                (post.spec_capacity() == pre.spec_capacity() && post.spec_len() == pre.spec_len()
                    - 1 && post.spec_read_at() == wrap_index(c, r0 + 1) && post.storage_seq()
                    == pre.storage_seq().update(pre.spec_read_at(), v)) implies post.contents()
                == pre.contents().skip(1) by {
                lemma_contents_dequeue(pre, post, v);
            }
        }
        let elem = &mut self.storage[at];
        Ok(elem)
    }
}


/// Return the subslice [i, j) of the vector's storage for in-place access.
pub(crate) fn subslice_mut<T>(v: &mut Vec<T>, i: usize, j: usize) -> (out: &mut [T])
    requires
        i <= j <= old(v)@.len(),
    ensures
        (*out)@ == old(v)@.subrange(i as int, j as int),
        final(v)@ == old(v)@.subrange(0, i as int) + (*final(out))@ + old(v)@.subrange(
            j as int,
            old(v)@.len() as int,
        ),
{
    let s = v.as_mut_slice();
    let (_head, rest) = s.split_at_mut(i);
    let (mid, _tail) = rest.split_at_mut(j - i);
    mid
}

/// Writing a block over the contiguous free region exposed by a bulk enqueue
/// and committing `n` of its elements appends those `n` elements to the
/// logical contents.
proof fn lemma_contents_bulk_enqueue<T>(
    pre: RingBuffer<T>,
    post: RingBuffer<T>,
    block: Seq<T>,
    n: int,
)
    requires
        pre.wf(),
        block.len() == pre.spec_enqueue_window(),
        0 <= n <= pre.spec_enqueue_window(),
        post.spec_capacity() == pre.spec_capacity(),
        post.spec_len() == pre.spec_len() + n,
        post.spec_read_at() == pre.spec_rebased_read_at(),
        post.storage_seq() == pre.storage_seq().subrange(0, pre.spec_enqueue_at()) + block
            + pre.storage_seq().subrange(
            pre.spec_enqueue_at() + pre.spec_enqueue_window(),
            pre.spec_capacity(),
        ),
    ensures
        post.contents() == pre.contents() + block.take(n),
{
    let c = pre.spec_capacity();
    let r0 = pre.spec_rebased_read_at();
    let l = pre.spec_len();
    let ea = pre.spec_enqueue_at();
    let w = pre.spec_enqueue_window();
    if c == 0 {
        assert(post.contents() =~= pre.contents() + block.take(n));
    } else {
        lemma_wrap_index_bound(c, r0 + l);
        assert(pre.contents() =~= Seq::new(
            l as nat,
            |i: int| pre.storage_seq()[wrap_index(c, r0 + i)],
        ));
        assert forall|i: int| 0 <= i < l + n implies post.contents()[i] == (pre.contents()
            + block.take(n))[i] by {
            if i < l {
                lemma_wrap_index_bound(c, r0 + i);
                let s_i = wrap_index(c, r0 + i);
                if ea <= s_i < ea + w {
                    let k = s_i - ea;
                    assert((r0 + (l + k)) % c == (r0 + l) % c + k) by (nonlinear_arith)
                        requires
                            0 < c,
                            0 <= r0 < c,
                            0 <= k,
                            (r0 + l) % c + k < c,
                            0 <= l,
                    ;
                    lemma_wrap_index_distinct(c, r0, i, l + k);
                    assert(false);
                }
            } else {
                assert((r0 + i) % c == (r0 + l) % c + (i - l)) by (nonlinear_arith)
                    requires
                        0 < c,
                        0 <= r0 < c,
                        l <= i,
                        i - l < w,
                        (r0 + l) % c + w <= c,
                ;
            }
        }
        assert(post.contents() =~= pre.contents() + block.take(n));
    }
}

/// After a bulk dequeue that exposed the contiguous allocated region as a
/// (possibly mutated) block and committed `n` elements, the remaining logical
/// contents are the uncommitted tail of that block followed by the elements
/// the region did not reach.
proof fn lemma_contents_bulk_dequeue<T>(
    pre: RingBuffer<T>,
    post: RingBuffer<T>,
    block: Seq<T>,
    n: int,
)
    requires
        pre.wf(),
        block.len() == pre.spec_dequeue_window(),
        0 <= n <= pre.spec_dequeue_window(),
        post.spec_capacity() == pre.spec_capacity(),
        post.spec_len() == pre.spec_len() - n,
        post.spec_read_at() == wrap_index(pre.spec_capacity(), pre.spec_read_at() + n),
        post.storage_seq() == pre.storage_seq().subrange(0, pre.spec_read_at()) + block
            + pre.storage_seq().subrange(
            pre.spec_read_at() + pre.spec_dequeue_window(),
            pre.spec_capacity(),
        ),
    ensures
        post.contents() == block.skip(n) + pre.contents().skip(pre.spec_dequeue_window()),
{
    let c = pre.spec_capacity();
    let r = pre.spec_read_at();
    let l = pre.spec_len();
    let dw = pre.spec_dequeue_window();
    if c == 0 {
        assert(post.contents() =~= block.skip(n) + pre.contents().skip(dw));
    } else {
        assert forall|i: int| 0 <= i < l - n implies post.contents()[i] == (block.skip(n)
            + pre.contents().skip(dw))[i] by {
            lemma_wrap_index_bound(c, r + n);
            if i < dw - n {
                lemma_wrap_index_add(c, r + n, i);
                vstd::arithmetic::div_mod::lemma_small_mod((r + n + i) as nat, c as nat);
            } else {
                lemma_wrap_index_add(c, r + n, i);
                lemma_wrap_index_bound(c, r + (n + i));
                assert(r + dw <= c);
                assert((r + (n + i)) % c < r || (r + (n + i)) % c >= r + dw)
                    by (nonlinear_arith)
                    requires
                        0 < c,
                        0 <= r < c,
                        dw <= n + i < l,
                        l <= c,
                        dw == vstd::math::min(l, c - r),
                ;
            }
        }
        assert(post.contents() =~= block.skip(n) + pre.contents().skip(dw));
    }
}

/// This is the "continuous" ring buffer interface: it operates with element
/// slices, and boundary conditions (empty/full) simply result in empty slices.
impl<T> RingBuffer<T> {
    /// The size of the contiguous slice of allocated elements that a bulk
    /// dequeue exposes.
    pub open spec fn spec_dequeue_window(self) -> int {
        vstd::math::min(self.spec_len(), self.spec_capacity() - self.spec_read_at())
    }

    /// The contiguous free region a bulk enqueue exposes, as a sequence.
    pub open spec fn spec_enqueue_region(self) -> Seq<T> {
        self.storage_seq().subrange(
            self.spec_enqueue_at(),
            self.spec_enqueue_at() + self.spec_enqueue_window(),
        )
    }

    /// The contiguous allocated region a bulk dequeue exposes, as a sequence.
    pub open spec fn spec_dequeue_region(self) -> Seq<T> {
        self.storage_seq().subrange(
            self.spec_read_at(),
            self.spec_read_at() + self.spec_dequeue_window(),
        )
    }

    /// Call `f` with the largest contiguous slice of unallocated buffer
    /// elements, and enqueue the amount of elements returned by `f`.
    ///
    /// `f` must commit no more elements than the slice it was handed holds;
    /// committing more is a programmer error, which the contract excludes.
    pub fn enqueue_many_with<'b, R, F>(&'b mut self, f: F) -> (r: (usize, R))
        where F: FnOnce(&'b mut [T]) -> (usize, R)
        requires
            old(self).wf(),
            forall|s: &mut [T]|
                (*s)@ == old(self).spec_enqueue_region() ==> call_requires(f, (s,)),
            forall|s: &mut [T], out: (usize, R)|
                ((*s)@ == old(self).spec_enqueue_region() && call_ensures(f, (s,), out))
                    ==> out.0 <= old(self).spec_enqueue_window() && (*final(s))@.len()
                    == (*s)@.len(),
        ensures
            final(self).wf(),
            final(self).spec_capacity() == old(self).spec_capacity(),
            r.0 <= old(self).spec_enqueue_window(),
            final(self).spec_len() == old(self).spec_len() + r.0,
            final(self).spec_read_at() == old(self).spec_rebased_read_at(),
            exists|s: &mut [T]|
                {
                    &&& (*s)@ == old(self).spec_enqueue_region()
                    &&& #[trigger] call_ensures(f, (s,), r)
                    &&& final(self).storage_seq() == old(self).storage_seq().subrange(
                        0,
                        old(self).spec_enqueue_at(),
                    ) + (*final(s))@ + old(self).storage_seq().subrange(
                        old(self).spec_enqueue_at() + old(self).spec_enqueue_window(),
                        old(self).spec_capacity(),
                    )
                    &&& final(self).contents() == old(self).contents() + (*final(s))@.take(
                        r.0 as int,
                    )
                },
    {
        if self.length == 0 {
            // Ring is currently empty. Reset `read_at` to optimize
            // for contiguous space.
            self.read_at = 0;
        }
        let ghost pre = *old(self);
        let ghost reb = *self;
        let cap = self.capacity();
        let write_at = self.get_idx(self.length);
        let max_size = self.contiguous_window();
        proof {
            assert(write_at + max_size <= cap);
            assert(reb.spec_write_at() == pre.spec_enqueue_at());
            assert(reb.spec_contiguous_window() == pre.spec_enqueue_window());
            assert forall|post: Self, bs: Seq<T>, n: int|
                #![trigger post.contents(), bs.take(n)]
                (post.spec_capacity() == pre.spec_capacity() && bs.len()
                    == pre.spec_enqueue_window() && 0 <= n <= pre.spec_enqueue_window()
                    && post.spec_len() == pre.spec_len() + n && post.spec_read_at()
                    == pre.spec_rebased_read_at() && post.storage_seq()
                    == pre.storage_seq().subrange(0, pre.spec_enqueue_at()) + bs
                    + pre.storage_seq().subrange(
                    pre.spec_enqueue_at() + pre.spec_enqueue_window(),
                    pre.spec_capacity(),
                )) implies post.contents() == pre.contents() + bs.take(n) by {
                lemma_contents_bulk_enqueue(pre, post, bs, n);
            }
        }
        let sl = subslice_mut(&mut self.storage, write_at, write_at + max_size);
        let (size, result) = f(sl);
        proof {
            assert(size <= pre.spec_enqueue_window());
        }
        self.length += size;
        (size, result)
    }

    /// Enqueue a slice of elements up to the given size into the buffer,
    /// and return a reference to them.
    ///
    /// This function may return a slice smaller than the given size
    /// if the free space in the buffer is not contiguous.
    #[must_use]
    pub fn enqueue_many(&mut self, size: usize) -> (r: &mut [T])
        requires
            old(self).wf(),
        ensures
            (*r)@ == old(self).spec_enqueue_region().take(
                vstd::math::min(size as int, old(self).spec_enqueue_window()),
            ),
            (*r)@.len() == vstd::math::min(size as int, old(self).spec_enqueue_window()),
            final(self).spec_capacity() == old(self).spec_capacity() + (*final(r))@.len() - (*r)@.len(),
            final(self).spec_len() == old(self).spec_len() + (*r)@.len(),
            final(self).spec_read_at() == old(self).spec_rebased_read_at(),
            final(self).storage_seq() == old(self).storage_seq().subrange(
                0,
                old(self).spec_enqueue_at(),
            ) + (*final(r))@ + old(self).storage_seq().subrange(
                old(self).spec_enqueue_at() + (*r)@.len(),
                old(self).spec_capacity(),
            ),
            (*final(r))@.len() == (*r)@.len() ==> final(self).wf() && final(self).contents()
                == old(self).contents() + (*final(r))@,
    {
        if self.length == 0 {
            self.read_at = 0;
        }
        let ghost pre = *old(self);
        let cap = self.capacity();
        let write_at = self.get_idx(self.length);
        let max_size = self.contiguous_window();
        let n = if size < max_size {
            size
        } else {
            max_size
        };
        proof {
            assert(write_at + n <= cap);
        }
        self.length += n;
        proof {
            assert forall|post: Self, bs: Seq<T>|
                #![trigger post.contents(), pre.contents() + bs]
                (post.spec_capacity() == pre.spec_capacity() && bs.len() == vstd::math::min(
                    size as int,
                    pre.spec_enqueue_window(),
                ) && post.spec_len() == pre.spec_len() + bs.len() && post.spec_read_at()
                    == pre.spec_rebased_read_at() && post.storage_seq()
                    == pre.storage_seq().subrange(0, pre.spec_enqueue_at()) + bs
                    + pre.storage_seq().subrange(
                    pre.spec_enqueue_at() + bs.len(),
                    pre.spec_capacity(),
                )) implies post.contents() == pre.contents() + bs by {
                let w = pre.spec_enqueue_window();
                let nn = bs.len() as int;
                let full = bs + pre.storage_seq().subrange(
                    pre.spec_enqueue_at() + nn,
                    pre.spec_enqueue_at() + w,
                );
                assert(post.storage_seq() =~= pre.storage_seq().subrange(
                    0,
                    pre.spec_enqueue_at(),
                ) + full + pre.storage_seq().subrange(
                    pre.spec_enqueue_at() + w,
                    pre.spec_capacity(),
                ));
                lemma_contents_bulk_enqueue(pre, post, full, nn);
                assert(full.take(nn) =~= bs);
            }
        }
        let sl = subslice_mut(&mut self.storage, write_at, write_at + n);
        sl
    }

    /// Call `f` with the largest contiguous slice of allocated buffer
    /// elements, and dequeue the amount of elements returned by `f`.
    ///
    /// `f` must commit no more elements than the slice it was handed holds;
    /// committing more is a programmer error, which the contract excludes.
    pub fn dequeue_many_with<'b, R, F>(&'b mut self, f: F) -> (r: (usize, R))
        where F: FnOnce(&'b mut [T]) -> (usize, R)
        requires
            old(self).wf(),
            forall|s: &mut [T]|
                (*s)@ == old(self).spec_dequeue_region() ==> call_requires(f, (s,)),
            forall|s: &mut [T], out: (usize, R)|
                ((*s)@ == old(self).spec_dequeue_region() && call_ensures(f, (s,), out))
                    ==> out.0 <= old(self).spec_dequeue_window() && (*final(s))@.len()
                    == (*s)@.len(),
        ensures
            final(self).wf(),
            final(self).spec_capacity() == old(self).spec_capacity(),
            r.0 <= old(self).spec_dequeue_window(),
            final(self).spec_len() == old(self).spec_len() - r.0,
            final(self).spec_read_at() == wrap_index(
                old(self).spec_capacity(),
                old(self).spec_read_at() + r.0,
            ),
            exists|s: &mut [T]|
                {
                    &&& (*s)@ == old(self).spec_dequeue_region()
                    &&& #[trigger] call_ensures(f, (s,), r)
                    &&& final(self).storage_seq() == old(self).storage_seq().subrange(
                        0,
                        old(self).spec_read_at(),
                    ) + (*final(s))@ + old(self).storage_seq().subrange(
                        old(self).spec_read_at() + old(self).spec_dequeue_window(),
                        old(self).spec_capacity(),
                    )
                    &&& final(self).contents() == (*final(s))@.skip(r.0 as int)
                        + old(self).contents().skip(old(self).spec_dequeue_window())
                },
    {
        let ghost pre = *self;
        let capacity = self.capacity();
        let read_at = self.read_at;
        let len = self.length;
        let until_end = capacity - read_at;
        let max_size = if len < until_end {
            len
        } else {
            until_end
        };
        proof {
            assert forall|post: Self, bs: Seq<T>, n: int|
                #![trigger post.contents(), bs.skip(n)]
                (post.spec_capacity() == pre.spec_capacity() && bs.len()
                    == pre.spec_dequeue_window() && 0 <= n <= pre.spec_dequeue_window()
                    && post.spec_len() == pre.spec_len() - n && post.spec_read_at() == wrap_index(
                    pre.spec_capacity(),
                    pre.spec_read_at() + n,
                ) && post.storage_seq() == pre.storage_seq().subrange(0, pre.spec_read_at()) + bs
                    + pre.storage_seq().subrange(
                    pre.spec_read_at() + pre.spec_dequeue_window(),
                    pre.spec_capacity(),
                )) implies post.contents() == bs.skip(n) + pre.contents().skip(
                pre.spec_dequeue_window(),
            ) by {
                lemma_contents_bulk_dequeue(pre, post, bs, n);
            }
        }
        let sl = subslice_mut(&mut self.storage, read_at, read_at + max_size);
        let (size, result) = f(sl);
        proof {
            assert(size <= pre.spec_dequeue_window());
        }
        self.read_at = if capacity > 0 {
            (read_at + size) % capacity
        } else {
            0
        };
        self.length -= size;
        proof {
            if capacity > 0 {
                assert(wrap_index(pre.spec_capacity(), pre.spec_read_at() + size as int) == (
                read_at + size) as int % capacity as int);
            }
        }
        (size, result)
    }

    /// Dequeue a slice of elements up to the given size from the buffer,
    /// and return a reference to them.
    ///
    /// This function may return a slice smaller than the given size
    /// if the allocated space in the buffer is not contiguous.
    #[must_use]
    pub fn dequeue_many(&mut self, size: usize) -> (r: &mut [T])
        requires
            old(self).wf(),
        ensures
            (*r)@ == old(self).contents().take(
                vstd::math::min(size as int, old(self).spec_dequeue_window()),
            ),
            (*r)@.len() == vstd::math::min(size as int, old(self).spec_dequeue_window()),
            final(self).spec_capacity() == old(self).spec_capacity() + (*final(r))@.len() - (*r)@.len(),
            final(self).spec_len() == old(self).spec_len() - (*r)@.len(),
            final(self).spec_read_at() == wrap_index(
                old(self).spec_capacity(),
                old(self).spec_read_at() + (*r)@.len(),
            ),
            final(self).storage_seq() == old(self).storage_seq().subrange(
                0,
                old(self).spec_read_at(),
            ) + (*final(r))@ + old(self).storage_seq().subrange(
                old(self).spec_read_at() + (*r)@.len(),
                old(self).spec_capacity(),
            ),
            (*final(r))@.len() == (*r)@.len() ==> final(self).wf() && final(self).contents()
                == old(self).contents().skip((*r)@.len() as int),
    {
        let ghost pre = *self;
        let capacity = self.capacity();
        let read_at = self.read_at;
        let len = self.length;
        let until_end = capacity - read_at;
        let max_size = if len < until_end {
            len
        } else {
            until_end
        };
        let n = if size < max_size {
            size
        } else {
            max_size
        };
        self.read_at = if capacity > 0 {
            (read_at + n) % capacity
        } else {
            0
        };
        self.length -= n;
        proof {
            if capacity > 0 {
                assert(wrap_index(pre.spec_capacity(), pre.spec_read_at() + n as int) == (read_at
                    + n) as int % capacity as int);
            }
            assert(pre.storage_seq().subrange(read_at as int, read_at as int + n as int)
                =~= pre.contents().take(n as int)) by {
                assert forall|i: int| 0 <= i < n implies pre.storage_seq()[read_at + i]
                    == pre.contents()[i] by {
                    assert(wrap_index(pre.spec_capacity(), pre.spec_read_at() + i) == read_at + i)
                        by (nonlinear_arith)
                        requires
                            0 < pre.spec_capacity(),
                            0 <= pre.spec_read_at() < pre.spec_capacity(),
                            0 <= i,
                            pre.spec_read_at() + i < pre.spec_capacity(),
                            read_at == pre.spec_read_at(),
                    ;
                }
            }
            assert forall|post: Self, bs: Seq<T>|
                #![trigger post.contents(), pre.storage_seq().subrange(0, pre.spec_read_at()) + bs]
                (post.spec_capacity() == pre.spec_capacity() && bs.len() == n && post.spec_len()
                    == pre.spec_len() - n && post.spec_read_at() == wrap_index(
                    pre.spec_capacity(),
                    pre.spec_read_at() + n,
                ) && post.storage_seq() == pre.storage_seq().subrange(0, pre.spec_read_at()) + bs
                    + pre.storage_seq().subrange(
                    pre.spec_read_at() + n,
                    pre.spec_capacity(),
                )) implies post.contents() == pre.contents().skip(n as int) by {
                let dw = pre.spec_dequeue_window();
                let full = bs + pre.storage_seq().subrange(
                    pre.spec_read_at() + n,
                    pre.spec_read_at() + dw,
                );
                assert(post.storage_seq() =~= pre.storage_seq().subrange(0, pre.spec_read_at())
                    + full + pre.storage_seq().subrange(
                    pre.spec_read_at() + dw,
                    pre.spec_capacity(),
                ));
                lemma_contents_bulk_dequeue(pre, post, full, n as int);
                assert(full.skip(n as int) =~= pre.storage_seq().subrange(
                    pre.spec_read_at() + n,
                    pre.spec_read_at() + dw,
                ));
                assert(post.contents() =~= pre.contents().skip(n as int)) by {
                    assert forall|i: int| 0 <= i < pre.spec_len() - n implies (full.skip(n as int)
                        + pre.contents().skip(dw))[i] == pre.contents().skip(n as int)[i] by {
                        if i < dw - n {
                            assert(pre.contents()[n + i] == pre.storage_seq()[wrap_index(
                                pre.spec_capacity(),
                                pre.spec_read_at() + (n + i),
                            )]);
                            assert(wrap_index(pre.spec_capacity(), pre.spec_read_at() + (n + i))
                                == pre.spec_read_at() + n + i) by (nonlinear_arith)
                                requires
                                    0 < pre.spec_capacity(),
                                    0 <= pre.spec_read_at(),
                                    0 <= i,
                                    0 <= n,
                                    pre.spec_read_at() + n + i < pre.spec_capacity(),
                            ;
                        }
                    }
                }
            }
        }
        let sl = subslice_mut(&mut self.storage, read_at, read_at + n);
        sl
    }
}


/// Advancing the read position by `n` without touching storage drops the
/// first `n` elements of the logical contents.
proof fn lemma_contents_advance<T>(pre: RingBuffer<T>, post: RingBuffer<T>, n: int)
    requires
        pre.wf(),
        0 <= n <= pre.spec_len(),
        post.spec_capacity() == pre.spec_capacity(),
        post.storage_seq() == pre.storage_seq(),
        post.spec_len() == pre.spec_len() - n,
        post.spec_read_at() == wrap_index(pre.spec_capacity(), pre.spec_read_at() + n),
    ensures
        post.contents() == pre.contents().skip(n),
{
    let c = pre.spec_capacity();
    let r = pre.spec_read_at();
    let l = pre.spec_len();
    if c == 0 {
        assert(post.contents() =~= pre.contents().skip(n));
    } else {
        assert forall|i: int| 0 <= i < l - n implies post.contents()[i] == pre.contents().skip(n)[i]
            by {
            lemma_wrap_index_add(c, r + n, i);
            lemma_wrap_index_bound(c, r + (n + i));
        }
        assert(post.contents() =~= pre.contents().skip(n));
    }
}


/// Splicing a block over a contiguous run of unallocated slots leaves the
/// logical contents alone and rewrites exactly that run of the unallocated
/// view.
proof fn lemma_unallocated_splice<T>(
    pre: RingBuffer<T>,
    post: RingBuffer<T>,
    block: Seq<T>,
    offset: int,
)
    requires
        pre.wf(),
        0 <= offset,
        offset + block.len() <= pre.spec_window(),
        wrap_index(pre.spec_capacity(), pre.spec_read_at() + pre.spec_len() + offset)
            + block.len() <= pre.spec_capacity(),
        post.spec_capacity() == pre.spec_capacity(),
        post.spec_len() == pre.spec_len(),
        post.spec_read_at() == pre.spec_read_at(),
        post.storage_seq() == pre.storage_seq().subrange(
            0,
            wrap_index(pre.spec_capacity(), pre.spec_read_at() + pre.spec_len() + offset),
        ) + block + pre.storage_seq().subrange(
            wrap_index(pre.spec_capacity(), pre.spec_read_at() + pre.spec_len() + offset)
                + block.len(),
            pre.spec_capacity(),
        ),
    ensures
        post.contents() == pre.contents(),
        post.spec_unallocated() == pre.spec_unallocated().take(offset) + block
            + pre.spec_unallocated().skip(offset + block.len()),
{
    let c = pre.spec_capacity();
    let r = pre.spec_read_at();
    let l = pre.spec_len();
    let sz = block.len() as int;
    let start = wrap_index(c, r + l + offset);
    if c == 0 {
        assert(post.contents() =~= pre.contents());
        assert(post.spec_unallocated() =~= pre.spec_unallocated().take(offset) + block
            + pre.spec_unallocated().skip(offset + sz));
    } else {
        assert forall|i: int| 0 <= i < l implies post.contents()[i] == pre.contents()[i] by {
            lemma_wrap_index_bound(c, r + i);
            let s_i = wrap_index(c, r + i);
            if start <= s_i < start + sz {
                let k = s_i - start;
                lemma_wrap_index_add(c, r + l + offset, k);
                assert(wrap_index(c, start + k) == start + k) by (nonlinear_arith)
                    requires
                        0 < c,
                        0 <= start + k < c,
                ;
                lemma_wrap_index_distinct(c, r, i, l + offset + k);
                assert(false);
            }
        }
        assert(post.contents() =~= pre.contents());
        assert forall|k: int| 0 <= k < c - l implies post.spec_unallocated()[k] == (
        pre.spec_unallocated().take(offset) + block + pre.spec_unallocated().skip(
            offset + sz,
        ))[k] by {
            lemma_wrap_index_bound(c, r + l + k);
            if offset <= k < offset + sz {
                lemma_wrap_index_add(c, r + l + offset, k - offset);
                assert(wrap_index(c, start + (k - offset)) == start + (k - offset))
                    by (nonlinear_arith)
                    requires
                        0 < c,
                        0 <= start + (k - offset) < c,
                ;
            } else {
                let s_k = wrap_index(c, r + l + k);
                if start <= s_k < start + sz {
                    let j = s_k - start;
                    lemma_wrap_index_add(c, r + l + offset, j);
                    assert(wrap_index(c, start + j) == start + j) by (nonlinear_arith)
                        requires
                            0 < c,
                            0 <= start + j < c,
                    ;
                    lemma_wrap_index_distinct(c, r, l + k, l + offset + j);
                    assert(false);
                }
            }
        }
        assert(post.spec_unallocated() =~= pre.spec_unallocated().take(offset) + block
            + pre.spec_unallocated().skip(offset + sz));
    }
}

/// This is the "random access" ring buffer interface: it operates with element
/// slices, and allows to access elements of the buffer that are not adjacent to
/// its head or tail.
impl<T> RingBuffer<T> {
    /// The unallocated (free) slots in ring order, starting just past the
    /// last allocated element.
    pub open spec fn spec_unallocated(self) -> Seq<T> {
        Seq::new(
            self.spec_window() as nat,
            |k: int|
                self.storage_seq()[wrap_index(
                    self.spec_capacity(),
                    self.spec_read_at() + self.spec_len() + k,
                )],
        )
    }

    /// The unallocated slots as a bulk enqueue sees them: the same view,
    /// taken after the empty-buffer rebase. On a non-empty buffer the two
    /// coincide.
    pub open spec fn spec_rebased_unallocated(self) -> Seq<T> {
        Seq::new(
            self.spec_window() as nat,
            |k: int|
                self.storage_seq()[wrap_index(
                    self.spec_capacity(),
                    self.spec_rebased_read_at() + self.spec_len() + k,
                )],
        )
    }

    /// The physical index where the unallocated region at the given offset
    /// starts.
    pub open spec fn spec_unalloc_start(self, offset: int) -> int {
        wrap_index(self.spec_capacity(), self.spec_read_at() + self.spec_len() + offset)
    }

    /// How many elements a request for the unallocated region at the given
    /// offset and size yields after clamping.
    pub open spec fn spec_unalloc_size(self, offset: int, size: int) -> int {
        vstd::math::min(
            vstd::math::min(size, self.spec_window() - offset),
            self.spec_capacity() - self.spec_unalloc_start(offset),
        )
    }

    /// Return the largest contiguous slice of unallocated buffer elements
    /// starting at the given offset past the last allocated element, and up
    /// to the given size.
    #[must_use]
    #[verifier::rlimit(100)]
    pub fn get_unallocated(&mut self, offset: usize, size: usize) -> (r: &mut [T])
        requires
            old(self).wf(),
        ensures
            offset > old(self).spec_window() ==> (*r)@.len() == 0 && *final(self) == *old(self),
            offset <= old(self).spec_window() ==> (*r)@ == old(self).spec_unallocated().subrange(
                offset as int,
                offset + old(self).spec_unalloc_size(offset as int, size as int),
            ),
            offset <= old(self).spec_window() ==> (*r)@.len() == old(self).spec_unalloc_size(
                offset as int,
                size as int,
            ),
            offset <= old(self).spec_window() ==> final(self).spec_len() == old(self).spec_len()
                && final(self).spec_read_at() == old(self).spec_read_at(),
            offset <= old(self).spec_window() ==> final(self).storage_seq()
                == old(self).storage_seq().subrange(0, old(self).spec_unalloc_start(offset as int))
                + (*final(r))@ + old(self).storage_seq().subrange(
                old(self).spec_unalloc_start(offset as int) + old(self).spec_unalloc_size(
                    offset as int,
                    size as int,
                ),
                old(self).spec_capacity(),
            ),
            (offset <= old(self).spec_window() && (*final(r))@.len()
                == old(self).spec_unalloc_size(offset as int, size as int)) ==> final(self).wf()
                && final(self).spec_capacity() == old(self).spec_capacity(),
            (offset <= old(self).spec_window() && (*final(r))@.len()
                == old(self).spec_unalloc_size(offset as int, size as int))
                ==> final(self).contents() == old(self).contents(),
            (offset <= old(self).spec_window() && (*final(r))@.len()
                == old(self).spec_unalloc_size(offset as int, size as int))
                ==> final(self).spec_unallocated() == old(self).spec_unallocated().take(offset as int)
                + (*final(r))@ + old(self).spec_unallocated().skip(
                offset + old(self).spec_unalloc_size(offset as int, size as int),
            ),
    {
        let ghost pre = *self;
        let cap = self.capacity();
        let win = self.window();
        if offset > win {
            let empty: &mut [T] = &mut [];
            return empty;
        }
        let ghost c = pre.spec_capacity();
        proof {
            assert(self.spec_len() + offset <= c);
        }
        let start_at = self.get_idx(self.length + offset);
        let mut sz = size;
        let clamped_window = win - offset;
        if sz > clamped_window {
            sz = clamped_window;
        }
        let until_end = cap - start_at;
        if sz > until_end {
            sz = until_end;
        }
        let ghost start = wrap_index(c, pre.spec_read_at() + pre.spec_len() + offset);
        proof {
            assert(start == pre.spec_unalloc_start(offset as int));
            assert(sz == pre.spec_unalloc_size(offset as int, size as int));
            assert forall|k: int| 0 <= k < sz implies pre.storage_seq().subrange(
                start,
                start + sz,
            )[k] == #[trigger] pre.spec_unallocated().subrange(offset as int, offset + sz)[k] by {
                assert(pre.storage_seq().subrange(start, start + sz)[k] == pre.storage_seq()[k
                    + start]);
                assert(pre.spec_unallocated().subrange(offset as int, offset + sz)[k]
                    == pre.spec_unallocated()[k + offset]);
                assert(pre.spec_unallocated()[k + offset] == pre.storage_seq()[wrap_index(
                    c,
                    pre.spec_read_at() + pre.spec_len() + (k + offset),
                )]);
                lemma_wrap_index_add(c, pre.spec_read_at() + pre.spec_len() + offset, k);
                assert(wrap_index(c, start + k) == start + k) by (nonlinear_arith)
                    requires
                        0 < c,
                        0 <= start + k < c,
                ;
            }
            assert(pre.storage_seq().subrange(start, start + sz)
                =~= pre.spec_unallocated().subrange(offset as int, offset + sz));
            assert forall|post: Self, bs: Seq<T>|
                #![trigger post.contents(), bs.len()]
                (bs.len() == sz && post.spec_capacity() == c && post.spec_len() == pre.spec_len()
                    && post.spec_read_at() == pre.spec_read_at() && post.storage_seq()
                    == pre.storage_seq().subrange(0, start) + bs + pre.storage_seq().subrange(
                    start + sz,
                    c,
                )) implies post.contents() == pre.contents() by {
                lemma_unallocated_splice(pre, post, bs, offset as int);
            }
            assert forall|post: Self, bs: Seq<T>|
                #![trigger post.spec_unallocated(), bs.len()]
                (bs.len() == sz && post.spec_capacity() == c && post.spec_len() == pre.spec_len()
                    && post.spec_read_at() == pre.spec_read_at() && post.storage_seq()
                    == pre.storage_seq().subrange(0, start) + bs + pre.storage_seq().subrange(
                    start + sz,
                    c,
                )) implies post.spec_unallocated() == pre.spec_unallocated().take(offset as int)
                + bs + pre.spec_unallocated().skip(offset + sz) by {
                lemma_unallocated_splice(pre, post, bs, offset as int);
            }
        }
        let sl = subslice_mut(&mut self.storage, start_at, start_at + sz);
        sl
    }

    /// Enqueue the given number of unallocated buffer elements.
    ///
    /// The count must not exceed the number of unallocated elements; more is
    /// a programmer error, which the contract excludes.
    pub fn enqueue_unallocated(&mut self, count: usize)
        requires
            old(self).wf(),
            count <= old(self).spec_window(),
        ensures
            final(self).wf(),
            final(self).spec_capacity() == old(self).spec_capacity(),
            final(self).spec_len() == old(self).spec_len() + count,
            final(self).spec_read_at() == old(self).spec_read_at(),
            final(self).storage_seq() == old(self).storage_seq(),
            final(self).contents() == old(self).contents() + old(self).spec_unallocated().take(
                count as int,
            ),
            final(self).spec_unallocated() == old(self).spec_unallocated().skip(count as int),
    {
        let ghost pre = *self;
        let cap = self.capacity();
        self.length += count;
        proof {
            assert(self.contents() =~= pre.contents() + pre.spec_unallocated().take(
                count as int,
            ));
            assert(self.spec_unallocated() =~= pre.spec_unallocated().skip(count as int));
        }
    }

    /// Dequeue the given number of allocated buffer elements.
    ///
    /// The count must not exceed the number of allocated elements; more is a
    /// programmer error, which the contract excludes.
    pub fn dequeue_allocated(&mut self, count: usize)
        requires
            old(self).wf(),
            count <= old(self).spec_len(),
        ensures
            final(self).wf(),
            final(self).spec_capacity() == old(self).spec_capacity(),
            final(self).spec_len() == old(self).spec_len() - count,
            final(self).spec_read_at() == wrap_index(
                old(self).spec_capacity(),
                old(self).spec_read_at() + count,
            ),
            final(self).storage_seq() == old(self).storage_seq(),
            final(self).contents() == old(self).contents().skip(count as int),
    {
        let ghost pre = *self;
        self.length -= count;
        let next = self.get_idx(count);
        self.read_at = next;
        proof {
            lemma_contents_advance(pre, *self, count as int);
        }
    }

    /// Return the largest contiguous slice of allocated buffer elements
    /// starting at the given offset past the first allocated element, and
    /// up to the given size.
    #[must_use]
    pub fn get_allocated(&self, offset: usize, size: usize) -> (r: &[T])
        requires
            self.wf(),
        ensures
            offset > self.spec_len() ==> r@.len() == 0,
            offset <= self.spec_len() ==> {
                let c = self.spec_capacity();
                let start = wrap_index(c, self.spec_read_at() + offset);
                let sz = vstd::math::min(
                    vstd::math::min(size as int, self.spec_len() - offset),
                    c - start,
                );
                r@ == self.contents().subrange(offset as int, offset + sz)
            },
    {
        let ghost c = self.spec_capacity();
        if offset > self.length {
            let empty: &[T] = &[];
            return empty;
        }
        let start_at = self.get_idx(offset);
        let cap = self.capacity();
        let mut sz = size;
        let clamped_length = self.length - offset;
        if sz > clamped_length {
            sz = clamped_length;
        }
        let until_end = cap - start_at;
        if sz > until_end {
            sz = until_end;
        }
        let ghost start = wrap_index(c, self.spec_read_at() + offset);
        proof {
            assert forall|k: int| 0 <= k < sz implies self.storage_seq().subrange(
                start,
                start + sz,
            )[k] == #[trigger] self.contents().subrange(offset as int, offset + sz)[k] by {
                assert(self.storage_seq().subrange(start, start + sz)[k] == self.storage_seq()[k
                    + start]);
                assert(self.contents().subrange(offset as int, offset + sz)[k] == self.contents()[
                k + offset]);
                assert(self.contents()[k + offset] == self.storage_seq()[wrap_index(
                    c,
                    self.spec_read_at() + (k + offset),
                )]);
                lemma_wrap_index_add(c, self.spec_read_at() + offset, k);
                assert(wrap_index(c, start + k) == start + k) by (nonlinear_arith)
                    requires
                        0 < c,
                        0 <= start + k < c,
                ;
            }
            assert(self.storage_seq().subrange(start, start + sz) =~= self.contents().subrange(
                offset as int,
                offset + sz,
            ));
        }
        let s = self.storage.as_slice();
        let sl = vstd::slice::slice_subrange(s, start_at, start_at + sz);
        sl
    }
}


/// Copy a whole slice into an equally long destination.
fn copy_into<T: Copy>(dst: &mut [T], src: &[T])
    requires
        src@.len() == old(dst)@.len(),
    ensures
        final(dst)@ == src@,
    decreases src@.len(),
{
    if dst.len() > 0 {
        let (head, tail) = dst.split_at_mut(1);
        let v = src[0];
        head[0] = v;
        let rest = vstd::slice::slice_subrange(src, 1, src.len());
        copy_into(tail, rest);
        proof {
            assert((*final(head))@ =~= seq![v]);
            assert(seq![v] + rest@ =~= src@);
        }
    } else {
        proof {
            assert((*final(dst))@ =~= src@);
        }
    }
}

/// This is the "slice" layer of the ring buffer interface: bulk copies in
/// and out of caller-provided slices, wrapping around the slab edge when
/// needed.
impl<T> RingBuffer<T> {
    /// Enqueue as many elements from the given slice into the buffer as
    /// possible, and return the amount of elements that could fit.
    #[must_use]
    #[verifier::spinoff_prover]
    #[verifier::rlimit(100)]
    pub fn enqueue_slice(&mut self, data: &[T]) -> (n: usize) where T: Copy
        requires
            old(self).wf(),
        ensures
            final(self).wf(),
            final(self).spec_capacity() == old(self).spec_capacity(),
            n == vstd::math::min(data@.len() as int, old(self).spec_window()),
            final(self).spec_len() == old(self).spec_len() + n,
            final(self).spec_read_at() == old(self).spec_rebased_read_at(),
            final(self).contents() == old(self).contents() + data@.take(n as int),
            final(self).spec_unallocated() == old(self).spec_rebased_unallocated().skip(n as int),
    {
        let ghost pre0 = *self;
        if self.length == 0 {
            // Ring is currently empty. Reset `read_at` to optimize
            // for contiguous space.
            self.read_at = 0;
        }
        let ghost reb = *self;
        let ghost c = reb.spec_capacity();
        let sl = self.get_unallocated(0, data.len());
        let n1 = sl.len();
        let d1 = vstd::slice::slice_subrange(data, 0, n1);
        copy_into(sl, d1);
        self.enqueue_unallocated(n1);
        let ghost mid = *self;
        proof {
            assert(mid.contents() =~= reb.contents() + data@.take(n1 as int));
        }
        let rem = data.len() - n1;
        let sl2 = self.get_unallocated(0, rem);
        let n2 = sl2.len();
        let d2 = vstd::slice::slice_subrange(data, n1, n1 + n2);
        copy_into(sl2, d2);
        self.enqueue_unallocated(n2);
        proof {
            let w0 = reb.spec_window();
            let dl = data@.len() as int;
            let ea = reb.spec_unalloc_start(0);
            assert(n1 == vstd::math::min(vstd::math::min(dl, w0), c - ea));
            if n1 < dl && n1 < w0 {
                assert(n1 == c - ea);
                assert(0 < c);
                assert(n1 < c);
                lemma_wrap_index_add(c, reb.spec_read_at() + reb.spec_len(), n1 as int);
                assert(wrap_index(c, ea + n1) == 0) by (nonlinear_arith)
                    requires
                        0 < c,
                        ea + n1 == c,
                        wrap_index(c, ea + n1) == (ea + n1) % c,
                ;
                assert(mid.spec_unalloc_start(0) == 0);
            } else {
                assert(n2 == 0);
            }
            assert(n1 + n2 == vstd::math::min(dl, w0));
            assert(self.contents() =~= mid.contents() + data@.subrange(n1 as int, n1 + n2));
            assert(reb.contents() + data@.take(n1 as int) + data@.subrange(n1 as int, n1 + n2)
                =~= reb.contents() + data@.take(n1 + n2));
            assert(reb.spec_unallocated() =~= pre0.spec_rebased_unallocated());
            assert(mid.spec_unallocated() =~= reb.spec_unallocated().skip(n1 as int));
            assert(self.spec_unallocated() =~= mid.spec_unallocated().skip(n2 as int));
            assert(reb.spec_unallocated().skip(n1 as int).skip(n2 as int)
                =~= reb.spec_unallocated().skip(n1 + n2));
        }
        n1 + n2
    }

    /// Dequeue as many elements from the buffer into the given slice as
    /// possible, and return the amount of elements that could fit.
    #[must_use]
    #[verifier::spinoff_prover]
    #[verifier::rlimit(100)]
    pub fn dequeue_slice(&mut self, data: &mut [T]) -> (n: usize) where T: Copy
        requires
            old(self).wf(),
        ensures
            final(self).wf(),
            final(self).spec_capacity() == old(self).spec_capacity(),
            final(self).storage_seq() == old(self).storage_seq(),
            n == vstd::math::min(old(data)@.len() as int, old(self).spec_len()),
            final(self).spec_len() == old(self).spec_len() - n,
            final(self).spec_read_at() == wrap_index(
                old(self).spec_capacity(),
                old(self).spec_read_at() + n,
            ),
            final(self).contents() == old(self).contents().skip(n as int),
            final(data)@ == old(self).contents().take(n as int) + old(data)@.skip(n as int),
    {
        let ghost pre = *self;
        let ghost c = pre.spec_capacity();
        let ghost entry = (*data)@;
        let cap = self.capacity();
        let read_at = self.read_at;
        let len = self.length;
        let dlen = data.len();
        let dw1 = if len < cap - read_at {
            len
        } else {
            cap - read_at
        };
        let sz1 = if dlen < dw1 {
            dlen
        } else {
            dw1
        };
        let ghost mid_read = wrap_index(c, pre.spec_read_at() + sz1);
        proof {
            if c > 0 {
                lemma_wrap_index_bound(c, pre.spec_read_at() + sz1);
            }
        }
        let read_at2 = if cap > 0 {
            (read_at + sz1) % cap
        } else {
            0
        };
        let len2 = len - sz1;
        let dw2 = if len2 < cap - read_at2 {
            len2
        } else {
            cap - read_at2
        };
        let rem = dlen - sz1;
        let sz2 = if rem < dw2 {
            rem
        } else {
            dw2
        };
        proof {
            if c > 0 {
                assert(wrap_index(c, pre.spec_read_at() + 0) == pre.spec_read_at())
                    by (nonlinear_arith)
                    requires
                        0 < c,
                        0 <= pre.spec_read_at() < c,
                        wrap_index(c, pre.spec_read_at() + 0) == (pre.spec_read_at() + 0) % c,
                ;
            }
        }
        let (d1, restd) = data.split_at_mut(sz1);
        let (d2, _taild) = restd.split_at_mut(sz2);
        {
            let src = self.get_allocated(0, sz1);
            copy_into(d1, src);
        }
        self.dequeue_allocated(sz1);
        let ghost mid = *self;
        proof {
            assert(mid.spec_read_at() == mid_read);
            if c > 0 {
                assert(wrap_index(c, mid.spec_read_at() + 0) == mid.spec_read_at())
                    by (nonlinear_arith)
                    requires
                        0 < c,
                        0 <= mid.spec_read_at() < c,
                        wrap_index(c, mid.spec_read_at() + 0) == (mid.spec_read_at() + 0) % c,
                ;
            }
        }
        {
            let src = self.get_allocated(0, sz2);
            copy_into(d2, src);
        }
        self.dequeue_allocated(sz2);
        proof {
            let dl = entry.len() as int;
            let l = pre.spec_len();
            assert(mid.spec_read_at() == mid_read);
            if sz1 < dl && sz1 < l {
                assert(sz1 == c - pre.spec_read_at());
                assert(0 < c);
                assert(mid_read == 0) by (nonlinear_arith)
                    requires
                        0 < c,
                        pre.spec_read_at() + sz1 == c,
                        mid_read == (pre.spec_read_at() + sz1) % c,
                ;
            } else {
                assert(sz2 == 0);
            }
            assert(sz1 + sz2 == vstd::math::min(dl, l));
            if c > 0 {
                vstd::arithmetic::div_mod::lemma_add_mod_noop(
                    pre.spec_read_at() + sz1,
                    sz2 as int,
                    c,
                );
                vstd::arithmetic::div_mod::lemma_small_mod(sz2 as nat, c as nat);
                assert(self.spec_read_at() == wrap_index(
                    c,
                    pre.spec_read_at() + (sz1 + sz2),
                ));
            }
            assert(self.contents() =~= pre.contents().skip(sz1 + sz2));
            assert(mid.contents().take(sz2 as int) =~= pre.contents().subrange(
                sz1 as int,
                sz1 + sz2,
            ));
            assert(pre.contents().take(sz1 as int) + (pre.contents().subrange(sz1 as int, sz1 + sz2)
                + entry.skip(sz1 + sz2)) =~= pre.contents().take(sz1 + sz2) + entry.skip(
                sz1 + sz2,
            ));
            assert(entry.skip(sz1 as int).skip(sz2 as int) =~= entry.skip(sz1 + sz2));
        }
        sz1 + sz2
    }

    /// Write as many elements from the given slice into unallocated buffer
    /// elements starting at the given offset past the last allocated
    /// element, and return the amount written.
    #[must_use]
    pub fn write_unallocated(&mut self, offset: usize, data: &[T]) -> (n: usize) where T: Copy
        requires
            old(self).wf(),
        ensures
            final(self).wf(),
            final(self).spec_capacity() == old(self).spec_capacity(),
            final(self).spec_len() == old(self).spec_len(),
            final(self).spec_read_at() == old(self).spec_read_at(),
            final(self).contents() == old(self).contents(),
            offset > old(self).spec_window() ==> n == 0,
            offset <= old(self).spec_window() ==> n == vstd::math::min(
                data@.len() as int,
                old(self).spec_window() - offset,
            ),
            offset <= old(self).spec_window() ==> final(self).spec_unallocated() == old(
                self,
            ).spec_unallocated().take(offset as int) + data@.take(n as int) + old(
                self,
            ).spec_unallocated().skip(offset + n),
    {
        let ghost pre = *self;
        let ghost c = pre.spec_capacity();
        let cap = self.capacity();
        let win = self.window();
        if offset > win {
            return 0;
        }
        let sl = self.get_unallocated(offset, data.len());
        let n1 = sl.len();
        let d1 = vstd::slice::slice_subrange(data, 0, n1);
        copy_into(sl, d1);
        let ghost mid = *self;
        let rem = data.len() - n1;
        let off2 = offset + n1;
        let sl2 = self.get_unallocated(off2, rem);
        let n2 = sl2.len();
        let d2 = vstd::slice::slice_subrange(data, n1, n1 + n2);
        copy_into(sl2, d2);
        proof {
            let w0 = pre.spec_window();
            let dl = data@.len() as int;
            let start1 = pre.spec_unalloc_start(offset as int);
            assert(n1 == vstd::math::min(vstd::math::min(dl, w0 - offset), c - start1));
            assert(mid.spec_unallocated() =~= pre.spec_unallocated().take(offset as int)
                + data@.take(n1 as int) + pre.spec_unallocated().skip(offset + n1));
            if n1 < dl && n1 < w0 - offset {
                assert(n1 == c - start1);
                assert(0 < c);
                assert(n1 < c);
                lemma_wrap_index_add(c, pre.spec_read_at() + pre.spec_len() + offset, n1 as int);
                assert(wrap_index(c, start1 + n1) == 0) by (nonlinear_arith)
                    requires
                        0 < c,
                        start1 + n1 == c,
                        wrap_index(c, start1 + n1) == (start1 + n1) % c,
                ;
                assert(mid.spec_unalloc_start(off2 as int) == 0);
            } else {
                assert(n2 == 0);
            }
            assert(n1 + n2 == vstd::math::min(dl, w0 - offset));
            assert(self.spec_unallocated() =~= mid.spec_unallocated().take(off2 as int)
                + data@.subrange(n1 as int, n1 + n2) + mid.spec_unallocated().skip(off2 + n2));
            assert(self.spec_unallocated() =~= pre.spec_unallocated().take(offset as int)
                + data@.take(n1 + n2) + pre.spec_unallocated().skip(offset + (n1 + n2)));
        }
        n1 + n2
    }

    /// Read as many elements from allocated buffer elements into the given
    /// slice starting at the given offset past the first allocated element,
    /// and return the amount read.
    #[must_use]
    pub fn read_allocated(&mut self, offset: usize, data: &mut [T]) -> (n: usize) where T: Copy
        requires
            old(self).wf(),
        ensures
            *final(self) == *old(self),
            offset > old(self).spec_len() ==> n == 0 && final(data)@ == old(data)@,
            offset <= old(self).spec_len() ==> n == vstd::math::min(
                old(data)@.len() as int,
                old(self).spec_len() - offset,
            ) && final(data)@ == old(self).contents().subrange(offset as int, offset + n) + old(
                data,
            )@.skip(n as int),
    {
        let ghost pre = *self;
        let ghost c = pre.spec_capacity();
        let ghost entry = (*data)@;
        let cap = self.capacity();
        let len = self.length;
        if offset > len {
            return 0;
        }
        let dlen = data.len();
        let start1 = self.get_idx(offset);
        let a1 = if len - offset < cap - start1 {
            len - offset
        } else {
            cap - start1
        };
        let sz1 = if dlen < a1 {
            dlen
        } else {
            a1
        };
        let off2 = offset + sz1;
        let start2 = self.get_idx(off2);
        let a2 = if len - off2 < cap - start2 {
            len - off2
        } else {
            cap - start2
        };
        let rem = dlen - sz1;
        let sz2 = if rem < a2 {
            rem
        } else {
            a2
        };
        let (d1, restd) = data.split_at_mut(sz1);
        let (d2, _taild) = restd.split_at_mut(sz2);
        {
            let src = self.get_allocated(offset, sz1);
            copy_into(d1, src);
        }
        {
            let src = self.get_allocated(off2, sz2);
            copy_into(d2, src);
        }
        proof {
            let dl = entry.len() as int;
            let l = pre.spec_len();
            if sz1 < dl && sz1 < l - offset {
                assert(sz1 == c - wrap_index(c, pre.spec_read_at() + offset));
                assert(0 < c);
                lemma_wrap_index_add(c, pre.spec_read_at() + offset, sz1 as int);
                assert(wrap_index(c, wrap_index(c, pre.spec_read_at() + offset) + sz1) == 0)
                    by (nonlinear_arith)
                    requires
                        0 < c,
                        wrap_index(c, pre.spec_read_at() + offset) + sz1 == c,
                        wrap_index(c, wrap_index(c, pre.spec_read_at() + offset) + sz1)
                            == (wrap_index(c, pre.spec_read_at() + offset) + sz1) % c,
                ;
            } else {
                assert(sz2 == 0);
            }
            assert(sz1 + sz2 == vstd::math::min(dl, l - offset));
            assert(pre.contents().subrange(offset as int, offset + sz1) + (pre.contents().subrange(
                offset + sz1,
                offset + sz1 + sz2,
            ) + entry.skip(sz1 + sz2)) =~= pre.contents().subrange(
                offset as int,
                offset + (sz1 + sz2),
            ) + entry.skip(sz1 + sz2));
            assert(entry.skip(sz1 as int).skip(sz2 as int) =~= entry.skip(sz1 + sz2));
        }
        sz1 + sz2
    }
}


/// Walking forward from the read position, the slab is exactly the logical
/// contents followed by the unallocated view: those two sequences together
/// pin every physical slot.
pub proof fn lemma_storage_slot<T>(b: RingBuffer<T>, d: int)
    requires
        b.wf(),
        0 <= d < b.spec_capacity(),
    ensures
        d < b.spec_len() ==> b.storage_seq()[wrap_index(
            b.spec_capacity(),
            b.spec_read_at() + d,
        )] == b.contents()[d],
        d >= b.spec_len() ==> b.storage_seq()[wrap_index(
            b.spec_capacity(),
            b.spec_read_at() + d,
        )] == b.spec_unallocated()[d - b.spec_len()],
{
    if d >= b.spec_len() {
        assert(b.spec_unallocated()[d - b.spec_len()] == b.storage_seq()[wrap_index(
            b.spec_capacity(),
            b.spec_read_at() + b.spec_len() + (d - b.spec_len()),
        )]);
    }
}

/// Every physical index of a non-empty slab is reached from the read
/// position at exactly one distance below the capacity; together with
/// `lemma_storage_slot` this reconstructs the whole slab from the logical
/// views.
pub proof fn lemma_index_distance(c: int, r: int, j: int)
    requires
        0 < c,
        0 <= r < c,
        0 <= j < c,
    ensures
        0 <= (j - r) % c < c,
        wrap_index(c, r + ((j - r) % c)) == j,
{
    assert(0 <= (j - r) % c < c) by (nonlinear_arith)
        requires
            0 < c,
    ;
    assert((r + ((j - r) % c)) % c == j) by (nonlinear_arith)
        requires
            0 < c,
            0 <= r < c,
            0 <= j < c,
    ;
}

/// The whole slab, reconstructed: each physical slot holds the element of
/// the logical contents or of the unallocated view that sits at its
/// distance from the read position. With the contents and unallocated
/// clauses of the operations' contracts, this pins the physical layout.
pub proof fn lemma_storage_reconstruction<T>(b: RingBuffer<T>)
    requires
        b.wf(),
        b.spec_capacity() > 0,
    ensures
        forall|j: int|
            0 <= j < b.spec_capacity() ==> #[trigger] b.storage_seq()[j] == ({
                let d = (j - b.spec_read_at()) % b.spec_capacity();
                if d < b.spec_len() {
                    b.contents()[d]
                } else {
                    b.spec_unallocated()[d - b.spec_len()]
                }
            }),
{
    let c = b.spec_capacity();
    let r = b.spec_read_at();
    assert forall|j: int| 0 <= j < c implies #[trigger] b.storage_seq()[j] == ({
        let d = (j - r) % c;
        if d < b.spec_len() {
            b.contents()[d]
        } else {
            b.spec_unallocated()[d - b.spec_len()]
        }
    }) by {
        lemma_index_distance(c, r, j);
        lemma_storage_slot(b, (j - r) % c);
    }
}

/// Every operation of the ring buffer states `wf` of its result; this spells
/// out what that invariant guarantees: the length stays within the capacity
/// and the read position stays inside the slab (or at zero without one).
pub proof fn lemma_wf_bounds<T>(b: RingBuffer<T>)
    requires
        b.wf(),
    ensures
        0 <= b.spec_len() <= b.spec_capacity(),
        b.spec_capacity() == 0 ==> b.spec_read_at() == 0,
        b.spec_capacity() > 0 ==> 0 <= b.spec_read_at() < b.spec_capacity(),
{
}

/// On an empty buffer the whole capacity is free, and the empty rebase makes
/// all of it available to one bulk enqueue as a single contiguous window.
/// In particular, right after `clear` (or `new`) a bulk enqueue of `n` yields
/// a slice of exactly `min(n, capacity)` elements.
pub proof fn lemma_empty_enqueue_window<T>(b: RingBuffer<T>)
    requires
        b.wf(),
        b.spec_len() == 0,
    ensures
        b.spec_window() == b.spec_capacity(),
        b.spec_enqueue_window() == b.spec_capacity(),
{
    if b.spec_capacity() > 0 {
        assert(wrap_index(b.spec_capacity(), 0) == 0) by (nonlinear_arith)
            requires
                0 < b.spec_capacity(),
        ;
    }
}

/// Round trip: enqueueing a slice that fits into an empty buffer and then
/// dequeueing into a destination of the same length hands back exactly that
/// slice and leaves the buffer empty. The hypotheses are the contracts of
/// `enqueue_slice` on `b0` giving `b1` and of `dequeue_slice` on `b1`
/// giving `b2`, with `d` the enqueued data and `dst0`/`dst1` the
/// destination before and after.
pub proof fn lemma_enqueue_dequeue_slice_round_trip<T>(
    b0: RingBuffer<T>,
    b1: RingBuffer<T>,
    b2: RingBuffer<T>,
    d: Seq<T>,
    dst0: Seq<T>,
    dst1: Seq<T>,
    n1: int,
    n2: int,
)
    requires
        b0.wf(),
        b0.spec_len() == 0,
        d.len() <= b0.spec_capacity(),
        dst0.len() == d.len(),
        n1 == vstd::math::min(d.len() as int, b0.spec_window()),
        b1.wf(),
        b1.spec_len() == b0.spec_len() + n1,
        b1.contents() == b0.contents() + d.take(n1),
        n2 == vstd::math::min(dst0.len() as int, b1.spec_len()),
        b2.spec_len() == b1.spec_len() - n2,
        b2.contents() == b1.contents().skip(n2),
        dst1 == b1.contents().take(n2) + dst0.skip(n2),
    ensures
        n1 == d.len(),
        n2 == d.len(),
        dst1 == d,
        b2.spec_len() == 0,
        b2.contents() == Seq::<T>::empty(),
{
    assert(b0.contents() =~= Seq::<T>::empty());
    assert(b1.contents() =~= d);
    assert(dst1 =~= d);
    assert(b2.contents() =~= Seq::<T>::empty());
}

} // verus!
