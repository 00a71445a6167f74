use vstd::prelude::*;

verus! {

/// A byte queue of capacity `N` kept in a ring: `push` appends at the producer index,
/// `pop` takes the oldest byte.
pub struct RingBuffer<const N: usize> {
    pub producer: usize,
    pub used_len: usize,
    pub data: Vec<u8>,
}

impl<const N: usize> View for RingBuffer<N> {
    type V = Seq<u8>;

    /// The bytes in the buffer, oldest first: the `used_len` slots that end just before
    /// the producer index, going round the ring.
    open spec fn view(&self) -> Seq<u8> {
        Seq::new(
            self.used_len as nat,
            |k: int| self.data@[(self.producer + N - self.used_len + k) % (N as int)],
        )
    }
}

impl<const N: usize> RingBuffer<N> {

    /// The indices stay inside the ring and the ring has its capacity.
    pub open spec fn wf(&self) -> bool {
        &&& self.data@.len() == N
        &&& N <= usize::MAX / 2
        &&& self.used_len <= N
        &&& (N > 0 ==> self.producer < N)
        &&& (N == 0 ==> self.producer == 0)
    }

    /// An empty buffer.
    pub fn new() -> (r: Self)
        requires
            N <= usize::MAX / 2,
        ensures
            r.wf(),
            r.view() == Seq::<u8>::empty(),
            r.producer == 0,
            r.used_len == 0,
            r.data@ == Seq::new(N as nat, |i: int| 0u8),
    {
        let mut data: Vec<u8> = Vec::new();
        let mut i: usize = 0;
        while i < N
            invariant
                i <= N,
                data@.len() == i,
                forall|k: int| 0 <= k < i ==> data@[k] == 0u8,
            decreases N - i,
        {
            data.push(0);
            i = i + 1;
        }
        let r = RingBuffer { producer: 0, used_len: 0, data };
        assert(r.view() =~= Seq::<u8>::empty());
        assert(r.data@ =~= Seq::new(N as nat, |i: int| 0u8));
        r
    }

    /// Appends `val`; a full buffer stays as it is.
    pub fn push(&mut self, val: u8)
        requires
            old(self).wf(),
        ensures
            final(self).wf(),
            old(self).view().len() == N ==> final(self).view() == old(self).view(),
            old(self).view().len() < N ==> final(self).view() == old(self).view().push(val),
            old(self).used_len == N ==> final(self).producer == old(self).producer && final(self).used_len
                == old(self).used_len && final(self).data@ == old(self).data@,
            old(self).used_len < N ==> final(self).producer == (old(self).producer + 1) % (N as int)
                && final(self).used_len == old(self).used_len + 1 && final(self).data@ == old(
                self,
            ).data@.update(old(self).producer as int, val),
    {
        if self.used_len == N {
            return;
        }
        let ghost before = self.view();
        let ghost p = self.producer as int;
        let ghost u = self.used_len as int;
        self.data.set(self.producer, val);
        self.producer = (self.producer + 1) % N;
        self.used_len = self.used_len + 1;
        proof {
            let n = N as int;
            assert forall|k: int| 0 <= k < u + 1 implies #[trigger] self.view()[k] == before.push(val)[k] by {
                let np = self.producer as int;
                assert(np == (p + 1) % n);
                lemma_ring_index(p, u, n, k);
                if k < u {
                    assert((np + n - (u + 1) + k) % n == (p + n - u + k) % n);
                    assert((p + n - u + k) % n != p);
                } else {
                    assert((np + n - (u + 1) + k) % n == p);
                }
            }
            assert(self.view() =~= before.push(val));
        }
    }

    /// The room left in the buffer.
    pub fn free_len(&mut self) -> (r: usize)
        requires
            old(self).wf(),
        ensures
            final(self).wf(),
            final(self).view() == old(self).view(),
            r == N - old(self).view().len(),
            final(self).producer == old(self).producer,
            final(self).used_len == old(self).used_len,
            final(self).data@ == old(self).data@,
    {
        N - self.used_len
    }

    /// Takes the oldest byte; `None` when the buffer is empty.
    pub fn pop(&mut self) -> (r: Option<u8>)
        requires
            old(self).wf(),
        ensures
            final(self).wf(),
            old(self).view().len() == 0 ==> r.is_none() && final(self).view() == old(self).view(),
            old(self).view().len() > 0 ==> r == Some(old(self).view()[0]) && final(self).view()
                == old(self).view().drop_first(),
            final(self).producer == old(self).producer,
            final(self).data@ == old(self).data@,
            final(self).used_len == (if old(self).used_len == 0 { 0 } else { old(self).used_len - 1 }),
    {
        if self.used_len == 0 {
            return None;
        }
        let ghost before = self.view();
        let consumer = (self.producer + N - self.used_len) % N;
        self.used_len = self.used_len - 1;
        proof {
            let n = N as int;
            let p = self.producer as int;
            let u = self.used_len as int;
            assert forall|k: int| 0 <= k < u implies #[trigger] self.view()[k] == before.drop_first()[k] by {
                assert((p + n - u + k) % n == (p + n - (u + 1) + (k + 1)) % n);
            }
            assert(self.view() =~= before.drop_first());
        }
        Some(self.data[consumer])
    }
}

/// Appending at the producer index leaves the older bytes where they were.
proof fn lemma_ring_index(p: int, u: int, n: int, k: int)
    requires
        0 <= p < n,
        0 <= u < n,
        0 <= k <= u,
    ensures
        ((p + 1) % n + n - (u + 1) + k) % n == (p + n - u + k) % n,
        k < u ==> (p + n - u + k) % n != p,
        k == u ==> (p + n - u + k) % n == p,
{
    vstd::arithmetic::div_mod::lemma_add_mod_noop(p, 1, n);
    if p + 1 < n {
        vstd::arithmetic::div_mod::lemma_small_mod((p + 1) as nat, n as nat);
    } else {
        vstd::arithmetic::div_mod::lemma_mod_self_0(n);
        assert((p + 1) % n == 0);
        vstd::arithmetic::div_mod::lemma_mod_add_multiples_vanish(p + n - u + k - n, n);
    }
    if k < u {
        if p + n - u + k >= n {
            vstd::arithmetic::div_mod::lemma_mod_add_multiples_vanish(p - u + k, n);
            vstd::arithmetic::div_mod::lemma_small_mod((p - u + k) as nat, n as nat);
        } else {
            vstd::arithmetic::div_mod::lemma_small_mod((p + n - u + k) as nat, n as nat);
        }
    } else {
        vstd::arithmetic::div_mod::lemma_mod_add_multiples_vanish(p, n);
        vstd::arithmetic::div_mod::lemma_small_mod(p as nat, n as nat);
    }
}

} // verus!
