use vstd::prelude::*;

verus! {

/// Number of samples the rolling buffer keeps.
pub const CAPACITY: usize = 10;

/// One CPU reading: its timestamp text and the load in hundredths of a percent.
pub struct CpuSample {
    pub timestamp: String,
    pub cpu_centi: u64,
}

/// Bounded FIFO of the most recent CPU samples, oldest first.
pub struct RollingBuffer {
    samples: Vec<CpuSample>,
}

/// The contents after pushing `s`: appended at the tail, and the head dropped
/// when the length would exceed the capacity.
pub open spec fn pushed(q: Seq<CpuSample>, s: CpuSample) -> Seq<CpuSample> {
    if q.len() + 1 > CAPACITY {
        q.push(s).drop_first()
    } else {
        q.push(s)
    }
}

/// The contents after pushing every element of `ss` in order.
pub open spec fn pushed_all(q: Seq<CpuSample>, ss: Seq<CpuSample>) -> Seq<CpuSample>
    decreases ss.len(),
{
    if ss.len() == 0 {
        q
    } else {
        pushed(pushed_all(q, ss.drop_last()), ss.last())
    }
}

/// The last `n` elements of `s` (all of them when it is shorter).
pub open spec fn last_n(s: Seq<CpuSample>, n: nat) -> Seq<CpuSample> {
    if s.len() <= n {
        s
    } else {
        s.subrange(s.len() - n, s.len() as int)
    }
}

impl View for RollingBuffer {
    type V = Seq<CpuSample>;

    closed spec fn view(&self) -> Seq<CpuSample> {
        self.samples@
    }
}

impl RollingBuffer {
    pub open spec fn wf(&self) -> bool {
        self@.len() <= CAPACITY
    }

    pub fn new() -> (r: RollingBuffer)
        ensures
            r.wf(),
            r@ == Seq::<CpuSample>::empty(),
    {
        RollingBuffer { samples: Vec::new() }
    }

    /// Appends a sample, evicting the oldest one when the buffer would overflow.
    pub fn push(&mut self, s: CpuSample)
        requires
            old(self).wf(),
        ensures
            final(self).wf(),
            final(self)@ == pushed(old(self)@, s),
    {
        self.samples.push(s);
        if self.samples.len() > CAPACITY {
            self.samples.remove(0);
        }
    }

    pub fn len(&self) -> (r: usize)
        ensures
            r == self@.len(),
    {
        self.samples.len()
    }

    /// Whether the buffer holds exactly its capacity.
    pub fn is_full(&self) -> (r: bool)
        ensures
            r == (self@.len() == CAPACITY),
    {
        self.samples.len() == CAPACITY
    }

    /// The points handed to the chart: each sample's position and its load.
    pub fn chart_points(&self) -> (r: Vec<(u32, u64)>)
        requires
            self.wf(),
        ensures
            r@.len() == self@.len(),
            forall|i: int| 0 <= i < r@.len() ==> #[trigger] r@[i] == (i as u32, self@[i].cpu_centi),
    {
        let mut r: Vec<(u32, u64)> = Vec::new();
        let mut i: usize = 0;
        while i < self.samples.len()
            invariant
                self.wf(),
                i <= self@.len(),
                r@.len() == i,
                forall|j: int| 0 <= j < i ==> #[trigger] r@[j] == (j as u32, self@[j].cpu_centi),
            decreases self@.len() - i,
        {
            r.push((i as u32, self.samples[i].cpu_centi));
            i = i + 1;
        }
        r
    }
}

/// Pushing never takes the buffer past its capacity, and a push onto a full
/// buffer drops exactly the oldest element, keeping the rest in order.
pub proof fn lemma_push_bounded(q: Seq<CpuSample>, s: CpuSample)
    requires
        q.len() <= CAPACITY,
    ensures
        pushed(q, s).len() <= CAPACITY,
        q.len() == CAPACITY ==> pushed(q, s) == q.subrange(1, q.len() as int).push(s),
{
    if q.len() == CAPACITY {
        assert(pushed(q, s) =~= q.subrange(1, q.len() as int).push(s));
    }
}

/// For any sequence of pushes onto an empty buffer, the buffer holds exactly the
/// last `CAPACITY` samples pushed, in order; so it never exceeds its capacity and
/// every older sample has been evicted.
pub proof fn lemma_pushes_keep_last(ss: Seq<CpuSample>)
    ensures
        pushed_all(Seq::empty(), ss) == last_n(ss, CAPACITY as nat),
        pushed_all(Seq::empty(), ss).len() <= CAPACITY,
    decreases ss.len(),
{
    if ss.len() > 0 {
        let p = ss.drop_last();
        lemma_pushes_keep_last(p);
        let q = pushed_all(Seq::empty(), p);
        if p.len() + 1 <= CAPACITY {
            assert(q.push(ss.last()) =~= ss);
        } else if p.len() == CAPACITY {
            assert(q.push(ss.last()).drop_first() =~= last_n(ss, CAPACITY as nat));
        } else {
            assert(q.push(ss.last()).drop_first() =~= last_n(ss, CAPACITY as nat));
        }
    }
}

} // verus!
