//! Flushing stale translations on all CPUs that may hold them.
//!
//! Each CPU has a request slot.  The initiator fills the slot of a CPU, marks it
//! pending and interrupts that CPU, which flushes and acknowledges.  Before many
//! entries are changed at once the other CPUs are parked instead: they
//! acknowledge first, wait until the initiator clears the request, and then flush
//! everything.
use vstd::prelude::*;
use crate::hal::addr::PAGE_SIZE;
use crate::mm::pmap::container::ShootdownToken;
use crate::mm::pmap::space::MAX_CPUS;

verus! {

/// Largest number of pages flushed one by one.
pub const SHOOTDOWN_PAGE_THRESHOLD: usize = 16;

/// Request slot of one CPU.
#[derive(Debug, Clone, Copy, PartialEq, Eq, Structural)]
pub struct ShootdownRequest {
    pub pending: bool,
    pub ack: bool,
    pub va_start: u64,
    pub va_end: u64,
    pub asid: u64,
    /// Flush everything.
    pub flush_all: bool,
    /// Park until `pending` is cleared.
    pub quiesce: bool,
}

/// What to flush.
#[derive(Debug)]
pub enum FlushPlan {
    /// These addresses, one by one, under this identifier.
    Pages { vas: Vec<u64>, asid: u64 },
    /// Everything under this identifier.
    Asid(u64),
    /// Everything.
    All,
}

/// The page-sized steps from `start` below `end`.
pub open spec fn page_steps(start: int, end: int) -> Seq<u64>
    decreases (if start < end { end - start } else { 0 }),
{
    if start >= end {
        Seq::empty()
    } else {
        seq![start as u64] + page_steps(start + 4096, end)
    }
}

/// What is flushed for `[start, end)`: few pages one by one, else the whole
/// identifier.
pub open spec fn is_adaptive(plan: FlushPlan, start: u64, end: u64, asid: u64) -> bool {
    let n = if end > start {
        (end - start) / 4096
    } else {
        0
    };
    if n <= SHOOTDOWN_PAGE_THRESHOLD {
        plan matches FlushPlan::Pages { vas, asid: a } && vas@ == page_steps(
            start as int,
            end as int,
        ) && a == asid
    } else {
        plan == FlushPlan::Asid(asid)
    }
}

impl ShootdownRequest {
    pub fn new() -> (r: Self)
        ensures
            r == (ShootdownRequest {
                pending: false,
                ack: false,
                va_start: 0,
                va_end: 0,
                asid: 0,
                flush_all: false,
                quiesce: false,
            }),
    {
        ShootdownRequest {
            pending: false,
            ack: false,
            va_start: 0,
            va_end: 0,
            asid: 0,
            flush_all: false,
            quiesce: false,
        }
    }

    /// Ask for `[start, end)` to be flushed.
    pub fn post_range(&mut self, start: u64, end: u64, asid: u16)
        requires
            !old(self).pending,
        ensures
            *final(self) == (ShootdownRequest {
                pending: true,
                ack: false,
                va_start: start,
                va_end: end,
                asid: asid as u64,
                flush_all: false,
                quiesce: false,
            }),
    {
        self.va_start = start;
        self.va_end = end;
        self.asid = asid as u64;
        self.flush_all = false;
        self.quiesce = false;
        self.ack = false;
        self.pending = true;
    }

    /// Ask for everything to be flushed.
    pub fn post_flush_all(&mut self)
        requires
            !old(self).pending,
        ensures
            *final(self) == (ShootdownRequest {
                pending: true,
                ack: false,
                flush_all: true,
                quiesce: false,
                ..*old(self)
            }),
    {
        self.flush_all = true;
        self.quiesce = false;
        self.ack = false;
        self.pending = true;
    }

    /// Ask the CPU to park.
    pub fn post_quiesce(&mut self)
        requires
            !old(self).pending,
        ensures
            *final(self) == (ShootdownRequest {
                pending: true,
                ack: false,
                flush_all: false,
                quiesce: true,
                ..*old(self)
            }),
    {
        self.quiesce = true;
        self.flush_all = false;
        self.ack = false;
        self.pending = true;
    }
}

/// What an interrupted CPU does about its slot.
#[derive(Debug)]
pub enum IpiAction {
    /// Nothing was asked.
    Nothing,
    /// Mask interrupts and wait until the request is cleared, then flush
    /// everything and call [`leave_quiesce`].
    Park,
    /// Flush, then call [`acknowledge`].
    Flush(FlushPlan),
}

/// Whether the CPU has a pending request.
pub fn has_pending(slots: &Vec<ShootdownRequest>, cpu_id: usize) -> (r: bool)
    requires
        cpu_id < slots@.len(),
    ensures
        r == slots@[cpu_id as int].pending,
{
    slots[cpu_id].pending
}

/// Take up the request in the slot of an interrupted CPU.  A request to park is
/// acknowledged at once; any other only after the flush.
pub fn handle_shootdown_ipi(slots: &mut Vec<ShootdownRequest>, cpu_id: usize) -> (r: IpiAction)
    requires
        cpu_id < old(slots)@.len(),
        old(slots)@[cpu_id as int].va_end + 4095 <= u64::MAX,
    ensures
        ({
            let req = old(slots)@[cpu_id as int];
            if !req.pending {
                r is Nothing && final(slots)@ == old(slots)@
            } else if req.quiesce {
                r is Park && final(slots)@ == old(slots)@.update(
                    cpu_id as int,
                    ShootdownRequest { ack: true, ..req },
                )
            } else {
                &&& final(slots)@ == old(slots)@
                &&& r matches IpiAction::Flush(plan) && if req.flush_all {
                    plan is All
                } else {
                    is_adaptive(plan, req.va_start, req.va_end, req.asid)
                }
            }
        }),
{
    let req = slots[cpu_id];
    if !req.pending {
        return IpiAction::Nothing;
    }
    if req.quiesce {
        let mut parked = req;
        parked.ack = true;
        slots.set(cpu_id, parked);
        return IpiAction::Park;
    }
    if req.flush_all {
        IpiAction::Flush(FlushPlan::All)
    } else {
        IpiAction::Flush(adaptive_flush(req.va_start, req.va_end, req.asid))
    }
}

/// The flush that a request asked for is done.
pub fn acknowledge(slots: &mut Vec<ShootdownRequest>, cpu_id: usize)
    requires
        cpu_id < old(slots)@.len(),
    ensures
        final(slots)@ == old(slots)@.update(
            cpu_id as int,
            ShootdownRequest { pending: false, ack: true, ..old(slots)@[cpu_id as int] },
        ),
{
    let mut req = slots[cpu_id];
    req.pending = false;
    req.ack = true;
    slots.set(cpu_id, req);
}

/// A parked CPU goes on.
pub fn leave_quiesce(slots: &mut Vec<ShootdownRequest>, cpu_id: usize)
    requires
        cpu_id < old(slots)@.len(),
        !old(slots)@[cpu_id as int].pending,
    ensures
        final(slots)@ == old(slots)@.update(
            cpu_id as int,
            ShootdownRequest { quiesce: false, ..old(slots)@[cpu_id as int] },
        ),
{
    let mut req = slots[cpu_id];
    req.quiesce = false;
    slots.set(cpu_id, req);
}

/// The CPUs from `from` up, but for `local`, that are marked in `active`.
pub open spec fn targets_from(active: Seq<bool>, local: int, from: int) -> Seq<usize>
    decreases active.len() - from,
{
    if from < 0 || from >= active.len() {
        Seq::empty()
    } else if from != local && active[from] {
        seq![from as usize] + targets_from(active, local, from + 1)
    } else {
        targets_from(active, local, from + 1)
    }
}

/// The CPUs, but for `local`, that are marked in `active`, in order.
pub fn remote_targets(active: &Vec<bool>, local: usize) -> (r: Vec<usize>)
    ensures
        r@ == targets_from(active@, local as int, 0),
{
    let mut r: Vec<usize> = Vec::new();
    let mut c: usize = 0;
    while c < active.len()
        invariant
            c <= active@.len(),
            targets_from(active@, local as int, 0) == r@ + targets_from(
                active@,
                local as int,
                c as int,
            ),
        decreases active@.len() - c,
    {
        let ghost rest = targets_from(active@, local as int, c + 1);
        if c != local && active[c] {
            assert(r@ + (seq![c] + rest) =~= r@.push(c) + rest);
            r.push(c);
        }
        c += 1;
    }
    assert(r@ + Seq::<usize>::empty() =~= r@);
    r
}

/// A flush on all CPUs: the local part, and the CPUs that are to be asked in
/// turn, each after the one before has acknowledged.
#[derive(Debug)]
pub struct Shootdown {
    pub local: FlushPlan,
    pub targets: Vec<usize>,
}

/// Flush `[va_start, va_end)` here and on all other CPUs on which the address
/// space is active.
pub fn pmap_shootdown(
    active: &Vec<bool>,
    local_cpu: usize,
    va_start: u64,
    va_end: u64,
    asid: u16,
) -> (r: Shootdown)
    requires
        va_end + 4095 <= u64::MAX,
    ensures
        is_adaptive(r.local, va_start, va_end, asid as u64),
        r.targets@ == targets_from(active@, local_cpu as int, 0),
{
    let local = adaptive_flush(va_start, va_end, asid as u64);
    let targets = remote_targets(active, local_cpu);
    Shootdown { local, targets }
}

/// The CPUs that have to be asked in turn to flush everything: all but this one.
pub fn ipi_broadcast_flush_all(num_cpus: usize, local_cpu: usize) -> (r: Vec<usize>)
    ensures
        r@ == targets_from(Seq::new(num_cpus as nat, |c: int| true), local_cpu as int, 0),
{
    let ghost everyone = Seq::new(num_cpus as nat, |c: int| true);
    let mut r: Vec<usize> = Vec::new();
    let mut c: usize = 0;
    while c < num_cpus
        invariant
            c <= num_cpus,
            everyone == Seq::new(num_cpus as nat, |c: int| true),
            targets_from(everyone, local_cpu as int, 0) == r@ + targets_from(
                everyone,
                local_cpu as int,
                c as int,
            ),
        decreases num_cpus - c,
    {
        let ghost rest = targets_from(everyone, local_cpu as int, c + 1);
        if c != local_cpu {
            assert(r@ + (seq![c] + rest) =~= r@.push(c) + rest);
            r.push(c);
        }
        c += 1;
    }
    assert(r@ + Seq::<usize>::empty() =~= r@);
    r
}

/// Few pages are flushed one by one, many by flushing the whole identifier.
pub fn adaptive_flush(va_start: u64, va_end: u64, asid: u64) -> (r: FlushPlan)
    requires
        va_end + 4095 <= u64::MAX,
    ensures
        is_adaptive(r, va_start, va_end, asid),
{
    let npages: u64 = va_end.saturating_sub(va_start) / PAGE_SIZE;
    if npages <= SHOOTDOWN_PAGE_THRESHOLD as u64 {
        let mut vas: Vec<u64> = Vec::new();
        let mut va = va_start;
        while va < va_end
            invariant
                va_end + 4095 <= u64::MAX,
                page_steps(va_start as int, va_end as int) == vas@ + page_steps(
                    va as int,
                    va_end as int,
                ),
            decreases va_end + 4096 - va,
        {
            let ghost rest = page_steps(va + 4096, va_end as int);
            assert(vas@ + (seq![va] + rest) =~= vas@.push(va) + rest);
            vas.push(va);
            va = va + PAGE_SIZE;
        }
        assert(vas@ + Seq::<u64>::empty() =~= vas@);
        FlushPlan::Pages { vas, asid }
    } else {
        FlushPlan::Asid(asid)
    }
}

/// Whether bit `c` of `mask` is set.
pub open spec fn mask_has(mask: u64, c: int) -> bool {
    mask & (1u64 << (c as u64)) != 0
}

proof fn lemma_mask_set(mask: u64, c: u64, d: u64)
    requires
        c < 64,
        d < 64,
    ensures
        mask_has(mask | (1u64 << c), d as int) == (mask_has(mask, d as int) || c == d),
        !mask_has(0, d as int),
{
    assert(((mask | (1u64 << c)) & (1u64 << d) != 0) == (mask & (1u64 << d) != 0 || c == d)
        && 0u64 & (1u64 << d) == 0) by (bit_vector)
        requires
            c < 64,
            d < 64,
    ;
}

/// The other CPUs on which an address space is active, parked until they are
/// released.
pub struct QuiesceGuard {
    pub quiesced_mask: u64,
}

/// Whether the guard of `active` parks CPU `c`.
pub open spec fn parks(active: Seq<bool>, local: int, c: int) -> bool {
    0 <= c < MAX_CPUS && c != local && active[c]
}

/// The slots once the guard of `active` has asked its CPUs to park: no other slot changes.
pub open spec fn asked_to_park(
    before: Seq<ShootdownRequest>,
    after: Seq<ShootdownRequest>,
    active: Seq<bool>,
    local: int,
) -> bool {
    forall|c: int|
        0 <= c < MAX_CPUS ==> #[trigger] after[c] == if parks(active, local, c) {
            ShootdownRequest {
                pending: true,
                ack: false,
                flush_all: false,
                quiesce: true,
                ..before[c]
            }
        } else {
            before[c]
        }
}

/// The mask of a guard has the CPUs that it asked to park.
pub open spec fn guards(mask: u64, active: Seq<bool>, local: int) -> bool {
    forall|c: int| 0 <= c < MAX_CPUS ==> #[trigger] mask_has(mask, c) == parks(active, local, c)
}

/// The slots once the CPUs of the mask were let go: no other slot changes.
pub open spec fn let_go(
    before: Seq<ShootdownRequest>,
    after: Seq<ShootdownRequest>,
    mask: u64,
) -> bool {
    forall|c: int|
        0 <= c < MAX_CPUS ==> #[trigger] after[c] == if mask_has(mask, c) {
            ShootdownRequest { pending: false, ..before[c] }
        } else {
            before[c]
        }
}

impl QuiesceGuard {
    /// Ask every other CPU on which the address space is active to park.  All
    /// are interrupted together and then waited for.
    pub fn new(slots: &mut Vec<ShootdownRequest>, active: &Vec<bool>, local_cpu: usize) -> (r: Self)
        requires
            old(slots)@.len() == MAX_CPUS,
            active@.len() == MAX_CPUS,
            forall|c: int|
                #[trigger] parks(active@, local_cpu as int, c) ==> !old(slots)@[c].pending,
        ensures
            final(slots)@.len() == MAX_CPUS,
            asked_to_park(old(slots)@, final(slots)@, active@, local_cpu as int),
            guards(r.quiesced_mask, active@, local_cpu as int),
    {
        let mut quiesced_mask: u64 = 0;
        let mut c: usize = 0;
        proof {
            assert forall|d: int| 0 <= d < MAX_CPUS implies !#[trigger] mask_has(0, d) by {
                lemma_mask_set(0, 0, d as u64);
            }
        }
        while c < MAX_CPUS
            invariant
                c <= MAX_CPUS,
                slots@.len() == MAX_CPUS,
                active@.len() == MAX_CPUS,
                old(slots)@.len() == MAX_CPUS,
                forall|d: int|
                    #[trigger] parks(active@, local_cpu as int, d) ==> !old(slots)@[d].pending,
                forall|d: int|
                    0 <= d < MAX_CPUS ==> #[trigger] slots@[d] == if d < c && parks(
                        active@,
                        local_cpu as int,
                        d,
                    ) {
                        ShootdownRequest {
                            pending: true,
                            ack: false,
                            flush_all: false,
                            quiesce: true,
                            ..old(slots)@[d]
                        }
                    } else {
                        old(slots)@[d]
                    },
                forall|d: int|
                    0 <= d < MAX_CPUS ==> #[trigger] mask_has(quiesced_mask, d) == (d < c && parks(
                        active@,
                        local_cpu as int,
                        d,
                    )),
            decreases MAX_CPUS - c,
        {
            if c != local_cpu && active[c] {
                assert(parks(active@, local_cpu as int, c as int));
                assert(slots@[c as int] == old(slots)@[c as int]);
                slots[c].post_quiesce();
                proof {
                    assert forall|d: int|
                        0 <= d < MAX_CPUS implies #[trigger] mask_has(
                        quiesced_mask | (1u64 << (c as u64)),
                        d,
                    ) == (mask_has(quiesced_mask, d) || d == c) by {
                        lemma_mask_set(quiesced_mask, c as u64, d as u64);
                    }
                }
                quiesced_mask = quiesced_mask | (1u64 << (c as u64));
            }
            c += 1;
        }
        QuiesceGuard { quiesced_mask }
    }

    /// Whether every parked CPU has acknowledged.
    pub fn all_parked(&self, slots: &Vec<ShootdownRequest>) -> (r: bool)
        requires
            slots@.len() == MAX_CPUS,
        ensures
            r == forall|c: int|
                0 <= c < MAX_CPUS && mask_has(self.quiesced_mask, c) ==> (#[trigger] slots@[c]).ack,
    {
        let mut c: usize = 0;
        while c < MAX_CPUS
            invariant
                c <= MAX_CPUS,
                slots@.len() == MAX_CPUS,
                forall|d: int|
                    0 <= d < c && mask_has(self.quiesced_mask, d) ==> (#[trigger] slots@[d]).ack,
            decreases MAX_CPUS - c,
        {
            if self.quiesced_mask & (1u64 << (c as u64)) != 0 && !slots[c].ack {
                assert(mask_has(self.quiesced_mask, c as int) && !slots@[c as int].ack);
                return false;
            }
            c += 1;
        }
        true
    }

    /// Let the parked CPUs go on.
    pub fn release(self, slots: &mut Vec<ShootdownRequest>)
        requires
            old(slots)@.len() == MAX_CPUS,
        ensures
            final(slots)@.len() == MAX_CPUS,
            let_go(old(slots)@, final(slots)@, self.quiesced_mask),
    {
        let mut c: usize = 0;
        while c < MAX_CPUS
            invariant
                c <= MAX_CPUS,
                slots@.len() == MAX_CPUS,
                old(slots)@.len() == MAX_CPUS,
                forall|d: int|
                    0 <= d < MAX_CPUS ==> #[trigger] slots@[d] == if d < c && mask_has(
                        self.quiesced_mask,
                        d,
                    ) {
                        ShootdownRequest { pending: false, ..old(slots)@[d] }
                    } else {
                        old(slots)@[d]
                    },
            decreases MAX_CPUS - c,
        {
            if self.quiesced_mask & (1u64 << (c as u64)) != 0 {
                assert(slots@[c as int] == old(slots)@[c as int]);
                let mut req = slots[c];
                req.pending = false;
                slots.set(c, req);
            }
            c += 1;
        }
    }
}

/// Changed pages collected while the other CPUs are parked.
pub struct ShootdownBatch {
    pub dirty_vas: Vec<u64>,
    pub asid: u16,
    pub quiesce: QuiesceGuard,
}

impl ShootdownBatch {
    /// Park the other CPUs and start collecting.
    pub fn new(
        slots: &mut Vec<ShootdownRequest>,
        active: &Vec<bool>,
        local_cpu: usize,
        asid: u16,
    ) -> (r: Self)
        requires
            old(slots)@.len() == MAX_CPUS,
            active@.len() == MAX_CPUS,
            forall|c: int|
                #[trigger] parks(active@, local_cpu as int, c) ==> !old(slots)@[c].pending,
        ensures
            r.dirty_vas@.len() == 0,
            r.asid == asid,
            final(slots)@.len() == MAX_CPUS,
            asked_to_park(old(slots)@, final(slots)@, active@, local_cpu as int),
            guards(r.quiesce.quiesced_mask, active@, local_cpu as int),
    {
        ShootdownBatch {
            dirty_vas: Vec::new(),
            asid,
            quiesce: QuiesceGuard::new(slots, active, local_cpu),
        }
    }

    /// Collect a changed page.
    pub fn add(&mut self, token: ShootdownToken)
        ensures
            final(self).dirty_vas@ == old(self).dirty_vas@.push(token.0.0),
            final(self).asid == old(self).asid,
            final(self).quiesce == old(self).quiesce,
    {
        self.dirty_vas.push(token.va().as_u64());
    }

    /// The local flush, to be done while the other CPUs are parked: none where nothing
    /// changed, few pages one by one, else the whole identifier.
    pub fn flush_plan(&self) -> (r: Option<FlushPlan>)
        ensures
            is_batch_plan(self.dirty_vas@, self.asid, r),
    {
        if self.dirty_vas.len() == 0 {
            return None;
        }
        let asid: u64 = self.asid as u64;
        if self.dirty_vas.len() > SHOOTDOWN_PAGE_THRESHOLD {
            return Some(FlushPlan::Asid(asid));
        }
        let mut vas: Vec<u64> = Vec::new();
        let mut i: usize = 0;
        while i < self.dirty_vas.len()
            invariant
                i <= self.dirty_vas@.len(),
                vas@ == self.dirty_vas@.take(i as int),
            decreases self.dirty_vas@.len() - i,
        {
            vas.push(self.dirty_vas[i]);
            assert(self.dirty_vas@.take(i + 1) =~= self.dirty_vas@.take(i as int).push(
                self.dirty_vas@[i as int],
            ));
            i += 1;
        }
        assert(self.dirty_vas@.take(i as int) =~= self.dirty_vas@);
        Some(FlushPlan::Pages { vas, asid })
    }

    /// Let the other CPUs go on, once the local flush is done.
    pub fn release(self, slots: &mut Vec<ShootdownRequest>)
        requires
            old(slots)@.len() == MAX_CPUS,
        ensures
            final(slots)@.len() == MAX_CPUS,
            let_go(old(slots)@, final(slots)@, self.quiesce.quiesced_mask),
    {
        self.quiesce.release(slots);
    }
}

/// What is flushed for a batch: each of few pages once, or the whole identifier.
pub open spec fn is_batch_plan(vas: Seq<u64>, asid: u16, r: Option<FlushPlan>) -> bool {
    match r {
        None => vas.len() == 0,
        Some(plan) => vas.len() > 0 && if vas.len() <= SHOOTDOWN_PAGE_THRESHOLD {
            plan matches FlushPlan::Pages { vas: pages, asid: a } && pages@ == vas && a == asid
        } else {
            plan == FlushPlan::Asid(asid as u64)
        },
    }
}

/// What may happen to a slot: its CPU parks, or does what it was asked and says so, or goes
/// on after it was let go; or something is asked of it, where nothing was.
pub open spec fn slot_step(a: ShootdownRequest, b: ShootdownRequest) -> bool {
    ||| b == a
    ||| a.pending && a.quiesce && b == (ShootdownRequest { ack: true, ..a })
    ||| a.pending && !a.quiesce && b == (ShootdownRequest { pending: false, ack: true, ..a })
    ||| !a.pending && b == (ShootdownRequest { quiesce: false, ..a })
    ||| !a.pending && b.pending && !b.ack
}

/// Slots, one state after the other.
pub open spec fn slot_history(h: Seq<Seq<ShootdownRequest>>) -> bool {
    forall|i: int, c: int|
        0 <= i < h.len() - 1 && 0 <= c < MAX_CPUS ==> #[trigger] slot_step(h[i][c], h[i + 1][c])
}

/// From the making of a guard until it is released, whatever the CPUs do, a request is
/// pending for exactly the CPUs that it parks, but for what others asked; one that has
/// acknowledged stays so; the release clears exactly those requests.
pub proof fn law_guard_keeps_parked(
    before: Seq<ShootdownRequest>,
    h: Seq<Seq<ShootdownRequest>>,
    after: Seq<ShootdownRequest>,
    active: Seq<bool>,
    local: int,
    mask: u64,
    i: int,
    j: int,
    c: int,
)
    requires
        0 <= i <= j < h.len(),
        0 <= c < MAX_CPUS,
        asked_to_park(before, h[0], active, local),
        guards(mask, active, local),
        slot_history(h),
        let_go(h.last(), after, mask),
    ensures
        parks(active, local, c) ==> {
            &&& h[j][c].pending
            &&& h[j][c].quiesce
            &&& h[i][c].ack ==> h[j][c].ack
            &&& !after[c].pending
        },
        !parks(active, local, c) ==> h[0][c] == before[c] && after[c] == h.last()[c],
{
    assert(mask_has(mask, c) == parks(active, local, c));
    assert(after[c] == if mask_has(mask, c) {
        ShootdownRequest { pending: false, ..h.last()[c] }
    } else {
        h.last()[c]
    });
    assert(h[0][c] == h[0][c]);
    if parks(active, local, c) {
        lemma_stays_parked(h, 0, i, c);
        lemma_stays_parked(h, i, j, c);
    }
}

proof fn lemma_stays_parked(h: Seq<Seq<ShootdownRequest>>, i: int, j: int, c: int)
    requires
        0 <= i <= j < h.len(),
        0 <= c < MAX_CPUS,
        slot_history(h),
        h[i][c].pending,
        h[i][c].quiesce,
    ensures
        h[j][c].pending,
        h[j][c].quiesce,
        h[i][c].ack ==> h[j][c].ack,
    decreases j - i,
{
    if i < j {
        lemma_stays_parked(h, i, j - 1, c);
        assert(slot_step(h[j - 1][c], h[j - 1 + 1][c]));
    }
}

/// A batch keeps the other CPUs parked from its making until it is released, also while its
/// local flush is done; one to which nothing was added flushes nothing, and lets them go all
/// the same.
pub proof fn law_batch_keeps_parked(
    before: Seq<ShootdownRequest>,
    h: Seq<Seq<ShootdownRequest>>,
    after: Seq<ShootdownRequest>,
    active: Seq<bool>,
    local: int,
    batch: &ShootdownBatch,
    plan: Option<FlushPlan>,
    i: int,
    c: int,
)
    requires
        0 <= i < h.len(),
        0 <= c < MAX_CPUS,
        asked_to_park(before, h[0], active, local),
        guards(batch.quiesce.quiesced_mask, active, local),
        slot_history(h),
        is_batch_plan(batch.dirty_vas@, batch.asid, plan),
        let_go(h.last(), after, batch.quiesce.quiesced_mask),
    ensures
        parks(active, local, c) ==> h[i][c].pending && h[i][c].quiesce && !after[c].pending,
        !parks(active, local, c) ==> h[0][c] == before[c] && after[c] == h.last()[c],
        batch.dirty_vas@.len() == 0 <==> plan is None,
{
    law_guard_keeps_parked(
        before,
        h,
        after,
        active,
        local,
        batch.quiesce.quiesced_mask,
        0,
        i,
        c,
    );
}

/// A CPU is asked to flush exactly where the address space is active on it and it
/// is not the initiator.
pub proof fn law_targets_are_active(active: Seq<bool>, local: int, from: int, c: usize)
    requires
        0 <= from <= active.len(),
        active.len() <= usize::MAX,
    ensures
        targets_from(active, local, from).contains(c) <==> from <= c < active.len() && c != local
            && active[c as int],
    decreases active.len() - from,
{
    if from < active.len() {
        law_targets_are_active(active, local, from + 1, c);
        let rest = targets_from(active, local, from + 1);
        if from != local && active[from] {
            let all = seq![from as usize] + rest;
            if rest.contains(c) {
                let i = choose|i: int| 0 <= i < rest.len() && rest[i] == c;
                assert(all[i + 1] == c);
            }
            if all.contains(c) {
                let i = choose|i: int| 0 <= i < all.len() && all[i] == c;
                if i > 0 {
                    assert(rest[i - 1] == c);
                }
            }
            assert(all[0] == from as usize);
        }
    }
}

/// Flushing a range leaves no page of it out.
pub proof fn law_flush_covers_range(plan: FlushPlan, start: u64, end: u64, asid: u64, n: int)
    requires
        is_adaptive(plan, start, end, asid),
        0 <= n,
        start + 4096 * n < end,
    ensures
        match plan {
            FlushPlan::Pages { vas, asid: a } => a == asid && vas@.contains(
                (start + 4096 * n) as u64,
            ),
            FlushPlan::Asid(a) => a == asid,
            FlushPlan::All => false,
        },
{
    lemma_page_steps(start as int, end as int, n);
}

proof fn lemma_page_steps(start: int, end: int, n: int)
    requires
        0 <= start,
        0 <= n,
        start + 4096 * n < end <= u64::MAX,
    ensures
        page_steps(start, end).contains((start + 4096 * n) as u64),
    decreases n,
{
    let s = page_steps(start, end);
    if n == 0 {
        assert(s[0] == start as u64);
    } else {
        lemma_page_steps(start + 4096, end, n - 1);
        let rest = page_steps(start + 4096, end);
        let j = choose|j: int| 0 <= j < rest.len() && rest[j] == (start + 4096 * n) as u64;
        assert(s[j + 1] == rest[j]);
    }
}

} // verus!
