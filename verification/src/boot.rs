//! What the kernel decides when it starts.
use vstd::prelude::*;
use crate::hal::trap::TrapFrame;

verus! {

/// A range of physical memory.
#[derive(Debug, Clone, Copy)]
pub struct RamRegion {
    pub base: u64,
    pub size: u64,
}

impl RamRegion {
    /// The first address after the region.
    pub open spec fn end(self) -> int {
        self.base + self.size
    }

    pub open spec fn contains(self, a: int) -> bool {
        self.base <= a < self.end()
    }
}

/// The place of the first region from `i` on that contains the address, or the number of
/// regions.
pub open spec fn region_of(regions: Seq<RamRegion>, a: int, i: int) -> int
    decreases regions.len() - i,
{
    if i >= regions.len() {
        regions.len() as int
    } else if regions[i].contains(a) {
        i
    } else {
        region_of(regions, a, i + 1)
    }
}

/// Whether `top` is where the highest of the regions ends; zero where there is none.
pub open spec fn is_top(regions: Seq<RamRegion>, top: int) -> bool {
    &&& forall|i: int| 0 <= i < regions.len() ==> (#[trigger] regions[i]).end() <= top
    &&& top == 0 || exists|i: int| 0 <= i < regions.len() && (#[trigger] regions[i]).end() == top
}

/// Where the memory ends that the kernel may use: with the first region that contains the
/// end of the kernel, or else with the highest.
pub fn memory_end(kernel_end: u64, regions: &Vec<RamRegion>) -> (r: u64)
    requires
        forall|i: int| 0 <= i < regions@.len() ==> (#[trigger] regions@[i]).end() <= u64::MAX,
    ensures
        ({
            let at = region_of(regions@, kernel_end as int, 0);
            if at < regions@.len() {
                r == regions@[at].end()
            } else {
                is_top(regions@, r as int)
            }
        }),
{
    let mut i: usize = 0;
    while i < regions.len()
        invariant
            i <= regions@.len(),
            region_of(regions@, kernel_end as int, 0) == region_of(
                regions@,
                kernel_end as int,
                i as int,
            ),
            forall|i: int| 0 <= i < regions@.len() ==> (#[trigger] regions@[i]).end() <= u64::MAX,
        decreases regions@.len() - i,
    {
        let m = regions[i];
        assert(regions@[i as int].end() <= u64::MAX);
        if kernel_end >= m.base && kernel_end < m.base + m.size {
            return m.base + m.size;
        }
        i += 1;
    }
    let mut best: u64 = 0;
    let mut k: usize = 0;
    while k < regions.len()
        invariant
            k <= regions@.len(),
            is_top(regions@.take(k as int), best as int),
            forall|i: int| 0 <= i < regions@.len() ==> (#[trigger] regions@[i]).end() <= u64::MAX,
        decreases regions@.len() - k,
    {
        let m = regions[k];
        assert(regions@[k as int].end() <= u64::MAX);
        let end: u64 = m.base + m.size;
        let ghost was = best as int;
        if end > best {
            best = end;
        }
        proof {
            let s = regions@.take(k as int);
            let t = regions@.take(k + 1);
            assert(t =~= s.push(m));
            assert forall|i: int| 0 <= i < t.len() implies (#[trigger] t[i]).end() <= best by {
                if i < k {
                    assert(s[i].end() <= was);
                }
            }
            if end > was {
                assert(t[k as int].end() == best);
            } else if was != 0 {
                let i = choose|i: int| 0 <= i < s.len() && (#[trigger] s[i]).end() == was;
                assert(t[i].end() == best);
            }
        }
        k += 1;
    }
    assert(regions@.take(k as int) =~= regions@);
    best
}

/// Whether a processor starts the system: the first one that asks does.
pub fn claim_boot(claimed: &mut bool) -> (r: bool)
    ensures
        r == !*old(claimed),
        *final(claimed),
{
    let first = !*claimed;
    *claimed = true;
    first
}

/// Number of a processor: the one it was given, or else its place.
pub fn cpu_number(known: Option<usize>, place: usize) -> (r: usize)
    ensures
        r == match known {
            Some(n) => n,
            None => place,
        },
{
    match known {
        Some(n) => n,
        None => place,
    }
}

/// Status of a program that starts: user mode, interrupts on, floating point as at first.
pub const USER_SSTATUS: u64 = 0x2020;

/// Let a program start at `entry` with the stack at `sp`.
pub fn enter_program(tf: &mut TrapFrame, entry: u64, sp: u64)
    ensures
        final(tf).sepc == entry,
        final(tf).x@ == old(tf).x@.update(2, sp),
        final(tf).sstatus == (1u64 << 5) | (1u64 << 13),
{
    tf.sepc = entry;
    tf.set_sp(sp);
    tf.sstatus = USER_SSTATUS;
    assert((1u64 << 5) | (1u64 << 13) == 0x2020) by (bit_vector);
}

/// What to do about the first program.
#[derive(Debug, Clone, Copy, PartialEq, Eq, Structural)]
pub enum LaunchStep {
    /// Try the program at this place of the list.
    Try(usize),
    /// It runs.
    Launched,
    /// None of the programs could be started.
    GiveUp,
}

/// The programs of the list are tried one by one until one starts; `outcome` is what came
/// of the last attempt, where there was one.
pub fn launch_step(last: LaunchStep, programs: usize, outcome: bool) -> (r: LaunchStep)
    ensures
        r == match last {
            LaunchStep::Try(i) => if outcome {
                LaunchStep::Launched
            } else if i + 1 < programs {
                LaunchStep::Try((i + 1) as usize)
            } else {
                LaunchStep::GiveUp
            },
            _ => last,
        },
{
    match last {
        LaunchStep::Try(i) => if outcome {
            LaunchStep::Launched
        } else if programs > 0 && i < programs - 1 {
            LaunchStep::Try(i + 1)
        } else {
            LaunchStep::GiveUp
        },
        _ => last,
    }
}

/// The step to begin with.
pub fn first_launch(programs: usize) -> (r: LaunchStep)
    ensures
        r == if programs == 0 {
            LaunchStep::GiveUp
        } else {
            LaunchStep::Try(0)
        },
{
    if programs == 0 {
        LaunchStep::GiveUp
    } else {
        LaunchStep::Try(0)
    }
}

/// The region chosen is the first that contains the address; there is none only where no region does.
pub proof fn law_first_region_counts(regions: Seq<RamRegion>, a: int, i: int)
    requires
        0 <= i <= regions.len(),
    ensures
        ({
            let k = region_of(regions, a, i);
            &&& i <= k <= regions.len()
            &&& forall|j: int|
                i <= j < k ==> !((#[trigger] regions[j]).base <= a < regions[j].base + regions[j].size)
            &&& k < regions.len() ==> regions[k].base <= a < regions[k].base + regions[k].size
        }),
    decreases regions.len() - i,
{
    if i < regions.len() && !regions[i].contains(a) {
        law_first_region_counts(regions, a, i + 1);
    }
}

} // verus!
