//! Tasks, signals and system calls.
use rustos::hal::addr::{PhysAddr, VirtAddr};
use rustos::hal::errno::Errno;
use rustos::hal::trap::TrapFrame;
use rustos::mm::allocator::frame_allocator::{available_pages, init_frame_allocator, FramePool};
use rustos::mm::pmap::asid::AsidAllocator;
use rustos::mm::pmap::shootdown::{ShootdownBatch, ShootdownRequest};
use rustos::mm::pmap::space::{pmap_create, pmap_enter, pmap_extract, MAX_CPUS};
use rustos::mm::vm::map::address_map::VmMap;
use rustos::mm::vm::map::heap::SIGCODE_VA;
use rustos::mm::vm::map::entry::VmMapping;
use rustos::mm::vm::map::perm::MapPerm;
use rustos::mm::vm::object::{VObjIndex, VmObject, VmObjects};
use rustos::mm::vm::page_ref::PageRef;
use rustos::proc::clone::{do_clone, CloneFlags, VforkDone};
use rustos::proc::exec::commit::commit;
use rustos::proc::deep_copy::deep_copy_pages;
use rustos::proc::fork::{cow_fork_vm, fork, share_sigcode};
use rustos::proc::exit_wait::{
    do_exit, poll_wait_child, sys_exit, wait_nohang, wait_result, WaitPoll, WaitStatus,
};
use rustos::proc::pid::{alloc_pid, PidAllocator};
use rustos::proc::signal::{
    build_sigcode_page, build_siginfo, check_pending_signals, default_action, handler_outcome,
    map_sigcode_page, plan_sendsig, sendsig, AtomicSigSet, SigAction, SigDefault, SigSet, Signal,
    SignalState, SignalVerdict, SA_NOCLDWAIT, SA_RESETHAND, SA_RESTART, SIGCHLD, SIGFRAME_SIZE,
    SIGILL, SIGINFO_SIZE, SIGKILL, SIGSTOP, SIGUSR1, SIG_IGN,
};
use rustos::proc::syscall_result::SyscallResult;
use rustos::proc::syscalls::{
    sys_getpgid, sys_getpid, sys_getppid, sys_getuid, sys_kill, sys_setpgid, sys_sigaction,
    sys_sigprocmask, sys_sigreturn, SIG_BLOCK, SIG_SETMASK, SIG_UNBLOCK,
};
use rustos::proc::task::{
    alloc_kstack, find_task_by_pid, kill_pgrp, ppid, register_task, remove_task, unregister_task,
    Task, TaskState, TaskTable,
};
use rustos::proc::wait4::{sys_wait4, wait4_copied, wait4_poll, Wait4Step, WNOHANG};
use rustos::proc::user_copy::{
    fault_in_user_buffer, ArgvCopy, CopyResult, CopyStep, StringCopy,
};

fn pool() -> FramePool {
    init_frame_allocator(PhysAddr::new(0x10_0000), PhysAddr::new(0x50_0000), 8)
}

fn stack() -> (PhysAddr, u64) {
    (PhysAddr::new(0x8000_0000), 0x8000_4000)
}

/// A table with the first task and a child of it.
fn family() -> (TaskTable, u32, u32) {
    let mut pids = PidAllocator::new();
    let mut table = TaskTable::new();
    let mut init = Task::new_init(&mut pids, stack(), 0, 0);
    let child = Task::new(Some(&init), &mut pids, stack(), 1, 1);
    let (a, b) = (init.pid, child.pid);
    init.children.push(b);
    table.add_task(init);
    table.add_task(child);
    register_task(&mut table, a);
    register_task(&mut table, b);
    (table, a, b)
}

#[test]
fn test_fork_exit_wait4() {
    let (mut table, init_pid, child_pid) = family();
    assert_ne!(init_pid, child_pid);
    let child = table.find(child_pid).unwrap();
    assert_eq!(ppid(&table, &table.tasks[child]), init_pid);
    let init = table.find(init_pid).unwrap();
    assert_eq!(table.tasks[init].children.len(), 1);

    let (result, _) = sys_exit(&mut table, child_pid, WaitStatus::exited(42));
    assert!(matches!(result, SyscallResult::Terminated));
    assert_eq!(table.tasks[child].state(), TaskState::Zombie);
    assert_eq!(table.tasks[child].exit_status, 42 << 8);

    match poll_wait_child(&mut table, init, -1, 5) {
        WaitPoll::Ready(Some((pid, status))) => {
            assert_eq!(pid, child_pid);
            assert_eq!(status, 42 << 8);
        }
        _ => panic!("the child has ended"),
    }
    assert_eq!(table.tasks[init].children.len(), 0);
}

#[test]
fn a_parent_waits_for_its_child() {
    let (mut table, init_pid, child_pid) = family();
    let init = table.find(init_pid).unwrap();
    assert!(matches!(poll_wait_child(&mut table, init, -1, 5), WaitPoll::Pending));
    assert_eq!(wait_nohang(&mut table, init, -1), Ok(None));
    // The exit wakes the parent that waits.
    let wakers = do_exit(&mut table, child_pid, WaitStatus::signaled(9));
    assert!(wakers.contains(&5));
    assert_eq!(wait_nohang(&mut table, init, child_pid as i64), Ok(Some((child_pid, 9))));
    assert_eq!(wait_nohang(&mut table, init, -1), Err(Errno::Echild));
    assert!(matches!(poll_wait_child(&mut table, init, -1, 5), WaitPoll::Ready(None)));
    assert_eq!(wait_result(&mut table.tasks[init], None), Err(Errno::Echild));
    assert_eq!(wait_result(&mut table.tasks[init], Some((7, 256))), Ok((7, 256)));
}

#[test]
fn test_signal_pending_delivery() {
    let mut s = SignalState::new();
    s.post_signal(SIGUSR1);
    assert!(s.has_unmasked_pending());
    assert_eq!(s.dequeue_signal(), Some(SIGUSR1));
    assert!(!s.has_unmasked_pending());

    s.actions[(SIGUSR1 - 1) as usize].flags = SA_RESTART;
    assert!(s.is_restart(SIGUSR1));

    let mut blocked = SigSet::empty();
    blocked.add(Signal::new(SIGUSR1).unwrap());
    s.blocked.store(blocked);
    s.post_signal(SIGUSR1);
    assert!(!s.has_unmasked_pending());
    s.blocked.store(SigSet::empty());
    assert!(s.has_unmasked_pending());
    let _ = s.dequeue_signal();

    s.actions[(SIGCHLD - 1) as usize].flags = SA_NOCLDWAIT;
    assert!(s.actions[(SIGCHLD - 1) as usize].flags & SA_NOCLDWAIT != 0);
}

#[test]
fn sets_of_signals() {
    assert!(Signal::new(0).is_none());
    assert!(Signal::new(65).is_none());
    assert_eq!(Signal::new(64).unwrap().as_bit(), 1 << 63);
    let mut a = SigSet::empty();
    a.add(Signal::new(3).unwrap());
    a.add(Signal::new(9).unwrap());
    assert_eq!(a.as_u64(), (1 << 2) | (1 << 8));
    assert_eq!(a.lowest(), Some(3));
    a.remove(Signal::new(3).unwrap());
    assert_eq!(a.lowest(), Some(9));
    assert!(a.difference(a).is_empty());
    assert_eq!(a.union(SigSet::from_u64(1)).as_u64(), 257);
    assert_eq!(a.intersect(SigSet::from_u64(1)).as_u64(), 0);
    let mut s = AtomicSigSet::new(a);
    assert_eq!(s.fetch_add(Signal::new(1).unwrap()), a);
    assert_eq!(s.load().as_u64(), 257);
    assert_eq!(s.fetch_remove(Signal::new(9).unwrap()).as_u64(), 257);
    assert_eq!(s.load().as_u64(), 1);
}

#[test]
fn what_signals_do_by_themselves() {
    assert_eq!(default_action(SIGCHLD), SigDefault::Ignore);
    assert_eq!(default_action(SIGSTOP), SigDefault::Stop);
    assert_eq!(default_action(SIGKILL), SigDefault::Terminate);
    let mut s = SignalState::new();
    assert!(matches!(check_pending_signals(&mut s), SignalVerdict::Resume));
    s.post_signal(SIGCHLD);
    assert!(matches!(check_pending_signals(&mut s), SignalVerdict::Resume));
    s.post_signal(SIGUSR1);
    assert!(matches!(check_pending_signals(&mut s), SignalVerdict::Kill(SIGUSR1)));
    s.actions[(SIGUSR1 - 1) as usize].handler = SIG_IGN;
    s.post_signal(SIGUSR1);
    assert!(matches!(check_pending_signals(&mut s), SignalVerdict::Resume));
    s.actions[(SIGUSR1 - 1) as usize].handler = 0x4000;
    s.post_signal(SIGUSR1);
    match check_pending_signals(&mut s) {
        SignalVerdict::Handle(sig, action) => {
            assert_eq!((sig, action.handler), (SIGUSR1, 0x4000));
        }
        _ => panic!("the handler is called"),
    }
    assert_eq!(handler_outcome(Ok(())), Ok(true));
    assert_eq!(handler_outcome(Err(())), Err(SIGILL));
}

#[test]
fn a_handler_runs_and_returns() {
    let mut tf = TrapFrame::zero();
    tf.x[2] = 0x7000_0000;
    tf.sepc = 0x1234;
    let mut s = SignalState::new();
    s.blocked.store(SigSet::from_u64(4));
    let action = SigAction { handler: 0x4000, flags: 0, restorer: 0, mask: 2 };
    let before = tf;
    let (place, frame) = plan_sendsig(&tf, &s, SIGUSR1, &action);
    assert_eq!(place.siginfo_va % 16, 0);
    assert_eq!(place.frame_va % 16, 0);
    assert!(place.siginfo_va + SIGINFO_SIZE <= 0x7000_0000);
    assert!(place.frame_va + SIGFRAME_SIZE <= 0x7000_0000);
    assert_eq!(frame.signo, SIGUSR1 as u32);
    sendsig(&mut tf, &mut s, SIGUSR1, &action, true, true).unwrap();
    assert_eq!(tf.sepc, 0x4000);
    assert_eq!(tf.x[10], SIGUSR1 as u64);
    assert_eq!(tf.x[1], SIGCODE_VA);
    assert_eq!(s.blocked.load().as_u64(), 4 | 2 | (1 << 9));

    assert!(sys_sigreturn(&mut tf, &mut s, Some(&frame)).is_ok());
    assert_eq!(tf.sepc, 0x1234);
    assert_eq!(tf.x, before.x);
    assert_eq!(s.blocked.load().as_u64(), 4);
    assert_eq!(sys_sigreturn(&mut tf, &mut s, None), Err(Errno::Efault));
}

#[test]
fn a_handler_without_a_stack_fails() {
    let mut tf = TrapFrame::zero();
    let mut s = SignalState::new();
    let action = SigAction { handler: 0x4000, flags: SA_RESETHAND, restorer: 0, mask: 0 };
    assert!(sendsig(&mut tf, &mut s, SIGUSR1, &action, true, false).is_err());
    assert_eq!(tf.sepc, 0);
    assert_eq!(build_siginfo(SIGUSR1)[0], SIGUSR1);
}

#[test]
fn the_trampoline_page() {
    let page = build_sigcode_page();
    // Load the number of the call, call, and stop should it return.
    assert_eq!(page[0..4], [0x93, 0x08, 0xb0, 0x08]);
    assert_eq!(page[4..8], [0x73, 0x00, 0x00, 0x00]);
    let mut pool = pool();
    let mut asids = AsidAllocator::new();
    let mut pmap = pmap_create(&mut pool, 0, &mut asids);
    let frame = map_sigcode_page(&mut pmap, &mut pool, 0);
    assert_eq!(pmap_extract(&pmap, VirtAddr::new(SIGCODE_VA)), Some(frame));
}

#[test]
fn numbers_of_tasks() {
    let (table, a, b) = family();
    assert_eq!(a, 1);
    assert_eq!(b, 2);
    let c = table.find(b).unwrap();
    assert_eq!(sys_getpid(&table.tasks[c]), 2);
    assert_eq!(sys_getppid(&table, &table.tasks[c]), 1);
    assert_eq!(sys_getuid(&table.tasks[c]), 0);
    let mut pids = PidAllocator::new();
    assert_eq!(alloc_pid(&mut pids), 1);
    assert_eq!(alloc_pid(&mut pids), 2);
}

#[test]
fn tasks_are_found_while_registered() {
    let (mut table, _, b) = family();
    assert!(find_task_by_pid(&table, b).is_some());
    unregister_task(&mut table, b);
    assert!(find_task_by_pid(&table, b).is_none());
    assert_eq!(remove_task(&mut table, b).unwrap().pid, b);
    assert!(remove_task(&mut table, b).is_none());
}

#[test]
fn signals_to_one_and_to_many() {
    let (mut table, a, b) = family();
    let sender = table.find(a).unwrap();
    let child = table.find(b).unwrap();
    table.tasks[child].top_level_waker = Some(99);
    let (r, wakers) = sys_kill(&mut table, sender, b as i64, SIGUSR1);
    assert_eq!((r, wakers), (Ok(0), vec![99]));
    assert!(table.tasks[child].signals.has_unmasked_pending());
    assert_eq!(sys_kill(&mut table, sender, 77, SIGUSR1).0, Err(Errno::Esrch));
    assert_eq!(sys_kill(&mut table, sender, b as i64, 65).0, Err(Errno::Einval));
    let group = table.tasks[child].pgid;
    kill_pgrp(&mut table, group, SIGKILL);
    assert!(table.tasks[child].signals.pending.load().contains(Signal::new(SIGKILL).unwrap()));
}

#[test]
fn wakers_come_in_the_order_of_registration() {
    let mut pids = PidAllocator::new();
    let mut table = TaskTable::new();
    let init = Task::new_init(&mut pids, stack(), 0, 0);
    let sender = init.pid;
    let mut made = vec![sender];
    let mut children = Vec::new();
    for waker in [20, 30, 40] {
        let mut t = Task::new(Some(&init), &mut pids, stack(), 1, 1);
        t.top_level_waker = Some(waker);
        made.push(t.pid);
        children.push(t);
    }
    table.add_task(init);
    for t in children {
        table.add_task(t);
    }
    // The last first, one of them twice, and one not at all.
    for pid in [made[3], made[0], made[1], made[3]] {
        register_task(&mut table, pid);
    }
    let at = table.find(sender).unwrap();
    let (r, wakers) = sys_kill(&mut table, at, 0, SIGUSR1);
    assert_eq!((r, wakers), (Ok(0), vec![40, 20]));
    let pending = |table: &TaskTable, pid: u32| {
        let i = table.find(pid).unwrap();
        table.tasks[i].signals.pending.load().contains(Signal::new(SIGUSR1).unwrap())
    };
    assert!(pending(&table, made[0]) && pending(&table, made[1]) && pending(&table, made[3]));
    assert!(!pending(&table, made[2]));
    // Everyone but the first process.
    let (r, wakers) = sys_kill(&mut table, at, -1, SIGKILL);
    assert_eq!((r, wakers), (Ok(0), vec![]));
}

#[test]
fn a_new_process_has_the_default_actions() {
    let mut pids = PidAllocator::new();
    let t = Task::new_init(&mut pids, stack(), 0, 0);
    for a in &t.signals.actions {
        assert_eq!((a.handler, a.flags, a.restorer, a.mask), (0, 0, 0, 0));
    }
}

#[test]
fn groups_of_processes() {
    let (mut table, a, b) = family();
    let at = table.find(a).unwrap();
    assert_eq!(sys_setpgid(&mut table, at, b, 0), Ok(0));
    assert_eq!(sys_getpgid(&table, at, b), Ok(b as u64));
    assert_eq!(sys_getpgid(&table, at, 0), Ok(table.tasks[at].pgid as u64));
    assert_eq!(sys_getpgid(&table, at, 55), Err(Errno::Esrch));
    assert_eq!(sys_setpgid(&mut table, at, 55, 0), Err(Errno::Esrch));
}

#[test]
fn actions_and_masks() {
    let mut s = SignalState::new();
    assert_eq!(sys_sigaction(&mut s, 0, None, None), Err(Errno::Einval));
    assert_eq!(
        sys_sigaction(&mut s, SIGKILL as u64, None, Some(Some([1, 0, 0, 0]))),
        Err(Errno::Einval)
    );
    assert_eq!(sys_sigaction(&mut s, SIGUSR1 as u64, Some(false), None), Err(Errno::Efault));
    assert_eq!(
        sys_sigaction(&mut s, SIGUSR1 as u64, None, Some(Some([0x5000, 4, 0, 3]))),
        Ok(0)
    );
    assert_eq!(s.actions[(SIGUSR1 - 1) as usize].handler, 0x5000);
    assert_eq!(sys_sigprocmask(&mut s, SIG_BLOCK, None, Some(Some(0b1010))), Ok(0));
    assert_eq!(sys_sigprocmask(&mut s, SIG_UNBLOCK, None, Some(Some(0b1000))), Ok(0));
    assert_eq!(s.blocked.load().as_u64(), 0b0010);
    assert_eq!(sys_sigprocmask(&mut s, SIG_SETMASK, None, Some(Some(u64::MAX))), Ok(0));
    // Two signals can never be blocked.
    assert_eq!(s.blocked.load().as_u64(), !((1 << (SIGKILL - 1)) | (1 << (SIGSTOP - 1))));
    assert_eq!(sys_sigprocmask(&mut s, 9, None, Some(Some(0))), Err(Errno::Einval));
    assert_eq!(sys_sigprocmask(&mut s, SIG_BLOCK, None, Some(None)), Err(Errno::Efault));
}

#[test]
fn a_clone_is_like_its_parent() {
    let mut pool = pool();
    let mut asids = AsidAllocator::new();
    let mut store = VmObjects::new();
    let mut pids = PidAllocator::new();
    let n = available_pages(&pool);
    let kstack = alloc_kstack(&mut pool);
    assert_eq!(available_pages(&pool), n - 4);
    assert_eq!(kstack.1, kstack.0.as_u64() + 16384);
    let mut parent = Task::new_init(&mut pids, kstack, 0, 0);
    parent.trap_frame.sepc = 0x1000;
    parent.trap_frame.x[10] = 33;
    parent.brk = 0x9000;
    parent.signals.post_signal(SIGUSR1);
    let p1 = pmap_create(&mut pool, 0, &mut asids);
    let p2 = pmap_create(&mut pool, 0, &mut asids);
    let mut pvm = VmMap::new(p1);
    let mut cvm = VmMap::new(p2);
    let mut slots: Vec<ShootdownRequest> = (0..MAX_CPUS).map(|_| ShootdownRequest::new()).collect();
    let mut batch = ShootdownBatch::new(&mut slots, &vec![false; MAX_CPUS], 0, pvm.pmap.asid);
    let flags = CloneFlags(CloneFlags::SETTLS().0 | CloneFlags::VFORK().0);
    let child = do_clone(
        &mut parent, &mut pvm, &mut cvm, 1, 1, stack(), &mut pids, &mut store, &mut pool, 0,
        &mut batch, flags, 0x6000, 0x7000,
    )
    .unwrap();
    batch.release(&mut slots);
    assert_eq!(child.parent, Some(parent.pid));
    assert_eq!(parent.children, vec![child.pid]);
    assert_eq!(child.trap_frame.sepc, 0x1004);
    assert_eq!(child.trap_frame.x[10], 0);
    assert_eq!(child.trap_frame.x[2], 0x6000);
    assert_eq!(child.trap_frame.x[4], 0x7000);
    assert_eq!(child.brk, 0x9000);
    assert!(!child.signals.has_unmasked_pending());
    assert!(child.vfork_done.is_some());
    assert_eq!((child.vm_map, child.fd_table), (1, 1));
}

#[test]
fn a_parent_is_told_once() {
    let mut v = VforkDone::new();
    assert!(!v.is_done());
    v.waker = Some(4);
    assert_eq!(v.signal(), Some(4));
    assert!(v.is_done());
    assert_eq!(v.signal(), None);
}

#[test]
fn a_new_program_starts_with_default_actions() {
    let mut pids = PidAllocator::new();
    let mut t = Task::new_init(&mut pids, stack(), 0, 0);
    t.signals.actions[(SIGUSR1 - 1) as usize].handler = 0x4000;
    t.signals.actions[(SIGCHLD - 1) as usize].handler = SIG_IGN;
    let mut done = VforkDone::new();
    done.waker = Some(8);
    t.vfork_done = Some(done);
    assert_eq!(commit(&mut t, VirtAddr::new(0x12_0000)), Some(8));
    assert_eq!(t.brk, 0x12_0000);
    assert_eq!(t.signals.actions[(SIGUSR1 - 1) as usize].handler, 0);
}

#[test]
fn buffers_are_faulted_in_page_by_page() {
    assert_eq!(fault_in_user_buffer(0x1ff0, 0x20), vec![0x1000, 0x2000]);
    assert_eq!(fault_in_user_buffer(0x1000, 0x1000), vec![0x1000]);
    assert!(fault_in_user_buffer(0x1000, 0).is_empty());
}

#[test]
fn strings_end_at_the_zero_byte() {
    let mut c = StringCopy::new(0x1ffe, 16);
    assert!(matches!(c.next(), CopyStep::FaultAndRead(0x1ffe)));
    assert!(matches!(c.got(Some(b'a')), CopyResult::More));
    assert!(matches!(c.next(), CopyStep::Read(0x1fff)));
    assert!(matches!(c.got(Some(b'b')), CopyResult::More));
    assert!(matches!(c.next(), CopyStep::FaultAndRead(0x2000)));
    match c.got(Some(0)) {
        CopyResult::Done(s) => assert_eq!(s, b"ab".to_vec()),
        _ => panic!("the string has ended"),
    }
    let mut c = StringCopy::new(0x1000, 1);
    assert!(matches!(c.got(Some(b'a')), CopyResult::More));
    assert!(matches!(c.next(), CopyStep::Fail));
    let mut c = StringCopy::new(0x1000, 4);
    assert!(matches!(c.got(None), CopyResult::Fail));
}

#[test]
fn arguments_end_at_the_null_pointer() {
    let mut a = ArgvCopy::new(0x1000, 8, 4096);
    assert_eq!(a.next_slot(), Some(0x1000));
    assert_eq!(a.got_pointer(Some(0x5000)), Some(0x5000));
    a.got_string(Some(b"ls".to_vec()));
    assert_eq!(a.next_slot(), Some(0x1008));
    assert_eq!(a.got_pointer(Some(0)), None);
    assert_eq!(a.next_slot(), None);
    assert_eq!(a.result, vec![b"ls".to_vec()]);
}

#[test]
fn a_plain_fork_copies_everything() {
    let mut pool = pool();
    let mut asids = AsidAllocator::new();
    let mut store = VmObjects::new();
    let mut pids = PidAllocator::new();
    let mut parent = Task::new_init(&mut pids, stack(), 0, 0);
    parent.cwd = String::from("/home");
    let p1 = pmap_create(&mut pool, 0, &mut asids);
    let p2 = pmap_create(&mut pool, 0, &mut asids);
    let mut pvm = VmMap::new(p1);
    let mut cvm = VmMap::new(p2);
    let rw = MapPerm::R() | MapPerm::W() | MapPerm::U();
    let object = VmObject::new_anon(&mut store, 0x9000);
    VmObject::insert_page(
        &mut store,
        object,
        VObjIndex::new(0),
        PageRef::new(PhysAddr::new(0x12_3000)),
    );
    let at = |a: u64| VirtAddr::new(a);
    pvm.map(at(0x4000), at(0x6000), rw, VmMapping::AnonPrivate { object, offset: 0 }).unwrap();
    pvm.map(at(0x6000), at(0x7000), MapPerm::empty(), VmMapping::Guard).unwrap();
    let (child, changed) = fork(
        &mut parent, &mut pvm, &mut cvm, 1, 1, stack(), &mut pids, &mut store, &mut pool, 0,
    );
    // Nothing was mapped, so there is nothing to flush.
    assert!(changed.is_empty());
    assert_eq!(child.parent, Some(parent.pid));
    assert_eq!(child.cwd, "/home");
    assert_eq!(parent.children, vec![child.pid]);
    // The guard is there too, and both shadows are as large as the entry.
    let es = cvm.copy_entries();
    assert_eq!(es.len(), 2);
    assert!(matches!(es[1].mapping, VmMapping::Guard));
    let theirs = es[0].mapping.object().unwrap();
    let mine = pvm.lookup(at(0x4000)).unwrap().mapping.object().unwrap();
    assert_ne!(mine, theirs);
    assert_eq!(store.get(mine).size(), 0x2000);
    assert_eq!(store.get(theirs).size(), 0x2000);
    assert_eq!(
        VmObject::lookup_page(&store, theirs, VObjIndex::new(0)),
        Some(PhysAddr::new(0x12_3000))
    );

    // The parent has no trampoline, so the child gets a new one; a second child shares it.
    let frame = share_sigcode(&pvm.pmap, &mut cvm.pmap, &mut pool, 0).unwrap();
    assert_eq!(pmap_extract(&cvm.pmap, VirtAddr::new(SIGCODE_VA)), Some(frame));
    let mut third = pmap_create(&mut pool, 0, &mut asids);
    assert!(share_sigcode(&cvm.pmap, &mut third, &mut pool, 0).is_none());
    assert_eq!(pmap_extract(&third, VirtAddr::new(SIGCODE_VA)), Some(frame));
    let mut grandchild = VmMap::new(third);
    // The one page that is entered loses the right to be written.
    let page = PhysAddr::new(0x12_3000);
    pmap_enter(&mut cvm.pmap, &mut pool, 0, at(0x4000), page, rw, false).unwrap();
    let changed = cow_fork_vm(&mut cvm, &mut grandchild, &mut store, &mut pool, 0);
    assert_eq!(changed, vec![0x4000]);
    assert_eq!(grandchild.copy_entries().len(), 2);
}

#[test]
fn waiting_for_children_step_by_step() {
    let (mut table, a, b) = family();
    let at = table.find(a).unwrap();
    assert_eq!(sys_wait4(&mut table, at, -1, WNOHANG), Wait4Step::Done(Ok(0)));
    assert_eq!(sys_wait4(&mut table, at, -1, 0), Wait4Step::Sleep);
    assert_eq!(wait4_poll(&mut table, at, -1, 12), Wait4Step::Sleep);
    // The signal that a child sends does not interrupt the wait.
    assert_eq!(do_exit(&mut table, b, WaitStatus::exited(3)), vec![12]);
    assert_eq!(
        wait4_poll(&mut table, at, -1, 12),
        Wait4Step::Copy { pid: b, status: 3 << 8 }
    );
    assert!(!table.tasks[at].signals.pending.load().contains(Signal::new(SIGCHLD).unwrap()));
    assert_eq!(sys_wait4(&mut table, at, -1, 0), Wait4Step::Done(Err(Errno::Echild)));
    assert_eq!(wait4_poll(&mut table, at, -1, 12), Wait4Step::Done(Err(Errno::Echild)));
    table.tasks[at].signals.post_signal(SIGUSR1);
    assert_eq!(wait4_poll(&mut table, at, -1, 12), Wait4Step::Done(Err(Errno::Eintr)));
    assert_eq!(wait4_copied(7, None), Ok(7));
    assert_eq!(wait4_copied(7, Some(true)), Ok(7));
    assert_eq!(wait4_copied(7, Some(false)), Err(Errno::Efault));
}

#[test]
fn a_deep_copy_has_frames_of_its_own() {
    let mut pool = pool();
    let mut asids = AsidAllocator::new();
    let mut store = VmObjects::new();
    let p1 = pmap_create(&mut pool, 0, &mut asids);
    let p2 = pmap_create(&mut pool, 0, &mut asids);
    let mut pvm = VmMap::new(p1);
    let mut cvm = VmMap::new(p2);
    let rw = MapPerm::R() | MapPerm::W() | MapPerm::U();
    let ro = MapPerm::R() | MapPerm::U();
    let data = VmObject::new_anon(&mut store, 0x2000);
    let text = VmObject::new_file(&mut store, 9, String::from("/bin/p"), 0x1000);
    let at = |a: u64| VirtAddr::new(a);
    pvm.map(at(0x4000), at(0x6000), rw, VmMapping::AnonPrivate { object: data, offset: 0 }).unwrap();
    pvm.map(at(0x8000), at(0x9000), ro, VmMapping::FilePrivate { object: text, offset: 0 }).unwrap();
    let (a, b) = (PhysAddr::new(0x60_0000), PhysAddr::new(0x61_0000));
    pmap_enter(&mut pvm.pmap, &mut pool, 0, at(0x5000), a, rw, false).unwrap();
    pmap_enter(&mut pvm.pmap, &mut pool, 0, at(0x8000), b, ro, false).unwrap();

    let copies = deep_copy_pages(&pvm, &mut cvm, &mut store, &mut pool, 0);
    assert_eq!(copies.len(), 2);
    assert_eq!(copies[0].len(), 1);
    assert!(copies[1].is_empty());
    let c = copies[0][0];
    assert_eq!((c.va, c.from), (0x5000, a));
    assert_ne!(c.to, a);
    assert_eq!(pmap_extract(&cvm.pmap, at(0x5000)), Some(c.to));
    assert_eq!(pmap_extract(&cvm.pmap, at(0x8000)), Some(b));
    let mine = cvm.lookup(at(0x4000)).unwrap().mapping.object().unwrap();
    assert_ne!(mine, data);
    assert!(store.get(mine).backing().is_none());
    assert_eq!(VmObject::lookup_page(&store, mine, VObjIndex::new(1)), Some(c.to));
    assert_eq!(cvm.lookup(at(0x8000)).unwrap().mapping.object(), Some(text));
    assert_eq!(store.get(text).refs, 2);
}
