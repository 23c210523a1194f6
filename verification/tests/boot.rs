//! The start of the system.
use rustos::boot::{
    claim_boot, cpu_number, enter_program, first_launch, launch_step, memory_end, LaunchStep,
    RamRegion,
};
use rustos::hal::trap::TrapFrame;

#[test]
fn memory_ends_with_the_region_of_the_kernel() {
    let regions = vec![
        RamRegion { base: 0x1000_0000, size: 0x1000 },
        RamRegion { base: 0x8000_0000, size: 0x800_0000 },
        RamRegion { base: 0x9000_0000, size: 0x1000 },
    ];
    assert_eq!(memory_end(0x8020_0000, &regions), 0x8800_0000);
    // The kernel is in none of them.
    assert_eq!(memory_end(0x8800_0000, &regions), 0x9000_1000);
    assert_eq!(memory_end(0x8020_0000, &vec![]), 0);
}

#[test]
fn one_processor_starts_the_system() {
    let mut claimed = false;
    assert!(claim_boot(&mut claimed));
    assert!(!claim_boot(&mut claimed));
    assert_eq!(cpu_number(Some(3), 0), 3);
    assert_eq!(cpu_number(None, 2), 2);
}

#[test]
fn a_program_starts_in_user_mode() {
    let mut tf = TrapFrame::zero();
    enter_program(&mut tf, 0x1_0000, 0x7000);
    assert_eq!((tf.sepc, tf.x[2]), (0x1_0000, 0x7000));
    assert_eq!(tf.sstatus, (1 << 5) | (1 << 13));
}

#[test]
fn programs_are_tried_one_by_one() {
    let s = first_launch(2);
    assert_eq!(s, LaunchStep::Try(0));
    let s = launch_step(s, 2, false);
    assert_eq!(s, LaunchStep::Try(1));
    assert_eq!(launch_step(s, 2, true), LaunchStep::Launched);
    assert_eq!(launch_step(s, 2, false), LaunchStep::GiveUp);
    assert_eq!(first_launch(0), LaunchStep::GiveUp);
}
