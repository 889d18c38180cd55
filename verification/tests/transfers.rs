use rgraph::io::aligned_buffer::AlignedBuffer;
use rgraph::io::fault::{
    read_action, set_len_action, sync_action, write_action, Action, DeterministicIoUring,
    FaultConfig, FaultInjector, FaultKind, FaultRule, OpMask,
};
use rgraph::io::transfer::{
    after_submit, check_done, check_transfer, first_step, is_direct, next_step, reaped,
    AfterSubmit, RingError, Step, Submitted,
};

#[test]
fn allocation_is_aligned() {
    let buf = AlignedBuffer::zeroed(8192);
    assert_eq!(buf.len(), 8192);
    assert_eq!(buf.as_slice().as_ptr() as usize % AlignedBuffer::ALIGNMENT, 0);
}

#[test]
fn zeroed_buffer_is_all_zeros() {
    let buf = AlignedBuffer::zeroed(8192);
    assert!(buf.as_slice().iter().all(|b| *b == 0));
}

#[test]
fn resize_grows_and_zeros() {
    let mut buf = AlignedBuffer::zeroed(4096);
    buf.set(0, 1);
    buf.resize(8192);
    assert_eq!(buf.len(), 8192);
    assert_eq!(buf.as_slice()[0], 1);
    assert!(buf.as_slice()[4096..].iter().all(|b| *b == 0));
}

#[test]
fn resize_shrinks() {
    let mut buf = AlignedBuffer::zeroed(8192);
    buf.resize(4096);
    assert_eq!(buf.len(), 4096);
}

#[test]
fn duplicate_is_a_buffer_of_its_own() {
    let mut buf = AlignedBuffer::zeroed(4096);
    buf.as_mut_slice()[3] = 7;
    let copy = buf.duplicate();
    buf.set(3, 8);
    assert_eq!(copy.as_slice()[3], 7);
    assert_eq!(copy.as_slice().as_ptr() as usize % AlignedBuffer::ALIGNMENT, 0);
    assert!(AlignedBuffer::zeroed(0).is_empty());
}

/// An injector with one rule.
fn injector(op_mask: OpMask, kind: FaultKind, every_n: Option<u64>) -> FaultInjector {
    let mut injector = FaultInjector::new();
    injector.set_config(FaultConfig {
        rules: vec![FaultRule {
            op_mask,
            kind,
            every_n,
        }],
    });
    injector
}

fn read_op() -> OpMask {
    OpMask {
        read: true,
        ..OpMask::default()
    }
}

fn write_op() -> OpMask {
    OpMask {
        write: true,
        ..OpMask::default()
    }
}

fn sync_data_op() -> OpMask {
    OpMask {
        sync_data: true,
        ..OpMask::default()
    }
}

#[test]
fn fault_inject_eio_on_read() {
    let mut faults = injector(read_op(), FaultKind::Eio, None);
    assert_eq!(read_action(faults.maybe_fault(read_op())), Action::FailIo);
    assert_eq!(write_action(faults.maybe_fault(write_op())), Action::Proceed);
}

#[test]
fn fault_inject_enospc_on_write() {
    let mut faults = injector(write_op(), FaultKind::Enospc, None);
    assert_eq!(write_action(faults.maybe_fault(write_op())), Action::FailNoSpace);
    assert_eq!(read_action(faults.maybe_fault(read_op())), Action::Proceed);
}

#[test]
fn fault_inject_fsync_fail() {
    let mut faults = injector(sync_data_op(), FaultKind::FsyncFail, None);
    assert_eq!(sync_action(faults.maybe_fault(sync_data_op())), Action::FailIo);
}

#[test]
fn fault_inject_partial_write() {
    let factor_bits = 0.5f64.to_bits();
    let mut faults = injector(write_op(), FaultKind::PartialWrite { factor_bits }, None);
    // Of eight bytes, four are written.
    let action = write_action(faults.maybe_fault(write_op()));
    assert_eq!(action, Action::Truncate { factor_bits });
    assert_eq!(sync_action(faults.maybe_fault(sync_data_op())), Action::Proceed);
}

#[test]
fn deterministic_uring_replays_script() {
    let mut ring = DeterministicIoUring::new(vec![Ok(512), Ok(1024), Err(libc::EIO)]);

    assert_eq!(ring.next_completion().unwrap().unwrap(), 512);
    assert_eq!(ring.next_completion().unwrap().unwrap(), 1024);
    let err = ring.next_completion().unwrap().unwrap_err();
    assert_eq!(err, libc::EIO);
    assert!(ring.next_completion().is_none());
}

#[test]
fn fault_inject_delay_does_not_panic() {
    let mut faults = injector(read_op(), FaultKind::Delay { delay_ms: 1 }, None);
    assert_eq!(
        read_action(faults.maybe_fault(read_op())),
        Action::Wait { delay_ms: 1 }
    );
}

#[test]
fn fault_in_every_third_operation() {
    let mut faults = injector(read_op(), FaultKind::Eio, Some(3));
    let hit: Vec<bool> = (0..7).map(|_| faults.maybe_fault(read_op()).is_some()).collect();
    assert_eq!(hit, vec![true, false, false, true, false, false, true]);
    assert_eq!(faults.op_counter, 7);
    assert_eq!(set_len_action(Some(FaultKind::Enospc)), Action::Proceed);
    assert_eq!(set_len_action(Some(FaultKind::Eio)), Action::FailIo);
}

#[test]
fn added_completions_come_last() {
    let mut ring = DeterministicIoUring::new(vec![Ok(1)]);
    ring.push_completion(Err(5));
    assert_eq!(ring.next_completion(), Some(Ok(1)));
    assert_eq!(ring.next_completion(), Some(Err(5)));
    assert_eq!(ring.next_completion(), None);
}

#[test]
fn transfer_goes_on_until_all_is_there() {
    assert_eq!(first_step(0), Step::Done);
    assert_eq!(first_step(10), Step::More { total: 0 });
    assert_eq!(next_step(0, 4, 10), Step::More { total: 4 });
    assert_eq!(next_step(4, 6, 10), Step::Done);
    assert_eq!(next_step(4, 0, 10), Step::Short);
}

#[test]
fn direct_transfers_are_aligned() {
    assert!(is_direct(8192, 4096, 0));
    assert!(!is_direct(8193, 4096, 0));
    assert!(!is_direct(8192, 100, 0));
    assert!(!is_direct(8192, 4096, 512));
}

#[test]
fn ring_completions() {
    assert_eq!(after_submit(Submitted::Completed), AfterSubmit::Reap);
    assert_eq!(after_submit(Submitted::Interrupted), AfterSubmit::Retry);
    assert_eq!(after_submit(Submitted::Refused), AfterSubmit::DrainAndFail);
    assert_eq!(reaped(Some((1, 9)), 1), Ok(9));
    assert_eq!(reaped(None, 1), Err(RingError::NoCompletion));
    assert_eq!(
        reaped(Some((2, 9)), 1),
        Err(RingError::Stale {
            expected_tag: 1,
            got_tag: 2
        })
    );
    assert_eq!(check_done(0), Ok(()));
    assert_eq!(check_done(-5), Err(RingError::Os { code: 5 }));
    assert_eq!(check_transfer(512, 512), Ok(()));
    assert_eq!(
        check_transfer(100, 512),
        Err(RingError::Short {
            expected: 512,
            got: 100
        })
    );
    assert_eq!(check_transfer(-28, 512), Err(RingError::Os { code: 28 }));
}
