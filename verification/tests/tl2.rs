use concurrent_kit::tl2::memory::Memory;
use concurrent_kit::tl2::read::ReadTrans;
use concurrent_kit::tl2::stm::{settle, STMResult, Verdict, STM};
use concurrent_kit::tl2::word::{
    is_aligned, is_valid_addr, lock_word, not_modified, stripe_index, version_of, LOCK_BIT,
    MEM_SIZE, STRIPE_SHIFT, STRIPE_SIZE, UNLOCK_ADDEND,
};
use concurrent_kit::tl2::write::WriteTrans;

#[test]
fn constants_fit_together() {
    assert_eq!(STRIPE_SIZE, 8);
    assert_eq!(MEM_SIZE, 512);
    assert_eq!(STRIPE_SHIFT, STRIPE_SIZE.trailing_zeros());
    assert_eq!(LOCK_BIT, 1 << 63);
    assert_eq!(UNLOCK_ADDEND, !(1u64 << 63));
}

#[test]
fn addresses_are_stripe_starts_inside_memory() {
    assert!(is_aligned(0));
    assert!(is_aligned(8));
    assert!(!is_aligned(9));
    assert!(is_aligned(512));
    assert!(is_valid_addr(0));
    assert!(is_valid_addr(504));
    assert!(!is_valid_addr(505));
    assert!(!is_valid_addr(512));
    assert!(!is_valid_addr(12));
    assert_eq!(stripe_index(0, STRIPE_SHIFT), 0);
    assert_eq!(stripe_index(15, STRIPE_SHIFT), 1);
    assert_eq!(stripe_index(16, STRIPE_SHIFT), 2);
    assert_eq!(stripe_index(504, STRIPE_SHIFT), 63);
}

#[test]
fn lock_words_carry_lock_and_version() {
    assert_eq!(version_of(5), 5);
    assert_eq!(version_of(LOCK_BIT | 5), 5);
    assert_eq!(version_of(u64::MAX), UNLOCK_ADDEND);
    assert_eq!(lock_word(5), Some(LOCK_BIT | 5));
    assert_eq!(lock_word(0), Some(LOCK_BIT));
    assert_eq!(lock_word(LOCK_BIT | 5), None);
    assert!(not_modified(3, 3));
    assert!(not_modified(2, 3));
    assert!(!not_modified(4, 3));
    // A locked stripe never passes, whatever its version.
    assert!(!not_modified(LOCK_BIT, 3));
    assert!(!not_modified(LOCK_BIT | 1, UNLOCK_ADDEND));
}

#[test]
fn new_memory_is_zero_and_unlocked() {
    let mut mem = Memory::new();
    assert_eq!(mem.read_clock(), 0);
    for addr in (0..MEM_SIZE).step_by(STRIPE_SIZE) {
        assert_eq!(mem.read_stripe(addr), [0u8; 8]);
        assert_eq!(mem.get_addr_ver(addr), 0);
        assert!(mem.test_not_modify(addr, 0));
    }
    assert!(mem.lock_addr(0));
}

#[test]
fn clock_counts_up() {
    let mut mem = Memory::new();
    assert_eq!(mem.inc_global_clock(), 0);
    assert_eq!(mem.inc_global_clock(), 1);
    assert_eq!(mem.read_clock(), 2);
}

#[test]
fn stripe_is_locked_once() {
    let mut mem = Memory::new();
    mem.publish(16, 4);
    assert_eq!(mem.get_addr_ver(16), 4);
    assert!(mem.test_not_modify(16, 4));
    assert!(mem.lock_addr(16));
    // Locked: a second attempt fails, readers are turned away, the version
    // is still there.
    assert!(!mem.lock_addr(16));
    assert!(!mem.lock_addr(23));
    assert!(!mem.test_not_modify(16, u64::MAX >> 1));
    assert_eq!(mem.get_addr_ver(16), 4);
    // The neighbours are not affected.
    assert!(mem.test_not_modify(8, 0));
    assert!(mem.lock_addr(24));
}

#[test]
fn unlock_lowers_the_version() {
    let mut mem = Memory::new();
    mem.publish(8, 4);
    assert!(mem.lock_addr(8));
    mem.unlock_addr(8);
    assert_eq!(mem.get_addr_ver(8), 3);
    assert!(mem.test_not_modify(8, 3));
    assert!(mem.lock_addr(8));
}

#[test]
fn unlock_at_version_zero_sets_every_bit() {
    let mut mem = Memory::new();
    assert!(mem.lock_addr(8));
    mem.unlock_addr(8);
    assert_eq!(mem.get_addr_ver(8), UNLOCK_ADDEND);
    assert!(!mem.lock_addr(8));
}

#[test]
fn publish_sets_version_and_unlocks() {
    let mut mem = Memory::new();
    assert!(mem.lock_addr(40));
    mem.publish(40, 9);
    assert_eq!(mem.get_addr_ver(40), 9);
    assert!(!mem.test_not_modify(40, 8));
    assert!(mem.test_not_modify(40, 9));
    assert!(mem.lock_addr(40));
}

#[test]
fn stripes_are_written_and_read() {
    let mut mem = Memory::new();
    mem.write_stripe(8, &[1, 2, 3, 4, 5, 6, 7, 8]);
    assert_eq!(mem.read_stripe(8), [1, 2, 3, 4, 5, 6, 7, 8]);
    assert_eq!(mem.read_stripe(0), [0; 8]);
    assert_eq!(mem.read_stripe(16), [0; 8]);
}

#[test]
fn read_transaction_reads_current_memory() {
    let mut mem = Memory::new();
    mem.write_stripe(24, &[9; 8]);
    let mut tr = ReadTrans::new(&mem);
    assert!(!tr.is_abort);
    assert_eq!(tr.read_ver, 0);
    assert_eq!(tr.load(24), Some([9; 8]));
    assert_eq!(tr.load(0), Some([0; 8]));
    assert!(!tr.is_abort);
}

#[test]
fn read_transaction_aborts_on_newer_or_locked_stripe() {
    let mut mem = Memory::new();
    mem.publish(8, 1);
    assert!(mem.lock_addr(16));
    let mut tr = ReadTrans::new(&mem);
    assert_eq!(tr.load(0), Some([0; 8]));
    assert_eq!(tr.load(8), None);
    assert!(tr.is_abort);
    // Once aborted it reads nothing, not even what it could read before.
    assert_eq!(tr.load(0), None);
    let mut tr = ReadTrans::new(&mem);
    assert_eq!(tr.load(16), None);
    assert!(tr.is_abort);
}

#[test]
fn write_transaction_reads_its_own_writes() {
    let mut mem = Memory::new();
    mem.write_stripe(0, &[7; 8]);
    let mut tr = WriteTrans::new(&mut mem);
    assert_eq!(tr.load(0), Some([7; 8]));
    tr.store(0, [1; 8]);
    tr.store(8, [2; 8]);
    tr.store(0, [3; 8]);
    assert_eq!(tr.load(0), Some([3; 8]));
    assert_eq!(tr.load(8), Some([2; 8]));
    assert_eq!(tr.load(16), Some([0; 8]));
    assert!(tr.read_set.contains(&0) && tr.read_set.contains(&8) && tr.read_set.contains(&16));
    assert_eq!(tr.read_set.len(), 3);
    assert_eq!(tr.write_set.len(), 2);
    // Nothing has reached memory yet.
    assert_eq!(tr.mem.read_stripe(0), [7; 8]);
    assert_eq!(tr.mem.read_stripe(8), [0; 8]);
}

#[test]
fn write_transaction_aborts_on_conflict() {
    let mut mem = Memory::new();
    mem.publish(8, 3);
    let mut tr = WriteTrans::new(&mut mem);
    tr.store(8, [1; 8]);
    // Its own write is served from the write set, whatever the stripe's state.
    assert_eq!(tr.load(8), Some([1; 8]));
    assert!(!tr.is_abort);
    tr.mem.publish(16, 3);
    assert_eq!(tr.load(16), None);
    assert!(tr.is_abort);
    assert!(!tr.read_set.contains(&24));
    assert_eq!(tr.load(24), None);
    assert!(!tr.read_set.contains(&24));
    assert_eq!(tr.load(8), None);
}

#[test]
fn commit_writes_memory_and_versions() {
    let mut mem = Memory::new();
    mem.write_stripe(16, &[5; 8]);
    {
        let mut tr = WriteTrans::new(&mut mem);
        tr.store(0, [1, 2, 3, 4, 5, 6, 7, 8]);
        tr.store(504, [9; 8]);
        assert!(tr.lock_write_set());
        let mut locked = tr.locked.clone();
        locked.sort();
        assert_eq!(locked, vec![0, 504]);
        assert!(tr.validate_read_set());
        let ver = tr.mem.inc_global_clock() + 1;
        assert_eq!(ver, 1);
        tr.commit(ver);
        assert!(tr.locked.is_empty());
        assert_eq!(tr.write_set.len(), 2);
    }
    assert_eq!(mem.read_stripe(0), [1, 2, 3, 4, 5, 6, 7, 8]);
    assert_eq!(mem.read_stripe(504), [9; 8]);
    assert_eq!(mem.read_stripe(8), [0; 8]);
    assert_eq!(mem.read_stripe(16), [5; 8]);
    assert_eq!(mem.get_addr_ver(0), 1);
    assert_eq!(mem.get_addr_ver(504), 1);
    assert_eq!(mem.get_addr_ver(8), 0);
    // The stripes are unlocked again.
    assert!(mem.test_not_modify(0, 1));
    // A reader that starts now sees the new content; one from before the
    // commit is turned away.
    let mut now = ReadTrans::new(&mem);
    assert_eq!(now.read_ver, 1);
    assert_eq!(now.load(0), Some([1, 2, 3, 4, 5, 6, 7, 8]));
    let mut stale = ReadTrans { read_ver: 0, is_abort: false, mem: &mem };
    assert_eq!(stale.load(0), None);
    assert!(stale.is_abort);
    assert_eq!(stale.read_ver, 0);
}

#[test]
fn locking_stops_at_a_stripe_held_by_another() {
    let mut mem = Memory::new();
    assert!(mem.lock_addr(8));
    let mut tr = WriteTrans::new(&mut mem);
    tr.store(8, [1; 8]);
    assert!(!tr.lock_write_set());
    assert!(tr.locked.is_empty());
    tr.release_locks();
    assert_eq!(tr.write_set.len(), 1);
}

#[test]
fn giving_up_releases_the_locks_taken() {
    let mut mem = Memory::new();
    mem.publish(0, 2);
    mem.publish(8, 2);
    {
        let mut tr = WriteTrans::new(&mut mem);
        tr.store(0, [1; 8]);
        tr.store(8, [1; 8]);
        assert!(tr.lock_write_set());
        assert_eq!(tr.locked.len(), 2);
        tr.release_locks();
        assert!(tr.locked.is_empty());
        assert_eq!(tr.write_set.len(), 2);
        // Nothing is held any more: releasing again changes nothing.
        tr.release_locks();
        assert_eq!(tr.mem.get_addr_ver(0), 1);
        assert_eq!(tr.mem.get_addr_ver(8), 1);
    }
    assert!(mem.lock_addr(0));
    assert!(mem.lock_addr(8));
    assert_eq!(mem.read_stripe(0), [0; 8]);
}

#[test]
fn read_set_is_validated_against_the_start_of_the_transaction() {
    let mut mem = Memory::new();
    let mut tr = WriteTrans::new(&mut mem);
    assert_eq!(tr.load(0), Some([0; 8]));
    assert_eq!(tr.load(8), Some([0; 8]));
    tr.store(8, [1; 8]);
    assert!(tr.validate_read_set());
    // A stripe that is read and written passes while this transaction holds
    // its lock.
    assert!(tr.lock_write_set());
    assert!(tr.validate_read_set());
    // Somebody else committed to a stripe that was only read.
    tr.mem.publish(0, 1);
    assert!(!tr.validate_read_set());
    tr.mem.publish(0, 0);
    assert!(tr.validate_read_set());
    // Or to one that is read and written.
    tr.mem.publish(8, 1);
    assert!(!tr.validate_read_set());
}

#[test]
fn empty_write_set_is_locked_at_once() {
    let mut mem = Memory::new();
    let mut tr = WriteTrans::new(&mut mem);
    assert!(tr.lock_write_set());
    assert!(tr.locked.is_empty());
}

#[test]
fn locking_counts_the_stripes_it_got() {
    let mut mem = Memory::new();
    assert!(mem.lock_addr(8));
    let mut tr = WriteTrans::new(&mut mem);
    tr.store(0, [1; 8]);
    tr.store(8, [1; 8]);
    tr.store(16, [1; 8]);
    // The stripe at 8 is held by somebody else.
    assert!(!tr.lock_write_set());
    assert!(tr.locked.len() < 3);
    assert!(!tr.locked.contains(&8));
}

#[test]
fn nothing_read_is_always_valid() {
    let mut mem = Memory::new();
    mem.publish(0, 7);
    let mut tr = WriteTrans::new(&mut mem);
    tr.store(0, [1; 8]);
    assert!(tr.read_set.is_empty());
    assert!(tr.validate_read_set());
}

#[test]
fn largest_read_version_accepts_every_word() {
    let mut mem = Memory::new();
    mem.publish(0, 7);
    assert!(mem.lock_addr(8));
    assert!(mem.test_not_modify(0, u64::MAX));
    assert!(mem.test_not_modify(8, u64::MAX));
    let mut tr = WriteTrans::new(&mut mem);
    tr.read_ver = u64::MAX;
    assert_eq!(tr.load(0), Some([0; 8]));
    assert_eq!(tr.load(8), Some([0; 8]));
    tr.store(8, [1; 8]);
    assert!(tr.validate_read_set());
}

#[test]
fn verdicts() {
    assert_eq!(settle(STMResult::Done(3), false), Verdict::Return(Some(3)));
    assert_eq!(settle(STMResult::Done(3), true), Verdict::Again);
    assert_eq!(settle(STMResult::<i32>::Retry, true), Verdict::Again);
    assert_eq!(settle(STMResult::<i32>::Retry, false), Verdict::Return(None));
    assert_eq!(settle(STMResult::<i32>::Abort, true), Verdict::Return(None));
    assert_eq!(settle(STMResult::<i32>::Abort, false), Verdict::Return(None));
}

#[test]
fn stm_starts_transactions() {
    let mut stm = STM::new();
    {
        let mut tr = stm.begin_write();
        assert!(!tr.is_abort);
        assert!(tr.read_set.is_empty() && tr.write_set.is_empty() && tr.locked.is_empty());
        tr.store(0, [4; 8]);
        assert!(tr.lock_write_set());
        let ver = tr.mem.inc_global_clock() + 1;
        tr.commit(ver);
    }
    let mut tr = stm.begin_read();
    assert!(!tr.is_abort);
    assert_eq!(tr.load(0), Some([4; 8]));
    assert_eq!(tr.load(8), Some([0; 8]));
}
