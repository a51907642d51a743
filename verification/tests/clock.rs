use consensus_graph::error::ModelsError;
use consensus_graph::slot::Slot;
use consensus_graph::time::{
    get_block_slot_timestamp, get_latest_block_slot_at_timestamp, MassaTime,
};

fn ms(v: u64) -> MassaTime {
    MassaTime::from_millis(v)
}

#[test]
fn slot_start_times() {
    // 32 threads, periods of 16 s, genesis at 1000
    assert_eq!(get_block_slot_timestamp(32, ms(16000), ms(1000), Slot::new(0, 0)), Ok(ms(1000)));
    assert_eq!(get_block_slot_timestamp(32, ms(16000), ms(1000), Slot::new(0, 1)), Ok(ms(1500)));
    assert_eq!(
        get_block_slot_timestamp(32, ms(16000), ms(1000), Slot::new(3, 31)),
        Ok(ms(1000 + 3 * 16000 + 31 * 500))
    );
    // a period that is no multiple of the thread count: the step is rounded down
    assert_eq!(get_block_slot_timestamp(3, ms(10), ms(0), Slot::new(1, 2)), Ok(ms(16)));
    assert_eq!(
        get_block_slot_timestamp(0, ms(10), ms(0), Slot::new(1, 0)),
        Err(ModelsError::TimeOverflowError)
    );
    assert_eq!(
        get_block_slot_timestamp(2, ms(10), ms(u64::MAX - 9), Slot::new(1, 0)),
        Err(ModelsError::TimeOverflowError)
    );
    assert_eq!(
        get_block_slot_timestamp(2, ms(10), ms(u64::MAX - 10), Slot::new(1, 0)),
        Ok(ms(u64::MAX))
    );
    assert_eq!(
        get_block_slot_timestamp(2, ms(u64::MAX), ms(0), Slot::new(2, 0)),
        Err(ModelsError::TimeOverflowError)
    );
}

#[test]
fn latest_slot_at_a_time() {
    let at = |t: u64| get_latest_block_slot_at_timestamp(32, ms(16000), ms(1000), ms(t));
    assert_eq!(at(0), Ok(None));
    assert_eq!(at(999), Ok(None));
    assert_eq!(at(1000), Ok(Some(Slot::new(0, 0))));
    assert_eq!(at(1499), Ok(Some(Slot::new(0, 0))));
    assert_eq!(at(1500), Ok(Some(Slot::new(0, 1))));
    assert_eq!(at(1000 + 16000 - 1), Ok(Some(Slot::new(0, 31))));
    assert_eq!(at(1000 + 16000), Ok(Some(Slot::new(1, 0))));
    // the start time of a slot is in that slot
    for slot in [Slot::new(0, 0), Slot::new(5, 17), Slot::new(1000, 31)] {
        let start = get_block_slot_timestamp(32, ms(16000), ms(1000), slot).unwrap();
        assert_eq!(
            get_latest_block_slot_at_timestamp(32, ms(16000), ms(1000), start),
            Ok(Some(slot))
        );
    }
    assert_eq!(
        get_latest_block_slot_at_timestamp(0, ms(16000), ms(0), ms(5)),
        Err(ModelsError::TimeOverflowError)
    );
    // a period shorter than the number of threads
    assert_eq!(
        get_latest_block_slot_at_timestamp(32, ms(16), ms(0), ms(5)),
        Err(ModelsError::TimeOverflowError)
    );
    // a thread that does not fit a byte
    assert_eq!(
        get_latest_block_slot_at_timestamp(200, ms(300), ms(0), ms(299)),
        Err(ModelsError::ThreadOverflowError)
    );
}

#[test]
fn times() {
    assert_eq!(ms(5).to_millis(), 5);
    assert_eq!(ms(5).saturating_sub(ms(3)), ms(2));
    assert_eq!(ms(3).saturating_sub(ms(5)), ms(0));
    assert_eq!(ms(5).checked_add(ms(3)), Ok(ms(8)));
    assert_eq!(ms(u64::MAX).checked_add(ms(1)), Err(ModelsError::TimeOverflowError));
    assert_eq!(ms(5).checked_sub(ms(5)), Ok(ms(0)));
    assert_eq!(ms(5).checked_sub(ms(6)), Err(ModelsError::TimeOverflowError));
    assert_eq!(ms(5).checked_mul(3), Ok(ms(15)));
    assert_eq!(ms(u64::MAX / 2 + 1).checked_mul(2), Err(ModelsError::TimeOverflowError));
    assert_eq!(ms(15).checked_div_u64(4), Ok(ms(3)));
    assert_eq!(ms(15).checked_div_u64(0), Err(ModelsError::TimeOverflowError));
    // 1 day, 2 hours, 3 minutes, 4 seconds, and a bit
    let d = ms(((24 + 2) * 3600 + 3 * 60 + 4) * 1000 + 567);
    assert_eq!(d.days_hours_mins_secs(), (1, 2, 3, 4));
    assert_eq!(ms(0).days_hours_mins_secs(), (0, 0, 0, 0));
}
