use frame_store::budget::{FrameBudget, FrameBudgetError, MemoryBudget, MemoryBudgetError};
use frame_store::pacer::{FrameBurst, PacerError};
use frame_store::sizing::WindowSizingError;

#[test]
fn rounds_reservations_up_to_whole_units() {
    let mut budget = MemoryBudget::new(200, 64).unwrap();
    let permit = budget.reserve(65).unwrap().unwrap();

    assert_eq!(budget.capacity_bytes(), 192);
    assert_eq!(permit.requested_bytes(), 65);
    assert_eq!(permit.reserved_bytes(), 128);
    assert_eq!(budget.available_bytes(), 64);
    assert_eq!(budget.unit_size(), 64);
}

#[test]
fn rounds_total_capacity_down_to_preserve_the_hard_limit() {
    let mut budget = MemoryBudget::new(100, 64).unwrap();

    assert_eq!(budget.capacity_bytes(), 64);
    assert!(matches!(
        budget.reserve(65),
        Err(MemoryBudgetError::ReservationExceedsBudget { .. })
    ));
}

#[test]
fn waits_until_an_existing_reservation_is_dropped() {
    let mut budget = MemoryBudget::new(128, 64).unwrap();
    let first = budget.reserve(128).unwrap().unwrap();

    assert!(budget.reserve(64).unwrap().is_none());

    budget.release(first);
    let second = budget.reserve(64).unwrap().unwrap();
    assert_eq!(second.reserved_bytes(), 64);
}

#[test]
fn rejects_a_reservation_larger_than_the_whole_budget() {
    let mut budget = MemoryBudget::new(128, 64).unwrap();

    assert_eq!(
        budget.reserve(129).unwrap_err(),
        MemoryBudgetError::ReservationExceedsBudget {
            requested_bytes: 129,
            capacity_bytes: 128,
        }
    );
}

#[test]
fn rejects_a_budget_smaller_than_one_unit() {
    assert_eq!(
        MemoryBudget::new(63, 64).unwrap_err(),
        MemoryBudgetError::BudgetSmallerThanUnit {
            total_bytes: 63,
            unit_size: 64,
        }
    );
}

#[test]
fn rejects_empty_and_oversized_budgets() {
    assert_eq!(
        MemoryBudget::new(0, 64).unwrap_err(),
        MemoryBudgetError::ZeroTotalBytes
    );
    assert_eq!(
        MemoryBudget::new(64, 0).unwrap_err(),
        MemoryBudgetError::ZeroUnitSize
    );
    let units = u32::MAX as usize + 1;
    assert_eq!(
        MemoryBudget::new(units, 1).unwrap_err(),
        MemoryBudgetError::TooManyUnits { units }
    );
    assert_eq!(
        MemoryBudget::new(64, 64).unwrap().reserve(0).unwrap_err(),
        MemoryBudgetError::ZeroReservation
    );
}

#[test]
fn describes_memory_budget_errors() {
    let cases = [
        (
            MemoryBudgetError::BudgetSmallerThanUnit {
                total_bytes: 63,
                unit_size: 64,
            },
            "memory budget of 63 bytes cannot hold one 64-byte unit",
        ),
        (
            MemoryBudgetError::ReservationExceedsBudget {
                requested_bytes: 129,
                capacity_bytes: 128,
            },
            "reservation of 129 bytes exceeds budget capacity of 128 bytes",
        ),
        (MemoryBudgetError::Closed, "memory budget is closed"),
    ];
    for (error, text) in cases {
        assert_eq!(error.message(), text);
    }
}

#[test]
fn frame_permits_return_what_they_hold() {
    assert_eq!(
        FrameBudget::new(0).unwrap_err(),
        FrameBudgetError::ZeroFrames
    );
    let mut budget = FrameBudget::new(5).unwrap();
    let mut permit = budget.try_reserve(3).unwrap();
    assert_eq!(budget.available(), 2);
    assert_eq!(
        budget.try_reserve(3).unwrap_err(),
        FrameBudgetError::Unavailable
    );
    let other = budget.try_reserve(2).unwrap();
    permit.merge(other);
    assert_eq!(permit.frames(), 5);
    permit.shrink_to(1, &mut budget);
    assert_eq!((permit.frames(), budget.available()), (1, 4));
    permit.release(&mut budget);
    assert_eq!(budget.available(), 5);
}

#[test]
fn bursts_split_what_is_left() {
    assert_eq!(FrameBurst::new(0).unwrap_err(), PacerError::ZeroBurst);
    let burst = FrameBurst::new(2).unwrap();
    assert_eq!(burst.frames(), 2);
    assert_eq!((burst.segment(4), burst.segment(1)), (2, 1));
    assert_eq!(
        PacerError::ZeroBurst.message(),
        "frame burst must be positive"
    );
}

#[test]
fn describes_window_sizing_errors() {
    assert_eq!(
        WindowSizingError::FrameCountOverflow.message(),
        "calculated frame count overflows usize"
    );
    assert_eq!(
        WindowSizingError::ZeroFramesPerObject.message(),
        "frames per object must be positive"
    );
}
