//! Counted budgets: memory in units, and decoded frames.
//!
//! A budget hands out permits and takes them back. Waiting for a permit that
//! is not free is the caller's part.
use vstd::prelude::*;

use crate::text::{decimal, push_decimal, push_text};

verus! {

#[derive(Clone, Copy, Debug, PartialEq, Eq, Structural)]
pub enum MemoryBudgetError {
    ZeroTotalBytes,
    ZeroUnitSize,
    BudgetSmallerThanUnit { total_bytes: usize, unit_size: usize },
    ZeroReservation,
    TooManyUnits { units: usize },
    ReservationExceedsBudget { requested_bytes: usize, capacity_bytes: usize },
    Closed,
}

impl MemoryBudgetError {
    pub open spec fn text(self) -> Seq<char> {
        match self {
            MemoryBudgetError::ZeroTotalBytes => "memory budget must be greater than zero"@,
            MemoryBudgetError::ZeroUnitSize => "memory unit size must be greater than zero"@,
            MemoryBudgetError::BudgetSmallerThanUnit { total_bytes, unit_size } =>
            "memory budget of "@ + decimal(total_bytes as nat) + " bytes cannot hold one "@
                + decimal(unit_size as nat) + "-byte unit"@,
            MemoryBudgetError::ZeroReservation => "memory reservation must be greater than zero"@,
            MemoryBudgetError::TooManyUnits { units } =>
            "memory budget requires too many semaphore units: "@ + decimal(units as nat),
            MemoryBudgetError::ReservationExceedsBudget { requested_bytes, capacity_bytes } =>
            "reservation of "@ + decimal(requested_bytes as nat)
                + " bytes exceeds budget capacity of "@ + decimal(capacity_bytes as nat)
                + " bytes"@,
            MemoryBudgetError::Closed => "memory budget is closed"@,
        }
    }

    pub fn message(&self) -> (text: String)
        ensures
            text@ == self.text(),
    {
        let mut text: String = String::new();
        match self {
            MemoryBudgetError::ZeroTotalBytes => push_text(
                &mut text,
                "memory budget must be greater than zero",
            ),
            MemoryBudgetError::ZeroUnitSize => push_text(
                &mut text,
                "memory unit size must be greater than zero",
            ),
            MemoryBudgetError::BudgetSmallerThanUnit { total_bytes, unit_size } => {
                push_text(&mut text, "memory budget of ");
                push_decimal(&mut text, *total_bytes as u64);
                push_text(&mut text, " bytes cannot hold one ");
                push_decimal(&mut text, *unit_size as u64);
                push_text(&mut text, "-byte unit");
            },
            MemoryBudgetError::ZeroReservation => push_text(
                &mut text,
                "memory reservation must be greater than zero",
            ),
            MemoryBudgetError::TooManyUnits { units } => {
                push_text(&mut text, "memory budget requires too many semaphore units: ");
                push_decimal(&mut text, *units as u64);
            },
            MemoryBudgetError::ReservationExceedsBudget { requested_bytes, capacity_bytes } => {
                push_text(&mut text, "reservation of ");
                push_decimal(&mut text, *requested_bytes as u64);
                push_text(&mut text, " bytes exceeds budget capacity of ");
                push_decimal(&mut text, *capacity_bytes as u64);
                push_text(&mut text, " bytes");
            },
            MemoryBudgetError::Closed => push_text(&mut text, "memory budget is closed"),
        }
        assert(text@ =~= self.text());
        text
    }
}

/// The most permits that a budget counts.
pub const MAX_PERMITS: usize = usize::MAX >> 3;

/// Whole units that hold `bytes`.
pub open spec fn units_for(bytes: int, unit_size: int) -> int {
    if bytes % unit_size == 0 {
        bytes / unit_size
    } else {
        bytes / unit_size + 1
    }
}

fn count_units(bytes: usize, unit_size: usize) -> (units: usize)
    requires
        unit_size > 0,
    ensures
        units == units_for(bytes as int, unit_size as int),
{
    let full: usize = bytes / unit_size;
    if bytes % unit_size == 0 {
        full
    } else {
        proof {
            vstd::arithmetic::div_mod::lemma_fundamental_div_mod(bytes as int, unit_size as int);
            assert(full < bytes) by (nonlinear_arith)
                requires
                    bytes == unit_size * full + bytes as int % unit_size as int,
                    bytes as int % unit_size as int > 0,
                    unit_size > 0,
                    full >= 0,
            ;
        }
        full + 1
    }
}

/// A coarse, global budget for streaming memory. Reservations are rounded up
/// to whole units.
#[derive(Debug)]
pub struct MemoryBudget {
    unit_size: usize,
    total_units: u32,
    available_units: u32,
}

/// What a memory budget is: its unit, how many units it has and how many are
/// free.
pub struct MemoryBudgetView {
    pub unit_size: int,
    pub total_units: int,
    pub available_units: int,
}

impl MemoryBudgetView {
    pub open spec fn wf(self) -> bool {
        &&& self.unit_size > 0
        &&& 0 <= self.available_units <= self.total_units
        &&& 0 < self.total_units <= u32::MAX
        &&& self.total_units * self.unit_size <= usize::MAX
    }

    pub open spec fn capacity(self) -> int {
        self.total_units * self.unit_size
    }
}

/// Units held from a memory budget.
#[derive(Debug)]
pub struct MemoryPermit {
    units: u32,
    requested_bytes: usize,
    reserved_bytes: usize,
}

/// What a memory permit is.
pub struct MemoryPermitView {
    pub units: int,
    pub requested_bytes: int,
    pub reserved_bytes: int,
}

impl View for MemoryPermit {
    type V = MemoryPermitView;

    closed spec fn view(&self) -> MemoryPermitView {
        MemoryPermitView {
            units: self.units as int,
            requested_bytes: self.requested_bytes as int,
            reserved_bytes: self.reserved_bytes as int,
        }
    }
}

impl MemoryPermit {
    pub fn requested_bytes(&self) -> (bytes: usize)
        ensures
            bytes == self@.requested_bytes,
    {
        self.requested_bytes
    }

    pub fn reserved_bytes(&self) -> (bytes: usize)
        ensures
            bytes == self@.reserved_bytes,
    {
        self.reserved_bytes
    }
}

impl View for MemoryBudget {
    type V = MemoryBudgetView;

    closed spec fn view(&self) -> MemoryBudgetView {
        MemoryBudgetView {
            unit_size: self.unit_size as int,
            total_units: self.total_units as int,
            available_units: self.available_units as int,
        }
    }
}

impl MemoryBudget {
    pub fn new(total_bytes: usize, unit_size: usize) -> (budget: Result<
        MemoryBudget,
        MemoryBudgetError,
    >)
        ensures
            match budget {
                Ok(b) => {
                    &&& total_bytes > 0
                    &&& unit_size > 0
                    &&& 0 < total_bytes as int / unit_size as int <= u32::MAX
                    &&& total_bytes as int / unit_size as int <= MAX_PERMITS
                    &&& b@.wf()
                    &&& b@ == (MemoryBudgetView {
                        unit_size: unit_size as int,
                        total_units: total_bytes as int / unit_size as int,
                        available_units: total_bytes as int / unit_size as int,
                    })
                    &&& b@.capacity() <= total_bytes
                },
                Err(MemoryBudgetError::ZeroTotalBytes) => total_bytes == 0,
                Err(MemoryBudgetError::ZeroUnitSize) => total_bytes > 0 && unit_size == 0,
                Err(MemoryBudgetError::BudgetSmallerThanUnit { total_bytes: t, unit_size: u }) => {
                    &&& 0 < total_bytes < unit_size
                    &&& t == total_bytes
                    &&& u == unit_size
                },
                Err(MemoryBudgetError::TooManyUnits { units }) => {
                    &&& unit_size > 0
                    &&& units == total_bytes as int / unit_size as int
                    &&& units > u32::MAX || units > MAX_PERMITS
                },
                Err(_) => false,
            },
    {
        if total_bytes == 0 {
            return Err(MemoryBudgetError::ZeroTotalBytes);
        }
        if unit_size == 0 {
            return Err(MemoryBudgetError::ZeroUnitSize);
        }
        let units: usize = total_bytes / unit_size;
        proof {
            vstd::arithmetic::div_mod::lemma_fundamental_div_mod(
                total_bytes as int,
                unit_size as int,
            );
            assert(units * unit_size <= total_bytes) by (nonlinear_arith)
                requires
                    total_bytes == unit_size * units + total_bytes as int % unit_size as int,
                    total_bytes as int % unit_size as int >= 0,
            ;
            if units == 0 {
                assert(total_bytes < unit_size) by (nonlinear_arith)
                    requires
                        total_bytes == unit_size * units + total_bytes as int % unit_size as int,
                        total_bytes as int % unit_size as int <= unit_size - 1,
                        units == 0,
                ;
            }
        }
        if units == 0 {
            return Err(MemoryBudgetError::BudgetSmallerThanUnit { total_bytes, unit_size });
        }
        if units as u64 > u32::MAX as u64 {
            return Err(MemoryBudgetError::TooManyUnits { units });
        }
        if units > MAX_PERMITS {
            return Err(MemoryBudgetError::TooManyUnits { units });
        }
        Ok(
            MemoryBudget {
                unit_size,
                total_units: units as u32,
                available_units: units as u32,
            },
        )
    }

    /// Reserves whole units for `bytes` where they are free, and nothing where
    /// the caller has to wait.
    pub fn reserve(&mut self, bytes: usize) -> (permit: Result<
        Option<MemoryPermit>,
        MemoryBudgetError,
    >)
        requires
            old(self)@.wf(),
        ensures
            final(self)@.wf(),
            ({
                let before = old(self)@;
                let units = units_for(bytes as int, before.unit_size);
                match permit {
                    Ok(Some(p)) => {
                        &&& bytes > 0
                        &&& units <= before.available_units
                        &&& p@ == (MemoryPermitView {
                            units,
                            requested_bytes: bytes as int,
                            reserved_bytes: units * before.unit_size,
                        })
                        &&& final(self)@ == (MemoryBudgetView {
                            available_units: before.available_units - units,
                            ..before
                        })
                    },
                    Ok(None) => {
                        &&& bytes > 0
                        &&& before.available_units < units <= before.total_units
                        &&& final(self)@ == before
                    },
                    Err(MemoryBudgetError::ZeroReservation) => bytes == 0 && final(self)@ == before,
                    Err(
                        MemoryBudgetError::ReservationExceedsBudget {
                            requested_bytes,
                            capacity_bytes,
                        },
                    ) => {
                        &&& bytes > 0
                        &&& units > before.total_units
                        &&& requested_bytes == bytes
                        &&& capacity_bytes == before.capacity()
                        &&& final(self)@ == before
                    },
                    Err(_) => false,
                }
            }),
    {
        if bytes == 0 {
            return Err(MemoryBudgetError::ZeroReservation);
        }
        let units: usize = count_units(bytes, self.unit_size);
        if units > self.total_units as usize {
            return Err(
                MemoryBudgetError::ReservationExceedsBudget {
                    requested_bytes: bytes,
                    capacity_bytes: self.capacity_bytes(),
                },
            );
        }
        if units > self.available_units as usize {
            return Ok(None);
        }
        proof {
            assert(0 <= units * self.unit_size <= self.total_units * self.unit_size)
                by (nonlinear_arith)
                requires
                    0 <= units <= self.total_units,
                    self.unit_size >= 0,
            ;
        }
        self.available_units = self.available_units - units as u32;
        Ok(
            Some(
                MemoryPermit {
                    units: units as u32,
                    requested_bytes: bytes,
                    reserved_bytes: units * self.unit_size,
                },
            ),
        )
    }

    /// Gives a permit back.
    pub fn release(&mut self, permit: MemoryPermit)
        requires
            old(self)@.wf(),
            old(self)@.available_units + permit@.units <= old(self)@.total_units,
        ensures
            final(self)@.wf(),
            final(self)@ == (MemoryBudgetView {
                available_units: old(self)@.available_units + permit@.units,
                ..old(self)@
            }),
    {
        self.available_units = self.available_units + permit.units;
    }

    pub fn unit_size(&self) -> (size: usize)
        ensures
            size == self@.unit_size,
    {
        self.unit_size
    }

    /// Capacity after rounding the configured budget down to whole units.
    pub fn capacity_bytes(&self) -> (bytes: usize)
        requires
            self@.wf(),
        ensures
            bytes == self@.capacity(),
    {
        self.total_units as usize * self.unit_size
    }

    pub fn available_bytes(&self) -> (bytes: usize)
        requires
            self@.wf(),
        ensures
            bytes == self@.available_units * self@.unit_size,
    {
        proof {
            assert(self.available_units * self.unit_size <= self.total_units * self.unit_size)
                by (nonlinear_arith)
                requires
                    0 <= self.available_units <= self.total_units,
                    self.unit_size >= 0,
            ;
        }
        self.available_units as usize * self.unit_size
    }
}

/// A reservation covers its bytes and wastes less than one unit.
pub proof fn law_reservation_covers_its_bytes(bytes: int, unit_size: int)
    requires
        bytes > 0,
        unit_size > 0,
    ensures
        bytes <= units_for(bytes, unit_size) * unit_size < bytes + unit_size,
{
    vstd::arithmetic::div_mod::lemma_fundamental_div_mod(bytes, unit_size);
    let q = bytes / unit_size;
    let r = bytes % unit_size;
    assert((q + 1) * unit_size == unit_size * q + unit_size) by (nonlinear_arith);
    assert(q * unit_size == unit_size * q) by (nonlinear_arith);
}

#[derive(Clone, Copy, Debug, PartialEq, Eq, Structural)]
pub enum FrameBudgetError {
    ZeroFrames,
    Unavailable,
}

impl FrameBudgetError {
    pub fn message(&self) -> (text: &'static str)
        ensures
            text@ == match *self {
                FrameBudgetError::ZeroFrames => "frame count must be positive"@,
                FrameBudgetError::Unavailable => "frame budget is exhausted"@,
            },
    {
        match self {
            FrameBudgetError::ZeroFrames => "frame count must be positive",
            FrameBudgetError::Unavailable => "frame budget is exhausted",
        }
    }
}

/// A global budget of decoded frames that all sessions share.
#[derive(Debug)]
pub struct FrameBudget {
    total: usize,
    free: usize,
}

/// What a frame budget is: how many frames it has and how many are free.
pub struct FrameBudgetView {
    pub total: int,
    pub free: int,
}

impl FrameBudgetView {
    pub open spec fn wf(self) -> bool {
        0 < self.total <= usize::MAX && 0 <= self.free <= self.total
    }
}

impl View for FrameBudget {
    type V = FrameBudgetView;

    closed spec fn view(&self) -> FrameBudgetView {
        FrameBudgetView { total: self.total as int, free: self.free as int }
    }
}

/// Frames held from a budget.
#[derive(Debug)]
pub struct FramePermit {
    held: usize,
}

impl View for FramePermit {
    type V = int;

    closed spec fn view(&self) -> int {
        self.held as int
    }
}

impl FrameBudget {
    pub fn new(frames: usize) -> (budget: Result<FrameBudget, FrameBudgetError>)
        ensures
            match budget {
                Ok(b) => b@.wf() && b@ == (FrameBudgetView {
                    total: frames as int,
                    free: frames as int,
                }),
                Err(e) => frames == 0 && e == FrameBudgetError::ZeroFrames,
            },
    {
        if frames == 0 {
            return Err(FrameBudgetError::ZeroFrames);
        }
        Ok(FrameBudget { total: frames, free: frames })
    }

    pub fn available(&self) -> (frames: usize)
        ensures
            frames == self@.free,
    {
        self.free
    }

    pub fn try_reserve(&mut self, frames: usize) -> (permit: Result<FramePermit, FrameBudgetError>)
        requires
            old(self)@.wf(),
        ensures
            final(self)@.wf(),
            match permit {
                Ok(p) => {
                    &&& 0 < frames <= old(self)@.free
                    &&& p@ == frames
                    &&& final(self)@ == (FrameBudgetView {
                        free: old(self)@.free - frames,
                        ..old(self)@
                    })
                },
                Err(e) => {
                    &&& e == if frames == 0 {
                        FrameBudgetError::ZeroFrames
                    } else {
                        FrameBudgetError::Unavailable
                    }
                    &&& frames == 0 || frames > old(self)@.free
                    &&& final(self)@ == old(self)@
                },
            },
    {
        if frames == 0 {
            return Err(FrameBudgetError::ZeroFrames);
        }
        if frames > self.free {
            return Err(FrameBudgetError::Unavailable);
        }
        self.free = self.free - frames;
        Ok(FramePermit { held: frames })
    }
}

impl FramePermit {
    pub fn frames(&self) -> (frames: usize)
        ensures
            frames == self@,
    {
        self.held
    }

    /// Takes over the frames of another permit.
    pub fn merge(&mut self, other: FramePermit)
        requires
            old(self)@ + other@ <= usize::MAX,
        ensures
            final(self)@ == old(self)@ + other@,
    {
        self.held = self.held + other.held;
    }

    /// Gives every frame beyond `frames` back to the budget.
    pub fn shrink_to(&mut self, frames: usize, budget: &mut FrameBudget)
        requires
            old(budget)@.wf(),
            old(budget)@.free + old(self)@ <= old(budget)@.total,
        ensures
            final(budget)@.wf(),
            final(self)@ == if frames < old(self)@ {
                frames as int
            } else {
                old(self)@
            },
            final(budget)@.total == old(budget)@.total,
            final(budget)@.free + final(self)@ == old(budget)@.free + old(self)@,
    {
        if frames < self.held {
            budget.free = budget.free + (self.held - frames);
            self.held = frames;
        }
    }

    /// Gives all frames back to the budget.
    pub fn release(self, budget: &mut FrameBudget)
        requires
            old(budget)@.wf(),
            old(budget)@.free + self@ <= old(budget)@.total,
        ensures
            final(budget)@.wf(),
            final(budget)@ == (FrameBudgetView { free: old(budget)@.free + self@, ..old(budget)@ }),
    {
        budget.free = budget.free + self.held;
    }
}

/// A budget holds as many bytes as its units, and as long as none is held all of
/// them are free.
pub proof fn law_a_budget_is_its_units(view: MemoryBudgetView)
    requires
        view.wf(),
    ensures
        view.capacity() == view.total_units * view.unit_size,
        view.capacity() >= view.unit_size,
        view.available_units * view.unit_size <= view.capacity(),
{
    assert(view.available_units * view.unit_size <= view.total_units * view.unit_size
        && view.unit_size <= view.total_units * view.unit_size) by (nonlinear_arith)
        requires
            0 <= view.available_units <= view.total_units,
            1 <= view.total_units,
            0 < view.unit_size,
    ;
}

} // verus!
