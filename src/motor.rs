//! The duty-cycle state of one vibration motor, and the pulse that one
//! actuation cycle drives from it.

use vstd::prelude::*;

verus! {

/// Full power, in thousandths.
pub const POWER_MAX: u32 = 1000;

/// The length of one actuation cycle, in microseconds.
pub const BASE_PERIOD_US: u64 = 10_000;

#[derive(Clone, Copy, Debug, PartialEq, Eq, Structural)]
pub enum MotorMode {
    Off,
    On,
    Pwm,
}

/// The state that the controller writes and the actuation loop reads: a
/// mode and a power in thousandths, never above `POWER_MAX`.
#[derive(Clone, Copy, Debug, PartialEq, Eq, Structural)]
pub struct MotorState {
    mode: MotorMode,
    power: u32,
}

/// One actuation cycle: drive the output for `driven_us`, then hold it idle
/// for `idle_us`.
#[derive(Clone, Copy, Debug, PartialEq, Eq, Structural)]
pub struct Pulse {
    pub driven_us: u64,
    pub idle_us: u64,
}

/// `p` held within `[0, POWER_MAX]`.
pub open spec fn clamp_power(p: int) -> int {
    if p < 0 {
        0
    } else if p > POWER_MAX {
        POWER_MAX as int
    } else {
        p
    }
}

impl MotorState {
    pub closed spec fn spec_mode(&self) -> MotorMode {
        self.mode
    }

    pub closed spec fn spec_power(&self) -> u32 {
        self.power
    }

    pub open spec fn wf(&self) -> bool {
        self.spec_power() <= POWER_MAX
    }

    /// A motor at rest: off, at power 0.
    pub fn new() -> (r: MotorState)
        ensures
            r.spec_mode() == MotorMode::Off,
            r.spec_power() == 0,
            r.wf(),
    {
        MotorState { mode: MotorMode::Off, power: 0 }
    }

    pub fn mode(&self) -> (r: MotorMode)
        ensures
            r == self.spec_mode(),
    {
        self.mode
    }

    pub fn power(&self) -> (r: u32)
        ensures
            r == self.spec_power(),
    {
        self.power
    }

    /// Continuous drive; the power is kept for a later duty cycle.
    pub fn on(&mut self)
        ensures
            final(self).spec_mode() == MotorMode::On,
            final(self).spec_power() == old(self).spec_power(),
    {
        self.mode = MotorMode::On;
    }

    /// No drive; the power is kept.
    pub fn off(&mut self)
        ensures
            final(self).spec_mode() == MotorMode::Off,
            final(self).spec_power() == old(self).spec_power(),
    {
        self.mode = MotorMode::Off;
    }

    /// Duty-cycle drive at `power` thousandths, clamped to `[0, POWER_MAX]`.
    pub fn set(&mut self, power: i64)
        ensures
            final(self).spec_mode() == MotorMode::Pwm,
            final(self).spec_power() == clamp_power(power as int),
            final(self).wf(),
    {
        self.power = if power < 0 {
            0
        } else if power > POWER_MAX as i64 {
            POWER_MAX
        } else {
            power as u32
        };
        self.mode = MotorMode::Pwm;
    }

    /// The pulse of one actuation cycle: idle all cycle when off, driven all
    /// cycle when on, and for a duty cycle driven for the power's share of
    /// the period, rounded down, and idle for the rest.
    pub fn cycle(&self) -> (r: Pulse)
        requires
            self.wf(),
        ensures
            r.driven_us + r.idle_us == BASE_PERIOD_US,
            self.spec_mode() == MotorMode::Off ==> r.driven_us == 0,
            self.spec_mode() == MotorMode::On ==> r.idle_us == 0,
            self.spec_mode() == MotorMode::Pwm ==> r.driven_us == self.spec_power() * BASE_PERIOD_US
                / POWER_MAX as int,
    {
        match self.mode {
            MotorMode::Off => Pulse { driven_us: 0, idle_us: BASE_PERIOD_US },
            MotorMode::On => Pulse { driven_us: BASE_PERIOD_US, idle_us: 0 },
            MotorMode::Pwm => {
                let driven = self.power as u64 * BASE_PERIOD_US / POWER_MAX as u64;
                assert(driven <= BASE_PERIOD_US) by (nonlinear_arith)
                    requires
                        driven == self.power * BASE_PERIOD_US / 1000,
                        self.power <= 1000,
                ;
                Pulse { driven_us: driven, idle_us: BASE_PERIOD_US - driven }
            },
        }
    }
}

} // verus!
