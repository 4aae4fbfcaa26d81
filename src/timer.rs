use vstd::prelude::*;

verus! {

/// Lowest frequency the programmable interval timer can be set to.
pub const MIN_FREQ: u32 = 19;
/// Frequency of the programmable interval timer's input clock.
pub const MAX_FREQ: u32 = 1193180;

/// The tick counter and the frequency it runs at.
pub struct Timer {
    pub freq: u32,
    pub ticks: u32,
}

/// The frequency the timer runs at when asked for `freq_hz`.
pub open spec fn clamp_freq(freq_hz: u32) -> u32 {
    if freq_hz <= MIN_FREQ {
        MIN_FREQ
    } else if freq_hz >= MAX_FREQ {
        MAX_FREQ
    } else {
        freq_hz
    }
}

impl Timer {
    /// A timer not yet set up.
    pub fn new() -> (r: Timer)
        ensures
            r.freq == 0,
            r.ticks == 0,
    {
        Timer { freq: 0, ticks: 0 }
    }

    /// Sets the frequency, held between the lowest and the highest the
    /// hardware can run at.
    pub fn init(&mut self, freq_hz: u32)
        ensures
            final(self).freq == clamp_freq(freq_hz),
            final(self).ticks == old(self).ticks,
    {
        if freq_hz <= MIN_FREQ {
            self.freq = MIN_FREQ;
        } else if freq_hz >= MAX_FREQ {
            self.freq = MAX_FREQ;
        } else {
            self.freq = freq_hz;
        }
    }

    /// The divisor to program into the timer's channel for its frequency.
    pub fn divisor(&self) -> (r: u32)
        requires
            self.freq > 0,
        ensures
            r == MAX_FREQ / self.freq,
    {
        MAX_FREQ / self.freq
    }

    /// Counts one tick; the counter wraps around.
    pub fn tick(&mut self)
        ensures
            final(self).ticks == (old(self).ticks as int + 1) % 0x1_0000_0000,
            final(self).freq == old(self).freq,
    {
        self.ticks = self.ticks.wrapping_add(1);
    }

    /// The tick count at which `ms` milliseconds from now have gone by.
    pub fn deadline(&self, ms: u32) -> (r: u64)
        ensures
            r == self.ticks + ms as int * self.freq as int / 1000,
    {
        assert(ms as u64 * self.freq as u64 <= 0xffff_fffe_0000_0001) by (nonlinear_arith)
            requires
                ms <= 0xffff_ffff,
                self.freq <= 0xffff_ffff;
        self.ticks as u64 + ms as u64 * self.freq as u64 / 1000
    }

    pub fn get_freq(&self) -> (r: u32)
        ensures
            r == self.freq,
    {
        self.freq
    }

    pub fn get_ticks(&self) -> (r: u32)
        ensures
            r == self.ticks,
    {
        self.ticks
    }
}

} // verus!
