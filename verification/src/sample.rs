//! The unit of capture.
//!
//! One plain-old-data record per event, small and `Copy`, so a capture callback
//! can write it into a ring with no allocation and no branching on type.
use vstd::prelude::*;

verus! {

/// What a record represents.
///
/// The device tier on macOS delivers two interleaved streams for the same
/// physical report: a report callback that fires exactly once per report and
/// carries the driver's timestamp, and per-element value callbacks that carry
/// the decoded fields. They are joined on the timestamp rather than merged at
/// capture time, so counting and timing stay anchored to the stream that is
/// guaranteed one-to-one with the wire.
#[derive(Clone, Copy, PartialEq, Eq, Debug, Structural)]
pub enum Kind {
    /// A whole input report. Authoritative for report rate.
    Report,
    /// One decoded HID element belonging to the report with the same timestamp.
    Value,
    /// A decoded event that already carries its own fields (Windows raw input,
    /// the system tier on both platforms).
    Event,
}

impl Default for Kind {
    fn default() -> (k: Self)
        ensures
            k == Kind::Report,
    {
        Kind::Report
    }
}

/// Per-sample facts that change how a sample may be used.
#[derive(Clone, Copy, PartialEq, Eq, Debug, Structural)]
pub struct Flags(u32);

impl Flags {
    /// The OS says this event was injected by software, not hardware.
    pub fn injected() -> (f: Flags)
        ensures
            f.spec_bits() == 1u32,
    {
        Flags(1)
    }

    /// Delivered while this application was not in the foreground.
    pub fn background() -> (f: Flags)
        ensures
            f.spec_bits() == 2u32,
    {
        Flags(2)
    }

    /// Timestamp came from the driver rather than from this process.
    pub fn kernel_time() -> (f: Flags)
        ensures
            f.spec_bits() == 4u32,
    {
        Flags(4)
    }

    /// Came from a touch surface rather than a mouse.
    pub fn touch() -> (f: Flags)
        ensures
            f.spec_bits() == 8u32,
    {
        Flags(8)
    }

    /// Scroll is continuous (pixel-based), so it has no detent quantum.
    pub fn continuous_scroll() -> (f: Flags)
        ensures
            f.spec_bits() == 16u32,
    {
        Flags(16)
    }

    /// Motion and button fields were decoded from the report descriptor.
    pub fn decoded() -> (f: Flags)
        ensures
            f.spec_bits() == 32u32,
    {
        Flags(32)
    }

    pub closed spec fn spec_bits(self) -> u32 {
        self.0
    }

    pub fn bits(self) -> (b: u32)
        ensures
            b == self.spec_bits(),
    {
        self.0
    }

    /// Every flag of `other` is set in `self`.
    pub fn contains(self, other: Self) -> (b: bool)
        ensures
            b == (self.spec_bits() & other.spec_bits() == other.spec_bits()),
    {
        self.0 & other.0 == other.0
    }

    /// The flags set in either.
    pub fn union(self, other: Self) -> (f: Self)
        ensures
            f.spec_bits() == self.spec_bits() | other.spec_bits(),
    {
        Flags(self.0 | other.0)
    }
}

#[derive(Clone, Copy, Debug, PartialEq, Eq, Structural)]
pub struct Sample {
    /// Platform clock ticks. Never nanoseconds: HID timestamps arrive in mach
    /// ticks on macOS and converting early loses the ability to compare them
    /// with anything else on the same clock.
    pub t: u64,
    /// Per-tier device identity. 0 means the tier cannot attribute a device.
    pub device: u64,
    pub kind: Kind,
    pub page: u16,
    pub usage: u16,
    /// The element value for `Value`; unused for `Report`.
    pub value: i32,
    /// Decoded fields, for `Event`.
    pub dx: i32,
    pub dy: i32,
    pub wheel: i32,
    pub hwheel: i32,
    /// Absolute button state, bit n = button n+1 is down.
    pub buttons_state: u32,
    /// Bit set = that button changed to pressed in this sample.
    pub buttons_down: u32,
    /// Bit set = that button changed to released in this sample.
    pub buttons_up: u32,
    pub flags: u32,
}

/// A sample with every field zero and kind `Report`.
pub open spec fn blank_sample() -> Sample {
    Sample {
        t: 0,
        device: 0,
        kind: Kind::Report,
        page: 0,
        usage: 0,
        value: 0,
        dx: 0,
        dy: 0,
        wheel: 0,
        hwheel: 0,
        buttons_state: 0,
        buttons_down: 0,
        buttons_up: 0,
        flags: 0,
    }
}

impl Default for Sample {
    fn default() -> (s: Self)
        ensures
            s == blank_sample(),
    {
        Sample {
            t: 0,
            device: 0,
            kind: Kind::Report,
            page: 0,
            usage: 0,
            value: 0,
            dx: 0,
            dy: 0,
            wheel: 0,
            hwheel: 0,
            buttons_state: 0,
            buttons_down: 0,
            buttons_up: 0,
            flags: 0,
        }
    }
}

impl Sample {
    /// A whole-report record, stamped by the driver when `kernel_time`.
    pub fn report(t: u64, device: u64, kernel_time: bool) -> (s: Self)
        ensures
            s == (Sample {
                t,
                device,
                kind: Kind::Report,
                flags: if kernel_time {
                    4u32
                } else {
                    0u32
                },
                ..blank_sample()
            }),
    {
        Sample {
            t,
            device,
            kind: Kind::Report,
            page: 0,
            usage: 0,
            value: 0,
            dx: 0,
            dy: 0,
            wheel: 0,
            hwheel: 0,
            buttons_state: 0,
            buttons_down: 0,
            buttons_up: 0,
            flags: if kernel_time {
                Flags::kernel_time().bits()
            } else {
                0
            },
        }
    }

    /// One decoded element, always stamped by the driver.
    pub fn value(t: u64, device: u64, page: u16, usage: u16, value: i32) -> (s: Self)
        ensures
            s == (Sample { t, device, kind: Kind::Value, page, usage, value, flags: 4u32, ..blank_sample() }),
    {
        Sample {
            t,
            device,
            kind: Kind::Value,
            page,
            usage,
            value,
            dx: 0,
            dy: 0,
            wheel: 0,
            hwheel: 0,
            buttons_state: 0,
            buttons_down: 0,
            buttons_up: 0,
            flags: Flags::kernel_time().bits(),
        }
    }

    pub fn has(&self, f: Flags) -> (b: bool)
        ensures
            b == (self.flags & f.spec_bits() != 0),
    {
        self.flags & f.bits() != 0
    }
}

} // verus!
