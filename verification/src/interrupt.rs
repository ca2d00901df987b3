//! The interrupt interface of a component, and the instances that stand behind it.

use vstd::prelude::*;

verus! {

/// What a component asks of the library that sets up interrupts.
pub trait CpuInterruptLib {
    /// Sets interrupts up before the component runs.
    fn init();
}

/// The instance for the X64 architecture. It has nothing to set up.
pub struct CpuInterruptLibX64;

impl CpuInterruptLib for CpuInterruptLibX64 {
    fn init() {
    }
}

/// The instance for hosted builds. It has nothing to set up.
pub struct CpuInterruptLibStd;

impl CpuInterruptLib for CpuInterruptLibStd {
    fn init() {
    }
}

} // verus!
