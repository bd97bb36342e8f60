//! The processor mode check of start-up.
use vstd::prelude::*;
use crate::init::result::InitResult;

verus! {

/// The operating mode that CPUID reports.
#[derive(Clone, Copy, PartialEq, Eq, Structural)]
pub enum CpuMode {
    /// CPUID leaf 1 returned 0: no CPUID.
    Real,
    /// Extended leaves reach 0x80000001: 64-bit long mode.
    Long,
    /// Otherwise: 32-bit protected mode.
    Protected,
}

/// The mode told by CPUID leaf 1 (`basic`) and the highest extended leaf
/// (`ext_max`, from leaf 0x80000000).
pub fn check_cpu_mode(basic: u32, ext_max: u32) -> (r: CpuMode)
    ensures
        r == (if basic == 0 {
            CpuMode::Real
        } else if ext_max >= 0x80000001 {
            CpuMode::Long
        } else {
            CpuMode::Protected
        }),
{
    if basic == 0 {
        return CpuMode::Real;
    }
    if ext_max >= 0x80000001 {
        return CpuMode::Long;
    }
    CpuMode::Protected
}

/// The description of a mode shown at start-up.
pub fn mode_name(m: CpuMode) -> (r: &'static str)
    ensures
        m == CpuMode::Real ==> r@ == "Real Mode (CPUID not supported)"@,
        m == CpuMode::Long ==> r@ == "Long Mode (64-bit mode)"@,
        m == CpuMode::Protected ==> r@ == "Protected Mode (32-bit)"@,
{
    match m {
        CpuMode::Real => "Real Mode (CPUID not supported)",
        CpuMode::Long => "Long Mode (64-bit mode)",
        CpuMode::Protected => "Protected Mode (32-bit)",
    }
}

/// Start-up passes the check only in long mode.
pub fn check(basic: u32, ext_max: u32) -> (r: InitResult)
    ensures
        r == (if basic != 0 && ext_max >= 0x80000001 { InitResult::Passed } else { InitResult::Failed }),
{
    match check_cpu_mode(basic, ext_max) {
        CpuMode::Long => InitResult::Passed,
        _ => InitResult::Failed,
    }
}

} // verus!
