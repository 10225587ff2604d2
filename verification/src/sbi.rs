//! The supervisor-binary-interface boundary: the verified side decides
//! which call to make and with which arguments; performing the call is a
//! single machine instruction that only the surrounding program can issue.

use vstd::prelude::*;

verus! {

/// Call number for writing one character to the console.
pub const SBI_CONSOLE_PUTCHAR: u64 = 1;

/// Call number for shutting the machine down.
pub const SBI_SHUTDOWN: u64 = 8;

/// One fully determined supervisor call: which service, and the three
/// arguments handed over in registers.
#[derive(Clone, Copy, PartialEq, Eq, Structural, Debug)]
pub struct SbiCall {
    pub which: u64,
    pub arg0: u64,
    pub arg1: u64,
    pub arg2: u64,
}

/// Packages a supervisor call from its service number and arguments.
pub fn sbi_call(which: u64, arg0: u64, arg1: u64, arg2: u64) -> (r: SbiCall)
    ensures
        r == (SbiCall { which, arg0, arg1, arg2 }),
{
    SbiCall { which, arg0, arg1, arg2 }
}

/// The call that writes character `c` to the console.
pub fn console_putchar(c: u64) -> (r: SbiCall)
    ensures
        r == (SbiCall { which: SBI_CONSOLE_PUTCHAR, arg0: c, arg1: 0u64, arg2: 0u64 }),
{
    sbi_call(SBI_CONSOLE_PUTCHAR, c, 0, 0)
}

/// The call that shuts the machine down; after it is performed nothing
/// returns.
pub fn shutdown() -> (r: SbiCall)
    ensures
        r == (SbiCall { which: SBI_SHUTDOWN, arg0: 0u64, arg1: 0u64, arg2: 0u64 }),
{
    sbi_call(SBI_SHUTDOWN, 0, 0, 0)
}

} // verus!
