//! Processor exceptions: what is said of one, and what is done about it.

use vstd::prelude::*;

verus! {

/// The vector of a page fault.
pub const PAGE_FAULT: u64 = 14;

/// The registers at an exception, from the lowest address of the stack on.
#[derive(Clone, Copy, Debug, PartialEq, Eq, Structural)]
pub struct ExceptionFrame {
    pub r15: u64,
    pub r14: u64,
    pub r13: u64,
    pub r12: u64,
    pub r11: u64,
    pub r10: u64,
    pub r9: u64,
    pub r8: u64,
    pub rbp: u64,
    pub rdi: u64,
    pub rsi: u64,
    pub rdx: u64,
    pub rcx: u64,
    pub rbx: u64,
    pub rax: u64,
    pub vector: u64,
    pub error_code: u64,
    pub rip: u64,
    pub cs: u64,
    pub rflags: u64,
}

/// What the error code of a page fault says.
#[derive(Clone, Copy, Debug, PartialEq, Eq, Structural)]
pub struct FaultInfo {
    /// A protection was violated, rather than a page missing.
    pub protection: bool,
    pub write: bool,
    pub user: bool,
}

/// What is done about an exception.
#[derive(Clone, Copy, Debug, PartialEq, Eq, Structural)]
pub enum Verdict {
    /// End the task that was running; all else goes on.
    KillTask,
    /// Stop the machine.
    Halt,
}

pub open spec fn fault_of(error_code: u64) -> FaultInfo {
    FaultInfo {
        protection: error_code % 2 == 1,
        write: error_code / 2 % 2 == 1,
        user: error_code / 4 % 2 == 1,
    }
}

/// The code that ran was a user's.
pub open spec fn from_user(f: ExceptionFrame) -> bool {
    f.cs % 4 == 3
}

/// What is done about an exception, and what is told of it.
pub open spec fn decided(f: ExceptionFrame) -> (Verdict, Option<FaultInfo>) {
    (
        if from_user(f) {
            Verdict::KillTask
        } else {
            Verdict::Halt
        },
        if f.vector == PAGE_FAULT {
            Some(fault_of(f.error_code))
        } else {
            None
        },
    )
}

/// Decode the error code of a page fault.
pub fn page_fault_info(error_code: u64) -> (i: FaultInfo)
    ensures
        i == fault_of(error_code),
{
    FaultInfo {
        protection: error_code % 2 == 1,
        write: error_code / 2 % 2 == 1,
        user: error_code / 4 % 2 == 1,
    }
}

/// Decide an exception: a user's ends its task, the kernel's own stops the
/// machine. For a page fault, what its error code says comes along.
pub fn exception_handler(f: &ExceptionFrame) -> (r: (Verdict, Option<FaultInfo>))
    ensures
        r == decided(*f),
        r.0 == if from_user(*f) {
            Verdict::KillTask
        } else {
            Verdict::Halt
        },
        r.1 == if f.vector == PAGE_FAULT {
            Some(fault_of(f.error_code))
        } else {
            None
        },
{
    let info: Option<FaultInfo> = if f.vector == PAGE_FAULT {
        Some(page_fault_info(f.error_code))
    } else {
        None
    };
    if f.cs % 4 == 3 {
        (Verdict::KillTask, info)
    } else {
        (Verdict::Halt, info)
    }
}

} // verus!
