use vstd::prelude::*;

verus! {

/// Interrupt flag of the `scause` register: its most significant bit.
pub const SCAUSE_INTERRUPT: u32 = 0x8000_0000;

/// The interrupts a trap can report.
#[derive(Clone, Copy, Debug, PartialEq, Eq, Structural)]
pub enum Interrupt {
    UserSoftware,
    SupervisorSoftware,
    UserTimer,
    SupervisorTimer,
    Unknown,
}

/// The exceptions a trap can report.
#[derive(Clone, Copy, Debug, PartialEq, Eq, Structural)]
pub enum Exception {
    InstructionAddressMisaligned,
    InstructionAccessFault,
    IllegalInstruction,
    Breakpoint,
    LoadAccessFault,
    /// Misaligned atomic memory operation.
    AmoAddressMisaligned,
    /// Store or atomic memory operation access fault.
    StoreAmoAccessFault,
    EnvironmentCall,
    InstructionPageFault,
    LoadpageFault,
    StoreAmoPageFault,
    Unknown,
}

/// A decoded `scause` value.
#[derive(Clone, Copy, Debug, PartialEq, Eq, Structural)]
pub enum Scause {
    Interrupt(Interrupt),
    Exception(Exception),
}

pub open spec fn interrupt_of(code: u32) -> Interrupt {
    if code == 0 {
        Interrupt::UserSoftware
    } else if code == 1 {
        Interrupt::SupervisorSoftware
    } else if code == 4 {
        Interrupt::UserTimer
    } else if code == 5 {
        Interrupt::SupervisorTimer
    } else {
        Interrupt::Unknown
    }
}

pub open spec fn exception_of(code: u32) -> Exception {
    if code == 0 {
        Exception::InstructionAddressMisaligned
    } else if code == 1 {
        Exception::InstructionAccessFault
    } else if code == 2 {
        Exception::IllegalInstruction
    } else if code == 3 {
        Exception::Breakpoint
    } else if code == 5 {
        Exception::LoadAccessFault
    } else if code == 6 {
        Exception::AmoAddressMisaligned
    } else if code == 7 {
        Exception::StoreAmoAccessFault
    } else if code == 8 {
        Exception::EnvironmentCall
    } else if code == 12 {
        Exception::InstructionPageFault
    } else if code == 13 {
        Exception::LoadpageFault
    } else if code == 15 {
        Exception::StoreAmoPageFault
    } else {
        Exception::Unknown
    }
}

/// The cause a raw `scause` value reports: an interrupt when its top bit is
/// set, with the code in the remaining bits; an exception otherwise.
pub open spec fn scause_of(value: u32) -> Scause {
    if value & SCAUSE_INTERRUPT != 0 {
        Scause::Interrupt(interrupt_of(value & !SCAUSE_INTERRUPT))
    } else {
        Scause::Exception(exception_of(value))
    }
}

impl Interrupt {
    /// Decodes an interrupt code (the top bit already cleared); an unknown
    /// code is an error that carries `Unknown`.
    pub fn try_from(code: u32) -> (r: Result<Interrupt, Interrupt>)
        ensures
            interrupt_of(code) != Interrupt::Unknown ==> r == Ok::<Interrupt, Interrupt>(interrupt_of(code)),
            interrupt_of(code) == Interrupt::Unknown ==> r == Err::<Interrupt, Interrupt>(Interrupt::Unknown),
    {
        match code {
            0 => Ok(Interrupt::UserSoftware),
            1 => Ok(Interrupt::SupervisorSoftware),
            4 => Ok(Interrupt::UserTimer),
            5 => Ok(Interrupt::SupervisorTimer),
            _ => Err(Interrupt::Unknown),
        }
    }
}

impl Exception {
    /// Decodes an exception code; an unknown code is an error that carries
    /// `Unknown`.
    pub fn try_from(code: u32) -> (r: Result<Exception, Exception>)
        ensures
            exception_of(code) != Exception::Unknown ==> r == Ok::<Exception, Exception>(exception_of(code)),
            exception_of(code) == Exception::Unknown ==> r == Err::<Exception, Exception>(Exception::Unknown),
    {
        match code {
            0 => Ok(Exception::InstructionAddressMisaligned),
            1 => Ok(Exception::InstructionAccessFault),
            2 => Ok(Exception::IllegalInstruction),
            3 => Ok(Exception::Breakpoint),
            5 => Ok(Exception::LoadAccessFault),
            6 => Ok(Exception::AmoAddressMisaligned),
            7 => Ok(Exception::StoreAmoAccessFault),
            8 => Ok(Exception::EnvironmentCall),
            12 => Ok(Exception::InstructionPageFault),
            13 => Ok(Exception::LoadpageFault),
            15 => Ok(Exception::StoreAmoPageFault),
            _ => Err(Exception::Unknown),
        }
    }
}

impl From<u32> for Scause {
    /// Decodes a raw `scause` value; decoding itself never fails.
    fn from(value: u32) -> (r: Scause)
        ensures
            r == scause_of(value),
    {
        if value & SCAUSE_INTERRUPT != 0 {
            let i = match Interrupt::try_from(value & !SCAUSE_INTERRUPT) {
                Ok(i) => i,
                Err(u) => u,
            };
            Scause::Interrupt(i)
        } else {
            let e = match Exception::try_from(value) {
                Ok(e) => e,
                Err(u) => u,
            };
            Scause::Exception(e)
        }
    }
}

impl vstd::std_specs::convert::FromSpecImpl<u32> for Scause {
    open spec fn obeys_from_spec() -> bool {
        true
    }

    open spec fn from_spec(value: u32) -> Scause {
        scause_of(value)
    }
}

/// The faulting value a trap reports (`stval`).
#[derive(Clone, Copy, Debug, PartialEq, Eq, Structural)]
pub struct Stval(pub u32);

/// How the trap vector is used: every trap to one entry, or interrupts
/// vectored by cause.
#[derive(Clone, Copy, Debug, PartialEq, Eq, Structural)]
pub enum TrapMode {
    Direct,
    Vectored,
}

pub open spec fn trap_mode_bits(mode: TrapMode) -> u32 {
    match mode {
        TrapMode::Direct => 0,
        TrapMode::Vectored => 1,
    }
}

impl TrapMode {
    /// The mode field of the `stvec` register.
    pub fn bits(self) -> (r: u32)
        ensures
            r == trap_mode_bits(self),
    {
        match self {
            TrapMode::Direct => 0,
            TrapMode::Vectored => 1,
        }
    }
}

/// Value of the `stvec` register for a trap entry at `addr` in `mode`.
pub fn stvec_value(addr: u32, mode: TrapMode) -> (r: u32)
    ensures
        r == addr | trap_mode_bits(mode),
{
    addr | mode.bits()
}

} // verus!
