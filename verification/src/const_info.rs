//! The vocabulary of build targets.  The constants naming the running
//! build's own target are selected at compile time by the embedding
//! program; the library only defines the types.

use vstd::prelude::*;

verus! {

/// Processor architectures a build may target.
#[derive(Debug, Copy, Clone, Eq, PartialEq, Ord, PartialOrd, Hash, Structural)]
pub enum TargetArch {
    X86,
    X86_64,
    Arm,
    AArch64,
    RiscV32,
    RiscV64,
    Mips,
    Loong64,
}

/// Operating systems a build may target.
#[derive(Debug, Copy, Clone, Eq, PartialEq, Ord, PartialOrd, Hash, Structural)]
pub enum TargetSystem {
    Windows,
    Linux,
    MacOS,
    Android,
    IOS,
    FreeBSD,
    DragonFly,
    NetBSD,
    OpenBSD,
    BareMetal,
}

} // verus!
