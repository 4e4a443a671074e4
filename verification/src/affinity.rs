//! Which core a thread runs on.

use vstd::prelude::*;

verus! {

/// How a system binds a thread to a core.
#[derive(Debug, Clone, Copy, PartialEq, Eq, Structural)]
pub enum Platform {
    /// A thread is bound to a set of cores.
    Linux,
    /// Threads with the same tag are kept together; this is a hint.
    MacOs,
    /// Not at all.
    Other,
}

/// What to ask of the system.
#[derive(Debug, Clone, Copy, PartialEq, Eq, Structural)]
pub enum PinCall {
    /// Bind the calling thread to this core and no other.
    SetAffinity { core_id: usize },
    /// Give the calling thread this tag.
    SetTag { tag: i32 },
    /// Nothing.
    Nothing,
}

/// The number of cores that a set of cores can name.
pub const CORE_SET_SIZE: usize = 1024;

/// How to pin the calling thread to a core. A core that no set can name cannot be
/// pinned to. The tags start at one, as the tag zero stands for no preference; a core
/// beyond 32 bits has the tag of its last 32 bits.
pub fn pin_to_core(core_id: usize, platform: Platform) -> (r: PinCall)
    requires
        platform is MacOs ==> core_id < usize::MAX,
    ensures
        r == match platform {
            Platform::Linux => if core_id < CORE_SET_SIZE {
                PinCall::SetAffinity { core_id }
            } else {
                PinCall::Nothing
            },
            Platform::MacOs => PinCall::SetTag { tag: (core_id + 1) as i32 },
            Platform::Other => PinCall::Nothing,
        },
{
    match platform {
        Platform::Linux => if core_id < CORE_SET_SIZE {
            PinCall::SetAffinity { core_id }
        } else {
            PinCall::Nothing
        },
        Platform::MacOs => PinCall::SetTag { tag: (core_id + 1) as i32 },
        Platform::Other => PinCall::Nothing,
    }
}

impl PinCall {
    /// Whether the thread is pinned, given what the system call returned.
    pub fn succeeded(&self, status: i32) -> (r: bool)
        ensures
            r == (!(self is Nothing) && status == 0),
    {
        match self {
            PinCall::Nothing => false,
            _ => status == 0,
        }
    }
}

/// The number of cores that the process can use: one where the system does not say.
pub fn available_cores(reported: Option<usize>) -> (r: usize)
    ensures
        r == match reported {
            Some(n) => n,
            None => 1,
        },
{
    match reported {
        Some(n) => n,
        None => 1,
    }
}

/// The core for a thread, if the cores are counted from the beginning again after
/// the last one.
pub fn core_for(core_id: usize, cores: usize) -> (r: usize)
    requires
        cores > 0,
    ensures
        r == core_id % cores,
        r < cores,
{
    core_id % cores
}

/// Threads that are started for as many neighbouring cores as there are get one
/// core each.
pub proof fn lemma_neighbours_apart(first: nat, i: nat, j: nat, cores: nat)
    requires
        i < j < cores,
    ensures
        (first + i) % cores != (first + j) % cores,
{
    let a = (first + i) as int;
    let b = (first + j) as int;
    let c = cores as int;
    vstd::arithmetic::div_mod::lemma_fundamental_div_mod(a, c);
    vstd::arithmetic::div_mod::lemma_fundamental_div_mod(b, c);
    if a % c == b % c {
        let p = a / c;
        let q = b / c;
        assert(b - a == c * (q - p)) by (nonlinear_arith)
            requires
                a == c * p + a % c,
                b == c * q + b % c,
                a % c == b % c,
        ;
        assert(false) by (nonlinear_arith)
            requires
                0 < b - a < c,
                b - a == c * (q - p),
        ;
    }
}

} // verus!
