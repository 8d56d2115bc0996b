//! Where prompts run: with decode, on the CPU, or wherever one prompt-shaped multiplication was
//! measured to be faster.

use vstd::prelude::*;
use crate::ieee;

verus! {

/// The configured choice.
#[derive(Clone, Copy, Debug, PartialEq, Eq, Structural)]
pub enum PrefillBackend {
    /// Prompts run where decode runs.
    Device,
    /// Prompts run on the CPU backend.
    Cpu,
    /// Measured at load: the faster of the two takes the prompts.
    Auto,
}

impl Default for PrefillBackend {
    fn default() -> (choice: PrefillBackend)
        ensures
            choice == PrefillBackend::Device,
    {
        PrefillBackend::Device
    }
}

/// The number a choice is stored as.
pub open spec fn code_of(choice: PrefillBackend) -> u8 {
    match choice {
        PrefillBackend::Device => 0,
        PrefillBackend::Cpu => 1,
        PrefillBackend::Auto => 2,
    }
}

/// The choice a stored number stands for, unless the CPU is forced.
pub open spec fn choice_spec(stored: u8, forced: bool) -> PrefillBackend {
    if forced || stored == 1 {
        PrefillBackend::Cpu
    } else if stored == 2 {
        PrefillBackend::Auto
    } else {
        PrefillBackend::Device
    }
}

/// Stores a choice.
pub fn set(stored: &mut u8, choice: PrefillBackend)
    ensures
        *final(stored) == code_of(choice),
{
    *stored = match choice {
        PrefillBackend::Device => 0,
        PrefillBackend::Cpu => 1,
        PrefillBackend::Auto => 2,
    };
}

/// The choice in force: the CPU where that is forced, else what was stored.
pub fn choice(stored: u8, forced: bool) -> (choice: PrefillBackend)
    ensures
        choice == choice_spec(stored, forced),
{
    if forced {
        return PrefillBackend::Cpu;
    }
    match stored {
        1 => PrefillBackend::Cpu,
        2 => PrefillBackend::Auto,
        _ => PrefillBackend::Device,
    }
}

/// What was set is what is chosen, unless the CPU is forced.
pub proof fn law_what_is_set_is_chosen(choice: PrefillBackend)
    ensures
        choice_spec(code_of(choice), false) == choice,
{
}

/// The tokens the probe's multiplication carries: a short prompt, past the point where a device
/// switches to its batched kernels.
pub const PROBE_TOKENS: usize = 64;

/// Whether the two have to be timed before it is known where prompts run.
pub fn needs_probe(on_card: bool, choice: PrefillBackend) -> (yes: bool)
    ensures
        yes == (on_card && choice is Auto),
{
    on_card && matches!(choice, PrefillBackend::Auto)
}

/// Whether prompts run on the CPU rather than on the device: never where the device is no card;
/// measured, only where the CPU was strictly faster. The times are double-precision bit
/// patterns.
pub fn cpu_for_prompts(on_card: bool, choice: PrefillBackend, on_device: u64, on_cpu: u64) -> (yes:
    bool)
    ensures
        yes == (on_card && (choice is Cpu || (choice is Auto && ieee::double_greater(
            on_device,
            on_cpu,
        )))),
{
    if !on_card {
        return false;
    }
    match choice {
        PrefillBackend::Device => false,
        PrefillBackend::Cpu => true,
        PrefillBackend::Auto => ieee::is_greater(on_device, on_cpu),
    }
}

/// Forcing the CPU overrules whatever is stored; a number that stands for nothing is the device.
pub proof fn law_force_overrules_what_is_stored(stored: u8)
    ensures
        choice_spec(stored, true) == PrefillBackend::Cpu,
        choice_spec(0, false) == PrefillBackend::Device,
        choice_spec(1, false) == PrefillBackend::Cpu,
        choice_spec(2, false) == PrefillBackend::Auto,
        stored > 2 ==> choice_spec(stored, false) == PrefillBackend::Device,
        code_of(PrefillBackend::Device) < code_of(PrefillBackend::Cpu) < code_of(
            PrefillBackend::Auto,
        ) <= 2,
        PROBE_TOKENS == 64,
{
}

} // verus!
