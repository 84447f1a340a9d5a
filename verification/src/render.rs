//! Choice of the presentation mode for the window surface.

use vstd::prelude::*;

verus! {

/// How finished frames are handed to the display.
#[derive(Clone, Copy, Debug, PartialEq, Eq, Structural)]
pub enum PresentMode {
    AutoVsync,
    AutoNoVsync,
    Fifo,
    FifoRelaxed,
    Immediate,
    Mailbox,
}

/// Modes tried first, in order of preference.
pub open spec fn preferred_modes() -> Seq<PresentMode> {
    seq![PresentMode::Mailbox, PresentMode::AutoVsync]
}

/// The first preferred mode the surface supports, else its first mode.
pub open spec fn select_present_mode_spec(available: Seq<PresentMode>) -> PresentMode {
    if available.contains(PresentMode::Mailbox) {
        PresentMode::Mailbox
    } else if available.contains(PresentMode::AutoVsync) {
        PresentMode::AutoVsync
    } else {
        available[0]
    }
}

fn supports(available: &[PresentMode], mode: PresentMode) -> (b: bool)
    ensures
        b == available@.contains(mode),
{
    let mut i: usize = 0;
    while i < available.len()
        invariant
            i <= available@.len(),
            forall|k: int| 0 <= k < i ==> available@[k] != mode,
        decreases available@.len() - i,
    {
        if available[i] == mode {
            assert(available@[i as int] == mode);
            return true;
        }
        i = i + 1;
    }
    false
}

/// Picks the presentation mode: Mailbox if supported, else AutoVsync if
/// supported, else the surface's first mode.
pub fn select_present_mode(available: &[PresentMode]) -> (m: PresentMode)
    requires
        available@.len() > 0,
    ensures
        m == select_present_mode_spec(available@),
        available@.contains(m),
        available@.contains(PresentMode::Mailbox) ==> m == PresentMode::Mailbox,
        !available@.contains(PresentMode::Mailbox) && available@.contains(PresentMode::AutoVsync)
            ==> m == PresentMode::AutoVsync,
        !available@.contains(PresentMode::Mailbox) && !available@.contains(PresentMode::AutoVsync)
            ==> m == available@[0],
{
    if supports(available, PresentMode::Mailbox) {
        PresentMode::Mailbox
    } else if supports(available, PresentMode::AutoVsync) {
        PresentMode::AutoVsync
    } else {
        assert(available@.contains(available@[0]));
        available[0]
    }
}

} // verus!
