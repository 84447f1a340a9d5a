//! Which visualization is on screen, when the next one takes over, and the
//! cross-fade between them. Times are milliseconds on a monotonic clock.

use vstd::prelude::*;

verus! {

/// Length of the cross-fade between two visualizations, in milliseconds.
pub const TRANSITION_MS: u64 = 3000;

/// A cross-fade in progress.
#[derive(Clone, Copy, Debug, PartialEq, Eq, Structural)]
pub struct TransitionState {
    pub from_index: usize,
    pub started_ms: u64,
}

/// Model of the cycle's state.
pub struct CycleModel {
    pub count: nat,
    pub index: nat,
    pub last_switch_ms: u64,
    pub duration_secs: u64,
    pub transition: Option<TransitionState>,
}

/// Milliseconds from `since` to `now`, or zero if the clock reads earlier.
pub open spec fn elapsed_ms(since: u64, now: u64) -> u64 {
    if now >= since {
        (now - since) as u64
    } else {
        0
    }
}

/// The state after checking the clock at `now`: a finished cross-fade ends;
/// otherwise, once the current visualization has been shown for its full
/// duration, the next one (wrapping around) takes over with a cross-fade.
pub open spec fn advance_step(m: CycleModel, now: u64) -> CycleModel {
    if m.count <= 1 {
        m
    } else if let Some(t) = m.transition {
        if elapsed_ms(t.started_ms, now) >= TRANSITION_MS {
            CycleModel { transition: None, ..m }
        } else {
            m
        }
    } else if elapsed_ms(m.last_switch_ms, now) / 1000 >= m.duration_secs {
        CycleModel {
            index: (m.index + 1) % m.count,
            transition: Some(TransitionState { from_index: m.index as usize, started_ms: now }),
            last_switch_ms: now,
            ..m
        }
    } else {
        m
    }
}

/// The shown index and a cross-fade's source are valid positions.
pub open spec fn cycle_wf(m: CycleModel) -> bool {
    &&& (m.count == 0 ==> m.index == 0 && m.transition is None)
    &&& (m.count > 0 ==> m.index < m.count)
    &&& (m.transition matches Some(t) ==> t.from_index < m.count)
}

/// Cycles through `count` visualizations, each shown for a fixed duration.
pub struct VisualizationCycle {
    count: usize,
    index: usize,
    last_switch_ms: u64,
    duration_secs: u64,
    transition: Option<TransitionState>,
}

impl View for VisualizationCycle {
    type V = CycleModel;

    closed spec fn view(&self) -> CycleModel {
        CycleModel {
            count: self.count as nat,
            index: self.index as nat,
            last_switch_ms: self.last_switch_ms,
            duration_secs: self.duration_secs,
            transition: self.transition,
        }
    }
}

impl VisualizationCycle {
    #[verifier::type_invariant]
    closed spec fn inv(self) -> bool {
        cycle_wf(self@)
    }

    /// Starts on the first of `count` visualizations at time `now_ms`.
    pub fn new(count: usize, duration_secs: u64, now_ms: u64) -> (c: VisualizationCycle)
        ensures
            c@ == (CycleModel {
                count: count as nat,
                index: 0,
                last_switch_ms: now_ms,
                duration_secs,
                transition: None,
            }),
    {
        VisualizationCycle { count, index: 0, last_switch_ms: now_ms, duration_secs, transition: None }
    }

    /// Index of the visualization on screen.
    pub fn current(&self) -> (i: usize)
        ensures
            i == self@.index,
            self@.count > 0 ==> i < self@.count,
    {
        proof {
            use_type_invariant(self);
        }
        self.index
    }

    pub fn len(&self) -> (n: usize)
        ensures
            n == self@.count,
    {
        self.count
    }

    /// Checks the clock and moves on when the current visualization is due.
    pub fn advance_if_due(&mut self, now_ms: u64)
        ensures
            final(self)@ == advance_step(old(self)@, now_ms),
            final(self)@.count == old(self)@.count,
            final(self)@.duration_secs == old(self)@.duration_secs,
            final(self)@.index != old(self)@.index ==> {
                &&& old(self)@.transition is None
                &&& elapsed_ms(old(self)@.last_switch_ms, now_ms) / 1000 >= old(self)@.duration_secs
                &&& final(self)@.index == (old(self)@.index + 1) % old(self)@.count
                &&& final(self)@.last_switch_ms == now_ms
                &&& final(self)@.transition == Some(
                    TransitionState { from_index: old(self)@.index as usize, started_ms: now_ms },
                )
            },
            final(self)@.index == old(self)@.index ==> final(self)@.last_switch_ms == old(
                self,
            )@.last_switch_ms,
    {
        proof {
            use_type_invariant(&*self);
            lemma_switch_restarts_clock(old(self)@, now_ms);
        }
        if self.count <= 1 {
            return;
        }
        if let Some(t) = self.transition {
            if now_ms.saturating_sub(t.started_ms) >= TRANSITION_MS {
                self.transition = None;
            }
            return;
        }
        if now_ms.saturating_sub(self.last_switch_ms) / 1000 >= self.duration_secs {
            let from = self.index;
            let next = (self.index + 1) % self.count;
            *self = VisualizationCycle {
                count: self.count,
                index: next,
                last_switch_ms: now_ms,
                duration_secs: self.duration_secs,
                transition: Some(TransitionState { from_index: from, started_ms: now_ms }),
            };
        }
    }

    /// The visualization being faded out and the milliseconds since the
    /// fade began, while a cross-fade is in progress.
    pub fn transition_progress(&self, now_ms: u64) -> (r: Option<(usize, u64)>)
        ensures
            r == (match self@.transition {
                Some(t) => Some((t.from_index, elapsed_ms(t.started_ms, now_ms))),
                None => None,
            }),
            r matches Some((i, _)) ==> i < self@.count,
    {
        proof {
            use_type_invariant(self);
        }
        match self.transition {
            Some(t) => Some((t.from_index, now_ms.saturating_sub(t.started_ms))),
            None => None,
        }
    }
}

/// Moving on restarts the clock: a check that brings on the next
/// visualization does so only after the full duration and with no fade
/// running, records `now` as the switch time and starts the fade from the
/// previous one; a check that keeps the visualization keeps the switch time.
pub proof fn lemma_switch_restarts_clock(m: CycleModel, now: u64)
    requires
        cycle_wf(m),
    ensures
        advance_step(m, now).count == m.count,
        advance_step(m, now).duration_secs == m.duration_secs,
        cycle_wf(advance_step(m, now)),
        advance_step(m, now).index != m.index ==> {
            &&& m.transition is None
            &&& elapsed_ms(m.last_switch_ms, now) / 1000 >= m.duration_secs
            &&& advance_step(m, now).index == (m.index + 1) % m.count
            &&& advance_step(m, now).last_switch_ms == now
            &&& advance_step(m, now).transition == Some(
                TransitionState { from_index: m.index as usize, started_ms: now },
            )
        },
        advance_step(m, now).index == m.index ==> advance_step(m, now).last_switch_ms
            == m.last_switch_ms,
        elapsed_ms(m.last_switch_ms, now) / 1000 < m.duration_secs ==> advance_step(m, now).index
            == m.index,
{
    if m.count > 1 {
        let i = m.index as int;
        let c = m.count as int;
        if i + 1 < c {
            vstd::arithmetic::div_mod::lemma_fundamental_div_mod_converse(i + 1, c, 0, i + 1);
        } else {
            vstd::arithmetic::div_mod::lemma_fundamental_div_mod_converse(i + 1, c, 1, 0);
        }
        assert((m.index + 1) % m.count != m.index);
    }
}

/// Each visualization is shown for its full duration: after the check at
/// `now` switches, any later checks (here one at `t`, say when the fade
/// ends, then one at `later`) keep it on screen while fewer than
/// `duration_secs` whole seconds have passed since `now`.
pub proof fn lemma_shown_for_full_duration(m: CycleModel, now: u64, t: u64, later: u64)
    requires
        cycle_wf(m),
        advance_step(m, now).index != m.index,
        elapsed_ms(now, later) / 1000 < m.duration_secs,
    ensures
        advance_step(advance_step(m, now), t).index == advance_step(m, now).index,
        advance_step(advance_step(advance_step(m, now), t), later).index == advance_step(m, now).index,
{
    let m1 = advance_step(m, now);
    lemma_switch_restarts_clock(m, now);
    lemma_switch_restarts_clock(m1, t);
    let m2 = advance_step(m1, t);
    lemma_switch_restarts_clock(m2, later);
}

/// Checking the clock keeps the shown index and the fade source valid.
pub proof fn lemma_advance_preserves_wf(m: CycleModel, now: u64)
    requires
        cycle_wf(m),
    ensures
        cycle_wf(advance_step(m, now)),
{
}

/// A new visualization never starts while a cross-fade is running, and when
/// one starts it is the next in order, faded in from the previous one.
pub proof fn lemma_advance_moves_to_next(m: CycleModel, now: u64)
    requires
        cycle_wf(m),
        advance_step(m, now).index != m.index,
    ensures
        m.transition is None,
        advance_step(m, now).index == (m.index + 1) % m.count,
        advance_step(m, now).transition == Some(
            TransitionState { from_index: m.index as usize, started_ms: now },
        ),
{
}

/// A cross-fade is over once the fade length has passed since it began.
pub proof fn lemma_transition_ends(m: CycleModel, now: u64)
    requires
        m.count > 1,
        m.transition matches Some(t) && elapsed_ms(t.started_ms, now) >= TRANSITION_MS,
    ensures
        advance_step(m, now).transition is None,
        advance_step(m, now).index == m.index,
{
}

} // verus!
