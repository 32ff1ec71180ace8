use vstd::prelude::*;

verus! {

/// Minimum time between two toggles of the launcher, in milliseconds.
pub const TOGGLE_DEBOUNCE_MS: u64 = 300;

/// What to do with a toggle request.
#[derive(Debug, Clone, Copy, PartialEq, Eq, Structural)]
pub enum GateDecision {
    Proceed,
    Debounced,
    DeferShow,
}

/// Decides whether the launcher window may be shown or toggled now. Times are
/// milliseconds on a monotonic clock.
#[derive(Debug)]
pub struct LauncherGate {
    pub ui_ready: bool,
    pub pending_show: bool,
    pub last_toggle_at: Option<u64>,
}

/// Whether a toggle at `now` comes too soon after one at `last`; a clock that went
/// backwards counts as no time elapsed.
pub open spec fn too_soon(last: u64, now: u64) -> bool {
    (if now >= last {
        now - last
    } else {
        0
    }) < TOGGLE_DEBOUNCE_MS
}

impl LauncherGate {
    /// A gate whose interface is not ready yet, with nothing pending.
    pub fn new() -> (r: Self)
        ensures
            !r.ui_ready,
            !r.pending_show,
            r.last_toggle_at is None,
    {
        LauncherGate { ui_ready: false, pending_show: false, last_toggle_at: None }
    }

    /// Asks to show the launcher: yes once the interface is ready, else the request is
    /// remembered.
    pub fn request_show(&mut self) -> (r: bool)
        ensures
            r == old(self).ui_ready,
            final(self).ui_ready == old(self).ui_ready,
            final(self).pending_show == (old(self).pending_show || !old(self).ui_ready),
            final(self).last_toggle_at == old(self).last_toggle_at,
    {
        if self.ui_ready {
            return true;
        }
        self.pending_show = true;
        false
    }

    /// Marks the interface ready; tells whether a show request was waiting for it.
    pub fn set_ui_ready(&mut self) -> (r: bool)
        ensures
            r == old(self).pending_show,
            final(self).ui_ready,
            !final(self).pending_show,
            final(self).last_toggle_at == old(self).last_toggle_at,
    {
        self.ui_ready = true;
        let pending = self.pending_show;
        self.pending_show = false;
        pending
    }

    /// Decides on a toggle request at time `now_ms`.
    pub fn allow_toggle(&mut self, now_ms: u64) -> (r: GateDecision)
        ensures
            !old(self).ui_ready ==> r == GateDecision::DeferShow && final(self).pending_show
                && final(self).ui_ready == old(self).ui_ready && final(self).last_toggle_at
                == old(self).last_toggle_at,
            old(self).ui_ready ==> final(self).ui_ready && final(self).pending_show == old(
                self,
            ).pending_show,
            old(self).ui_ready && (old(self).last_toggle_at matches Some(last) && too_soon(
                last,
                now_ms,
            )) ==> r == GateDecision::Debounced && final(self).last_toggle_at == old(
                self,
            ).last_toggle_at,
            old(self).ui_ready && !(old(self).last_toggle_at matches Some(last) && too_soon(
                last,
                now_ms,
            )) ==> r == GateDecision::Proceed && final(self).last_toggle_at == Some(now_ms),
    {
        if !self.ui_ready {
            self.pending_show = true;
            return GateDecision::DeferShow;
        }
        match self.last_toggle_at {
            Some(last) => {
                let elapsed = if now_ms >= last {
                    now_ms - last
                } else {
                    0
                };
                if elapsed < TOGGLE_DEBOUNCE_MS {
                    return GateDecision::Debounced;
                }
            },
            None => {},
        }
        self.last_toggle_at = Some(now_ms);
        GateDecision::Proceed
    }
}

} // verus!
