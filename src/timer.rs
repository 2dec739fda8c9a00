use vstd::prelude::*;
use std::time::Instant;
use crate::time::{decimal, push_decimal};

verus! {

#[verifier::external_type_specification]
#[verifier::external_body]
pub struct ExInstant(Instant);

/// Relies on `std::time::Instant::now`: a reading of the monotonic clock, opaque here.
#[verifier::external_body]
fn clock_now() -> Instant {
    Instant::now()
}

/// Relies on `Instant::elapsed`, read as a count by `Duration::as_nanos`: the nanoseconds
/// from `start` to now. The clock is monotonic, so later readings are never smaller; nothing
/// else is known of the value.
#[verifier::external_body]
fn nanos_since(start: &Instant) -> u128 {
    start.elapsed().as_nanos()
}

/// The sum `a + b`, held at `u128::MAX` if it would not fit.
pub open spec fn sum_capped(a: u128, b: u128) -> u128 {
    if a + b > u128::MAX {
        u128::MAX
    } else {
        (a + b) as u128
    }
}

pub open spec fn bool_text(b: bool) -> Seq<char> {
    if b {
        "true"@
    } else {
        "false"@
    }
}

/// The diagnostic line of a timer: whether it runs, the nanoseconds accumulated over earlier
/// runs, and the nanoseconds since its last start, if it was started.
pub open spec fn state_text(running: bool, accumulated: nat, since_start: Option<nat>) -> Seq<char> {
    "Timer state: running="@ + bool_text(running) + ", elapsed="@ + decimal(accumulated)
        + "ns, start_time="@ + match since_start {
        Some(n) => "Some("@ + decimal(n) + "ns)"@,
        None => "None"@,
    }
}

/// Play time across pauses, in nanoseconds: the time of finished runs, plus the time since
/// the last start while it runs.
#[derive(Debug)]
pub struct GameTimer {
    start_time: Option<Instant>,
    elapsed: u128,
    is_running: bool,
}

impl GameTimer {
    #[verifier::type_invariant]
    spec fn running_has_start(self) -> bool {
        self.is_running ==> self.start_time is Some
    }

    pub closed spec fn running(&self) -> bool {
        self.is_running
    }

    /// Nanoseconds of the runs that have ended.
    pub closed spec fn accumulated(&self) -> u128 {
        self.elapsed
    }

    /// The clock reading at the last start, if the timer was started since it was made or reset.
    pub closed spec fn start_instant(&self) -> Option<Instant> {
        self.start_time
    }

    /// The timer was started since it was made or reset.
    pub closed spec fn started(&self) -> bool {
        self.start_time is Some
    }

    /// The elapsed time the timer reports when the clock shows `since_start` nanoseconds since
    /// its last start.
    pub open spec fn elapsed_at(&self, since_start: u128) -> u128 {
        if self.running() {
            sum_capped(self.accumulated(), since_start)
        } else {
            self.accumulated()
        }
    }

    /// A stopped timer at zero.
    pub fn new() -> (r: Self)
        ensures
            !r.running(),
            r.accumulated() == 0,
            !r.started(),
    {
        GameTimer { start_time: None, elapsed: 0, is_running: false }
    }

    /// Starts or resumes the timer at the clock reading `now`; a running timer is left as it is.
    pub fn start_at(&mut self, now: Instant)
        ensures
            final(self).running(),
            final(self).started(),
            final(self).accumulated() == old(self).accumulated(),
            old(self).running() ==> *final(self) == *old(self),
            !old(self).running() ==> final(self).start_instant() == Some(now),
    {
        proof {
            use_type_invariant(&*self);
        }
        if !self.is_running {
            self.start_time = Some(now);
            self.is_running = true;
        }
    }

    /// Starts or resumes the timer from now; a running timer is left as it is.
    pub fn start(&mut self)
        ensures
            final(self).running(),
            final(self).started(),
            final(self).accumulated() == old(self).accumulated(),
            old(self).running() ==> *final(self) == *old(self),
    {
        proof {
            use_type_invariant(&*self);
        }
        if !self.is_running {
            self.start_at(clock_now());
        }
    }

    /// Pauses a running timer when the clock shows `since_start` nanoseconds since its last
    /// start, adding them to the accumulated time; a stopped timer is left as it is.
    pub fn pause_with(&mut self, since_start: u128)
        ensures
            !final(self).running(),
            final(self).started() == old(self).started(),
            final(self).start_instant() == old(self).start_instant(),
            final(self).accumulated() == old(self).elapsed_at(since_start),
            !old(self).running() ==> *final(self) == *old(self),
    {
        proof {
            use_type_invariant(&*self);
        }
        if self.is_running {
            self.elapsed = self.elapsed.saturating_add(since_start);
            self.is_running = false;
        }
    }

    /// Pauses a running timer, adding the time since its start to the accumulated time; a
    /// stopped timer is left as it is.
    pub fn pause(&mut self)
        ensures
            !final(self).running(),
            final(self).started() == old(self).started(),
            old(self).running() ==> exists|n: u128| final(self).accumulated() == old(self).elapsed_at(n),
            !old(self).running() ==> *final(self) == *old(self),
    {
        if self.is_running {
            proof {
                use_type_invariant(&*self);
            }
            let current_elapsed = nanos_since(self.start_time.as_ref().unwrap());
            self.pause_with(current_elapsed);
        }
    }

    /// Stops the timer and clears it to zero.
    pub fn reset(&mut self)
        ensures
            !final(self).running(),
            final(self).accumulated() == 0,
            !final(self).started(),
    {
        self.is_running = false;
        self.start_time = None;
        self.elapsed = 0;
    }

    /// The elapsed time when the clock shows `since_start` nanoseconds since the last start.
    pub fn elapsed_with(&self, since_start: u128) -> (r: u128)
        ensures
            r == self.elapsed_at(since_start),
    {
        if self.is_running {
            self.elapsed.saturating_add(since_start)
        } else {
            self.elapsed
        }
    }

    /// The elapsed play time in nanoseconds, read from the clock while the timer runs.
    pub fn get_elapsed(&self) -> (r: u128)
        ensures
            exists|n: u128| r == self.elapsed_at(n),
            !self.running() ==> r == self.accumulated(),
            r >= self.accumulated(),
    {
        if self.is_running {
            proof {
                use_type_invariant(self);
            }
            let since = nanos_since(self.start_time.as_ref().unwrap());
            self.elapsed_with(since)
        } else {
            assert(self.elapsed == self.elapsed_at(0));
            self.elapsed
        }
    }

    pub fn is_running(&self) -> (r: bool)
        ensures
            r == self.running(),
    {
        self.is_running
    }

    /// A line describing the timer, for diagnostics.
    pub fn debug_state(&self) -> (r: String)
        ensures
            !self.started() ==> r@ == state_text(self.running(), self.accumulated() as nat, None),
            self.started() ==> exists|n: nat|
                r@ == state_text(self.running(), self.accumulated() as nat, Some(n)),
    {
        let mut s = String::new();
        proof {
            reveal_strlit("Timer state: running=");
            reveal_strlit("true");
            reveal_strlit("false");
            reveal_strlit(", elapsed=");
            reveal_strlit("ns, start_time=");
            reveal_strlit("Some(");
            reveal_strlit("ns)");
            reveal_strlit("None");
        }
        s.append("Timer state: running=");
        if self.is_running {
            s.append("true");
        } else {
            s.append("false");
        }
        s.append(", elapsed=");
        push_decimal(&mut s, self.elapsed);
        s.append("ns, start_time=");
        match &self.start_time {
            Some(start) => {
                let since = nanos_since(start);
                s.append("Some(");
                push_decimal(&mut s, since);
                s.append("ns)");
                assert(s@ =~= state_text(self.running(), self.accumulated() as nat, Some(since as nat)));
            },
            None => {
                s.append("None");
                assert(s@ =~= state_text(self.running(), self.accumulated() as nat, None));
            },
        }
        s
    }
}

impl Clone for GameTimer {
    fn clone(&self) -> (r: Self)
        ensures
            r == *self,
    {
        proof {
            use_type_invariant(self);
        }
        GameTimer { start_time: self.start_time, elapsed: self.elapsed, is_running: self.is_running }
    }
}

/// While the timer runs, a later clock reading never gives a smaller elapsed time; while it
/// is paused or stopped, every reading gives the same one.
pub proof fn lemma_elapsed_monotonic(t: GameTimer, earlier: u128, later: u128)
    requires
        earlier <= later,
    ensures
        t.elapsed_at(earlier) <= t.elapsed_at(later),
        !t.running() ==> t.elapsed_at(earlier) == t.elapsed_at(later),
{
}

/// A timer that was reset reads zero whatever the clock shows, and is not running.
pub proof fn lemma_reset_reads_zero(t: GameTimer, reading: u128)
    requires
        !t.running(),
        t.accumulated() == 0,
    ensures
        t.elapsed_at(reading) == 0,
{
}

} // verus!
