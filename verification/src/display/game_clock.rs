//! The game clock: time played, the pauses left out.
use vstd::prelude::*;
use vstd::string::*;
use std::time::{Duration, Instant};
use crate::text::{push_two_digits, two_digits};

verus! {

#[verifier::external_type_specification]
#[verifier::external_body]
pub struct ExInstant(Instant);

/// Calls `Instant::now` of std: the present moment; nothing is stated of it.
#[verifier::external_body]
fn instant_now() -> Instant {
    Instant::now()
}

/// Calls `Instant::elapsed` of std: the time since `start`; nothing is stated
/// of it, as it depends on the clock.
#[verifier::external_body]
fn elapsed_since(start: &Instant) -> Duration {
    start.elapsed()
}

/// Calls `Duration::as_nanos` of std: `d` in nanoseconds; nothing is stated
/// of it, as `Duration` is opaque here.
#[verifier::external_body]
fn duration_nanos(d: &Duration) -> u128 {
    d.as_nanos()
}

/// `nanos` nanoseconds as whole minutes and seconds, "mm:ss", each at least
/// two digits wide.
pub open spec fn mm_ss(nanos: u128) -> Seq<char> {
    let secs = nanos / NANOS_PER_SEC;
    two_digits((secs / 60) as nat) + seq![':'] + two_digits((secs % 60) as nat)
}

/// Nanoseconds in a second.
pub const NANOS_PER_SEC: u128 = 1_000_000_000;

/// The game's clock. Times are nanoseconds since the clock started; while
/// paused, the clock stands still.
pub struct GameClock {
    start_time: Instant,
    total_paused: u128,
    pause_start: Option<u128>,
    running: bool,
}

impl GameClock {
    /// The clock runs exactly when no pause has started.
    pub closed spec fn wf(&self) -> bool {
        self.running <==> self.pause_start is None
    }

    pub closed spec fn is_running(&self) -> bool {
        self.running
    }

    pub closed spec fn paused_total(&self) -> u128 {
        self.total_paused
    }

    pub closed spec fn paused_at(&self) -> Option<u128> {
        self.pause_start
    }

    /// The time played at moment `now`: the time since the start (or, while
    /// paused, until the pause), less the time paused before, never below zero.
    pub open spec fn elapsed_spec(&self, now: u128) -> u128 {
        let until = match self.paused_at() {
            Some(p) => p,
            None => now,
        };
        if until >= self.paused_total() {
            (until - self.paused_total()) as u128
        } else {
            0
        }
    }

    /// A running clock, started now, that has not been paused.
    pub fn new() -> (clock: GameClock)
        ensures
            clock.wf(),
            clock.is_running(),
            clock.paused_total() == 0,
            clock.paused_at() is None,
    {
        GameClock { start_time: instant_now(), total_paused: 0, pause_start: None, running: true }
    }

    /// Stops the clock at moment `now`; a stopped clock stays as it is.
    pub fn pause_at(&mut self, now: u128)
        requires
            old(self).wf(),
        ensures
            final(self).wf(),
            !final(self).is_running(),
            final(self).paused_total() == old(self).paused_total(),
            final(self).paused_at() == if old(self).is_running() {
                Some(now)
            } else {
                old(self).paused_at()
            },
    {
        if self.running {
            self.pause_start = Some(now);
            self.running = false;
        }
    }

    /// Starts a stopped clock again at moment `now`, the time since the pause
    /// added to the time paused (no more than `u128::MAX` in all); a running
    /// clock stays as it is.
    pub fn resume_at(&mut self, now: u128)
        requires
            old(self).wf(),
        ensures
            final(self).wf(),
            final(self).is_running(),
            final(self).paused_at() is None,
            final(self).paused_total() == match old(self).paused_at() {
                Some(p) => {
                    let gap = if now >= p { now - p } else { 0 };
                    if old(self).paused_total() + gap <= u128::MAX {
                        (old(self).paused_total() + gap) as u128
                    } else {
                        u128::MAX
                    }
                },
                None => old(self).paused_total(),
            },
    {
        match self.pause_start {
            Some(p) => {
                self.pause_start = None;
                let gap = now.saturating_sub(p);
                self.total_paused = self.total_paused.saturating_add(gap);
                self.running = true;
            },
            None => {},
        }
    }

    /// The time played at moment `now`.
    pub fn elapsed_at(&self, now: u128) -> (t: u128)
        ensures
            t == self.elapsed_spec(now),
    {
        let until = match self.pause_start {
            Some(p) => p,
            None => now,
        };
        until.saturating_sub(self.total_paused)
    }

    /// The time played at moment `now` as minutes and seconds, "mm:ss", each
    /// at least two digits wide.
    pub fn formatted_time_at(&self, now: u128) -> (text: String)
        ensures
            text@ == mm_ss(self.elapsed_spec(now)),
    {
        let secs = self.elapsed_at(now) / NANOS_PER_SEC;
        let mut text = String::new();
        push_two_digits(&mut text, secs / 60);
        proof {
            reveal_strlit(":");
        }
        text.append(":");
        push_two_digits(&mut text, secs % 60);
        text
    }

    /// The moment it is now, on this clock.
    fn now(&self) -> u128 {
        duration_nanos(&elapsed_since(&self.start_time))
    }

    /// Stops the clock now.
    pub fn pause(&mut self)
        requires
            old(self).wf(),
        ensures
            final(self).wf(),
            !final(self).is_running(),
            final(self).paused_total() == old(self).paused_total(),
            !old(self).is_running() ==> final(self).paused_at() == old(self).paused_at(),
    {
        let now = self.now();
        self.pause_at(now);
    }

    /// Starts the clock again now.
    pub fn resume(&mut self)
        requires
            old(self).wf(),
        ensures
            final(self).wf(),
            final(self).is_running(),
            old(self).is_running() ==> final(self).paused_total() == old(self).paused_total(),
            final(self).paused_total() >= old(self).paused_total(),
    {
        let now = self.now();
        self.resume_at(now);
    }

    /// The time played now, in nanoseconds: the clock's reading at some
    /// moment, which one depending on when it is called.
    fn elapsed(&self) -> (t: u128)
        ensures
            exists|now: u128| t == #[trigger] self.elapsed_spec(now),
    {
        let now = self.now();
        self.elapsed_at(now)
    }

    /// The time played now as "mm:ss": the text for the clock's reading at
    /// some moment, which one depending on when it is called.
    pub fn formatted_time(&self) -> (text: String)
        ensures
            exists|now: u128| text@ == #[trigger] mm_ss(self.elapsed_spec(now)),
    {
        let now = self.now();
        self.formatted_time_at(now)
    }
}

/// While the clock is stopped, the time played does not change; after it is
/// started again, the time it stood still is left out of the time played.
pub proof fn lemma_pause_excluded(c: GameClock, paused: GameClock, resumed: GameClock, p: u128, r: u128, t: u128)
    requires
        c.wf(),
        c.is_running(),
        paused.wf(),
        paused.paused_at() == Some(p),
        paused.paused_total() == c.paused_total(),
        resumed.wf(),
        resumed.is_running(),
        p <= r <= t,
        resumed.paused_total() == c.paused_total() + (r - p),
        c.paused_total() <= p,
    ensures
        paused.elapsed_spec(r) == paused.elapsed_spec(t),
        paused.elapsed_spec(t) == c.elapsed_spec(p),
        resumed.elapsed_spec(t) == c.elapsed_spec(t) - (r - p),
{
}

} // verus!
