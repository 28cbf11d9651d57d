use vstd::prelude::*;
use crate::config::AppConfig;

verus! {

/// Seconds between two samples of the tracking loop.
pub const TICK_SECONDS: u32 = 5;

/// Idle time, in milliseconds, below which the user counts as active.
pub const ACTIVE_IDLE_MILLIS: u64 = 5000;

/// What one sample of the loop decided.
#[derive(Clone, Copy, Debug, PartialEq, Eq, Structural)]
pub struct TickAction {
    /// The user counts as active on this sample; a ping is recorded.
    pub is_active: bool,
    /// The reminder threshold was reached: a reminder is to be shown.
    pub show_reminder: bool,
}

/// The break-reminder accumulator: seconds of continuous activity since the
/// last long enough break or the last reminder.
#[derive(Clone, Copy, Debug, PartialEq, Eq, Structural)]
pub struct ReminderState {
    pub active_seconds: u32,
}

pub open spec fn is_active_sample(idle_millis: u64, media_playing: bool) -> bool {
    idle_millis < ACTIVE_IDLE_MILLIS || media_playing
}

/// The credit after an active sample, before a reminder may clear it.
pub open spec fn raised_seconds(active_seconds: u32) -> u32 {
    if active_seconds as int + TICK_SECONDS as int <= u32::MAX as int {
        (active_seconds + TICK_SECONDS) as u32
    } else {
        u32::MAX
    }
}

/// Whether a sample fires a reminder.
pub open spec fn fires(
    active_seconds: u32,
    idle_millis: u64,
    media_playing: bool,
    cfg: AppConfig,
) -> bool {
    is_active_sample(idle_millis, media_playing) && cfg.break_reminder_enabled && raised_seconds(
        active_seconds,
    ) as int >= cfg.break_reminder_threshold_minutes as int * 60
}

/// The credit after a sample.
pub open spec fn next_seconds(
    active_seconds: u32,
    idle_millis: u64,
    media_playing: bool,
    cfg: AppConfig,
) -> u32 {
    if is_active_sample(idle_millis, media_playing) {
        if fires(active_seconds, idle_millis, media_playing, cfg) {
            0
        } else {
            raised_seconds(active_seconds)
        }
    } else if idle_millis / 1000 >= cfg.break_threshold_seconds as int {
        0
    } else {
        active_seconds
    }
}

impl ReminderState {
    pub fn new() -> (r: Self)
        ensures
            r.active_seconds == 0,
    {
        ReminderState { active_seconds: 0 }
    }

    /// Advances the accumulator by one sample of the host's idle time and
    /// playback state, and says whether to record a ping and raise a reminder.
    pub fn tick(&mut self, idle_millis: u64, media_playing: bool, cfg: &AppConfig) -> (r:
        TickAction)
        ensures
            r.is_active == is_active_sample(idle_millis, media_playing),
            r.show_reminder == fires(old(self).active_seconds, idle_millis, media_playing, *cfg),
            final(self).active_seconds == next_seconds(
                old(self).active_seconds,
                idle_millis,
                media_playing,
                *cfg,
            ),
    {
        let is_active = idle_millis < ACTIVE_IDLE_MILLIS || media_playing;
        let mut show_reminder = false;
        if is_active {
            self.active_seconds = self.active_seconds.saturating_add(TICK_SECONDS);
            let threshold: u64 = cfg.break_reminder_threshold_minutes as u64 * 60;
            if cfg.break_reminder_enabled && self.active_seconds as u64 >= threshold {
                self.active_seconds = 0;
                show_reminder = true;
            }
        } else if idle_millis / 1000 >= cfg.break_threshold_seconds as u64 {
            self.active_seconds = 0;
        }
        TickAction { is_active, show_reminder }
    }
}

/// Credit and number of reminders after `n` active samples from a zero credit.
pub open spec fn after_active_ticks(n: nat, cfg: AppConfig) -> (u32, nat)
    decreases n,
{
    if n == 0 {
        (0u32, 0nat)
    } else {
        let (acc, count) = after_active_ticks((n - 1) as nat, cfg);
        (
            next_seconds(acc, 0, false, cfg),
            if fires(acc, 0, false, cfg) {
                count + 1
            } else {
                count
            },
        )
    }
}

/// Reminder cadence: with reminders enabled every `m` minutes, active
/// samples from a zero credit raise no reminder until the sample that brings
/// the credit to `m` minutes; that one raises exactly one and clears the
/// credit, and the sample after it raises none.
pub proof fn lemma_reminder_cadence(cfg: AppConfig, n: nat)
    requires
        cfg.break_reminder_enabled,
        1 <= cfg.break_reminder_threshold_minutes,
        cfg.break_reminder_threshold_minutes as int * 60 <= u32::MAX,
        n <= cfg.break_reminder_threshold_minutes as int * 12 + 1,
    ensures
        n < cfg.break_reminder_threshold_minutes as int * 12 ==> after_active_ticks(n, cfg) == (
        (5 * n) as u32, 0nat),
        n == cfg.break_reminder_threshold_minutes as int * 12 ==> after_active_ticks(n, cfg) == (
        0u32, 1nat),
        n == cfg.break_reminder_threshold_minutes as int * 12 + 1 ==> after_active_ticks(n, cfg)
            == (5u32, 1nat),
    decreases n,
{
    if n > 0 {
        lemma_reminder_cadence(cfg, (n - 1) as nat);
    }
}

/// Idle reset: an inactive sample whose idle time reaches the break
/// threshold clears the credit and raises no reminder, whatever the credit.
pub proof fn lemma_idle_reset(active_seconds: u32, idle_millis: u64, cfg: AppConfig)
    requires
        idle_millis >= ACTIVE_IDLE_MILLIS,
        idle_millis / 1000 >= cfg.break_threshold_seconds as int,
    ensures
        next_seconds(active_seconds, idle_millis, false, cfg) == 0,
        !fires(active_seconds, idle_millis, false, cfg),
{
}

} // verus!
