use vstd::prelude::*;

verus! {

/// Settings the tracker reads on every tick and every usage query.
#[derive(Clone, Copy, Debug)]
pub struct AppConfig {
    /// Gap, in seconds, above which two pings fall into different sessions;
    /// an idle period at least this long also clears the reminder credit.
    pub break_threshold_seconds: u32,
    pub show_debug_view: bool,
    /// Continuous active time, in minutes, after which a reminder is raised.
    pub break_reminder_threshold_minutes: u32,
    pub break_reminder_enabled: bool,
    pub show_fullscreen_svg: bool,
}

impl Default for AppConfig {
    fn default() -> (r: Self)
        ensures
            r.break_threshold_seconds == 120,
            r.show_debug_view,
            r.break_reminder_threshold_minutes == 55,
            r.break_reminder_enabled,
            !r.show_fullscreen_svg,
    {
        AppConfig {
            break_threshold_seconds: 120,
            show_debug_view: true,
            break_reminder_threshold_minutes: 55,
            break_reminder_enabled: true,
            show_fullscreen_svg: false,
        }
    }
}

} // verus!
