use vstd::arithmetic::div_mod::{
    lemma_breakdown,
    lemma_fundamental_div_mod,
    lemma_hoist_over_denominator,
    lemma_mod_multiples_vanish,
};
use vstd::prelude::*;

verus! {

/// Minutes in an in-world day.
pub const MINUTES_PER_DAY: u32 = 1440;

/// The in-world time of day `(hour, minute)` reached `game_secs` game
/// seconds after a start at `start_hour` o'clock: whole minutes elapsed are
/// counted, whole hours are added to the start hour (as a `u32`), and the
/// hour wraps at 24.
pub open spec fn clock_reading(start_hour: u32, game_secs: u64) -> (u32, u32) {
    let minutes = game_secs / 60;
    let total_hour = start_hour + ((minutes / 60) as u32);
    ((total_hour % 24) as u32, (minutes % 60) as u32)
}

/// The clock reading can be taken without the hour count overflowing.
pub open spec fn clock_fits(start_hour: u32, game_secs: u64) -> bool {
    start_hour + ((game_secs / 60 / 60) as u32) <= u32::MAX
}

/// The game minutes from the time of day `current_hour:current_minute` to
/// the next `target_hour:target_minute`: the same day if the target lies
/// later, otherwise the next day (a full day when they coincide).
pub open spec fn minutes_to_target(
    current_hour: u32,
    current_minute: u32,
    target_hour: u32,
    target_minute: u32,
) -> int {
    let current = current_hour * 60 + current_minute;
    let target = target_hour * 60 + target_minute;
    if target > current {
        target - current
    } else {
        MINUTES_PER_DAY + target - current
    }
}

/// Reads the in-world clock `game_secs` game seconds after a start at
/// `start_hour` o'clock (the arithmetic of asking the game what time it is
/// in the world, once real time has been scaled to game time).
pub fn clock_time(start_hour: u32, game_secs: u64) -> (hm: (u32, u32))
    requires
        clock_fits(start_hour, game_secs),
    ensures
        hm == clock_reading(start_hour, game_secs),
{
    let total_game_minutes = game_secs / 60;
    let total_hour = start_hour + (total_game_minutes / 60) as u32;
    let current_hour = total_hour % 24;
    let current_minute = (total_game_minutes % 60) as u32;
    (current_hour, current_minute)
}

/// The game minutes to advance from `current_hour:current_minute` to reach
/// `target_hour:target_minute`, the next day when the target is not later
/// than the current time (the arithmetic of skipping ahead to a time of
/// day).
pub fn minutes_until(current_hour: u32, current_minute: u32, target_hour: u32, target_minute: u32) -> (diff: u32)
    requires
        current_hour * 60 + current_minute <= u32::MAX,
        target_hour * 60 + target_minute <= u32::MAX,
        target_hour * 60 + target_minute <= current_hour * 60 + current_minute ==> {
            &&& MINUTES_PER_DAY + target_hour * 60 + target_minute <= u32::MAX
            &&& current_hour * 60 + current_minute <= MINUTES_PER_DAY + target_hour * 60
                + target_minute
        },
    ensures
        diff == minutes_to_target(current_hour, current_minute, target_hour, target_minute),
{
    let current_total_minutes = current_hour * 60 + current_minute;
    let target_total_minutes = target_hour * 60 + target_minute;
    if target_total_minutes > current_total_minutes {
        target_total_minutes - current_total_minutes
    } else {
        (MINUTES_PER_DAY + target_total_minutes) - current_total_minutes
    }
}

/// `start * 60 + minutes`, taken modulo a day, is the clock reading in
/// minutes.
proof fn lemma_reading_as_day_minutes(start: int, minutes: int)
    requires
        0 <= start,
        0 <= minutes,
    ensures
        ((start + minutes / 60) % 24) * 60 + minutes % 60 == (start * 60 + minutes) % 1440,
{
    let x = start * 60 + minutes;
    lemma_breakdown(x, 60, 24);
    assert(x == minutes + start * 60);
    lemma_hoist_over_denominator(minutes, start, 60);
    assert(x / 60 == start + minutes / 60);
    lemma_mod_multiples_vanish(start, minutes, 60);
    assert(x % 60 == minutes % 60);
}

/// Skipping ahead to a time of day lands on it: from any clock reading,
/// advancing the game time by the minutes that `minutes_until` gives for a
/// valid target time makes the clock read exactly the target, and the skip
/// is never empty and never longer than a day.
pub proof fn lemma_skip_reaches_target(start_hour: u32, game_secs: u64, target_hour: u32, target_minute: u32)
    requires
        target_hour < 24,
        target_minute < 60,
        game_secs / 60 / 60 <= u32::MAX,
        clock_fits(start_hour, game_secs),
        ({
            let (h, m) = clock_reading(start_hour, game_secs);
            let d = minutes_to_target(h, m, target_hour, target_minute);
            &&& game_secs + d * 60 <= u64::MAX
            &&& start_hour + (game_secs + d * 60) / 60 / 60 <= u32::MAX
        }),
    ensures
        ({
            let (h, m) = clock_reading(start_hour, game_secs);
            let d = minutes_to_target(h, m, target_hour, target_minute);
            &&& 1 <= d <= MINUTES_PER_DAY
            &&& clock_fits(start_hour, (game_secs + d * 60) as u64)
            &&& clock_reading(start_hour, (game_secs + d * 60) as u64) == (target_hour, target_minute)
        }),
{
    let (h, m) = clock_reading(start_hour, game_secs);
    let d = minutes_to_target(h, m, target_hour, target_minute);
    let minutes = game_secs / 60;
    let later = (game_secs + d * 60) as u64;
    let later_minutes = later / 60;
    let s = start_hour as int;
    assert(later / 60 / 60 == later_minutes / 60);
    assert(((later_minutes / 60) as u32) == later_minutes / 60);
    assert(((minutes / 60) as u32) == minutes / 60);
    lemma_reading_as_day_minutes(s, minutes as int);
    let c = (s * 60 + minutes) % 1440;
    assert(h as int * 60 + m as int == c);
    let t = target_hour * 60 + target_minute;
    assert(0 <= c < 1440);
    assert(1 <= d <= 1440);
    lemma_hoist_over_denominator(game_secs as int, d, 60);
    assert(later_minutes == minutes + d);
    lemma_reading_as_day_minutes(s, later_minutes as int);
    let x = s * 60 + minutes;
    lemma_fundamental_div_mod(x, 1440);
    let q = x / 1440;
    assert(x == 1440 * q + c);
    if t > c {
        assert(x + d == 1440 * q + t);
        lemma_mod_multiples_vanish(q, t, 1440);
    } else {
        assert(x + d == 1440 * (q + 1) + t);
        lemma_mod_multiples_vanish(q + 1, t, 1440);
    }
    assert((s * 60 + later_minutes) % 1440 == t);
    let (h2, m2) = clock_reading(start_hour, later);
    assert(h2 as int * 60 + m2 as int == t);
    assert(h2 == target_hour && m2 == target_minute);
}

/// The clock reading is anchored at the start hour and counts whole game
/// hours and minutes from it: the hour is the start hour plus the whole
/// hours elapsed, modulo 24, and the minute is the whole minutes elapsed
/// modulo 60. In particular a clock just started at `h` o'clock (`h < 24`)
/// reads `h:00`, and it reads the same at any two times a whole number of
/// days apart.
pub proof fn lemma_clock_counts_from_start(start_hour: u32, game_secs: u64)
    requires
        start_hour + game_secs / 3600 <= u32::MAX,
    ensures
        clock_reading(start_hour, game_secs).0 == (start_hour + game_secs / 3600) % 24,
        clock_reading(start_hour, game_secs).1 == (game_secs / 60) % 60,
        start_hour < 24 && game_secs < 60 ==> clock_reading(start_hour, game_secs) == (
            start_hour,
            0u32,
        ),
        game_secs + 86400 <= u64::MAX && start_hour + (game_secs + 86400) / 3600 <= u32::MAX
            ==> clock_reading(start_hour, (game_secs + 86400) as u64) == clock_reading(
            start_hour,
            game_secs,
        ),
{
    assert(game_secs / 60 / 60 == game_secs / 3600);
    assert(((game_secs / 60 / 60) as u32) == game_secs / 60 / 60);
    if game_secs + 86400 <= u64::MAX && start_hour + (game_secs + 86400) / 3600 <= u32::MAX {
        let later = (game_secs + 86400) as u64;
        assert(later / 60 / 60 == later / 3600);
        assert(later / 3600 == game_secs / 3600 + 24);
        assert(((later / 60 / 60) as u32) == later / 60 / 60);
        assert(later / 60 == game_secs / 60 + 1440);
        lemma_mod_multiples_vanish(1, (start_hour + game_secs / 3600) as int, 24);
        lemma_mod_multiples_vanish(24, (game_secs / 60) as int, 60);
    }
}

/// Skipping from a valid time of day to a valid target takes between one
/// minute and a full day, and adding it to the current minute of the day
/// lands on the target minute of the day; this fixes the skip uniquely.
pub proof fn lemma_skip_length(current_hour: u32, current_minute: u32, target_hour: u32, target_minute: u32)
    requires
        current_hour < 24,
        current_minute < 60,
        target_hour < 24,
        target_minute < 60,
    ensures
        ({
            let d = minutes_to_target(current_hour, current_minute, target_hour, target_minute);
            &&& 1 <= d <= 1440
            &&& (current_hour * 60 + current_minute + d) % 1440 == target_hour * 60 + target_minute
        }),
{
    let d = minutes_to_target(current_hour, current_minute, target_hour, target_minute);
    let c = current_hour * 60 + current_minute;
    let t = target_hour * 60 + target_minute;
    if t > c {
        assert(c + d == t);
    } else {
        assert(c + d == t + 1440);
        lemma_mod_multiples_vanish(1, t as int, 1440);
    }
}

} // verus!
