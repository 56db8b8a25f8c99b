use chrono::{Local, Timelike};
use dayloop::{
    identity, DayLoop, Identity, TimeLinkedListNode, TimeOfDay, TimeSource, Transition,
};

#[derive(Clone, Copy, Debug, PartialEq, Eq)]
pub enum State {
    Running,
    Halted,
}

#[derive(Clone, Copy, Debug, PartialEq, Eq)]
enum Mode {
    Awake,
    Asleep,
}

fn at(hour: u32, minute: u32) -> TimeOfDay {
    TimeOfDay::new(hour * 3600 + minute * 60, 0).unwrap()
}

/// A household day: midnight (no hooks), 08:00 (wakes), 22:00
/// (sleeps), asleep to begin with, on a clock that stands at `now`.
fn household(now: TimeOfDay) -> DayLoop<Mode> {
    let mut day = DayLoop::with_time_source(Mode::Asleep, TimeSource::Fixed(now));
    let mut morning = TimeLinkedListNode::new(at(8, 0));
    morning.on_enter(|mode: &mut Mode| *mode = Mode::Awake);
    let mut night = TimeLinkedListNode::new(at(22, 0));
    night.on_enter(|mode: &mut Mode| *mode = Mode::Asleep);
    assert!(day.insert(night));
    assert!(day.insert(morning));
    day
}

/// A block at `start` whose hooks write `enter <tag>` and `leave <tag>`.
fn logging(start: TimeOfDay, tag: u32) -> TimeLinkedListNode<Vec<String>> {
    let mut node = TimeLinkedListNode::new(start);
    node.on_enter(move |log: &mut Vec<String>| log.push(format!("enter {}", tag)));
    node.on_leave(move |log: &mut Vec<String>| log.push(format!("leave {}", tag)));
    node
}

fn logged(now: TimeOfDay) -> DayLoop<Vec<String>> {
    let mut day = DayLoop::with_time_source(Vec::new(), TimeSource::Fixed(now));
    assert!(day.insert(logging(at(8, 0), 8)));
    assert!(day.insert(logging(at(22, 0), 22)));
    assert!(day.insert(logging(at(12, 0), 12)));
    day
}

#[test]
fn test_1() {
    let mut dayloop = DayLoop::new(State::Halted);
    let now = Local::now().time();
    let start = TimeOfDay::new(now.num_seconds_from_midnight(), now.nanosecond()).unwrap();
    let mut node: TimeLinkedListNode<State> = start.into();
    node.on_enter(|s| *s = State::Halted);
    node.on_leave(|s| *s = State::Running);
    dayloop.insert(node);
    let s = dayloop.get();
    assert!(*s == State::Halted || *s == State::Running);
    dayloop.get();
}

#[test]
fn fresh_loop_returns_initial_state() {
    let mut day = DayLoop::new(State::Running);
    assert_eq!(*day.get(), State::Running);
    assert_eq!(*day.get_mut(), State::Running);
    assert_eq!(day.len(), 1);
    assert_eq!(day.starts(), vec![TimeOfDay::midnight()]);
    assert!(day.active_boundary().secs < 86_400);
    assert!(day.active_boundary().frac < 2_000_000_000);
    assert_eq!(day.time_source(), TimeSource::Wall);
}

#[test]
fn single_block_ring_never_moves() {
    let mut day = DayLoop::with_time_source(7u32, TimeSource::Fixed(at(13, 30)));
    for minute in [0u32, 1, 59] {
        for hour in [0u32, 7, 23] {
            day.forward_to(at(hour, minute));
            assert_eq!(day.active_boundary(), at(13, 30));
            assert_eq!(day.starts(), vec![TimeOfDay::midnight()]);
            assert_eq!(*day.data(), 7);
            assert_eq!(day.len(), 1);
        }
    }
    assert_eq!(*day.get(), 7);
    *day.get_mut() += 1;
    assert_eq!(*day.data(), 8);
    assert_eq!(day.active_boundary(), at(13, 30));
    assert!(!day.has_pending(at(23, 59)));
}

#[test]
fn inserts_keep_blocks_ascending() {
    let mut day = DayLoop::new(0u8);
    let order = [(17u32, 5u32), (3, 0), (22, 0), (8, 30), (8, 0), (23, 59), (0, 1)];
    for (count, (hour, minute)) in order.iter().enumerate() {
        assert!(day.insert(TimeLinkedListNode::new(at(*hour, *minute))));
        let starts = day.starts();
        assert_eq!(starts.len(), count + 2);
        assert_eq!(starts[0], TimeOfDay::midnight());
        for pair in starts.windows(2) {
            assert!(pair[0] < pair[1]);
            assert!(pair[0].is_before(&pair[1]));
        }
    }
    assert_eq!(
        day.starts(),
        vec![
            at(0, 0),
            at(0, 1),
            at(3, 0),
            at(8, 0),
            at(8, 30),
            at(17, 5),
            at(22, 0),
            at(23, 59)
        ]
    );
}

#[test]
fn insert_after_steps_keeps_ring_order() {
    let mut day = logged(at(9, 0));
    day.forward_to_now();
    assert_eq!(day.starts(), vec![at(8, 0), at(12, 0), at(22, 0), at(0, 0)]);
    assert!(day.insert(logging(at(4, 0), 4)));
    assert_eq!(day.starts(), vec![at(8, 0), at(12, 0), at(22, 0), at(0, 0), at(4, 0)]);
    assert!(day.insert(logging(at(23, 0), 23)));
    assert!(day.insert(logging(at(10, 0), 10)));
    assert_eq!(
        day.starts(),
        vec![at(8, 0), at(10, 0), at(12, 0), at(22, 0), at(23, 0), at(0, 0), at(4, 0)]
    );
    assert_eq!(day.active_boundary(), at(8, 0));
}

#[test]
fn insert_turns_away_a_start_that_is_taken() {
    let mut day = logged(at(9, 0));
    assert!(!day.insert(logging(at(12, 0), 99)));
    assert!(!day.insert(logging(at(0, 0), 99)));
    assert!(!day.insert(TimeLinkedListNode::new(at(22, 0))));
    assert_eq!(day.starts(), vec![at(0, 0), at(8, 0), at(12, 0), at(22, 0)]);
    day.forward_to(at(23, 0));
    assert_eq!(
        *day.data(),
        vec!["enter 8", "leave 8", "enter 12", "leave 12", "enter 22"]
    );
    assert!(!day.insert(logging(at(8, 0), 99)));
    assert_eq!(day.len(), 4);
}

#[test]
fn outdated_iff_time_at_or_past_boundary() {
    let mut day = household(at(9, 0));
    assert_eq!(day.active_boundary(), at(9, 0));
    assert!(!day.is_outdated_by(at(0, 0)));
    assert!(!day.is_outdated_by(at(8, 59)));
    assert!(day.is_outdated_by(at(9, 0)));
    assert!(day.is_outdated_by(at(9, 1)));
    day.forward_to(at(9, 0));
    assert_eq!(day.active_boundary(), at(8, 0));
    assert!(!day.is_outdated_by(at(7, 59)));
    assert!(!day.is_outdated_by(TimeOfDay::new(8 * 3600 - 1, 1_999_999_999).unwrap()));
    assert!(day.is_outdated_by(at(8, 0)));
    assert!(day.is_outdated_by(TimeOfDay::new(8 * 3600, 1).unwrap()));
    assert!(day.is_outdated_by(at(23, 59)));
    assert!(day.is_outdated_by_now());
    day.set_time_source(TimeSource::Fixed(at(7, 0)));
    assert!(!day.is_outdated_by_now());
}

#[test]
fn catching_up_twice_changes_nothing() {
    for (hour, minute) in [(0u32, 0u32), (7, 59), (8, 0), (12, 0), (21, 59), (22, 0), (23, 59)] {
        let mut day = logged(at(hour, minute));
        day.forward_to(at(hour, minute));
        let starts = day.starts();
        let log = day.data().clone();
        assert!(!day.has_pending(at(hour, minute)));
        day.forward_to(at(hour, minute));
        day.forward_to_now();
        assert_eq!(day.starts(), starts);
        assert_eq!(*day.get(), log);
    }
}

#[test]
fn full_round_enters_in_order_and_wraps_once() {
    let mut day = DayLoop::with_time_source(Vec::new(), TimeSource::Fixed(at(0, 0)));
    let starts = [at(6, 0), at(9, 30), at(14, 0), at(20, 15)];
    for (i, start) in starts.iter().enumerate() {
        let tag = i + 2;
        let mut node = TimeLinkedListNode::new(*start);
        node.on_enter(move |seen: &mut Vec<usize>| seen.push(tag));
        assert!(day.insert(node));
    }
    let before = day.starts();
    assert_eq!(day.active_boundary(), at(0, 0));
    let mut wraps = Vec::new();
    let mut boundaries = Vec::new();
    for _ in 0..5 {
        wraps.push(day.forward());
        boundaries.push(day.active_boundary());
        assert_eq!(day.len(), 5);
    }
    assert_eq!(*day.data(), vec![2, 3, 4, 5]);
    assert_eq!(boundaries, vec![at(6, 0), at(9, 30), at(14, 0), at(20, 15), at(0, 0)]);
    assert_eq!(wraps, vec![false, false, false, false, true]);
    assert_eq!(day.starts(), before);
}

#[test]
fn several_rounds_come_back_to_the_same_ring() {
    let mut day = logged(at(0, 0));
    let before = day.starts();
    let mut wraps = 0;
    for _ in 0..12 {
        if day.forward() {
            wraps += 1;
        }
    }
    assert_eq!(wraps, 3);
    assert_eq!(day.starts(), before);
    assert_eq!(day.data().len(), 18);
    assert_eq!(
        day.data()[..6],
        ["enter 8", "leave 8", "enter 12", "leave 12", "enter 22", "leave 22"]
    );
    assert_eq!(day.data()[..6], day.data()[6..12]);
    assert_eq!(day.data()[..6], day.data()[12..]);
}

#[test]
fn awake_at_nine() {
    let mut day = household(at(9, 0));
    assert_eq!(*day.get(), Mode::Awake);
    assert_eq!(day.active_boundary(), at(8, 0));
}

#[test]
fn asleep_at_twenty_three() {
    let mut day = household(at(23, 0));
    assert_eq!(*day.get(), Mode::Asleep);
    assert_eq!(day.active_boundary(), at(22, 0));
}

#[test]
fn one_jump_over_two_boundaries() {
    let mut day = household(at(7, 0));
    assert_eq!(*day.get(), Mode::Asleep);
    assert_eq!(day.active_boundary(), at(7, 0));
    assert_eq!(day.starts(), vec![at(0, 0), at(8, 0), at(22, 0)]);
    day.set_time_source(TimeSource::Fixed(at(23, 30)));
    day.forward_to_now();
    assert_eq!(*day.data(), Mode::Asleep);
    assert_eq!(day.active_boundary(), at(22, 0));
}

#[test]
fn one_jump_fires_both_transitions_in_order() {
    let mut day = DayLoop::with_time_source(Vec::new(), TimeSource::Fixed(at(7, 0)));
    assert!(day.insert(logging(at(22, 0), 22)));
    assert!(day.insert(logging(at(8, 0), 8)));
    assert!(day.get().is_empty());
    day.set_time_source(TimeSource::Fixed(at(23, 30)));
    day.forward_to_now();
    assert_eq!(*day.data(), vec!["enter 8", "leave 8", "enter 22"]);
    assert_eq!(day.active_boundary(), at(22, 0));
    assert_eq!(day.starts(), vec![at(22, 0), at(0, 0), at(8, 0)]);
}

#[test]
fn time_before_the_boundary_moves_nothing() {
    let mut day = logged(at(23, 30));
    day.forward_to_now();
    assert_eq!(day.active_boundary(), at(22, 0));
    let log = day.data().clone();
    let starts = day.starts();
    for (hour, minute) in [(0u32, 0u32), (9, 0), (21, 59)] {
        assert!(!day.is_outdated_by(at(hour, minute)));
        day.forward_to(at(hour, minute));
        day.set_time_source(TimeSource::Fixed(at(hour, minute)));
        day.forward_to_now();
        assert_eq!(*day.get(), log);
        assert_eq!(day.starts(), starts);
        assert_eq!(day.active_boundary(), at(22, 0));
        assert!(!day.is_outdated_by(at(hour, minute)));
    }
    let mut early = household(at(9, 0));
    early.forward_to(at(8, 59));
    assert_eq!(*early.data(), Mode::Asleep);
    assert_eq!(early.active_boundary(), at(9, 0));
    assert_eq!(early.starts(), vec![at(0, 0), at(8, 0), at(22, 0)]);
}

#[test]
fn a_step_goes_round_midnight() {
    let mut day = household(at(23, 30));
    assert_eq!(*day.get(), Mode::Asleep);
    assert_eq!(day.active_boundary(), at(22, 0));
    assert!(day.has_pending(at(9, 0)));
    assert!(day.forward());
    assert_eq!(day.active_boundary(), at(0, 0));
    day.set_time_source(TimeSource::Fixed(at(9, 0)));
    assert_eq!(*day.get(), Mode::Awake);
    assert_eq!(day.active_boundary(), at(8, 0));
    assert!(!day.has_pending(at(9, 0)));
}

#[test]
fn forward_keeps_length_and_reports_midnight() {
    let mut day = household(at(0, 0));
    assert_eq!(day.len(), 3);
    assert!(!day.forward());
    assert_eq!(day.active_boundary(), at(8, 0));
    assert_eq!(*day.data(), Mode::Awake);
    assert!(!day.forward());
    assert_eq!(day.active_boundary(), at(22, 0));
    assert_eq!(*day.data(), Mode::Asleep);
    assert!(day.forward());
    assert_eq!(day.active_boundary(), at(0, 0));
    assert_eq!(day.len(), 3);
}

#[test]
fn forward_on_single_block_runs_its_own_hooks() {
    let mut day = DayLoop::new(5u32);
    assert!(!day.forward());
    assert_eq!(*day.data(), 5);
    assert_eq!(day.len(), 1);
    assert_eq!(day.active_boundary(), TimeOfDay::midnight());
}

#[test]
fn leave_runs_before_enter() {
    let mut day = logged(at(0, 0));
    day.forward_to(at(12, 0));
    assert_eq!(*day.data(), vec!["enter 8", "leave 8", "enter 12"]);
    day.forward();
    assert_eq!(day.data()[3], "leave 12");
    assert_eq!(day.data()[4], "enter 22");
}

#[test]
fn replacing_a_hook_swaps_it() {
    let mut node = TimeLinkedListNode::new(at(5, 0));
    node.on_enter(|n: &mut u32| *n += 1);
    node.on_enter(|n: &mut u32| *n += 10);
    node.on_leave(|n: &mut u32| *n *= 2);
    node.on_leave(identity);
    assert_eq!(node.start, at(5, 0));
    let mut day = DayLoop::new(1u32);
    assert!(day.insert(node));
    day.forward();
    assert_eq!(*day.data(), 11);
    day.forward();
    assert_eq!(*day.data(), 11);
}

#[test]
fn try_get_gives_state_only_up_to_the_boundary() {
    let mut day = household(at(9, 0));
    assert_eq!(day.try_get(), Some(&Mode::Asleep));
    assert!(day.is_current_at(at(9, 0)));
    assert!(day.is_current_at(at(0, 0)));
    assert!(!day.is_current_at(TimeOfDay::new(9 * 3600, 1).unwrap()));
    day.set_time_source(TimeSource::Fixed(at(9, 1)));
    assert_eq!(day.try_get(), None);
    assert!(day.try_get_mut().is_none());
    day.forward_to_now();
    assert_eq!(day.active_boundary(), at(8, 0));
    assert_eq!(day.try_get(), None);
    day.set_time_source(TimeSource::Fixed(at(8, 0)));
    assert_eq!(day.try_get(), Some(&Mode::Awake));
    if let Some(mode) = day.try_get_mut() {
        *mode = Mode::Asleep;
    }
    assert_eq!(*day.data(), Mode::Asleep);
    let mut alone = DayLoop::with_time_source(3u8, TimeSource::Fixed(at(15, 0)));
    alone.set_time_source(TimeSource::Fixed(at(16, 0)));
    assert_eq!(alone.try_get(), Some(&3));
    assert_eq!(alone.try_get_mut(), Some(&mut 3));
}

#[test]
fn data_mut_changes_state_in_place() {
    let mut day = household(at(9, 0));
    *day.data_mut() = Mode::Awake;
    assert_eq!(*day.data(), Mode::Awake);
    assert_eq!(day.active_boundary(), at(9, 0));
    assert_eq!(day.len(), 3);
}

#[test]
fn identity_changes_nothing() {
    let mut n = 41u64;
    identity(&mut n);
    assert_eq!(n, 41);
}

#[test]
fn time_of_day_bounds() {
    assert_eq!(TimeOfDay::new(0, 0), Some(TimeOfDay::midnight()));
    assert!(TimeOfDay::new(86_399, 1_999_999_999).is_some());
    assert_eq!(TimeOfDay::new(86_400, 0), None);
    assert_eq!(TimeOfDay::new(0, 2_000_000_000), None);
    let t = TimeOfDay::new(3_661, 42).unwrap();
    assert_eq!(t.secs, 3_661);
    assert_eq!(t.frac, 42);
}

#[test]
fn time_of_day_order() {
    let a = TimeOfDay::new(10, 999_999_999).unwrap();
    let b = TimeOfDay::new(11, 0).unwrap();
    let c = TimeOfDay::new(11, 1).unwrap();
    assert!(a.is_before(&b));
    assert!(b.is_before(&c));
    assert!(!b.is_before(&b));
    assert!(!c.is_before(&a));
    assert!(b.is_at_or_after(&b));
    assert!(c.is_at_or_after(&a));
    assert!(!a.is_at_or_after(&b));
    assert!(a < b && b < c);
}

#[test]
fn sooner_reads_the_day_as_a_circle() {
    let from = at(22, 0);
    assert!(from.sooner(&at(23, 0), &at(1, 0)));
    assert!(!from.sooner(&at(1, 0), &at(23, 0)));
    assert!(from.sooner(&at(1, 0), &at(2, 0)));
    assert!(from.sooner(&at(22, 0), &at(21, 59)));
    assert!(!from.sooner(&at(21, 59), &at(22, 0)));
    assert!(!from.sooner(&at(5, 0), &at(5, 0)));
}

#[test]
fn time_of_day_orders_as_chrono_does() {
    let pairs = [(0u32, 0u32), (59, 1_500_000_000), (60, 200_000_000), (86_399, 999_999_999)];
    for (s1, f1) in pairs {
        for (s2, f2) in pairs {
            let a = chrono::NaiveTime::from_num_seconds_from_midnight_opt(s1, f1).unwrap();
            let b = chrono::NaiveTime::from_num_seconds_from_midnight_opt(s2, f2).unwrap();
            let x = TimeOfDay::new(s1, f1).unwrap();
            let y = TimeOfDay::new(s2, f2).unwrap();
            assert_eq!(a < b, x.is_before(&y));
            assert_eq!(a >= b, x.is_at_or_after(&y));
        }
    }
    let min = chrono::NaiveTime::MIN;
    assert_eq!(min.num_seconds_from_midnight(), TimeOfDay::midnight().secs);
    assert_eq!(min.nanosecond(), TimeOfDay::midnight().frac);
}

#[test]
fn fixed_source_reads_its_time() {
    assert_eq!(TimeSource::Fixed(at(6, 45)).now(), at(6, 45));
}

#[test]
fn wall_source_reads_the_local_clock() {
    let before = Local::now().time();
    let read = TimeSource::Wall.now();
    let after = Local::now().time();
    assert!(read.secs < 86_400);
    assert!(read.frac < 2_000_000_000);
    if before <= after {
        let lo = (before.num_seconds_from_midnight(), before.nanosecond());
        let hi = (after.num_seconds_from_midnight(), after.nanosecond());
        assert!(lo <= (read.secs, read.frac));
        assert!((read.secs, read.frac) <= hi);
    }
}

#[test]
fn node_from_time_has_no_hooks() {
    let node: TimeLinkedListNode<u32> = TimeLinkedListNode::from(at(6, 0));
    assert_eq!(node.start, at(6, 0));
    let mut day = DayLoop::new(9u32);
    assert!(day.insert(node));
    day.forward();
    day.forward();
    assert_eq!(*day.data(), 9);
}

struct Bump(u32);

impl Transition<u32> for Bump {
    fn apply(&self, state: &mut u32) {
        *state += self.0;
    }
}

#[test]
fn hooks_can_be_any_transition() {
    let mut node = TimeLinkedListNode::new(at(6, 0));
    node.enter = Box::new(Bump(5));
    node.leave = Box::new(Bump(100));
    let mut day = DayLoop::with_time_source(0u32, TimeSource::Fixed(at(0, 0)));
    assert!(day.insert(node));
    day.forward_to(at(7, 0));
    assert_eq!(*day.data(), 5);
    day.forward_to(at(1, 0));
    assert_eq!(*day.data(), 5);
    assert!(day.forward());
    assert_eq!(*day.data(), 105);
    let mut plain = 3u32;
    Identity.apply(&mut plain);
    assert_eq!(plain, 3);
}

#[test]
fn wall_clock_schedule_reads_without_steps() {
    let before = Local::now().time();
    let mut day = DayLoop::new(State::Running);
    let after = Local::now().time();
    let made = day.active_boundary();
    if before <= after {
        let lo = (before.num_seconds_from_midnight(), before.nanosecond());
        let hi = (after.num_seconds_from_midnight(), after.nanosecond());
        assert!(lo <= (made.secs, made.frac));
        assert!((made.secs, made.frac) <= hi);
    }
    assert_eq!(day.try_get(), Some(&State::Running));
    day.forward_to_now();
    day.next_block();
    assert_eq!(day.active_boundary(), made);
    assert_eq!(day.starts(), vec![TimeOfDay::midnight()]);
    assert_eq!(*day.data(), State::Running);
}

#[test]
fn new_on_a_fixed_source_takes_its_time_as_boundary() {
    let day = DayLoop::with_time_source(0u8, TimeSource::Fixed(at(17, 45)));
    assert_eq!(day.active_boundary(), at(17, 45));
    assert!(day.is_outdated_by(at(17, 45)));
    assert!(!day.is_outdated_by(at(17, 44)));
    assert!(day.is_outdated_by_now());
}
