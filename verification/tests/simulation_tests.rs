use teleology_core::simulation::{plan_tick, plan_tick_day, tier_due};
use teleology_core::world::{GameDate, GameTime, TimeConfig};

#[test]
fn tick_day_advances_date() {
    let t = plan_tick_day(GameDate::default(), Some(GameTime::default()));
    assert_eq!(t.date.day, 2);
    assert_eq!(t.date.month, 1);
    assert_eq!(t.date.year, 1444);
    assert!(!t.run_monthly);
}

#[test]
fn tick_day_rolls_month() {
    let mut time = GameTime::default();
    time.day = 31;
    time.month = 1;
    time.year = 1444;
    let t = plan_tick_day(GameDate::new(1444, 1, 31), Some(time));
    assert_eq!(t.date.day, 1);
    assert_eq!(t.date.month, 2);
    assert_eq!(t.date.year, 1444);
    assert!(t.run_monthly);
    assert!(!t.run_yearly);
}

#[test]
fn tick_day_rolls_year() {
    let mut time = GameTime::default();
    time.day = 31;
    time.month = 12;
    time.year = 1444;
    let t = plan_tick_day(GameDate::new(1444, 12, 31), Some(time));
    assert_eq!(t.date.day, 1);
    assert_eq!(t.date.month, 1);
    assert_eq!(t.date.year, 1445);
    assert!(t.run_monthly);
    assert!(t.run_yearly);
}

#[test]
fn tick_day_without_time_uses_date() {
    let t = plan_tick_day(GameDate::new(1444, 2, 28), None);
    assert!(t.time.is_none());
    assert_eq!(t.date.day, 1);
    assert_eq!(t.date.month, 3);
}

#[test]
fn tick_with_hourly_config() {
    let config = TimeConfig::tactical();
    let mut time = GameTime::default();
    for _ in 0..23 {
        plan_tick(&mut time, &config);
    }
    assert_eq!(time.hour, 23);
    assert_eq!(time.day, 1);
    let plan = plan_tick(&mut time, &config);
    assert_eq!(time.hour, 0);
    assert_eq!(time.day, 2);
    assert_eq!(time.tick, 24);
    assert!(plan.run_secondary);
}

#[test]
fn tick_with_second_config() {
    let config = TimeConfig::realtime();
    let mut time = GameTime::default();
    for _ in 0..60 {
        plan_tick(&mut time, &config);
    }
    assert_eq!(time.second, 0);
    assert_eq!(time.minute, 1);
    assert_eq!(time.tick, 60);
}

#[test]
fn tick_with_yearly_config() {
    let config = TimeConfig::civilization();
    let mut time = GameTime::default();
    for _ in 0..10 {
        plan_tick(&mut time, &config);
    }
    assert_eq!(time.year, 1454);
    assert_eq!(time.tick, 10);
}

#[test]
fn tier_due_every_threshold() {
    assert!(tier_due(29, 30, 30));
    assert!(!tier_due(30, 31, 30));
    assert!(!tier_due(5, 6, 0));
}

#[test]
fn checked_tick_refuses_calendar_overflow() {
    let config = teleology_core::world::TimeConfig::grand_strategy();
    let mut t = teleology_core::world::GameTime::new(i32::MAX, 12, 31);
    assert!(!teleology_core::simulation::can_advance(t, teleology_core::world::TickUnit::Day));
    let before = t;
    assert!(teleology_core::simulation::try_plan_tick(&mut t, &config).is_none());
    assert_eq!(t, before);
    let mut t = teleology_core::world::GameTime::new(1444, 12, 31);
    let plan = teleology_core::simulation::try_plan_tick(&mut t, &config).unwrap();
    assert!(plan.run_primary);
    assert_eq!((t.year, t.month, t.day), (1445, 1, 1));
    assert!(teleology_core::simulation::can_advance(t, teleology_core::world::TickUnit::Week));
    let d = teleology_core::world::GameDate::new(i32::MAX, 12, 31);
    assert!(!teleology_core::simulation::can_step_date(d));
    assert!(teleology_core::simulation::try_plan_tick_day(d, None).is_none());
    let day = teleology_core::simulation::try_plan_tick_day(teleology_core::world::GameDate::new(1444, 1, 31), None).unwrap();
    assert!(day.run_monthly);
    assert!(!day.run_yearly);
}
