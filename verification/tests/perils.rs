use std::collections::{HashMap, HashSet};

use rand::{Rng, SeedableRng};
use rand_distr::{Distribution, Poisson};
use rand_chacha::ChaCha20Rng;
use rins::events::{Event, Peril};
use rins::perils::{place_loss_events, schedule_loss_events};
use rins::types::{Day, Year};

fn territories() -> Vec<String> {
    vec!["US-NE".to_string(), "US-SE".to_string(), "US-Gulf".to_string()]
}

#[test]
fn loss_events_fall_within_the_year_with_consecutive_ids() {
    let mut rng = ChaCha20Rng::seed_from_u64(7);
    let mut next_id = 10u64;
    let (events, _) = schedule_loss_events(25, Year(3), &territories(), &mut rng, &mut next_id);
    assert_eq!(events.len(), 25);
    assert_eq!(next_id, 35);
    for (i, (day, ev)) in events.iter().enumerate() {
        assert!(day.0 >= 720 + 1 && day.0 < 720 + 360, "day {} outside year 3", day.0);
        match ev {
            Event::LossEvent { event_id, peril, territory } => {
                assert_eq!(*event_id, 10 + i as u64);
                assert_eq!(*peril, Peril::WindstormAtlantic);
                assert!(territories().contains(territory));
            }
            other => panic!("unexpected {other:?}"),
        }
    }
}

#[test]
fn loss_events_follow_the_generator_stream() {
    // The same seed drawn directly: day offset, then territory, per event.
    let mut direct = ChaCha20Rng::seed_from_u64(42);
    let ts = territories();
    let expected: Vec<(u64, String)> = (0..8)
        .map(|_| {
            let offset = direct.random_range(1_u64..360);
            let idx = direct.random_range(0..ts.len());
            (offset, ts[idx].clone())
        })
        .collect();
    let mut rng = ChaCha20Rng::seed_from_u64(42);
    let mut next_id = 0u64;
    let (events, _) = schedule_loss_events(8, Year(1), &ts, &mut rng, &mut next_id);
    let got: Vec<(u64, String)> = events
        .iter()
        .map(|(d, e)| match e {
            Event::LossEvent { territory, .. } => (d.0, territory.clone()),
            _ => panic!("unexpected"),
        })
        .collect();
    assert_eq!(got, expected);
    // Not every draw can be the low end of its range.
    assert!(got.iter().any(|(d, _)| *d != 1));
}

#[test]
fn no_territories_no_events() {
    let mut rng = ChaCha20Rng::seed_from_u64(1);
    let mut next_id = 4u64;
    let (events, _) = schedule_loss_events(3, Year(1), &Vec::new(), &mut rng, &mut next_id);
    assert!(events.is_empty());
    assert_eq!(next_id, 4);
    let (none, _) = schedule_loss_events(0, Year(2), &territories(), &mut rng, &mut next_id);
    assert!(none.is_empty());
    assert_eq!(next_id, 4);
    let _ = Day(0);
}

/// The year's catastrophe count, drawn as the simulation draws it, then placed.
fn schedule_with_rate(rate: f64, year: Year, territories: &Vec<String>, rng: &mut ChaCha20Rng, next_id: &mut u64) -> Vec<(Day, Event)> {
    let count = Poisson::new(rate).unwrap().sample(rng) as u64;
    schedule_loss_events(count, year, territories, rng, next_id).0
}

fn us_se() -> Vec<String> {
    vec!["US-SE".to_string()]
}

#[test]
fn schedule_loss_events_returns_correct_peril() {
    let mut rng = ChaCha20Rng::seed_from_u64(42);
    let mut next_id = 0u64;
    let events = schedule_with_rate(2.0, Year(1), &us_se(), &mut rng, &mut next_id);
    assert!(!events.is_empty(), "expected events with lambda=2.0");
    for (_, e) in &events {
        assert!(matches!(e, Event::LossEvent { peril: Peril::WindstormAtlantic, .. }), "expected WindstormAtlantic LossEvent, got {e:?}");
    }
}

#[test]
fn poisson_count_is_reasonable() {
    let mut rng = ChaCha20Rng::seed_from_u64(42);
    let years = 100u32;
    let mut total = 0usize;
    let mut next_id = 0u64;
    for y in 1..=years {
        total += schedule_with_rate(2.0, Year(y), &us_se(), &mut rng, &mut next_id).len();
    }
    let mean = total as f64 / years as f64;
    assert!(mean >= 1.5 && mean <= 2.5, "mean annual count {mean:.2} outside [1.5, 2.5]");
}

#[test]
fn loss_event_ids_are_unique() {
    let mut rng = ChaCha20Rng::seed_from_u64(42);
    let mut next_id = 0u64;
    let mut seen = HashSet::new();
    for y in 1..=10u32 {
        for (_, e) in schedule_with_rate(2.0, Year(y), &us_se(), &mut rng, &mut next_id) {
            if let Event::LossEvent { event_id, .. } = e {
                assert!(seen.insert(event_id), "duplicate event_id {event_id}");
            }
        }
    }
}

#[test]
fn scheduled_days_within_year() {
    let mut rng = ChaCha20Rng::seed_from_u64(42);
    let mut next_id = 0u64;
    let year = Year(3);
    let year_start = Day::year_start(year);
    let events = schedule_with_rate(10.0, year, &us_se(), &mut rng, &mut next_id);
    assert!(!events.is_empty(), "expected events with lambda=10");
    for (day, _) in &events {
        assert!(
            day.0 > year_start.0 && day.0 <= year_start.0 + 359,
            "day {} outside [{}, {}]",
            day.0,
            year_start.0 + 1,
            year_start.0 + 359
        );
    }
}

#[test]
fn schedule_loss_events_assigns_known_territories() {
    let ts = territories();
    let mut rng = ChaCha20Rng::seed_from_u64(42);
    let mut next_id = 0u64;
    for y in 1..=20u32 {
        for (_, e) in schedule_with_rate(20.0, Year(y), &ts, &mut rng, &mut next_id) {
            if let Event::LossEvent { territory, .. } = e {
                assert!(ts.contains(&territory), "event territory '{territory}' not in config list");
            }
        }
    }
}

#[test]
fn schedule_loss_events_covers_all_territories() {
    let ts = territories();
    let mut rng = ChaCha20Rng::seed_from_u64(42);
    let mut next_id = 0u64;
    let mut counts: HashMap<String, usize> = HashMap::new();
    for y in 1..=20u32 {
        for (_, e) in schedule_with_rate(20.0, Year(y), &ts, &mut rng, &mut next_id) {
            if let Event::LossEvent { territory, .. } = e {
                *counts.entry(territory).or_insert(0) += 1;
            }
        }
    }
    for t in &ts {
        let n = counts.get(t).copied().unwrap_or(0);
        assert!(n >= 50, "territory '{t}' received only {n} events (expected ≈133)");
    }
}

#[test]
fn draws_are_placed_on_their_day_and_territory() {
    let mut next_id = 5u64;
    let events = place_loss_events(Year(2), &territories(), &vec![(1, 2), (359, 0)], &mut next_id);
    assert_eq!(next_id, 7);
    assert_eq!(events.len(), 2);
    assert_eq!(events[0].0, Day(361));
    assert!(matches!(&events[0].1, Event::LossEvent { event_id: 5, peril: Peril::WindstormAtlantic, territory } if territory == "US-Gulf"));
    assert_eq!(events[1].0, Day(719));
    assert!(matches!(&events[1].1, Event::LossEvent { event_id: 6, territory, .. } if territory == "US-NE"));
}
