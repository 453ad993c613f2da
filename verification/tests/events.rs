use rins::events::{covers_peril, Event, EventLog, Peril, Risk, SimEvent};
use rins::types::{Day, Year};

#[test]
fn peril_covered_membership() {
    let risk = Risk {
        sum_insured: 1_000_000,
        territory: "US-SE".to_string(),
        perils_covered: vec![Peril::WindstormAtlantic],
    };
    assert!(risk.perils_covered.contains(&Peril::WindstormAtlantic));
    assert!(!risk.perils_covered.contains(&Peril::Attritional));
    assert!(covers_peril(&risk.perils_covered, Peril::WindstormAtlantic));
    assert!(!covers_peril(&risk.perils_covered, Peril::Attritional));
}

#[test]
fn event_log_is_append_only() {
    let mut log = EventLog::new();
    assert!(log.is_empty());
    log.push(SimEvent { day: Day(0), event: Event::YearStart { year: Year(1) } });
    log.push(SimEvent { day: Day(359), event: Event::YearEnd { year: Year(1) } });
    assert_eq!(log.len(), 2);
    let days: Vec<u64> = log.iter().map(|e| e.day.0).collect();
    assert_eq!(days, vec![0, 359]);
    assert!(matches!(log.as_slice()[1].event, Event::YearEnd { year: Year(1) }));
}

#[test]
fn event_log_back_fills_last_entry() {
    let mut log = EventLog::from_history(vec![SimEvent {
        day: Day(3),
        event: Event::InsurerEntered { insurer_id: rins::types::InsurerId(1), initial_capital: 0 },
    }]);
    if let Some(last) = log.last_mut() {
        last.event = Event::InsurerEntered { insurer_id: rins::types::InsurerId(1), initial_capital: 9 };
    }
    assert!(matches!(log.as_slice()[0].event, Event::InsurerEntered { initial_capital: 9, .. }));
    let mut empty = EventLog::new();
    assert!(empty.last_mut().is_none());
}
