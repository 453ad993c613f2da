use rins::config::{quotes_per_submission, roster, ASSET_VALUE};
use rins::events::Peril;
use rins::types::InsuredId;

#[test]
fn roster_places_insureds_in_territories_in_turn() {
    let territories = vec!["US-SE".to_string(), "US-NE".to_string()];
    let r = roster(3, &territories);
    assert_eq!(r.len(), 3);
    let ids: Vec<InsuredId> = r.iter().map(|(id, _)| *id).collect();
    assert_eq!(ids, vec![InsuredId(1), InsuredId(2), InsuredId(3)]);
    let places: Vec<&str> = r.iter().map(|(_, risk)| risk.territory.as_str()).collect();
    assert_eq!(places, vec!["US-SE", "US-NE", "US-SE"]);
    for (_, risk) in &r {
        assert_eq!(risk.sum_insured, ASSET_VALUE);
        assert_eq!(risk.perils_covered, vec![Peril::WindstormAtlantic, Peril::Attritional]);
    }
}

#[test]
fn roster_without_territories_defaults_to_us_se() {
    let r = roster(2, &vec![]);
    assert!(r.iter().all(|(_, risk)| risk.territory == "US-SE"));
    assert!(roster(0, &vec![]).is_empty());
}

#[test]
fn quotes_per_submission_is_clamped_to_the_pool() {
    assert_eq!(quotes_per_submission(None, 5), 5);
    assert_eq!(quotes_per_submission(Some(3), 5), 3);
    assert_eq!(quotes_per_submission(Some(9), 5), 5);
    assert_eq!(quotes_per_submission(Some(0), 5), 1);
    assert_eq!(quotes_per_submission(None, 0), 1);
}
