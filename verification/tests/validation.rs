use rfcbot_config::validation::{
    MemberError, Progress, StoreFailure, Validation, ValidationError,
};
use rfcbot_config::{read_rfcbot_cfg_from, RfcbotConfig, Team};
use std::collections::BTreeSet;

fn team(logins: &[&str]) -> Team {
    Team::new(logins.iter().map(|login| login.to_string()).collect())
}

fn config(teams: &[(&str, &[&str])]) -> RfcbotConfig {
    let mut text = String::from("[prohibited_reactions]\n[fcp_behaviors]\n[teams]\n");
    for (label, logins) in teams {
        let quoted: Vec<String> = logins.iter().map(|login| format!("{:?}", login)).collect();
        text.push_str(&format!("[teams.{:?}]\nmembers = [{}]\n", label, quoted.join(", ")));
    }
    read_rfcbot_cfg_from(&text).unwrap()
}

/// Validates a team against a store that knows `known`. Gives the end of the validation
/// and the logins that were looked up, in their order.
fn validate_team(team: &Team, known: &[&str]) -> (Progress, Vec<String>) {
    let known: BTreeSet<&str> = known.iter().copied().collect();
    let mut asked = Vec::new();
    let mut progress = team.validation_start();
    while let Progress::Ask(place) = progress {
        let login = team.login(place).unwrap();
        asked.push(login.to_string());
        let reply = if known.contains(login) { Ok(()) } else { Err(StoreFailure::NotFound) };
        progress = team.validation_step(place, reply);
    }
    (progress, asked)
}

fn validate_config(config: &RfcbotConfig, known: &[&str]) -> (Validation, Vec<String>) {
    let known: BTreeSet<&str> = known.iter().copied().collect();
    let mut asked = Vec::new();
    let mut validation = config.validation_start();
    while let Validation::Ask { team, member } = validation {
        let login = config.login_at(team, member).unwrap();
        asked.push(login.to_string());
        let reply = if known.contains(login) { Ok(()) } else { Err(StoreFailure::NotFound) };
        validation = config.validation_step(team, member, reply);
    }
    (validation, asked)
}

#[test]
fn a_team_whose_members_are_all_known_is_valid() {
    let team = team(&["hulk", "thor", "thevision"]);
    let (end, asked) = validate_team(&team, &["thor", "thevision", "hulk", "loki"]);
    assert_eq!(end, Progress::Valid);
    assert_eq!(asked, vec!["hulk", "thor", "thevision"]);
}

#[test]
fn a_team_without_members_is_valid_and_asks_nothing() {
    let team = team(&[]);
    assert_eq!(team.validation_start(), Progress::Valid);
    let (end, asked) = validate_team(&team, &[]);
    assert_eq!(end, Progress::Valid);
    assert!(asked.is_empty());
}

#[test]
fn the_first_unknown_member_ends_the_validation() {
    let team = team(&["hulk", "loki", "thor", "ultron"]);
    let (end, asked) = validate_team(&team, &["hulk", "thor"]);
    assert_eq!(
        end,
        Progress::Invalid(MemberError {
            place: 1,
            login: "loki".to_string(),
            failure: StoreFailure::NotFound
        })
    );
    assert_eq!(asked, vec!["hulk", "loki"]);
}

#[test]
fn every_member_is_looked_up_even_if_it_occurs_twice() {
    let team = team(&["thor", "thor", "hulk"]);
    let (end, asked) = validate_team(&team, &["hulk", "thor"]);
    assert_eq!(end, Progress::Valid);
    assert_eq!(asked, vec!["thor", "thor", "hulk"]);
}

#[test]
fn the_steps_of_a_team() {
    let team = team(&["a", "b"]);
    assert_eq!(team.validation_start(), Progress::Ask(0));
    assert_eq!(team.validation_step(0, Ok(())), Progress::Ask(1));
    assert_eq!(team.validation_step(1, Ok(())), Progress::Valid);
    assert_eq!(
        team.validation_step(0, Err(StoreFailure::NotFound)),
        Progress::Invalid(MemberError {
            place: 0,
            login: "a".to_string(),
            failure: StoreFailure::NotFound
        })
    );
    assert_eq!(
        team.validation_step(1, Err(StoreFailure::Failed("connection lost".to_string()))),
        Progress::Invalid(MemberError {
            place: 1,
            login: "b".to_string(),
            failure: StoreFailure::Failed("connection lost".to_string())
        })
    );
    assert_eq!(team.len(), 2);
    assert_eq!(team.login(0), Some("a"));
    assert_eq!(team.login(1), Some("b"));
    assert_eq!(team.login(2), None);
}

#[test]
fn a_configuration_is_validated_team_by_team_in_label_order() {
    let config = config(&[
        ("justice-league", &["superman", "batman"]),
        ("avengers", &["hulk", "thor"]),
        ("empty", &[]),
    ]);
    let (end, asked) = validate_config(&config, &["batman", "superman", "thor", "hulk"]);
    assert_eq!(end, Validation::Valid);
    assert_eq!(asked, vec!["hulk", "thor", "superman", "batman"]);
}

#[test]
fn one_unknown_member_makes_the_configuration_invalid() {
    let config = config(&[
        ("justice-league", &["superman", "joker", "batman"]),
        ("avengers", &["hulk", "thor"]),
        ("x-men", &["magneto"]),
    ]);
    let (end, asked) = validate_config(&config, &["batman", "superman", "thor", "hulk"]);
    assert_eq!(
        end,
        Validation::Invalid(ValidationError {
            team: 1,
            label: "justice-league".to_string(),
            member: MemberError {
                place: 1,
                login: "joker".to_string(),
                failure: StoreFailure::NotFound
            }
        })
    );
    assert_eq!(asked, vec!["hulk", "thor", "superman", "joker"]);
}

#[test]
fn teams_without_members_are_passed_over() {
    let config = config(&[("a", &[]), ("b", &[]), ("c", &["x"]), ("d", &[]), ("e", &["y"])]);
    assert_eq!(config.validation_start(), Validation::Ask { team: 2, member: 0 });
    assert_eq!(config.validation_step(2, 0, Ok(())), Validation::Ask { team: 4, member: 0 });
    assert_eq!(config.validation_step(4, 0, Ok(())), Validation::Valid);
    assert_eq!(config.login_at(2, 0), Some("x"));
    assert_eq!(config.login_at(2, 1), None);
    assert_eq!(config.login_at(0, 0), None);
    assert_eq!(config.login_at(5, 0), None);
}

#[test]
fn a_configuration_without_members_is_valid() {
    let (end, asked) = validate_config(&config(&[]), &[]);
    assert_eq!(end, Validation::Valid);
    assert!(asked.is_empty());
    let (end, asked) = validate_config(&config(&[("a", &[]), ("b", &[])]), &[]);
    assert_eq!(end, Validation::Valid);
    assert!(asked.is_empty());
}

#[test]
fn a_failed_lookup_is_handed_on() {
    let config = config(&[("a", &["x", "y"])]);
    let failure = StoreFailure::Failed("timeout".to_string());
    assert_eq!(
        config.validation_step(0, 1, Err(failure)),
        Validation::Invalid(ValidationError {
            team: 0,
            label: "a".to_string(),
            member: MemberError {
                place: 1,
                login: "y".to_string(),
                failure: StoreFailure::Failed("timeout".to_string())
            }
        })
    );
}
