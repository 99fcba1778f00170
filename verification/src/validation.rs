//! Validating that the members of a team are known to the user store. The store
//! is outside this library: the functions here say which login to look up
//! next, and take what the store answered.

use crate::teams::{RfcbotConfig, Team};
use vstd::prelude::*;

verus! {

/// Why the user store did not confirm a login.
#[derive(Debug, PartialEq, Eq)]
pub enum StoreFailure {
    /// The store has no user of that login.
    NotFound,
    /// The lookup itself failed. This is the store's complaint.
    Failed(String),
}

/// A member that the user store did not confirm.
#[derive(Debug, PartialEq, Eq)]
pub struct MemberError {
    /// The place of the member in the team.
    pub place: usize,
    /// The login of the member.
    pub login: String,
    /// What the store answered.
    pub failure: StoreFailure,
}

/// How far the validation of a team has come.
#[derive(Debug, PartialEq, Eq)]
pub enum Progress {
    /// The member at this place is to be looked up next.
    Ask(usize),
    /// Every member was confirmed.
    Valid,
    /// A member was not confirmed. No member behind it was looked up.
    Invalid(MemberError),
}

/// How far the validation of a list of logins has come: the place to look up next,
/// or how the validation ended.
pub enum Step {
    Ask(int),
    Valid,
    /// The login at this place was not confirmed.
    Invalid(int),
}

impl View for Progress {
    type V = Step;

    open spec fn view(&self) -> Step {
        match self {
            Progress::Ask(place) => Step::Ask(*place as int),
            Progress::Valid => Step::Valid,
            Progress::Invalid(error) => Step::Invalid(error.place as int),
        }
    }
}

/// The first step of the validation: the first login is looked up, if there is one.
pub open spec fn first_step(logins: Seq<Seq<char>>) -> Step {
    if logins.len() == 0 {
        Step::Valid
    } else {
        Step::Ask(0)
    }
}

/// The step after the login at `asked` was looked up: the validation ends on the
/// first login that is not confirmed, and goes on to the next login otherwise.
/// It ends as valid only behind the last login, and only if that was confirmed.
pub open spec fn next_step(logins: Seq<Seq<char>>, asked: int, confirmed: bool) -> Step
    recommends
        0 <= asked < logins.len(),
{
    if !confirmed {
        Step::Invalid(asked)
    } else if asked + 1 < logins.len() {
        Step::Ask(asked + 1)
    } else {
        Step::Valid
    }
}

impl Team {
    /// Begins the validation of the team: says which member to look up first.
    pub fn validation_start(&self) -> (progress: Progress)
        ensures
            progress@ == first_step(self@),
    {
        if self.len() == 0 {
            Progress::Valid
        } else {
            Progress::Ask(0)
        }
    }

    /// Goes on with the validation of the team after the member at `asked` was looked
    /// up and the store gave `reply`. An error names the member and holds what
    /// the store answered. `asked` is the place of a member: the place that the
    /// step before named.
    pub fn validation_step(&self, asked: usize, reply: Result<(), StoreFailure>) -> (progress:
        Progress)
        requires
            asked < self@.len(),
        ensures
            progress@ == next_step(self@, asked as int, reply is Ok),
            progress matches Progress::Invalid(error) ==> error.login@ == self@[asked as int]
                && reply == Err::<(), StoreFailure>(error.failure),
    {
        let login = self.login(asked).unwrap();
        match reply {
            Err(failure) => Progress::Invalid(
                MemberError { place: asked, login: login.to_string(), failure },
            ),
            Ok(_) => if asked < self.len() - 1 {
                Progress::Ask(asked + 1)
            } else {
                Progress::Valid
            },
        }
    }
}

/// How the validation ends from `step` on, with a store that knows the logins of
/// `known` and no others.
pub open spec fn run(logins: Seq<Seq<char>>, known: Set<Seq<char>>, step: Step) -> Step
    decreases
        (match step {
            Step::Ask(asked) => logins.len() - asked,
            _ => 0,
        }),
{
    match step {
        Step::Ask(asked) => if 0 <= asked < logins.len() {
            run(logins, known, next_step(logins, asked, known.contains(logins[asked])))
        } else {
            Step::Valid
        },
        _ => step,
    }
}

/// The login at `place` is the first one that `known` does not hold.
pub open spec fn first_unknown(logins: Seq<Seq<char>>, known: Set<Seq<char>>, place: int) -> bool {
    &&& 0 <= place < logins.len()
    &&& !known.contains(logins[place])
    &&& forall|i: int| 0 <= i < place ==> known.contains(logins[i])
}

/// A validation that has confirmed the logins before `asked` ends as valid if the
/// store knows all the others too, and else on the first login that it does not
/// know.
proof fn lemma_run_from(logins: Seq<Seq<char>>, known: Set<Seq<char>>, asked: int)
    requires
        0 <= asked < logins.len(),
        forall|i: int| 0 <= i < asked ==> known.contains(logins[i]),
    ensures
        run(logins, known, Step::Ask(asked)) == Step::Valid <==> forall|i: int|
            0 <= i < logins.len() ==> known.contains(logins[i]),
        forall|place: int|
            run(logins, known, Step::Ask(asked)) == Step::Invalid(place) <==> first_unknown(
                logins,
                known,
                place,
            ),
        !(run(logins, known, Step::Ask(asked)) is Ask),
    decreases logins.len() - asked,
{
    let end = run(logins, known, Step::Ask(asked));
    if !known.contains(logins[asked]) {
        assert(run(logins, known, Step::Invalid(asked)) == Step::Invalid(asked));
        assert(end == Step::Invalid(asked));
        assert(first_unknown(logins, known, asked));
        assert forall|place: int| first_unknown(logins, known, place) implies place == asked by {
            if place < asked {
                assert(known.contains(logins[place]));
            } else if place > asked {
                assert(known.contains(logins[asked]));
            }
        }
    } else if asked + 1 < logins.len() {
        lemma_run_from(logins, known, asked + 1);
        assert(end == run(logins, known, Step::Ask(asked + 1)));
    } else {
        assert(run(logins, known, Step::Valid) == Step::Valid);
        assert(end == Step::Valid);
        assert forall|place: int| !first_unknown(logins, known, place) by {
            if 0 <= place < logins.len() {
                assert(known.contains(logins[place]));
            }
        }
    }
}

/// Validation succeeds exactly for a team whose members the store all knows,
/// and fails on the first member that it does not know, whatever stands
/// behind that member.
pub proof fn lemma_validation(team: Team, known: Set<Seq<char>>)
    ensures
        run(team@, known, first_step(team@)) == Step::Valid <==> forall|i: int|
            0 <= i < team@.len() ==> known.contains(team@[i]),
        forall|place: int|
            run(team@, known, first_step(team@)) == Step::Invalid(place) <==> first_unknown(
                team@,
                known,
                place,
            ),
        !(run(team@, known, first_step(team@)) is Ask),
{
    if team@.len() > 0 {
        lemma_run_from(team@, known, 0);
    }
}

/// A member of a team that the user store did not confirm.
#[derive(Debug, PartialEq, Eq)]
pub struct ValidationError {
    /// The place of the team among the teams, in ascending label order.
    pub team: usize,
    /// The label of the team.
    pub label: String,
    /// The member, and what the store answered.
    pub member: MemberError,
}

/// How far the validation of a configuration has come.
#[derive(Debug, PartialEq, Eq)]
pub enum Validation {
    /// This member of this team is to be looked up next.
    Ask { team: usize, member: usize },
    /// Every member of every team was confirmed.
    Valid,
    /// A member was not confirmed. Nothing behind it was looked up.
    Invalid(ValidationError),
}

/// How far the validation of a list of teams has come: the team and the member to
/// look up next, or how the validation ended.
pub enum ConfigStep {
    Ask(int, int),
    Valid,
    /// This member of this team was not confirmed.
    Invalid(int, int),
}

impl View for Validation {
    type V = ConfigStep;

    open spec fn view(&self) -> ConfigStep {
        match self {
            Validation::Ask { team, member } => ConfigStep::Ask(*team as int, *member as int),
            Validation::Valid => ConfigStep::Valid,
            Validation::Invalid(error) => ConfigStep::Invalid(
                error.team as int,
                error.member.place as int,
            ),
        }
    }
}

/// `member` is a member of the team at `team`.
pub open spec fn is_member(
    teams: Seq<(Seq<char>, Seq<Seq<char>>)>,
    team: int,
    member: int,
) -> bool {
    0 <= team < teams.len() && 0 <= member < teams[team].1.len()
}

/// The first member of the first team from `from` on that has a member: there
/// the validation goes on. Without such a team the validation has ended.
pub open spec fn settle(teams: Seq<(Seq<char>, Seq<Seq<char>>)>, from: int) -> ConfigStep
    decreases teams.len() - from,
{
    if !(0 <= from < teams.len()) {
        ConfigStep::Valid
    } else if teams[from].1.len() > 0 {
        ConfigStep::Ask(from, 0)
    } else {
        settle(teams, from + 1)
    }
}

/// The step after a member was looked up: the validation ends on the first member
/// that is not confirmed, and else goes on to the next member, of this team or
/// of the next team that has one. It ends as valid only behind the last member
/// of all, and only if that was confirmed.
pub open spec fn config_next(
    teams: Seq<(Seq<char>, Seq<Seq<char>>)>,
    team: int,
    member: int,
    confirmed: bool,
) -> ConfigStep
    recommends
        is_member(teams, team, member),
{
    match next_step(teams[team].1, member, confirmed) {
        Step::Ask(next) => ConfigStep::Ask(team, next),
        Step::Invalid(place) => ConfigStep::Invalid(team, place),
        Step::Valid => settle(teams, team + 1),
    }
}

/// Where `settle` goes on, there is a member, and the teams that it passed
/// over have none.
pub proof fn lemma_settle(teams: Seq<(Seq<char>, Seq<Seq<char>>)>, from: int)
    requires
        0 <= from,
    ensures
        match settle(teams, from) {
            ConfigStep::Ask(team, member) => from <= team && member == 0 && is_member(
                teams,
                team,
                member,
            ) && forall|t: int| from <= t < team ==> teams[t].1.len() == 0,
            ConfigStep::Valid => forall|t: int| from <= t < teams.len() ==> teams[t].1.len() == 0,
            ConfigStep::Invalid(_, _) => false,
        },
    decreases teams.len() - from,
{
    if from < teams.len() && teams[from].1.len() == 0 {
        lemma_settle(teams, from + 1);
    }
}

/// How the validation ends from `step` on, with a store that knows the logins of
/// `known` and no others.
pub open spec fn config_run(
    teams: Seq<(Seq<char>, Seq<Seq<char>>)>,
    known: Set<Seq<char>>,
    step: ConfigStep,
) -> ConfigStep
    decreases
        (match step {
            ConfigStep::Ask(team, _) => teams.len() - team,
            _ => 0,
        }),
        (match step {
            ConfigStep::Ask(team, member) => if is_member(teams, team, member) {
                teams[team].1.len() - member
            } else {
                0
            },
            _ => 0,
        }),
{
    match step {
        ConfigStep::Ask(team, member) => if is_member(teams, team, member) {
            proof {
                lemma_settle(teams, team + 1);
            }
            config_run(
                teams,
                known,
                config_next(teams, team, member, known.contains(teams[team].1[member])),
            )
        } else {
            ConfigStep::Valid
        },
        _ => step,
    }
}

/// The first step of the validation of a list of teams.
pub open spec fn config_first(teams: Seq<(Seq<char>, Seq<Seq<char>>)>) -> ConfigStep {
    settle(teams, 0)
}

/// `known` holds the login of every member of every team.
pub open spec fn all_known(teams: Seq<(Seq<char>, Seq<Seq<char>>)>, known: Set<Seq<char>>) -> bool {
    forall|t: int, m: int| #[trigger] is_member(teams, t, m) ==> known.contains(teams[t].1[m])
}

/// The member `member` of the team at `team` is the first, team by team and
/// member by member, whose login `known` does not hold.
pub open spec fn first_unknown_member(
    teams: Seq<(Seq<char>, Seq<Seq<char>>)>,
    known: Set<Seq<char>>,
    team: int,
    member: int,
) -> bool {
    &&& is_member(teams, team, member)
    &&& !known.contains(teams[team].1[member])
    &&& forall|t: int, m: int| #[trigger]
        is_member(teams, t, m) && (t < team || (t == team && m < member)) ==> known.contains(
            teams[t].1[m],
        )
}

/// A validation that has confirmed every member before this one ends as valid if
/// the store knows all the others too, and else on the first member that it
/// does not know.
proof fn lemma_config_run_from(
    teams: Seq<(Seq<char>, Seq<Seq<char>>)>,
    known: Set<Seq<char>>,
    team: int,
    member: int,
)
    requires
        is_member(teams, team, member),
        forall|t: int, m: int| #[trigger]
            is_member(teams, t, m) && (t < team || (t == team && m < member)) ==> known.contains(
                teams[t].1[m],
            ),
    ensures
        config_run(teams, known, ConfigStep::Ask(team, member)) == ConfigStep::Valid <==> all_known(
            teams,
            known,
        ),
        forall|t: int, m: int|
            config_run(teams, known, ConfigStep::Ask(team, member)) == ConfigStep::Invalid(t, m)
                <==> first_unknown_member(teams, known, t, m),
        !(config_run(teams, known, ConfigStep::Ask(team, member)) is Ask),
    decreases teams.len() - team, teams[team].1.len() - member,
{
    let end = config_run(teams, known, ConfigStep::Ask(team, member));
    if !known.contains(teams[team].1[member]) {
        assert(config_run(teams, known, ConfigStep::Invalid(team, member)) == ConfigStep::Invalid(
            team,
            member,
        ));
        assert(end == ConfigStep::Invalid(team, member));
        assert(first_unknown_member(teams, known, team, member));
        assert forall|t: int, m: int| first_unknown_member(teams, known, t, m) implies t == team
            && m == member by {
            if t < team || (t == team && m < member) {
                assert(is_member(teams, t, m));
            } else if t != team || m != member {
                assert(is_member(teams, team, member));
            }
        }
    } else if member + 1 < teams[team].1.len() {
        assert(end == config_run(teams, known, ConfigStep::Ask(team, member + 1)));
        assert forall|t: int, m: int| #[trigger]
            is_member(teams, t, m) && (t < team || (t == team && m < member + 1))
            implies known.contains(teams[t].1[m]) by {
            if t == team && m == member {
            } else {
                assert(is_member(teams, t, m) && (t < team || (t == team && m < member)));
            }
        }
        lemma_config_run_from(teams, known, team, member + 1);
    } else {
        lemma_settle(teams, team + 1);
        let next = settle(teams, team + 1);
        assert(end == config_run(teams, known, next));
        match next {
            ConfigStep::Ask(later, first) => {
                assert forall|t: int, m: int| #[trigger]
                    is_member(teams, t, m) && (t < later || (t == later && m < first))
                    implies known.contains(teams[t].1[m]) by {
                    if t == team && m == member {
                    } else if t <= team {
                        assert(is_member(teams, t, m) && (t < team || (t == team && m < member)));
                    }
                }
                lemma_config_run_from(teams, known, later, first);
            },
            _ => {
                assert(config_run(teams, known, ConfigStep::Valid) == ConfigStep::Valid);
                assert forall|t: int, m: int| #[trigger] is_member(teams, t, m)
                    implies known.contains(teams[t].1[m]) by {
                    if t == team && m == member {
                    } else if t <= team {
                        assert(is_member(teams, t, m) && (t < team || (t == team && m < member)));
                    }
                }
                assert forall|t: int, m: int| !first_unknown_member(teams, known, t, m) by {
                    if is_member(teams, t, m) {
                        assert(known.contains(teams[t].1[m]));
                    }
                }
            },
        }
    }
}

/// The validation of a list of teams succeeds exactly where the store knows every
/// member of every team, and fails on the first member that it does not know,
/// whatever stands behind that member.
pub proof fn lemma_config_validation(
    teams: Seq<(Seq<char>, Seq<Seq<char>>)>,
    known: Set<Seq<char>>,
)
    ensures
        config_run(teams, known, config_first(teams)) == ConfigStep::Valid <==> all_known(
            teams,
            known,
        ),
        forall|t: int, m: int|
            config_run(teams, known, config_first(teams)) == ConfigStep::Invalid(t, m)
                <==> first_unknown_member(teams, known, t, m),
        !(config_run(teams, known, config_first(teams)) is Ask),
{
    lemma_settle(teams, 0);
    match settle(teams, 0) {
        ConfigStep::Ask(team, member) => {
            lemma_config_run_from(teams, known, team, member);
        },
        _ => {
            assert(config_run(teams, known, ConfigStep::Valid) == ConfigStep::Valid);
            assert forall|t: int, m: int| !first_unknown_member(teams, known, t, m) by {}
        },
    }
}

impl RfcbotConfig {
    /// Finds the first team from `from` on that has a member.
    fn settle_from(&self, from: usize) -> (validation: Validation)
        ensures
            validation@ == settle(self.team_list(), from as int),
            !(validation is Invalid),
    {
        let teams = self.team_count();
        let mut at: usize = from;
        while at < teams
            invariant
                from <= at,
                teams == self.team_list().len(),
                settle(self.team_list(), at as int) == settle(self.team_list(), from as int),
            decreases teams - at,
        {
            match self.team_at(at) {
                Some((_, team)) => {
                    if team.len() > 0 {
                        return Validation::Ask { team: at, member: 0 };
                    }
                },
                None => {},
            }
            at = at + 1;
        }
        Validation::Valid
    }

    /// Begins the validation that the user store knows every member of every team:
    /// says which member to look up first.
    pub fn validation_start(&self) -> (validation: Validation)
        ensures
            validation@ == config_first(self.team_list()),
    {
        self.settle_from(0)
    }

    /// The login to look up for a member of a team.
    pub fn login_at(&self, team: usize, member: usize) -> (login: Option<&str>)
        ensures
            login is Some <==> is_member(self.team_list(), team as int, member as int),
            login matches Some(text) ==> text@ == self.team_list()[team as int].1[member as int],
    {
        match self.team_at(team) {
            Some((_, members)) => members.login(member),
            None => None,
        }
    }

    /// Goes on with the validation after this member of this team was looked up and
    /// the store gave `reply`. An error names the team and the member and holds
    /// what the store answered. `team` and `member` are the places of a member:
    /// those that the step before named.
    pub fn validation_step(
        &self,
        team: usize,
        member: usize,
        reply: Result<(), StoreFailure>,
    ) -> (validation: Validation)
        requires
            is_member(self.team_list(), team as int, member as int),
        ensures
            validation@ == config_next(
                self.team_list(),
                team as int,
                member as int,
                reply is Ok,
            ),
            validation matches Validation::Invalid(error) ==> error.label@
                == self.team_list()[team as int].0,
            validation matches Validation::Invalid(error) ==> error.member.login@
                == self.team_list()[team as int].1[member as int],
            validation matches Validation::Invalid(error) ==> reply == Err::<(), StoreFailure>(
                error.member.failure,
            ),
    {
        let (label, members) = self.team_at(team).unwrap();
        match members.validation_step(member, reply) {
            Progress::Ask(next) => Validation::Ask { team, member: next },
            Progress::Invalid(error) => Validation::Invalid(
                ValidationError { team, label: label.0.clone(), member: error },
            ),
            Progress::Valid => if team < self.team_count() - 1 {
                self.settle_from(team + 1)
            } else {
                Validation::Valid
            },
        }
    }
}

} // verus!
