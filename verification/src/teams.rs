//! The configuration itself: teams, what happens to an issue when its final
//! comment period ends, and the reactions that a repository prohibits.

use crate::reaction::{
    empty_reactions, reactions_held, Reaction, ReactionBehaviorConfig, ReactionVec,
};
use crate::table::{
    holds_key, keys_of, lemma_ascending_distinct, lemma_ascending_unique, lemma_place_of, map_of,
    place_of, Keyed, Table,
};
use crate::text::ascending;
use vstd::prelude::*;

verus! {

/// What happens to the issues of one repository when a final comment period
/// ends. Nothing happens by itself unless the flag for it is set.
#[derive(Clone, Copy, Debug, PartialEq, Eq, Structural)]
pub struct FcpBehavior {
    pub close: bool,
    pub postpone: bool,
}

/// The name under which a team is registered.
#[derive(Debug, PartialEq, Eq, PartialOrd, Ord, Hash)]
pub struct TeamLabel(pub String);

impl View for TeamLabel {
    type V = Seq<char>;

    open spec fn view(&self) -> Seq<char> {
        self.0@
    }
}

impl Keyed for TeamLabel {
    open spec fn key(&self) -> Seq<char> {
        self.0@
    }

    fn key_str(&self) -> (s: &str) {
        self.0.as_str()
    }

    fn from_text(text: String) -> (key: Self) {
        TeamLabel(text)
    }
}

/// A team: the logins of its members, in the order in which they were declared.
/// A login may occur more than once.
#[derive(Debug, PartialEq, Eq)]
pub struct Team {
    members: Vec<String>,
}

/// The texts of a list of logins.
pub open spec fn login_texts(logins: Seq<String>) -> Seq<Seq<char>> {
    Seq::new(logins.len(), |i: int| logins[i]@)
}

impl View for Team {
    type V = Seq<Seq<char>>;

    /// The logins of the members, in declaration order.
    closed spec fn view(&self) -> Seq<Seq<char>> {
        login_texts(self.members@)
    }
}

impl Team {
    /// The team of the given members.
    pub fn new(members: Vec<String>) -> (team: Self)
        ensures
            team@ == login_texts(members@),
    {
        Team { members }
    }

    /// The number of members.
    pub fn len(&self) -> (n: usize)
        ensures
            n == self@.len(),
    {
        self.members.len()
    }

    /// The login of the member at `place`, if the team has that many members.
    pub fn login(&self, place: usize) -> (login: Option<&str>)
        ensures
            login is Some <==> place < self@.len(),
            login matches Some(text) ==> text@ == self@[place as int],
    {
        if place < self.members.len() {
            Some(self.members[place].as_str())
        } else {
            None
        }
    }

    /// The logins of the members, in declaration order.
    pub fn member_logins(&self) -> (logins: Vec<&str>)
        ensures
            logins@.len() == self@.len(),
            forall|i: int| 0 <= i < logins@.len() ==> (#[trigger] logins@[i])@ == self@[i],
    {
        let mut logins: Vec<&str> = Vec::new();
        let mut at: usize = 0;
        while at < self.members.len()
            invariant
                at <= self.members@.len(),
                self@ == login_texts(self.members@),
                logins@.len() == at,
                forall|i: int| 0 <= i < at ==> (#[trigger] logins@[i])@ == self@[i],
            decreases self.members@.len() - at,
        {
            logins.push(self.members[at].as_str());
            at = at + 1;
        }
        logins
    }
}

/// What a configuration holds: for each repository that has them its reaction
/// policies and its behaviours, and for each team label the logins of the team.
pub struct ConfigModel {
    pub prohibited_reactions: Map<Seq<char>, ReactionBehaviorConfig>,
    pub fcp_behaviors: Map<Seq<char>, FcpBehavior>,
    pub teams: Map<Seq<char>, Seq<Seq<char>>>,
}

/// The entries of a team table, each team as the logins of its members.
pub open spec fn team_views(pairs: Seq<(Seq<char>, Team)>) -> Seq<(Seq<char>, Seq<Seq<char>>)> {
    Seq::new(pairs.len(), |i: int| (pairs[i].0, pairs[i].1@))
}

/// Taking each team as its logins changes neither the labels of a team table
/// nor which team stands under a label.
pub proof fn lemma_team_views(pairs: Seq<(Seq<char>, Team)>)
    requires
        ascending(keys_of(pairs)),
    ensures
        ascending(keys_of(team_views(pairs))),
        map_of(team_views(pairs)).dom() == map_of(pairs).dom(),
        forall|label: Seq<char>| #[trigger]
            map_of(pairs).dom().contains(label) ==> map_of(team_views(pairs))[label] == map_of(
                pairs,
            )[label]@,
{
    let views = team_views(pairs);
    assert(keys_of(views) =~= keys_of(pairs));
    lemma_ascending_distinct(pairs);
    lemma_ascending_distinct(views);
    assert forall|label: Seq<char>| holds_key(pairs, label) implies holds_key(views, label)
        && map_of(views)[label] == map_of(pairs)[label]@ by {
        let i = place_of(pairs, label);
        lemma_place_of(pairs, i);
        assert(views[i].0 == label);
        lemma_place_of(views, i);
    }
    assert forall|label: Seq<char>| holds_key(views, label) implies holds_key(pairs, label) by {
        let i = place_of(views, label);
        assert(pairs[i].0 == label);
    }
    assert(map_of(views).dom() =~= map_of(pairs).dom());
}

/// The configuration of the bot.
#[derive(Debug)]
pub struct RfcbotConfig {
    prohibited_reactions: Table<String, ReactionBehaviorConfig>,
    fcp_behaviors: Table<String, FcpBehavior>,
    teams: Table<TeamLabel, Team>,
}

impl View for RfcbotConfig {
    type V = ConfigModel;

    closed spec fn view(&self) -> ConfigModel {
        ConfigModel {
            prohibited_reactions: map_of(self.prohibited_reactions@),
            fcp_behaviors: map_of(self.fcp_behaviors@),
            teams: map_of(team_views(self.teams@)),
        }
    }
}

impl RfcbotConfig {
    /// Each of the three tables is in ascending key order. This holds of every
    /// configuration.
    #[verifier::type_invariant]
    pub closed spec fn wf(self) -> bool {
        &&& self.prohibited_reactions.wf()
        &&& self.fcp_behaviors.wf()
        &&& self.teams.wf()
    }

    /// The teams with their labels, in ascending label order.
    pub closed spec fn team_list(&self) -> Seq<(Seq<char>, Seq<Seq<char>>)> {
        team_views(self.teams@)
    }

    /// The teams are listed in ascending label order, each label once, and the
    /// list holds what the configuration holds.
    pub proof fn lemma_team_list(self)
        requires
            self.wf(),
        ensures
            ascending(keys_of(self.team_list())),
            map_of(self.team_list()) == self@.teams,
    {
        lemma_team_views(self.teams@);
    }

    /// The order in which the teams are listed is fixed by the teams that the
    /// configuration holds: two configurations with the same teams list them in
    /// the same order, however they were put together.
    pub proof fn lemma_team_order(self, other: RfcbotConfig)
        requires
            self.wf(),
            other.wf(),
            self@.teams == other@.teams,
        ensures
            self.team_list() == other.team_list(),
    {
        self.lemma_team_list();
        other.lemma_team_list();
        lemma_ascending_unique(self.team_list(), other.team_list());
    }

    /// The configuration that holds the given tables.
    pub fn new(
        prohibited_reactions: Table<String, ReactionBehaviorConfig>,
        fcp_behaviors: Table<String, FcpBehavior>,
        teams: Table<TeamLabel, Team>,
    ) -> (config: Self)
        ensures
            config@ == (ConfigModel {
                prohibited_reactions: map_of(prohibited_reactions@),
                fcp_behaviors: map_of(fcp_behaviors@),
                teams: map_of(team_views(teams@)),
            }),
            config.team_list() == team_views(teams@),
            config.wf(),
    {
        proof {
            use_type_invariant(&prohibited_reactions);
            use_type_invariant(&fcp_behaviors);
            use_type_invariant(&teams);
        }
        RfcbotConfig { prohibited_reactions, fcp_behaviors, teams }
    }

    /// The number of teams.
    pub fn team_count(&self) -> (n: usize)
        ensures
            n == self.team_list().len(),
    {
        self.teams.len()
    }

    /// The team at `place` in ascending label order, with its label, if there
    /// are that many teams.
    pub fn team_at(&self, place: usize) -> (r: Option<(&TeamLabel, &Team)>)
        ensures
            r is Some <==> place < self.team_list().len(),
            r matches Some((label, team)) ==> label@ == self.team_list()[place as int].0 && team@
                == self.team_list()[place as int].1,
    {
        self.teams.entry(place)
    }

    /// The labels of all teams, in ascending order.
    pub fn team_labels(&self) -> (labels: Vec<&TeamLabel>)
        ensures
            labels@.len() == self.team_list().len(),
            forall|i: int|
                0 <= i < labels@.len() ==> (#[trigger] labels@[i])@ == self.team_list()[i].0,
            ascending(keys_of(self.team_list())),
            map_of(self.team_list()) == self@.teams,
    {
        let labels = self.teams.keys();
        assert(keys_of(self.team_list()) =~= keys_of(self.teams@));
        labels
    }

    /// All teams with their labels, in ascending label order.
    pub fn teams(&self) -> (teams: Vec<(&TeamLabel, &Team)>)
        ensures
            teams@.len() == self.team_list().len(),
            forall|i: int|
                0 <= i < teams@.len() ==> (#[trigger] teams@[i]).0@ == self.team_list()[i].0
                    && teams@[i].1@ == self.team_list()[i].1,
            ascending(keys_of(self.team_list())),
            map_of(self.team_list()) == self@.teams,
    {
        let teams = self.teams.entries();
        assert(keys_of(self.team_list()) =~= keys_of(self.teams@));
        teams
    }

    /// Whether an issue of `repo` is closed by itself when its final comment
    /// period ends. It is not, unless the configuration says so of `repo`.
    pub fn should_ffcp_auto_close(&self, repo: &str) -> (close: bool)
        ensures
            close == (self@.fcp_behaviors.dom().contains(repo@)
                && self@.fcp_behaviors[repo@].close),
    {
        match self.fcp_behaviors.get(repo) {
            Some(behavior) => behavior.close,
            None => false,
        }
    }

    /// Whether an issue of `repo` is postponed by itself when its final comment
    /// period ends. It is not, unless the configuration says so of `repo`.
    pub fn should_ffcp_auto_postpone(&self, repo: &str) -> (postpone: bool)
        ensures
            postpone == (self@.fcp_behaviors.dom().contains(repo@)
                && self@.fcp_behaviors[repo@].postpone),
    {
        match self.fcp_behaviors.get(repo) {
            Some(behavior) => behavior.postpone,
            None => false,
        }
    }

    /// The reactions that are prohibited on the issues of `repo`, in canonical
    /// order: none, unless the configuration has a policy for `repo`.
    pub fn prohibited_issue_reactions(&self, repo: &str) -> (list: ReactionVec)
        ensures
            reactions_held(list) == if self@.prohibited_reactions.dom().contains(repo@) {
                self@.prohibited_reactions[repo@].issue.prohibited()
            } else {
                Seq::<Reaction>::empty()
            },
    {
        match self.prohibited_reactions.get(repo) {
            Some(policies) => policies.issue.prohibited_reactions(),
            None => empty_reactions(),
        }
    }

    /// The reactions that are prohibited on the comments of `repo`, in canonical
    /// order: none, unless the configuration has a policy for `repo`.
    pub fn prohibited_comment_reactions(&self, repo: &str) -> (list: ReactionVec)
        ensures
            reactions_held(list) == if self@.prohibited_reactions.dom().contains(repo@) {
                self@.prohibited_reactions[repo@].comment.prohibited()
            } else {
                Seq::<Reaction>::empty()
            },
    {
        match self.prohibited_reactions.get(repo) {
            Some(policies) => policies.comment.prohibited_reactions(),
            None => empty_reactions(),
        }
    }
}

} // verus!
