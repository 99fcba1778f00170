//! The shape of a configuration document: which tables and settings it holds,
//! what a missing setting means, and how a document becomes a configuration.

use crate::document::{
    entries_view, find, items_view, lemma_list_view, lemma_table_view, lookup, parse_document,
    parsed_document, DocumentError, Found, Lookup, Node, Tree,
};
use crate::nesting::{nesting, NESTING_LIMIT};
use crate::reaction::{ProhibitedReactions, ReactionBehaviorConfig};
use crate::table::{
    distinct_keys, holds_key, keys_of, lemma_ascending_distinct, lemma_map_of_order,
    lemma_map_of_push, lemma_place_of, map_of, place_of, Keyed, Table,
};
use crate::teams::{
    login_texts, team_views, ConfigModel, FcpBehavior, RfcbotConfig, Team, TeamLabel,
};
use crate::text::ascending;
use vstd::prelude::*;

verus! {

/// One of the three tables that a configuration document holds.
#[derive(Clone, Copy, Debug, PartialEq, Eq, Structural)]
pub enum Section {
    /// `prohibited_reactions`: the reaction policies, by repository.
    ProhibitedReactions,
    /// `fcp_behaviors`: what happens at the end of a final comment period, by
    /// repository.
    FcpBehaviors,
    /// `teams`: the teams, by label.
    Teams,
}

/// Why a text is no configuration.
#[derive(Debug, PartialEq, Eq)]
pub enum ParseError {
    /// The text nests deeper than `NESTING_LIMIT`. It was not parsed.
    TooDeep,
    /// The text is not TOML. This is the parser's complaint.
    Syntax(String),
    /// The document is not a table.
    NotATable,
    /// The document has no table of this name.
    MissingSection(Section),
    /// The document has something of this name, but it is not a table of the
    /// shape that the section has: it is no table, a key occurs twice in it, or
    /// an entry is not as it should be.
    InvalidSection(Section),
}

impl Section {
    /// The name of the section in a document.
    pub open spec fn name(self) -> Seq<char> {
        match self {
            Section::ProhibitedReactions => "prohibited_reactions"@,
            Section::FcpBehaviors => "fcp_behaviors"@,
            Section::Teams => "teams"@,
        }
    }
}

/// The flag `name` of a table: not set where the table has no such entry, and
/// undefined where the entry is no boolean or occurs twice.
pub open spec fn flag(entries: Seq<(Seq<char>, Tree)>, name: Seq<char>) -> Option<bool> {
    match lookup(entries, name) {
        Lookup::Absent => Some(false),
        Lookup::Present(Tree::Boolean(value)) => Some(value),
        _ => None,
    }
}

/// The reaction policy that a tree describes: a table of flags, one for each
/// reaction kind.
pub open spec fn policy_of(tree: Tree) -> Option<ProhibitedReactions> {
    match tree {
        Tree::Table(entries) => match (
            flag(entries, "up_vote"@),
            flag(entries, "down_vote"@),
            flag(entries, "laugh"@),
            flag(entries, "hooray"@),
            flag(entries, "confused"@),
            flag(entries, "heart"@),
        ) {
            (
                Some(up_vote),
                Some(down_vote),
                Some(laugh),
                Some(hooray),
                Some(confused),
                Some(heart),
            ) => Some(
                ProhibitedReactions { up_vote, down_vote, laugh, hooray, confused, heart },
            ),
            _ => None,
        },
        _ => None,
    }
}

/// The policy `name` of a table: the one that prohibits nothing where the table
/// has no such entry.
pub open spec fn policy_under(entries: Seq<(Seq<char>, Tree)>, name: Seq<char>) -> Option<
    ProhibitedReactions,
> {
    match lookup(entries, name) {
        Lookup::Absent => Some(ProhibitedReactions::permissive()),
        Lookup::Present(tree) => policy_of(tree),
        Lookup::Repeated => None,
    }
}

/// The reaction policies that a tree describes: a table with the policies
/// `issue` and `comment`.
pub open spec fn reaction_rules_of(tree: Tree) -> Option<ReactionBehaviorConfig> {
    match tree {
        Tree::Table(entries) => match (
            policy_under(entries, "issue"@),
            policy_under(entries, "comment"@),
        ) {
            (Some(issue), Some(comment)) => Some(ReactionBehaviorConfig { issue, comment }),
            _ => None,
        },
        _ => None,
    }
}

/// The behaviours that a tree describes: a table with the flags `close` and
/// `postpone`.
pub open spec fn behavior_of(tree: Tree) -> Option<FcpBehavior> {
    match tree {
        Tree::Table(entries) => match (flag(entries, "close"@), flag(entries, "postpone"@)) {
            (Some(close), Some(postpone)) => Some(FcpBehavior { close, postpone }),
            _ => None,
        },
        _ => None,
    }
}

/// The logins that a list of trees describes: each of them is a text.
pub open spec fn logins_of(items: Seq<Tree>) -> Option<Seq<Seq<char>>> {
    if forall|i: int| 0 <= i < items.len() ==> items[i] is Text {
        Some(Seq::new(items.len(), |i: int| items[i]->Text_0))
    } else {
        None
    }
}

/// The team that a tree describes: a table whose entry `members` is a list of
/// logins.
pub open spec fn team_of(tree: Tree) -> Option<Seq<Seq<char>>> {
    match tree {
        Tree::Table(entries) => match lookup(entries, "members"@) {
            Lookup::Present(Tree::List(items)) => logins_of(items),
            _ => None,
        },
        _ => None,
    }
}

/// A setting that a section holds under each of its keys.
pub trait Setting: Sized {
    /// What the setting is taken to hold.
    type Model;

    /// What this setting holds.
    spec fn model(&self) -> Self::Model;

    /// What the setting holds that a tree describes, if it describes one.
    spec fn described(tree: Tree) -> Option<Self::Model>;

    /// Reads the setting that a node describes.
    fn read(node: &Node) -> (r: Option<Self>)
        ensures
            match Self::described(node@) {
                Some(model) => r matches Some(setting) && setting.model() == model,
                None => r is None,
            },
    ;
}

/// Reads settings of one kind.
pub open spec fn reader_of<V: Setting>() -> spec_fn(Tree) -> Option<V::Model> {
    |tree: Tree| V::described(tree)
}

/// The entries of a table, each setting as what it holds.
pub open spec fn models<V: Setting>(pairs: Seq<(Seq<char>, V)>) -> Seq<(Seq<char>, V::Model)> {
    Seq::new(pairs.len(), |i: int| (pairs[i].0, pairs[i].1.model()))
}

/// Every entry can be read.
pub open spec fn all_read<T>(
    entries: Seq<(Seq<char>, Tree)>,
    read: spec_fn(Tree) -> Option<T>,
) -> bool {
    forall|i: int| 0 <= i < entries.len() ==> read(#[trigger] entries[i].1) is Some
}

/// The entries, each read.
pub open spec fn read_all<T>(
    entries: Seq<(Seq<char>, Tree)>,
    read: spec_fn(Tree) -> Option<T>,
) -> Seq<(Seq<char>, T)> {
    Seq::new(entries.len(), |i: int| (entries[i].0, read(entries[i].1)->Some_0))
}

/// What a section holds: the tree is a table, no key occurs twice in it, and
/// each of its entries can be read.
pub open spec fn section_of<T>(tree: Tree, read: spec_fn(Tree) -> Option<T>) -> Option<
    Map<Seq<char>, T>,
> {
    match tree {
        Tree::Table(entries) => if distinct_keys(entries) && all_read(entries, read) {
            Some(map_of(read_all(entries, read)))
        } else {
            None
        },
        _ => None,
    }
}

/// What a section holds does not depend on the order in which its entries
/// stand in the document.
pub proof fn lemma_section_order<T>(
    a: Seq<(Seq<char>, Tree)>,
    b: Seq<(Seq<char>, Tree)>,
    read: spec_fn(Tree) -> Option<T>,
)
    requires
        distinct_keys(a),
        distinct_keys(b),
        a.to_set() == b.to_set(),
    ensures
        section_of(Tree::Table(a), read) == section_of(Tree::Table(b), read),
{
    assert forall|i: int| 0 <= i < a.len() implies b.contains(#[trigger] a[i]) by {
        assert(a.to_set().contains(a[i]));
    }
    assert forall|j: int| 0 <= j < b.len() implies a.contains(#[trigger] b[j]) by {
        assert(b.to_set().contains(b[j]));
    }
    if all_read(a, read) {
        assert forall|j: int| 0 <= j < b.len() implies read(#[trigger] b[j].1) is Some by {
            assert(a.contains(b[j]));
            let i = choose|i: int| 0 <= i < a.len() && a[i] == b[j];
            assert(read(a[i].1) is Some);
        }
    }
    if all_read(b, read) {
        assert forall|i: int| 0 <= i < a.len() implies read(#[trigger] a[i].1) is Some by {
            assert(b.contains(a[i]));
            let j = choose|j: int| 0 <= j < b.len() && b[j] == a[i];
            assert(read(b[j].1) is Some);
        }
    }
    if all_read(a, read) && all_read(b, read) {
        let read_a = read_all(a, read);
        let read_b = read_all(b, read);
        assert forall|i: int, j: int|
            0 <= i < read_a.len() && 0 <= j < read_a.len() && i != j implies read_a[i].0
            != read_a[j].0 by {
            assert(a[i].0 != a[j].0);
        }
        assert forall|i: int, j: int|
            0 <= i < read_b.len() && 0 <= j < read_b.len() && i != j implies read_b[i].0
            != read_b[j].0 by {
            assert(b[i].0 != b[j].0);
        }
        assert forall|pair: (Seq<char>, T)| read_a.contains(pair) implies read_b.contains(
            pair,
        ) by {
            let i = choose|i: int| 0 <= i < read_a.len() && read_a[i] == pair;
            assert(b.contains(a[i]));
            let j = choose|j: int| 0 <= j < b.len() && b[j] == a[i];
            assert(read_b[j] == pair);
        }
        assert forall|pair: (Seq<char>, T)| read_b.contains(pair) implies read_a.contains(
            pair,
        ) by {
            let j = choose|j: int| 0 <= j < read_b.len() && read_b[j] == pair;
            assert(a.contains(b[j]));
            let i = choose|i: int| 0 <= i < a.len() && a[i] == b[j];
            assert(read_a[i] == pair);
        }
        assert(read_a.to_set() =~= read_b.to_set());
        lemma_map_of_order(read_a, read_b);
    }
}

/// What a document holds as the given section.
pub open spec fn section_under<T>(
    root: Seq<(Seq<char>, Tree)>,
    section: Section,
    read: spec_fn(Tree) -> Option<T>,
) -> Result<Map<Seq<char>, T>, ParseError> {
    match lookup(root, section.name()) {
        Lookup::Absent => Err(ParseError::MissingSection(section)),
        Lookup::Repeated => Err(ParseError::InvalidSection(section)),
        Lookup::Present(tree) => match section_of(tree, read) {
            Some(map) => Ok(map),
            None => Err(ParseError::InvalidSection(section)),
        },
    }
}

/// The configuration that a document describes. The sections are read in the
/// order reactions, behaviours, teams, and the first that is missing or
/// invalid decides the error.
pub open spec fn config_of(tree: Tree) -> Result<ConfigModel, ParseError> {
    match tree {
        Tree::Table(root) => match section_under(
            root,
            Section::ProhibitedReactions,
            reader_of::<ReactionBehaviorConfig>(),
        ) {
            Err(error) => Err(error),
            Ok(prohibited_reactions) => match section_under(
                root,
                Section::FcpBehaviors,
                reader_of::<FcpBehavior>(),
            ) {
                Err(error) => Err(error),
                Ok(fcp_behaviors) => match section_under(
                    root,
                    Section::Teams,
                    reader_of::<Team>(),
                ) {
                    Err(error) => Err(error),
                    Ok(teams) => Ok(ConfigModel { prohibited_reactions, fcp_behaviors, teams }),
                },
            },
        },
        _ => Err(ParseError::NotATable),
    }
}

/// Reads the flag `name` of a table.
fn read_flag(entries: &Vec<(String, Node)>, name: &str) -> (r: Option<bool>)
    ensures
        r == flag(entries_view(entries@), name@),
{
    match find(entries, name) {
        Found::Absent => Some(false),
        Found::Present(node) => match node {
            Node::Boolean(value) => Some(*value),
            _ => None,
        },
        Found::Repeated => None,
    }
}

/// Reads a reaction policy.
fn read_policy(node: &Node) -> (r: Option<ProhibitedReactions>)
    ensures
        r == policy_of(node@),
{
    match node {
        Node::Table(entries) => {
            proof {
                lemma_table_view(*entries);
            }
            let up_vote = read_flag(entries, "up_vote");
            let down_vote = read_flag(entries, "down_vote");
            let laugh = read_flag(entries, "laugh");
            let hooray = read_flag(entries, "hooray");
            let confused = read_flag(entries, "confused");
            let heart = read_flag(entries, "heart");
            match (up_vote, down_vote, laugh, hooray, confused, heart) {
                (
                    Some(up_vote),
                    Some(down_vote),
                    Some(laugh),
                    Some(hooray),
                    Some(confused),
                    Some(heart),
                ) => Some(
                    ProhibitedReactions { up_vote, down_vote, laugh, hooray, confused, heart },
                ),
                _ => None,
            }
        },
        _ => None,
    }
}

/// Reads the policy `name` of a table.
fn read_policy_under(entries: &Vec<(String, Node)>, name: &str) -> (r: Option<
    ProhibitedReactions,
>)
    ensures
        r == policy_under(entries_view(entries@), name@),
{
    match find(entries, name) {
        Found::Absent => Some(ProhibitedReactions::default()),
        Found::Present(node) => read_policy(node),
        Found::Repeated => None,
    }
}

/// Reads the reaction policies of a repository.
fn read_reaction_rules(node: &Node) -> (r: Option<ReactionBehaviorConfig>)
    ensures
        r == reaction_rules_of(node@),
{
    match node {
        Node::Table(entries) => {
            proof {
                lemma_table_view(*entries);
            }
            let issue = read_policy_under(entries, "issue");
            let comment = read_policy_under(entries, "comment");
            match (issue, comment) {
                (Some(issue), Some(comment)) => Some(ReactionBehaviorConfig { issue, comment }),
                _ => None,
            }
        },
        _ => None,
    }
}

/// Reads the behaviours of a repository.
fn read_behavior(node: &Node) -> (r: Option<FcpBehavior>)
    ensures
        r == behavior_of(node@),
{
    match node {
        Node::Table(entries) => {
            proof {
                lemma_table_view(*entries);
            }
            let close = read_flag(entries, "close");
            let postpone = read_flag(entries, "postpone");
            match (close, postpone) {
                (Some(close), Some(postpone)) => Some(FcpBehavior { close, postpone }),
                _ => None,
            }
        },
        _ => None,
    }
}

/// Reads a list of logins.
fn read_logins(items: &Vec<Node>) -> (r: Option<Vec<String>>)
    ensures
        match logins_of(items_view(items@)) {
            Some(logins) => r matches Some(list) && login_texts(list@) == logins,
            None => r is None,
        },
{
    let mut list: Vec<String> = Vec::new();
    let mut at: usize = 0;
    while at < items.len()
        invariant
            at <= items@.len(),
            list@.len() == at,
            forall|i: int| 0 <= i < at ==> (#[trigger] items@[i])@ == Tree::Text(list@[i]@),
        decreases items@.len() - at,
    {
        match &items[at] {
            Node::Text(login) => {
                list.push(login.clone());
            },
            _ => {
                assert(!(items_view(items@)[at as int] is Text));
                return None;
            },
        }
        at = at + 1;
    }
    proof {
        let trees = items_view(items@);
        assert forall|i: int| 0 <= i < trees.len() implies trees[i] is Text by {
            assert(items@[i]@ == Tree::Text(list@[i]@));
        }
        assert(login_texts(list@) =~= logins_of(trees)->Some_0) by {
            assert forall|i: int| 0 <= i < list@.len() implies login_texts(list@)[i]
                == trees[i]->Text_0 by {
                assert(items@[i]@ == Tree::Text(list@[i]@));
            }
        }
    }
    Some(list)
}

/// Reads a team.
fn read_team(node: &Node) -> (r: Option<Team>)
    ensures
        match team_of(node@) {
            Some(logins) => r matches Some(team) && team@ == logins,
            None => r is None,
        },
{
    match node {
        Node::Table(entries) => {
            proof {
                lemma_table_view(*entries);
            }
            match find(entries, "members") {
                Found::Present(members) => match members {
                    Node::List(items) => {
                        proof {
                            lemma_list_view(*items);
                        }
                        match read_logins(items) {
                            Some(list) => Some(Team::new(list)),
                            None => None,
                        }
                    },
                    _ => None,
                },
                _ => None,
            }
        },
        _ => None,
    }
}

/// One more entry of a section: what reading it adds to what was read before.
proof fn lemma_section_step<T>(
    all: Seq<(Seq<char>, Tree)>,
    read: spec_fn(Tree) -> Option<T>,
    at: int,
)
    requires
        0 <= at < all.len(),
        distinct_keys(all.take(at)),
        all_read(all.take(at), read),
    ensures
        distinct_keys(read_all(all.take(at), read)),
        holds_key(read_all(all.take(at), read), all[at].0) <==> holds_key(all.take(at), all[at].0),
        holds_key(all.take(at), all[at].0) ==> !distinct_keys(all),
        !holds_key(all.take(at), all[at].0) ==> distinct_keys(all.take(at + 1)),
        read(all[at].1) is None ==> !all_read(all, read),
        read(all[at].1) is Some ==> all_read(all.take(at + 1), read),
        read_all(all.take(at + 1), read) == read_all(all.take(at), read).push(
            (all[at].0, read(all[at].1)->Some_0),
        ),
{
    let before = all.take(at);
    let after = all.take(at + 1);
    let done = read_all(before, read);
    assert forall|i: int, j: int|
        0 <= i < done.len() && 0 <= j < done.len() && i != j implies done[i].0 != done[j].0 by {
        assert(before[i].0 != before[j].0);
    }
    if holds_key(done, all[at].0) {
        let i = choose|i: int| 0 <= i < done.len() && done[i].0 == all[at].0;
        assert(before[i].0 == all[at].0);
    }
    if holds_key(before, all[at].0) {
        let i = choose|i: int| 0 <= i < before.len() && before[i].0 == all[at].0;
        assert(done[i].0 == all[at].0);
        assert(all[i].0 == all[at].0);
    } else {
        assert forall|i: int, j: int|
            0 <= i < after.len() && 0 <= j < after.len() && i != j implies after[i].0
            != after[j].0 by {
            if i < at && j < at {
                assert(before[i].0 != before[j].0);
            } else if i < at {
                assert(before[i].0 == after[i].0);
            } else {
                assert(before[j].0 == after[j].0);
            }
        }
    }
    if read(all[at].1) is Some {
        assert forall|i: int| 0 <= i < after.len() implies read(#[trigger] after[i].1) is Some by {
            if i < at {
                assert(read(before[i].1) is Some);
            }
        }
    }
    assert(read_all(after, read) =~= done.push((all[at].0, read(all[at].1)->Some_0)));
}

impl Setting for ReactionBehaviorConfig {
    type Model = ReactionBehaviorConfig;

    open spec fn model(&self) -> ReactionBehaviorConfig {
        *self
    }

    open spec fn described(tree: Tree) -> Option<ReactionBehaviorConfig> {
        reaction_rules_of(tree)
    }

    fn read(node: &Node) -> (r: Option<Self>) {
        read_reaction_rules(node)
    }
}

impl Setting for FcpBehavior {
    type Model = FcpBehavior;

    open spec fn model(&self) -> FcpBehavior {
        *self
    }

    open spec fn described(tree: Tree) -> Option<FcpBehavior> {
        behavior_of(tree)
    }

    fn read(node: &Node) -> (r: Option<Self>) {
        read_behavior(node)
    }
}

impl Setting for Team {
    type Model = Seq<Seq<char>>;

    open spec fn model(&self) -> Seq<Seq<char>> {
        self@
    }

    open spec fn described(tree: Tree) -> Option<Seq<Seq<char>>> {
        team_of(tree)
    }

    fn read(node: &Node) -> (r: Option<Self>) {
        read_team(node)
    }
}

/// Taking each setting as what it holds changes neither the keys of a table nor
/// which setting stands under a key.
proof fn lemma_models<V: Setting>(pairs: Seq<(Seq<char>, V)>)
    requires
        ascending(keys_of(pairs)),
    ensures
        distinct_keys(models(pairs)),
        map_of(models(pairs)).dom() == map_of(pairs).dom(),
        forall|key: Seq<char>| #[trigger]
            map_of(pairs).dom().contains(key) ==> map_of(models(pairs))[key] == map_of(
                pairs,
            )[key].model(),
{
    let held = models(pairs);
    assert(keys_of(held) =~= keys_of(pairs));
    lemma_ascending_distinct(pairs);
    lemma_ascending_distinct(held);
    assert forall|key: Seq<char>| holds_key(pairs, key) implies holds_key(held, key) && map_of(
        held,
    )[key] == map_of(pairs)[key].model() by {
        let i = place_of(pairs, key);
        lemma_place_of(pairs, i);
        assert(held[i].0 == key);
        lemma_place_of(held, i);
    }
    assert forall|key: Seq<char>| holds_key(held, key) implies holds_key(pairs, key) by {
        let i = place_of(held, key);
        assert(pairs[i].0 == key);
    }
    assert(map_of(held).dom() =~= map_of(pairs).dom());
}

/// Reads a section: a table that holds one setting under each of its keys.
fn read_section<K: Keyed, V: Setting>(node: &Node) -> (r: Option<Table<K, V>>)
    ensures
        match section_of(node@, reader_of::<V>()) {
            Some(map) => r matches Some(table) && map_of(models(table@)) == map,
            None => r is None,
        },
{
    match node {
        Node::Table(entries) => {
            proof {
                lemma_table_view(*entries);
            }
            let ghost all = entries_view(entries@);
            let ghost read = reader_of::<V>();
            let mut table: Table<K, V> = Table::new();
            let mut at: usize = 0;
            assert(read_all(all.take(0), read) =~= models(table@));
            while at < entries.len()
                invariant
                    at <= entries@.len(),
                    all == entries_view(entries@),
                    node@ == Tree::Table(all),
                    read == reader_of::<V>(),
                    table.wf(),
                    distinct_keys(all.take(at as int)),
                    all_read(all.take(at as int), read),
                    map_of(models(table@)) == map_of(read_all(all.take(at as int), read)),
                decreases entries@.len() - at,
            {
                let entry = &entries[at];
                proof {
                    lemma_section_step(all, read, at as int);
                    lemma_models(table@);
                }
                match V::read(&entry.1) {
                    None => {
                        return None;
                    },
                    Some(setting) => {
                        let ghost before = table@;
                        let ghost held = setting.model();
                        if !table.insert(K::from_text(entry.0.clone()), setting) {
                            return None;
                        }
                        proof {
                            lemma_models(table@);
                            lemma_map_of_push(
                                read_all(all.take(at as int), read),
                                all[at as int].0,
                                held,
                            );
                            assert(map_of(models(table@)) =~= map_of(models(before)).insert(
                                all[at as int].0,
                                held,
                            ));
                        }
                    },
                }
                at = at + 1;
            }
            assert(all.take(at as int) =~= all);
            Some(table)
        },
        _ => None,
    }
}

impl Section {
    /// The name of the section in a document.
    pub fn key(&self) -> (name: &'static str)
        ensures
            name@ == self.name(),
    {
        match self {
            Section::ProhibitedReactions => "prohibited_reactions",
            Section::FcpBehaviors => "fcp_behaviors",
            Section::Teams => "teams",
        }
    }
}

/// Finds a section in a document.
fn find_section<'a>(root: &'a Vec<(String, Node)>, section: Section) -> (r: Result<
    &'a Node,
    ParseError,
>)
    ensures
        match lookup(entries_view(root@), section.name()) {
            Lookup::Absent => r == Err::<&Node, ParseError>(ParseError::MissingSection(section)),
            Lookup::Repeated => r == Err::<&Node, ParseError>(
                ParseError::InvalidSection(section),
            ),
            Lookup::Present(tree) => r matches Ok(node) && node@ == tree,
        },
{
    match find(root, section.key()) {
        Found::Absent => Err(ParseError::MissingSection(section)),
        Found::Repeated => Err(ParseError::InvalidSection(section)),
        Found::Present(node) => Ok(node),
    }
}

/// `result` is what `expected` asks for: the same error, or a configuration
/// that holds what the model holds.
pub open spec fn answers(
    result: Result<RfcbotConfig, ParseError>,
    expected: Result<ConfigModel, ParseError>,
) -> bool {
    match expected {
        Ok(model) => result matches Ok(config) && config@ == model,
        Err(error) => result == Err::<RfcbotConfig, ParseError>(error),
    }
}

/// Makes a configuration out of a document. The document is a table with the
/// three sections; what it holds besides is not looked at.
pub fn config_from_document(document: &Node) -> (r: Result<RfcbotConfig, ParseError>)
    ensures
        answers(r, config_of(document@)),
{
    let root = match document {
        Node::Table(root) => root,
        _ => {
            return Err(ParseError::NotATable);
        },
    };
    proof {
        lemma_table_view(*root);
    }
    let prohibited_reactions = match find_section(root, Section::ProhibitedReactions) {
        Err(error) => {
            return Err(error);
        },
        Ok(node) => match read_section::<String, ReactionBehaviorConfig>(node) {
            None => {
                return Err(ParseError::InvalidSection(Section::ProhibitedReactions));
            },
            Some(table) => table,
        },
    };
    assert(models(prohibited_reactions@) =~= prohibited_reactions@);
    let fcp_behaviors = match find_section(root, Section::FcpBehaviors) {
        Err(error) => {
            return Err(error);
        },
        Ok(node) => match read_section::<String, FcpBehavior>(node) {
            None => {
                return Err(ParseError::InvalidSection(Section::FcpBehaviors));
            },
            Some(table) => table,
        },
    };
    assert(models(fcp_behaviors@) =~= fcp_behaviors@);
    let teams = match find_section(root, Section::Teams) {
        Err(error) => {
            return Err(error);
        },
        Ok(node) => match read_section::<TeamLabel, Team>(node) {
            None => {
                return Err(ParseError::InvalidSection(Section::Teams));
            },
            Some(table) => table,
        },
    };
    assert(models(teams@) =~= team_views(teams@));
    Ok(RfcbotConfig::new(prohibited_reactions, fcp_behaviors, teams))
}

/// Reads a configuration from the text of a TOML document. A text that nests
/// beyond `NESTING_LIMIT` is refused unparsed.
pub fn read_rfcbot_cfg_from(input: &str) -> (r: Result<RfcbotConfig, ParseError>)
    ensures
        if nesting(input@) > NESTING_LIMIT {
            r == Err::<RfcbotConfig, ParseError>(ParseError::TooDeep)
        } else {
            match parsed_document(input@) {
                Some(tree) => answers(r, config_of(tree)),
                None => r matches Err(ParseError::Syntax(_)),
            }
        },
{
    match parse_document(input) {
        Ok(document) => config_from_document(&document),
        Err(DocumentError::TooDeep) => Err(ParseError::TooDeep),
        Err(DocumentError::Syntax(complaint)) => Err(ParseError::Syntax(complaint)),
    }
}

} // verus!
