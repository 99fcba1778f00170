use rfcbot_config::document::Node;
use rfcbot_config::{
    config_from_document, read_rfcbot_cfg_from, ParseError, Reaction, RfcbotConfig, Section, Team,
};
use std::collections::BTreeMap;

const DOCUMENT: &str = r#"
[prohibited_reactions]

[prohibited_reactions."foo-org/bar".issue]
down_vote = true
confused = true

[prohibited_reactions."foo-org/bar".comment]
down_vote = true
confused = false

[fcp_behaviors]

[fcp_behaviors."rust-lang/alpha"]
close = true
postpone = true

[fcp_behaviors."foobar/beta"]
close = false

[fcp_behaviors."bazquux/gamma"]
postpone = false

[fcp_behaviors."wibble/epsilon"]

[teams]

[teams.avengers]
name = "The Avengers"
ping = "marvel/avengers"
members = [
  "hulk",
  "thor",
  "thevision",
  "blackwidow",
  "spiderman",
  "captainamerica",
]

[teams.justice-league]
name = "Justice League of America"
ping = "dc-comics/justice-league"
members = [
  "superman",
  "wonderwoman",
  "aquaman",
  "batman",
  "theflash"
]
"#;

fn read(text: &str) -> RfcbotConfig {
    read_rfcbot_cfg_from(text).expect("couldn't parse the document")
}

fn reactions(list: rfcbot_config::ReactionVec) -> Vec<Reaction> {
    list.into_iter().collect()
}

fn text(value: &str) -> Node {
    Node::Text(value.to_string())
}

fn table(entries: Vec<(&str, Node)>) -> Node {
    Node::Table(entries.into_iter().map(|(key, node)| (key.to_string(), node)).collect())
}

fn empty_sections() -> Vec<(&'static str, Node)> {
    vec![
        ("prohibited_reactions", table(vec![])),
        ("fcp_behaviors", table(vec![])),
        ("teams", table(vec![])),
    ]
}

#[test]
fn setup_parser_correct() {
    let cfg = read(DOCUMENT);

    // Labels are correct:
    assert_eq!(
        cfg.team_labels().into_iter().map(|tl| tl.0.clone()).collect::<Vec<_>>(),
        vec!["avengers", "justice-league"]
    );

    // Teams are correct:
    let map: BTreeMap<String, &Team> =
        cfg.teams().into_iter().map(|(k, v)| (k.0.clone(), v)).collect();

    let avengers = map.get("avengers").unwrap();
    assert_eq!(
        avengers.member_logins(),
        vec!["hulk", "thor", "thevision", "blackwidow", "spiderman", "captainamerica"]
    );

    let jsa = map.get("justice-league").unwrap();
    assert_eq!(
        jsa.member_logins(),
        vec!["superman", "wonderwoman", "aquaman", "batman", "theflash"]
    );

    // Random non-existent team does not exist:
    assert!(map.get("random").is_none());

    // FFCP behavior correct:
    assert!(cfg.should_ffcp_auto_close("rust-lang/alpha"));
    assert!(cfg.should_ffcp_auto_postpone("rust-lang/alpha"));
    assert!(!cfg.should_ffcp_auto_close("foobar/beta"));
    assert!(!cfg.should_ffcp_auto_postpone("foobar/beta"));
    assert!(!cfg.should_ffcp_auto_close("bazquux/gamma"));
    assert!(!cfg.should_ffcp_auto_postpone("bazquux/gamma"));
    assert!(!cfg.should_ffcp_auto_close("wibble/epsilon"));
    assert!(!cfg.should_ffcp_auto_postpone("wibble/epsilon"));
    assert!(!cfg.should_ffcp_auto_close("random"));
    assert!(!cfg.should_ffcp_auto_postpone("random"));

    // Reaction behavior correct:
    let foo_issue_nono =
        cfg.prohibited_issue_reactions("foo-org/bar").into_iter().collect::<Vec<_>>();
    assert_eq!(foo_issue_nono, &[Reaction::Downvote, Reaction::Confused]);
    let foo_comment_nono =
        cfg.prohibited_comment_reactions("foo-org/bar").into_iter().collect::<Vec<_>>();
    assert_eq!(foo_comment_nono, &[Reaction::Downvote]);
    assert!(cfg.prohibited_issue_reactions("random").is_empty());
    assert!(cfg.prohibited_comment_reactions("random").is_empty());
}

#[test]
fn lookup_miss_gives_the_defaults() {
    let cfg = read(DOCUMENT);
    for repo in ["unknown/repo", "", "Rust-Lang/Alpha", "rust-lang/alpha ", "foo-org"] {
        assert!(!cfg.should_ffcp_auto_close(repo));
        assert!(!cfg.should_ffcp_auto_postpone(repo));
        assert_eq!(reactions(cfg.prohibited_issue_reactions(repo)), vec![]);
        assert_eq!(reactions(cfg.prohibited_comment_reactions(repo)), vec![]);
    }
}

#[test]
fn repositories_are_matched_exactly() {
    let cfg = read(DOCUMENT);
    assert!(cfg.should_ffcp_auto_close("rust-lang/alpha"));
    assert!(!cfg.should_ffcp_auto_close("rust-lang/Alpha"));
    assert!(!cfg.should_ffcp_auto_close("rust-lang/alph"));
    assert!(!cfg.should_ffcp_auto_close("rust-lang/alphaa"));
    assert_eq!(reactions(cfg.prohibited_issue_reactions("Foo-org/bar")), vec![]);
}

#[test]
fn reactions_fragment() {
    let cfg = read(
        r#"
[fcp_behaviors]
[teams]
[prohibited_reactions."foo-org/bar"]
issue = { confused = true, down_vote = true }
comment = { down_vote = true }
"#,
    );
    assert_eq!(
        reactions(cfg.prohibited_issue_reactions("foo-org/bar")),
        vec![Reaction::Downvote, Reaction::Confused]
    );
    assert_eq!(
        reactions(cfg.prohibited_comment_reactions("foo-org/bar")),
        vec![Reaction::Downvote]
    );
}

#[test]
fn reactions_come_in_canonical_order_whatever_the_document_order() {
    let cfg = read(
        r#"
[fcp_behaviors]
[teams]
[prohibited_reactions."a/b".issue]
heart = true
confused = true
hooray = true
laugh = true
down_vote = true
up_vote = true
[prohibited_reactions."a/b".comment]
heart = true
up_vote = true
laugh = false
"#,
    );
    assert_eq!(
        reactions(cfg.prohibited_issue_reactions("a/b")),
        vec![
            Reaction::Upvote,
            Reaction::Downvote,
            Reaction::Laugh,
            Reaction::Hooray,
            Reaction::Confused,
            Reaction::Heart
        ]
    );
    assert_eq!(
        reactions(cfg.prohibited_comment_reactions("a/b")),
        vec![Reaction::Upvote, Reaction::Heart]
    );
}

#[test]
fn a_repository_with_one_policy_only_permits_the_rest() {
    let cfg = read(
        r#"
[fcp_behaviors]
[teams]
[prohibited_reactions."a/b".comment]
laugh = true
[prohibited_reactions."c/d"]
"#,
    );
    assert_eq!(reactions(cfg.prohibited_issue_reactions("a/b")), vec![]);
    assert_eq!(reactions(cfg.prohibited_comment_reactions("a/b")), vec![Reaction::Laugh]);
    assert_eq!(reactions(cfg.prohibited_issue_reactions("c/d")), vec![]);
    assert_eq!(reactions(cfg.prohibited_comment_reactions("c/d")), vec![]);
}

#[test]
fn fcp_behaviors_fragment() {
    let cfg = read(
        r#"
[prohibited_reactions]
[teams]
[fcp_behaviors."rust-lang/alpha"]
close = true
postpone = true
[fcp_behaviors."wibble/epsilon"]
[fcp_behaviors."only/close"]
close = true
[fcp_behaviors."only/postpone"]
postpone = true
"#,
    );
    assert!(cfg.should_ffcp_auto_close("rust-lang/alpha"));
    assert!(cfg.should_ffcp_auto_postpone("rust-lang/alpha"));
    assert!(!cfg.should_ffcp_auto_close("wibble/epsilon"));
    assert!(!cfg.should_ffcp_auto_postpone("wibble/epsilon"));
    assert!(cfg.should_ffcp_auto_close("only/close"));
    assert!(!cfg.should_ffcp_auto_postpone("only/close"));
    assert!(!cfg.should_ffcp_auto_close("only/postpone"));
    assert!(cfg.should_ffcp_auto_postpone("only/postpone"));
    assert!(!cfg.should_ffcp_auto_close("absent/entirely"));
    assert!(!cfg.should_ffcp_auto_postpone("absent/entirely"));
}

#[test]
fn teams_fragment() {
    let cfg = read(
        r#"
[prohibited_reactions]
[fcp_behaviors]
[teams.zeta]
members = []
[teams.avengers]
members = ["hulk", "thor", "thevision"]
[teams.beta]
members = ["thor", "thor"]
"#,
    );
    let labels: Vec<String> = cfg.team_labels().into_iter().map(|l| l.0.clone()).collect();
    assert_eq!(labels, vec!["avengers", "beta", "zeta"]);
    let teams = cfg.teams();
    assert_eq!(teams.len(), 3);
    assert_eq!(teams[0].0 .0, "avengers");
    assert_eq!(teams[0].1.member_logins(), vec!["hulk", "thor", "thevision"]);
    assert_eq!(teams[1].0 .0, "beta");
    assert_eq!(teams[1].1.member_logins(), vec!["thor", "thor"]);
    assert_eq!(teams[2].0 .0, "zeta");
    assert!(teams[2].1.member_logins().is_empty());
    assert_eq!(cfg.team_count(), 3);
    assert_eq!(
        cfg.team_at(1).map(|(label, team)| (label.0.as_str(), team.len())),
        Some(("beta", 2))
    );
    assert!(cfg.team_at(3).is_none());
}

#[test]
fn team_labels_ascend_by_code_point() {
    let cfg = read(
        r#"
[prohibited_reactions]
[fcp_behaviors]
[teams."b"]
members = []
[teams."a-b"]
members = []
[teams."B"]
members = []
[teams."ab"]
members = []
[teams."a"]
members = []
[teams.""]
members = []
[teams."é"]
members = []
"#,
    );
    let labels: Vec<String> = cfg.team_labels().into_iter().map(|l| l.0.clone()).collect();
    assert_eq!(labels, vec!["", "B", "a", "a-b", "ab", "b", "é"]);
    let mut sorted = labels.clone();
    sorted.sort();
    assert_eq!(labels, sorted);
}

#[test]
fn a_text_that_is_not_toml_is_a_syntax_error() {
    for text in ["[teams", "close = ", "a = 1\na = 2", "[teams.x]\n[teams.x]"] {
        assert!(matches!(read_rfcbot_cfg_from(text), Err(ParseError::Syntax(_))));
    }
    match read_rfcbot_cfg_from("[teams") {
        Err(ParseError::Syntax(complaint)) => assert!(!complaint.is_empty()),
        other => panic!("not a syntax error: {:?}", other),
    }
}

#[test]
fn a_text_that_nests_too_deep_is_refused() {
    let deep = format!(
        "[prohibited_reactions]\n[fcp_behaviors]\n[teams]\nx = {}{}",
        "[".repeat(65),
        "]".repeat(65)
    );
    assert_eq!(read_rfcbot_cfg_from(&deep).unwrap_err(), ParseError::TooDeep);
    let within = format!(
        "[prohibited_reactions]\n[fcp_behaviors]\n[teams]\n[x]\ny = {}{}",
        "[".repeat(64),
        "]".repeat(64)
    );
    assert!(read_rfcbot_cfg_from(&within).is_ok());
    assert_eq!(read_rfcbot_cfg_from(&"[".repeat(100_000)).unwrap_err(), ParseError::TooDeep);
}

#[test]
fn a_flat_configuration_is_read_whatever_it_holds() {
    let text = format!(
        "# c:\\rfcbot {}\n[prohibited_reactions]\n[fcp_behaviors]\n[teams]\n",
        ".".repeat(65)
    );
    let cfg = read(&text);
    assert_eq!(cfg.team_count(), 0);

    let text = format!(
        "note = \"\"\"\n{} \\\" {}\n\"\"\"\n[prohibited_reactions]\n[fcp_behaviors]\n[teams]\n",
        "[{".repeat(100),
        ".".repeat(100)
    );
    assert_eq!(read(&text).team_count(), 0);
}

#[test]
fn a_long_configuration_is_not_deep() {
    let mut text = String::from("[prohibited_reactions]\n[fcp_behaviors]\n[teams]\n");
    for team in 0..500 {
        text.push_str(&format!("[teams.t{}]\nname = \"The \\\"{}\\\" team\"\n", team, team));
        text.push_str("ratio = 1.5\nsince = 1979-05-27T07:32:00.999Z\n");
        text.push_str("members = [\n  \"a.b\", # [first]\n  \"c\",\n]\n");
        text.push_str(&format!("[fcp_behaviors.\"org/r{}.rs\"]\nclose = true\n", team));
    }
    let cfg = read(&text);
    assert_eq!(cfg.team_count(), 500);
    assert!(cfg.should_ffcp_auto_close("org/r499.rs"));
    assert_eq!(cfg.teams()[0].1.member_logins(), vec!["a.b", "c"]);
}

#[test]
fn a_missing_section_is_named() {
    assert_eq!(
        read_rfcbot_cfg_from("").unwrap_err(),
        ParseError::MissingSection(Section::ProhibitedReactions)
    );
    assert_eq!(
        read_rfcbot_cfg_from("[teams]\n[fcp_behaviors]").unwrap_err(),
        ParseError::MissingSection(Section::ProhibitedReactions)
    );
    assert_eq!(
        read_rfcbot_cfg_from("[prohibited_reactions]\n[teams]").unwrap_err(),
        ParseError::MissingSection(Section::FcpBehaviors)
    );
    assert_eq!(
        read_rfcbot_cfg_from("[prohibited_reactions]\n[fcp_behaviors]").unwrap_err(),
        ParseError::MissingSection(Section::Teams)
    );
    assert!(read_rfcbot_cfg_from("[prohibited_reactions]\n[fcp_behaviors]\n[teams]").is_ok());
}

#[test]
fn a_setting_of_the_wrong_kind_makes_its_section_invalid() {
    let cases = [
        ("prohibited_reactions = 1\n[fcp_behaviors]\n[teams]", Section::ProhibitedReactions),
        (
            "[fcp_behaviors]\n[teams]\n[prohibited_reactions.\"a/b\".issue]\nlaugh = \"yes\"",
            Section::ProhibitedReactions,
        ),
        (
            "[fcp_behaviors]\n[teams]\n[prohibited_reactions.\"a/b\"]\ncomment = true",
            Section::ProhibitedReactions,
        ),
        (
            "[fcp_behaviors]\n[teams]\n[prohibited_reactions]\n\"a/b\" = [true]",
            Section::ProhibitedReactions,
        ),
        (
            "[prohibited_reactions]\n[teams]\n[fcp_behaviors.\"a/b\"]\nclose = 1",
            Section::FcpBehaviors,
        ),
        (
            "[prohibited_reactions]\n[teams]\n[fcp_behaviors.\"a/b\"]\npostpone = 1.5",
            Section::FcpBehaviors,
        ),
        ("fcp_behaviors = \"none\"\n[prohibited_reactions]\n[teams]", Section::FcpBehaviors),
        ("[prohibited_reactions]\n[fcp_behaviors]\n[teams.a]", Section::Teams),
        ("[prohibited_reactions]\n[fcp_behaviors]\n[teams.a]\nmembers = \"hulk\"", Section::Teams),
        ("[prohibited_reactions]\n[fcp_behaviors]\n[teams.a]\nmembers = [1, 2]", Section::Teams),
        ("[prohibited_reactions]\n[fcp_behaviors]\n[teams]\na = 1979-05-27", Section::Teams),
    ];
    for (text, section) in cases {
        assert_eq!(
            read_rfcbot_cfg_from(text).unwrap_err(),
            ParseError::InvalidSection(section),
            "{}",
            text
        );
    }
}

#[test]
fn the_first_faulty_section_decides() {
    assert_eq!(
        read_rfcbot_cfg_from("fcp_behaviors = 1\nteams = 2").unwrap_err(),
        ParseError::MissingSection(Section::ProhibitedReactions)
    );
    assert_eq!(
        read_rfcbot_cfg_from("prohibited_reactions = 0\nfcp_behaviors = 1").unwrap_err(),
        ParseError::InvalidSection(Section::ProhibitedReactions)
    );
    assert_eq!(
        read_rfcbot_cfg_from("fcp_behaviors = 1\n[prohibited_reactions]").unwrap_err(),
        ParseError::InvalidSection(Section::FcpBehaviors)
    );
}

#[test]
fn settings_that_the_configuration_does_not_know_are_passed_over() {
    let cfg = read(
        r#"
title = "bot"
[prohibited_reactions."a/b"]
note = 3
[prohibited_reactions."a/b".issue]
rocket = true
heart = true
[fcp_behaviors."a/b"]
close = true
merge = "never"
[teams.a]
name = "A"
members = ["x"]
[extra]
"#,
    );
    assert_eq!(reactions(cfg.prohibited_issue_reactions("a/b")), vec![Reaction::Heart]);
    assert!(cfg.should_ffcp_auto_close("a/b"));
    assert_eq!(cfg.teams()[0].1.member_logins(), vec!["x"]);
}

#[test]
fn a_document_that_is_no_table_is_refused() {
    for document in [
        Node::Boolean(true),
        Node::Integer(3),
        Node::Float,
        Node::Datetime,
        text("teams"),
        Node::List(vec![]),
    ] {
        assert_eq!(config_from_document(&document).unwrap_err(), ParseError::NotATable);
    }
}

#[test]
fn a_document_written_by_hand_is_read_like_a_parsed_one() {
    let document = table(vec![
        (
            "teams",
            table(vec![
                ("zulu", table(vec![("members", Node::List(vec![text("z")]))])),
                ("alpha", table(vec![("members", Node::List(vec![text("a"), text("b")]))])),
            ]),
        ),
        (
            "fcp_behaviors",
            table(vec![("r/s", table(vec![("postpone", Node::Boolean(true))]))]),
        ),
        (
            "prohibited_reactions",
            table(vec![(
                "r/s",
                table(vec![(
                    "issue",
                    table(vec![("heart", Node::Boolean(true)), ("up_vote", Node::Boolean(true))]),
                )]),
            )]),
        ),
    ]);
    let cfg = config_from_document(&document).unwrap();
    let labels: Vec<&str> = cfg.team_labels().into_iter().map(|l| l.0.as_str()).collect();
    assert_eq!(labels, vec!["alpha", "zulu"]);
    assert_eq!(cfg.teams()[0].1.member_logins(), vec!["a", "b"]);
    assert!(cfg.should_ffcp_auto_postpone("r/s"));
    assert!(!cfg.should_ffcp_auto_close("r/s"));
    assert_eq!(
        reactions(cfg.prohibited_issue_reactions("r/s")),
        vec![Reaction::Upvote, Reaction::Heart]
    );
}

#[test]
fn a_key_that_occurs_twice_makes_its_section_invalid() {
    let member = || table(vec![("members", Node::List(vec![]))]);
    let mut sections = empty_sections();
    sections[2] = ("teams", table(vec![("a", member()), ("b", member()), ("a", member())]));
    assert_eq!(
        config_from_document(&table(sections)).unwrap_err(),
        ParseError::InvalidSection(Section::Teams)
    );

    let mut sections = empty_sections();
    sections[1] = (
        "fcp_behaviors",
        table(vec![(
            "r/s",
            table(vec![("close", Node::Boolean(true)), ("close", Node::Boolean(true))]),
        )]),
    );
    assert_eq!(
        config_from_document(&table(sections)).unwrap_err(),
        ParseError::InvalidSection(Section::FcpBehaviors)
    );

    let mut sections = empty_sections();
    sections.push(("teams", table(vec![])));
    assert_eq!(
        config_from_document(&table(sections)).unwrap_err(),
        ParseError::InvalidSection(Section::Teams)
    );

    let mut sections = empty_sections();
    sections[0] = (
        "prohibited_reactions",
        table(vec![("r/s", table(vec![("issue", table(vec![])), ("issue", table(vec![]))]))]),
    );
    assert_eq!(
        config_from_document(&table(sections)).unwrap_err(),
        ParseError::InvalidSection(Section::ProhibitedReactions)
    );
}

#[test]
fn section_names() {
    assert_eq!(Section::ProhibitedReactions.key(), "prohibited_reactions");
    assert_eq!(Section::FcpBehaviors.key(), "fcp_behaviors");
    assert_eq!(Section::Teams.key(), "teams");
}
