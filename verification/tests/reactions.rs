use rfcbot_config::{ProhibitedReactions, Reaction, ReactionBehaviorConfig};

const CANONICAL: [Reaction; 6] = [
    Reaction::Upvote,
    Reaction::Downvote,
    Reaction::Laugh,
    Reaction::Hooray,
    Reaction::Confused,
    Reaction::Heart,
];

fn policy(flags: [bool; 6]) -> ProhibitedReactions {
    ProhibitedReactions {
        up_vote: flags[0],
        down_vote: flags[1],
        laugh: flags[2],
        hooray: flags[3],
        confused: flags[4],
        heart: flags[5],
    }
}

fn listed(policy: &ProhibitedReactions) -> Vec<Reaction> {
    policy.prohibited_reactions().into_iter().collect()
}

#[test]
fn the_default_policy_prohibits_nothing() {
    let policy = ProhibitedReactions::default();
    assert_eq!(policy, self::policy([false; 6]));
    assert!(policy.prohibited_reactions().is_empty());
    assert_eq!(policy.prohibited_reactions().len(), 0);
    for reaction in CANONICAL {
        assert!(!policy.is_reaction_prohibited(reaction));
    }
    let both = ReactionBehaviorConfig::default();
    assert!(both.issue.prohibited_reactions().is_empty());
    assert!(both.comment.prohibited_reactions().is_empty());
}

#[test]
fn every_subset_of_flags_comes_out_in_canonical_order() {
    for bits in 0..64u32 {
        let mut flags = [false; 6];
        let mut expected = Vec::new();
        for (place, reaction) in CANONICAL.iter().enumerate() {
            if bits & (1 << place) != 0 {
                flags[place] = true;
                expected.push(*reaction);
            }
        }
        let policy = policy(flags);
        assert_eq!(listed(&policy), expected, "flags {:?}", flags);
        for (place, reaction) in CANONICAL.iter().enumerate() {
            assert_eq!(policy.is_reaction_prohibited(*reaction), flags[place]);
        }
    }
}

#[test]
fn single_flags() {
    assert_eq!(listed(&policy([true, false, false, false, false, false])), vec![Reaction::Upvote]);
    assert_eq!(
        listed(&policy([false, true, false, false, false, false])),
        vec![Reaction::Downvote]
    );
    assert_eq!(listed(&policy([false, false, true, false, false, false])), vec![Reaction::Laugh]);
    assert_eq!(listed(&policy([false, false, false, true, false, false])), vec![Reaction::Hooray]);
    assert_eq!(
        listed(&policy([false, false, false, false, true, false])),
        vec![Reaction::Confused]
    );
    assert_eq!(listed(&policy([false, false, false, false, false, true])), vec![Reaction::Heart]);
}

#[test]
fn all_flags_fill_the_list() {
    let list = policy([true; 6]).prohibited_reactions();
    assert!(list.is_full());
    assert_eq!(list.capacity(), 6);
    assert_eq!(list.as_slice(), &CANONICAL);
}

#[test]
fn down_vote_and_confused() {
    let policy = ProhibitedReactions { down_vote: true, confused: true, ..Default::default() };
    assert_eq!(listed(&policy), vec![Reaction::Downvote, Reaction::Confused]);
}
