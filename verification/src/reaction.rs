//! Reaction kinds and the policy that prohibits some of them.

use vstd::prelude::*;

verus! {

/// A reaction that can be left on an issue or on a comment.
#[derive(Clone, Copy, Debug, PartialEq, Eq, Structural)]
pub enum Reaction {
    Upvote,
    Downvote,
    Laugh,
    Hooray,
    Confused,
    Heart,
}

/// The reaction kinds in their canonical order.
pub open spec fn canonical_order() -> Seq<Reaction> {
    seq![
        Reaction::Upvote,
        Reaction::Downvote,
        Reaction::Laugh,
        Reaction::Hooray,
        Reaction::Confused,
        Reaction::Heart,
    ]
}

/// The place of a reaction kind in the canonical order.
pub open spec fn rank(reaction: Reaction) -> int {
    match reaction {
        Reaction::Upvote => 0,
        Reaction::Downvote => 1,
        Reaction::Laugh => 2,
        Reaction::Hooray => 3,
        Reaction::Confused => 4,
        Reaction::Heart => 5,
    }
}

/// `arrayvec::ArrayVec`, a vector of fixed capacity that is stored inline.
#[verifier::external_type_specification]
#[verifier::external_body]
#[verifier::reject_recursive_types(T)]
pub struct ExArrayVec<T, const CAP: usize>(arrayvec::ArrayVec<T, CAP>);

/// A list of reactions with room for one of each kind.
pub type ReactionVec = arrayvec::ArrayVec<Reaction, 6>;

/// The reactions that a `ReactionVec` holds, first to last.
pub uninterp spec fn reactions_held(list: ReactionVec) -> Seq<Reaction>;

/// `ArrayVec::new`. Not proved: that the new vector holds nothing. (The call
/// panics only for a capacity above `u32::MAX`; the capacity here is 6.)
#[verifier::external_body]
pub(crate) fn empty_reactions() -> (list: ReactionVec)
    ensures
        reactions_held(list) == Seq::<Reaction>::empty(),
{
    arrayvec::ArrayVec::new()
}

/// `ArrayVec::push`. Not proved: that it puts `reaction` behind what the vector
/// holds and leaves the rest as it is. The call panics on a full vector, which
/// the precondition rules out.
#[verifier::external_body]
fn push_reaction(list: &mut ReactionVec, reaction: Reaction)
    requires
        reactions_held(*old(list)).len() < 6,
    ensures
        reactions_held(*final(list)) == reactions_held(*old(list)).push(reaction),
{
    list.push(reaction)
}

/// Which reactions are prohibited on one kind of target, a flag for each kind
/// of reaction. A flag that is not set leaves the reaction allowed.
#[derive(Clone, Copy, Debug, PartialEq, Eq, Structural)]
pub struct ProhibitedReactions {
    pub up_vote: bool,
    pub down_vote: bool,
    pub laugh: bool,
    pub hooray: bool,
    pub confused: bool,
    pub heart: bool,
}

impl Default for ProhibitedReactions {
    /// The policy that prohibits nothing.
    fn default() -> (policy: Self)
        ensures
            policy == ProhibitedReactions::permissive(),
    {
        ProhibitedReactions {
            up_vote: false,
            down_vote: false,
            laugh: false,
            hooray: false,
            confused: false,
            heart: false,
        }
    }
}

impl ProhibitedReactions {
    /// The policy that prohibits nothing.
    pub open spec fn permissive() -> Self {
        ProhibitedReactions {
            up_vote: false,
            down_vote: false,
            laugh: false,
            hooray: false,
            confused: false,
            heart: false,
        }
    }

    /// The policy prohibits `reaction`.
    pub open spec fn prohibits(self, reaction: Reaction) -> bool {
        match reaction {
            Reaction::Upvote => self.up_vote,
            Reaction::Downvote => self.down_vote,
            Reaction::Laugh => self.laugh,
            Reaction::Hooray => self.hooray,
            Reaction::Confused => self.confused,
            Reaction::Heart => self.heart,
        }
    }

    /// The prohibited reactions: those of the canonical order that the policy
    /// prohibits, in that order.
    pub open spec fn prohibited(self) -> Seq<Reaction> {
        canonical_order().filter(|reaction: Reaction| self.prohibits(reaction))
    }

    /// Whether the policy prohibits `reaction`.
    pub fn is_reaction_prohibited(&self, reaction: Reaction) -> (prohibited: bool)
        ensures
            prohibited == self.prohibits(reaction),
    {
        match reaction {
            Reaction::Upvote => self.up_vote,
            Reaction::Downvote => self.down_vote,
            Reaction::Laugh => self.laugh,
            Reaction::Hooray => self.hooray,
            Reaction::Confused => self.confused,
            Reaction::Heart => self.heart,
        }
    }

    /// The prohibited reactions, in canonical order.
    pub fn prohibited_reactions(&self) -> (list: ReactionVec)
        ensures
            reactions_held(list) == self.prohibited(),
    {
        let order = [
            Reaction::Upvote,
            Reaction::Downvote,
            Reaction::Laugh,
            Reaction::Hooray,
            Reaction::Confused,
            Reaction::Heart,
        ];
        assert(order@ =~= canonical_order());
        let ghost chosen = |reaction: Reaction| self.prohibits(reaction);
        let mut list = empty_reactions();
        let mut at: usize = 0;
        proof {
            reveal(Seq::filter);
            assert(order@.take(0).filter(chosen) =~= Seq::<Reaction>::empty());
        }
        while at < 6
            invariant
                at <= 6,
                order@ == canonical_order(),
                chosen == |reaction: Reaction| self.prohibits(reaction),
                reactions_held(list) == order@.take(at as int).filter(chosen),
            decreases 6 - at,
        {
            let reaction = order[at];
            proof {
                reveal(Seq::filter);
                order@.take(at as int).lemma_filter_len(chosen);
                assert(order@.take(at + 1).drop_last() =~= order@.take(at as int));
                assert(order@.take(at + 1).last() == reaction);
            }
            if self.is_reaction_prohibited(reaction) {
                push_reaction(&mut list, reaction);
            }
            at = at + 1;
        }
        assert(order@.take(6) =~= order@);
        list
    }
}

/// The reaction policies of one repository: one for its issues, one for its
/// comments.
#[derive(Clone, Copy, Debug, PartialEq, Eq, Structural)]
pub struct ReactionBehaviorConfig {
    pub issue: ProhibitedReactions,
    pub comment: ProhibitedReactions,
}

impl Default for ReactionBehaviorConfig {
    /// The policies that prohibit nothing.
    fn default() -> (config: Self)
        ensures
            config.issue == ProhibitedReactions::permissive(),
            config.comment == ProhibitedReactions::permissive(),
    {
        ReactionBehaviorConfig {
            issue: ProhibitedReactions::default(),
            comment: ProhibitedReactions::default(),
        }
    }
}

/// A policy without a flag set prohibits no reaction at all.
pub proof fn lemma_permissive_prohibits_nothing()
    ensures
        ProhibitedReactions::permissive().prohibited() == Seq::<Reaction>::empty(),
{
    let policy = ProhibitedReactions::permissive();
    canonical_order().lemma_all_neg_filter_empty(|reaction: Reaction| policy.prohibits(reaction));
    assert(policy.prohibited() =~= Seq::<Reaction>::empty());
}

/// The list of prohibited reactions holds exactly the reactions that the policy
/// prohibits, each once, and in canonical order whatever flags are set.
pub proof fn lemma_prohibited_canonical(policy: ProhibitedReactions)
    ensures
        forall|reaction: Reaction|
            policy.prohibited().contains(reaction) <==> policy.prohibits(reaction),
        forall|i: int, j: int|
            0 <= i < j < policy.prohibited().len() ==> rank(policy.prohibited()[i]) < rank(
                policy.prohibited()[j],
            ),
        policy.prohibited().len() <= 6,
{
    let chosen = |reaction: Reaction| policy.prohibits(reaction);
    lemma_filter_keeps_order(canonical_order(), chosen);
    canonical_order().lemma_filter_len(chosen);
    assert forall|reaction: Reaction| policy.prohibits(reaction)
        implies policy.prohibited().contains(reaction) by {
        assert(canonical_order()[rank(reaction)] == reaction);
        canonical_order().lemma_filter_contains(chosen, rank(reaction));
    }
    assert forall|reaction: Reaction| policy.prohibited().contains(reaction)
        implies policy.prohibits(reaction) by {
        canonical_order().lemma_filter_contains_rev(chosen, reaction);
    }
}

/// Filtering a sequence of reactions that stands in canonical order leaves it in
/// canonical order, and within the ranks it had.
proof fn lemma_filter_keeps_order(list: Seq<Reaction>, chosen: spec_fn(Reaction) -> bool)
    requires
        forall|i: int, j: int| 0 <= i < j < list.len() ==> rank(list[i]) < rank(list[j]),
    ensures
        forall|i: int, j: int|
            0 <= i < j < list.filter(chosen).len() ==> rank(list.filter(chosen)[i]) < rank(
                list.filter(chosen)[j],
            ),
        forall|i: int|
            0 <= i < list.filter(chosen).len() ==> list.contains(#[trigger] list.filter(chosen)[i]),
    decreases list.len(),
{
    reveal(Seq::filter);
    if list.len() > 0 {
        let front = list.drop_last();
        lemma_filter_keeps_order(front, chosen);
        let kept = list.filter(chosen);
        assert forall|i: int| 0 <= i < kept.len() implies list.contains(#[trigger] kept[i]) by {
            if i < front.filter(chosen).len() {
                assert(front.contains(front.filter(chosen)[i]));
                let at = choose|at: int| 0 <= at < front.len() && front[at] == kept[i];
                assert(list[at] == kept[i]);
            } else {
                assert(kept[i] == list[list.len() - 1]);
            }
        }
        assert forall|i: int, j: int| 0 <= i < j < kept.len() implies rank(kept[i]) < rank(
            kept[j],
        ) by {
            if j == front.filter(chosen).len() {
                assert(front.contains(front.filter(chosen)[i]));
                let at = choose|at: int| 0 <= at < front.len() && front[at] == kept[i];
                assert(rank(list[at]) < rank(list[list.len() - 1]));
            }
        }
    }
}

} // verus!
