//! Which blocks of the ancestry a newly imported header finalizes.

use crate::address_set::AddressSet;
use crate::primitives::{Address, Error, Header, HeaderId, H256};
use crate::tally::{
    all_validators, ancestry_of, cached_ancestry, lemma_tally_drop_first, merged_ancestry,
    prepare_votes, tally_of, Ancestor, CachedFinalityVotes, FinalityVotes,
};
use crate::vote_counts::{remove_signers_votes, without_votes, VoteCounts};
use vstd::prelude::*;

verus! {

/// What the import of a header does to finality.
#[derive(Clone, Debug, PartialEq, Eq)]
pub struct FinalityEffects<Submitter> {
    /// The blocks that are now final, in ascending order.
    pub finalized_headers: Vec<(HeaderId, Option<Submitter>)>,
    /// The finality votes that the computation used.
    pub votes: FinalityVotes<Submitter>,
}

/// Whether `voters` distinct voters out of `validators` validators are enough
/// to finalize a block: more than half of them under the majority rule, more
/// than two thirds under the two-thirds rule.
pub open spec fn enough_votes(voters: nat, validators: nat, two_thirds: bool) -> bool {
    if two_thirds {
        voters * 3 > validators * 2
    } else {
        voters * 2 > validators
    }
}

/// How many blocks at the front of `ancestry` are final, oldest first: a
/// block is final if the validators that still have a vote are enough for
/// its number; the votes of its signers are then withdrawn before the next
/// block is looked at, and the first block that is not final ends the count.
pub open spec fn finalized_count<Submitter>(
    votes: Map<Address, nat>,
    ancestry: Seq<Ancestor<Submitter>>,
    validators: nat,
    two_thirds_majority_transition: u64,
) -> nat
    decreases ancestry.len(),
{
    if ancestry.len() == 0 {
        0
    } else if !enough_votes(
        votes.dom().len(),
        validators,
        ancestry.first().id.number >= two_thirds_majority_transition,
    ) {
        0
    } else {
        1 + finalized_count(
            without_votes(votes, ancestry.first().signers),
            ancestry.drop_first(),
            validators,
            two_thirds_majority_transition,
        )
    }
}

/// `after` is what cloning `before` gives.
pub open spec fn submitter_cloned<Submitter: Clone>(
    before: Option<Submitter>,
    after: Option<Submitter>,
) -> bool {
    match (before, after) {
        (Some(a), Some(b)) => cloned(a, b),
        (None, None) => true,
        _ => false,
    }
}

/// `finalized` lists the first blocks of `ancestry` in their order, each
/// with its id and a clone of its submitter.
pub open spec fn lists_front_of<Submitter: Clone>(
    finalized: Seq<(HeaderId, Option<Submitter>)>,
    ancestry: Seq<Ancestor<Submitter>>,
) -> bool {
    &&& finalized.len() <= ancestry.len()
    &&& forall|i: int|
        0 <= i < finalized.len() ==> (#[trigger] finalized[i]).0 == ancestry[i].id
            && submitter_cloned(ancestry[i].submitter, finalized[i].1)
}

/// Whether the walk back through the ancestors of a header ends at the block
/// with the hash `hash`: it ends where the validator set began and at the
/// best finalized block.
pub fn is_walk_end(hash: &H256, validators_begin: &HeaderId, best_finalized: &HeaderId) -> (r: bool)
    ensures
        r == (*hash == validators_begin.hash || *hash == best_finalized.hash),
{
    *hash == validators_begin.hash || *hash == best_finalized.hash
}

/// Returns true if there are enough votes to treat a block as finalized.
pub fn is_finalized(
    validators: &AddressSet,
    votes: &VoteCounts,
    requires_two_thirds_majority: bool,
) -> (r: bool)
    ensures
        r == enough_votes(votes@.dom().len(), validators@.len(), requires_two_thirds_majority),
{
    let voters: u128 = votes.len() as u128;
    let all: u128 = validators.len() as u128;
    (!requires_two_thirds_majority && voters * 2 > all) || (requires_two_thirds_majority && voters
        * 3 > all * 2)
}

/// Tries to finalize blocks when the block `header` is imported: prepares
/// its votes from the cached ones and lists the blocks of its ancestry that
/// are now final, in ascending order. The votes are returned as prepared,
/// with the finalized blocks still in them, to be cached for the block.
///
/// Fails with `NotValidator` as `prepare_votes` does.
pub fn finalize_blocks<Submitter: Clone>(
    cached_votes: CachedFinalityVotes<Submitter>,
    best_finalized: HeaderId,
    validators: &[Address],
    id: HeaderId,
    submitter: Option<Submitter>,
    header: &Header,
    two_thirds_majority_transition: u64,
) -> (r: Result<FinalityEffects<Submitter>, Error>)
    requires
        cached_votes.votes matches Some(votes) ==> votes.consistent(),
    ensures
        !validators@.contains(header.author) ==> r is Err,
        r is Ok <==> all_validators(
            validators@.to_set(),
            cached_votes.unaccounted_ancestry@,
            *header,
        ),
        r matches Ok(effects) ==> {
            &&& effects.votes.consistent()
            &&& effects.votes@.ancestry == merged_ancestry(
                cached_ancestry(cached_votes),
                cached_votes.unaccounted_ancestry@,
                best_finalized.number,
                id,
                submitter,
                *header,
            )
            &&& effects.finalized_headers@.len() == finalized_count(
                effects.votes@.votes,
                effects.votes@.ancestry,
                validators@.to_set().len(),
                two_thirds_majority_transition,
            )
            &&& lists_front_of(effects.finalized_headers@, effects.votes@.ancestry)
        },
        r matches Err(e) ==> e == Error::NotValidator,
{
    // count the voters of every unfinalized block in the ancestry
    let validators = AddressSet::from_slice(validators);
    let votes = match prepare_votes(
        cached_votes,
        best_finalized.number,
        &validators,
        id,
        header,
        submitter,
    ) {
        Ok(votes) => votes,
        Err(e) => {
            return Err(e);
        },
    };

    // walk the ancestry, oldest block first, and find the blocks that are
    // final now
    let ghost blocks = ancestry_of(votes.ancestry@);
    let ghost n = validators@.len();
    let mut finalized_headers: Vec<(HeaderId, Option<Submitter>)> = Vec::new();
    let mut current_votes = votes.votes.clone();
    let total: usize = votes.ancestry.len();
    let mut at: usize = 0;
    let mut stopped = false;
    assert(blocks.subrange(0, total as int) =~= blocks);
    while at < total && !stopped
        invariant
            at <= total == votes.ancestry@.len(),
            blocks == ancestry_of(votes.ancestry@),
            n == validators@.len(),
            current_votes@ == tally_of(blocks.subrange(at as int, total as int)),
            finalized_count(votes.votes@, blocks, n, two_thirds_majority_transition) == at
                + finalized_count(
                current_votes@,
                blocks.subrange(at as int, total as int),
                n,
                two_thirds_majority_transition,
            ),
            stopped ==> finalized_count(
                current_votes@,
                blocks.subrange(at as int, total as int),
                n,
                two_thirds_majority_transition,
            ) == 0,
            finalized_headers@.len() == at,
            lists_front_of(finalized_headers@, blocks),
        decreases total - at, if stopped { 0int } else { 1int },
    {
        let ancestor = &votes.ancestry[at];
        let ghost rest = blocks.subrange(at as int, total as int);
        proof {
            assert(rest.first() == ancestor@);
            assert(rest.drop_first() =~= blocks.subrange(at + 1, total as int));
            lemma_tally_drop_first(rest);
        }
        if !is_finalized(
            &validators,
            &current_votes,
            ancestor.id.number >= two_thirds_majority_transition,
        ) {
            stopped = true;
        } else {
            assert(forall|a: Address|
                ancestor.signers@.contains(a) ==> #[trigger] tally_of(
                    rest,
                ).contains_key(a));
            remove_signers_votes(&ancestor.signers, &mut current_votes);
            finalized_headers.push((ancestor.id, ancestor.submitter.clone()));
            at = at + 1;
        }
    }
    Ok(FinalityEffects { finalized_headers, votes })
}

} // verus!
