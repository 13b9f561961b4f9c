//! The vote tally of a header: the unfinalized ancestry with the signers
//! credited to each block, and the number of votes of each validator. A
//! tally cached at an ancestor is brought up to date for a new header by
//! `prepare_votes`.

use crate::address_set::AddressSet;
use crate::primitives::{Address, Error, Header, HeaderId};
use crate::signers::{empty_steps_signers, signers_of_empty_steps};
use crate::vote_counts::{
    add_signers_votes, count_in, credit_signers, remove_signers_votes, with_votes, without_votes,
    VoteCounts,
};
use std::collections::VecDeque;
use vstd::prelude::*;

verus! {

/// One block of the ancestry as the rules see it: who it is, who submitted
/// it, and the validators credited with a vote because of it.
pub struct Ancestor<Submitter> {
    /// The block's id.
    pub id: HeaderId,
    /// Who submitted the block.
    pub submitter: Option<Submitter>,
    /// The validators credited with a vote because of the block.
    pub signers: Set<Address>,
}

/// A tally as the rules see it: the votes of each validator and the
/// ancestry, oldest block first.
pub struct Tally<Submitter> {
    /// The number of votes of each validator that has any.
    pub votes: Map<Address, nat>,
    /// The blocks, oldest first.
    pub ancestry: Seq<Ancestor<Submitter>>,
}

/// Information about a block's ancestor that is used in the computations.
#[derive(Clone, Debug, PartialEq, Eq, Default)]
pub struct FinalityAncestor<Submitter> {
    /// The block's id.
    pub id: HeaderId,
    /// Who submitted the block.
    pub submitter: Option<Submitter>,
    /// The validators that have signed this block and empty steps on top of
    /// it.
    pub signers: AddressSet,
}

/// The finality votes of a block.
#[derive(Clone, Debug, PartialEq, Eq)]
pub struct FinalityVotes<Submitter> {
    /// The number of votes of each validator.
    pub votes: VoteCounts,
    /// The ancestry, oldest block first.
    pub ancestry: VecDeque<FinalityAncestor<Submitter>>,
}

/// What a lookup in the cache of finality votes gives for a block.
#[derive(Clone, Debug, PartialEq, Eq, Default)]
pub struct CachedFinalityVotes<Submitter> {
    /// The ancestors that were read on the way to the cached votes, newest
    /// first.
    pub unaccounted_ancestry: VecDeque<(HeaderId, Option<Submitter>, Header)>,
    /// The cached votes, if any were found. The block they belong to is not
    /// among the unaccounted ancestry.
    pub votes: Option<FinalityVotes<Submitter>>,
}

impl<Submitter> View for FinalityAncestor<Submitter> {
    type V = Ancestor<Submitter>;

    open spec fn view(&self) -> Ancestor<Submitter> {
        Ancestor { id: self.id, submitter: self.submitter, signers: self.signers@ }
    }
}

/// The ancestry that `entries` stand for.
pub open spec fn ancestry_of<Submitter>(entries: Seq<FinalityAncestor<Submitter>>) -> Seq<
    Ancestor<Submitter>,
> {
    Seq::new(entries.len(), |i: int| entries[i]@)
}

impl<Submitter> View for FinalityVotes<Submitter> {
    type V = Tally<Submitter>;

    open spec fn view(&self) -> Tally<Submitter> {
        Tally { votes: self.votes@, ancestry: ancestry_of(self.ancestry@) }
    }
}

/// The number of blocks of `ancestry` that credit `a`.
pub open spec fn votes_of<Submitter>(ancestry: Seq<Ancestor<Submitter>>, a: Address) -> nat
    decreases ancestry.len(),
{
    if ancestry.len() == 0 {
        0
    } else {
        votes_of(ancestry.drop_last(), a) + if ancestry.last().signers.contains(a) {
            1nat
        } else {
            0nat
        }
    }
}

/// The votes that `ancestry` gives: each validator that some block credits,
/// with the number of blocks that credit it.
pub open spec fn tally_of<Submitter>(ancestry: Seq<Ancestor<Submitter>>) -> Map<Address, nat> {
    Map::new(|a: Address| votes_of(ancestry, a) > 0, |a: Address| votes_of(ancestry, a))
}

impl<Submitter> Tally<Submitter> {
    /// The votes are those that the ancestry gives.
    pub open spec fn consistent(self) -> bool {
        self.votes == tally_of(self.ancestry)
    }
}

impl<Submitter> FinalityVotes<Submitter> {
    /// The votes are those that the ancestry gives.
    pub open spec fn consistent(&self) -> bool {
        self@.consistent()
    }

    /// Whether the votes are those that the ancestry gives: counts the
    /// votes of the ancestry anew and compares.
    pub fn is_consistent(&self) -> (r: bool)
        ensures
            r == self.consistent(),
    {
        let ghost blocks = ancestry_of(self.ancestry@);
        let total: usize = self.ancestry.len();
        let mut counts = VoteCounts::new();
        let mut at: usize = 0;
        assert(tally_of(blocks.subrange(0, 0)) =~= Map::<Address, nat>::empty());
        while at < total
            invariant
                at <= total == self.ancestry@.len(),
                blocks == ancestry_of(self.ancestry@),
                counts@ == tally_of(blocks.subrange(0, at as int)),
            decreases total - at,
        {
            let ghost counted = blocks.subrange(0, at as int);
            proof {
                assert forall|a: Address| count_in(counts@, a) < u64::MAX by {
                    lemma_votes_of_bound(counted, a);
                }
                lemma_tally_push(counted, blocks[at as int]);
                assert(blocks.subrange(0, at + 1) =~= counted.push(blocks[at as int]));
            }
            credit_signers(&self.ancestry[at].signers, &mut counts);
            at = at + 1;
        }
        assert(blocks.subrange(0, total as int) =~= blocks);
        self.votes.same_as(&counts)
    }
}

impl<Submitter> Default for FinalityVotes<Submitter> {
    fn default() -> (r: Self)
        ensures
            r@.votes == Map::<Address, nat>::empty(),
            r@.ancestry == Seq::<Ancestor<Submitter>>::empty(),
            r.consistent(),
    {
        let r = FinalityVotes { votes: VoteCounts::new(), ancestry: VecDeque::new() };
        assert(r@.ancestry =~= Seq::<Ancestor<Submitter>>::empty());
        assert(tally_of(r@.ancestry) =~= Map::<Address, nat>::empty());
        r
    }
}

/// `ancestry` without its leading blocks up to the number `best`: what is
/// left starts at the first block above `best`.
pub open spec fn unfinalized<Submitter>(ancestry: Seq<Ancestor<Submitter>>, best: u64) -> Seq<
    Ancestor<Submitter>,
>
    decreases ancestry.len(),
{
    if ancestry.len() > 0 && ancestry.first().id.number <= best {
        unfinalized(ancestry.drop_first(), best)
    } else {
        ancestry
    }
}

/// The child of the unaccounted ancestor at place `i`: the one read just
/// before it or, for the newest, the header that is being imported.
pub open spec fn child_of<Submitter>(
    unaccounted: Seq<(HeaderId, Option<Submitter>, Header)>,
    header: Header,
    i: int,
) -> Header {
    if i == 0 {
        header
    } else {
        unaccounted[i - 1].2
    }
}

/// The validators credited to the unaccounted ancestor at place `i`: its
/// author and the signers of the empty steps that its child seals.
pub open spec fn credited<Submitter>(
    unaccounted: Seq<(HeaderId, Option<Submitter>, Header)>,
    header: Header,
    i: int,
) -> Set<Address> {
    signers_of_empty_steps(child_of(unaccounted, header, i)).insert(unaccounted[i].2.author)
}

/// The unaccounted ancestors, given newest first, as blocks of the ancestry,
/// oldest first.
pub open spec fn replayed<Submitter>(
    unaccounted: Seq<(HeaderId, Option<Submitter>, Header)>,
    header: Header,
) -> Seq<Ancestor<Submitter>> {
    Seq::new(
        unaccounted.len(),
        |j: int|
            {
                let i = unaccounted.len() - 1 - j;
                Ancestor {
                    id: unaccounted[i].0,
                    submitter: unaccounted[i].1,
                    signers: credited(unaccounted, header, i),
                }
            },
    )
}

/// The imported header as a block of its own ancestry: only its author is
/// credited.
pub open spec fn own_entry<Submitter>(
    id: HeaderId,
    submitter: Option<Submitter>,
    header: Header,
) -> Ancestor<Submitter> {
    Ancestor { id, submitter, signers: Set::<Address>::empty().insert(header.author) }
}

/// The ancestry of the imported header: what is left of the cached ancestry
/// above `best`, then the unaccounted ancestors, then the header itself.
pub open spec fn merged_ancestry<Submitter>(
    cached: Seq<Ancestor<Submitter>>,
    unaccounted: Seq<(HeaderId, Option<Submitter>, Header)>,
    best: u64,
    id: HeaderId,
    submitter: Option<Submitter>,
    header: Header,
) -> Seq<Ancestor<Submitter>> {
    unfinalized(cached, best) + replayed(unaccounted, header) + seq![
        own_entry(id, submitter, header),
    ]
}

/// The author of the imported header and everyone credited to an
/// unaccounted ancestor is a validator.
pub open spec fn all_validators<Submitter>(
    validators: Set<Address>,
    unaccounted: Seq<(HeaderId, Option<Submitter>, Header)>,
    header: Header,
) -> bool {
    &&& validators.contains(header.author)
    &&& forall|i: int, a: Address|
        0 <= i < unaccounted.len() && #[trigger] credited(unaccounted, header, i).contains(a)
            ==> validators.contains(a)
}

/// The ancestry of the cached votes; empty where there are none.
pub open spec fn cached_ancestry<Submitter>(cached: CachedFinalityVotes<Submitter>) -> Seq<
    Ancestor<Submitter>,
> {
    match cached.votes {
        Some(votes) => votes@.ancestry,
        None => Seq::empty(),
    }
}

/// A validator has at most as many votes as the ancestry has blocks.
pub proof fn lemma_votes_of_bound<Submitter>(ancestry: Seq<Ancestor<Submitter>>, a: Address)
    ensures
        votes_of(ancestry, a) <= ancestry.len(),
    decreases ancestry.len(),
{
    if ancestry.len() > 0 {
        lemma_votes_of_bound(ancestry.drop_last(), a);
    }
}

/// The votes of a validator are those of the oldest block and those of the
/// rest.
pub proof fn lemma_votes_of_front<Submitter>(ancestry: Seq<Ancestor<Submitter>>, a: Address)
    requires
        ancestry.len() > 0,
    ensures
        votes_of(ancestry, a) == votes_of(ancestry.drop_first(), a) + if ancestry.first().signers.contains(
            a,
        ) {
            1nat
        } else {
            0nat
        },
    decreases ancestry.len(),
{
    if ancestry.len() == 1 {
        assert(ancestry.drop_first() =~= ancestry.drop_last());
    } else {
        lemma_votes_of_front(ancestry.drop_last(), a);
        assert(ancestry.drop_last().drop_first() =~= ancestry.drop_first().drop_last());
    }
}

/// Taking the oldest block away withdraws one vote of each of its signers.
pub proof fn lemma_tally_drop_first<Submitter>(ancestry: Seq<Ancestor<Submitter>>)
    requires
        ancestry.len() > 0,
    ensures
        tally_of(ancestry.drop_first()) == without_votes(
            tally_of(ancestry),
            ancestry.first().signers,
        ),
        forall|a: Address|
            ancestry.first().signers.contains(a) ==> #[trigger] tally_of(ancestry).contains_key(a),
{
    assert forall|a: Address|
        votes_of(ancestry, a) == votes_of(ancestry.drop_first(), a) + if ancestry.first().signers.contains(
            a,
        ) {
            1nat
        } else {
            0nat
        } by {
        lemma_votes_of_front(ancestry, a);
    }
    assert(tally_of(ancestry.drop_first()) =~= without_votes(
        tally_of(ancestry),
        ancestry.first().signers,
    ));
}

/// Adding a newest block gives each of its signers one more vote.
pub proof fn lemma_tally_push<Submitter>(
    ancestry: Seq<Ancestor<Submitter>>,
    block: Ancestor<Submitter>,
)
    ensures
        tally_of(ancestry.push(block)) == with_votes(tally_of(ancestry), block.signers),
{
    assert(ancestry.push(block).drop_last() =~= ancestry);
    assert(tally_of(ancestry.push(block)) =~= with_votes(tally_of(ancestry), block.signers));
}

/// Prepares the votes of `header` and of its ancestors' signers: the cached
/// votes without the blocks up to `best_finalized_number`, with the
/// unaccounted ancestors and the header itself added.
///
/// Fails with `NotValidator` where the author of `header`, or anyone
/// credited to an unaccounted ancestor, is not among `validators`: one
/// validator set must hold for all the blocks in question.
pub fn prepare_votes<Submitter>(
    cached_votes: CachedFinalityVotes<Submitter>,
    best_finalized_number: u64,
    validators: &AddressSet,
    id: HeaderId,
    header: &Header,
    submitter: Option<Submitter>,
) -> (r: Result<FinalityVotes<Submitter>, Error>)
    requires
        cached_votes.votes matches Some(votes) ==> votes.consistent(),
    ensures
        !validators@.contains(header.author) ==> r is Err,
        r is Ok <==> all_validators(validators@, cached_votes.unaccounted_ancestry@, *header),
        r matches Ok(votes) ==> votes.consistent() && votes@.ancestry == merged_ancestry(
            cached_ancestry(cached_votes),
            cached_votes.unaccounted_ancestry@,
            best_finalized_number,
            id,
            submitter,
            *header,
        ),
        r matches Err(e) ==> e == Error::NotValidator,
{
    // this can only work with a single validator set
    if !validators.contains(&header.author) {
        return Err(Error::NotValidator);
    }
    let ghost cached = cached_ancestry(cached_votes);
    let ghost all = cached_votes.unaccounted_ancestry@;
    let mut unaccounted = cached_votes.unaccounted_ancestry;
    let votes = match cached_votes.votes {
        Some(votes) => votes,
        None => FinalityVotes::default(),
    };
    let mut counts = votes.votes;
    let mut ancestry = votes.ancestry;
    assert(ancestry_of(ancestry@) == cached);

    // remove votes from finalized blocks
    while ancestry.len() > 0 && ancestry[0].id.number <= best_finalized_number
        invariant
            counts@ == tally_of(ancestry_of(ancestry@)),
            unfinalized(ancestry_of(ancestry@), best_finalized_number) == unfinalized(
                cached,
                best_finalized_number,
            ),
        decreases ancestry@.len(),
    {
        let ghost before = ancestry_of(ancestry@);
        proof {
            lemma_tally_drop_first(before);
            assert(before.first() == ancestry@[0]@);
        }
        match ancestry.pop_front() {
            Some(old_ancestor) => {
                assert(forall|a: Address|
                    old_ancestor.signers@.contains(a) ==> #[trigger] tally_of(before).contains_key(
                        a,
                    ));
                remove_signers_votes(&old_ancestor.signers, &mut counts);
            },
            None => {},
        }
        assert(ancestry_of(ancestry@) =~= before.drop_first());
    }
    let ghost kept = ancestry_of(ancestry@);
    assert(kept == unfinalized(cached, best_finalized_number));

    // credit the unaccounted blocks, newest first: the empty steps that a
    // block seals count for its parent
    let mut parent_empty_step_signers = empty_steps_signers(header);
    let mut fresh: VecDeque<FinalityAncestor<Submitter>> = VecDeque::new();
    let ghost blocks = replayed(all, *header);
    while unaccounted.len() > 0
        invariant
            unaccounted@.len() <= all.len(),
            unaccounted@ == all.subrange(all.len() - unaccounted@.len(), all.len() as int),
            parent_empty_step_signers@ == signers_of_empty_steps(
                child_of(all, *header, all.len() - unaccounted@.len()),
            ),
            blocks == replayed(all, *header),
            ancestry_of(fresh@) == blocks.subrange(unaccounted@.len() as int, all.len() as int),
        decreases unaccounted@.len(),
    {
        let ghost k = all.len() - unaccounted@.len();
        let ghost done = ancestry_of(fresh@);
        match unaccounted.pop_front() {
            Some((ancestor_id, ancestor_submitter, ancestor)) => {
                assert((ancestor_id, ancestor_submitter, ancestor) == all[k]);
                let mut signers = empty_steps_signers(&ancestor);
                std::mem::swap(&mut signers, &mut parent_empty_step_signers);
                signers.insert(ancestor.author);
                let block = FinalityAncestor {
                    id: ancestor_id,
                    submitter: ancestor_submitter,
                    signers,
                };
                assert(block@ == blocks[all.len() - 1 - k]);
                fresh.push_front(block);
                assert(ancestry_of(fresh@) =~= seq![block@] + done);
            },
            None => {},
        }
        assert(unaccounted@ =~= all.subrange(all.len() - unaccounted@.len(), all.len() as int));
        assert(ancestry_of(fresh@) =~= blocks.subrange(
            unaccounted@.len() as int,
            all.len() as int,
        ));
    }
    assert(ancestry_of(fresh@) =~= blocks);
    let first_new: usize = ancestry.len();
    ancestry.append(&mut fresh);

    // the header itself
    let mut header_signers = AddressSet::new();
    header_signers.insert(header.author);
    ancestry.push_back(FinalityAncestor { id, submitter, signers: header_signers });
    let ghost merged = merged_ancestry(cached, all, best_finalized_number, id, submitter, *header);
    assert(ancestry_of(ancestry@) =~= merged);

    // count the votes of the new blocks
    let total: usize = ancestry.len();
    let mut at: usize = first_new;
    assert(merged.subrange(0, at as int) =~= kept);
    while at < total
        invariant
            first_new <= at <= total,
            total == ancestry@.len(),
            total == first_new + all.len() + 1,
            all == cached_votes.unaccounted_ancestry@,
            merged == ancestry_of(ancestry@),
            merged == kept + replayed(all, *header) + seq![own_entry(id, submitter, *header)],
            kept.len() == first_new,
            validators@.contains(header.author),
            counts@ == tally_of(merged.subrange(0, at as int)),
            forall|j: int, a: Address|
                first_new <= j < at && (#[trigger] merged[j]).signers.contains(a)
                    ==> #[trigger] validators@.contains(a),
        decreases total - at,
    {
        let ghost counted = merged.subrange(0, at as int);
        proof {
            assert forall|a: Address| count_in(counts@, a) < u64::MAX by {
                lemma_votes_of_bound(counted, a);
            }
            lemma_tally_push(counted, merged[at as int]);
            assert(merged.subrange(0, at + 1) =~= counted.push(merged[at as int]));
            assert(ancestry@[at as int]@ == merged[at as int]);
        }
        match add_signers_votes(validators, &ancestry[at].signers, &mut counts) {
            Ok(()) => {},
            Err(e) => {
                proof {
                    let block = merged[at as int];
                    assert(!block.signers.subset_of(validators@));
                    let a = choose|a: Address|
                        block.signers.contains(a) && !validators@.contains(a);
                    assert(at < total - 1) by {
                        if at == total - 1 {
                            assert(block == own_entry(id, submitter, *header));
                        }
                    }
                    let i = all.len() - 1 - (at - first_new);
                    assert(block == replayed(all, *header)[at - first_new]);
                    assert(credited(all, *header, i).contains(a));
                }
                return Err(e);
            },
        }
        at = at + 1;
    }
    proof {
        assert(merged.subrange(0, total as int) =~= merged);
        assert forall|i: int, a: Address|
            0 <= i < all.len() && #[trigger] credited(all, *header, i).contains(
                a,
            ) implies validators@.contains(a) by {
            let j = first_new + (all.len() - 1 - i);
            assert(merged[j] == replayed(all, *header)[all.len() - 1 - i]);
            assert(merged[j].signers.contains(a));
        }
    }
    Ok(FinalityVotes { votes: counts, ancestry })
}

} // verus!
