//! What holds of every tally and of every import, whatever the blocks are.

use crate::decide::{enough_votes, finalized_count, lists_front_of};
use crate::primitives::{Address, Header, HeaderId};
use crate::signers::signers_of_empty_steps;
use crate::tally::{
    child_of, credited, merged_ancestry, own_entry, replayed, tally_of, unfinalized, votes_of,
    Ancestor, Tally,
};
use crate::vote_counts::without_votes;
use vstd::prelude::*;

verus! {

/// The numbers of the blocks go up by one from each block to the next.
pub open spec fn contiguous<Submitter>(ancestry: Seq<Ancestor<Submitter>>) -> bool {
    forall|i: int|
        0 <= i < ancestry.len() - 1 ==> (#[trigger] ancestry[i + 1]).id.number
            == ancestry[i].id.number + 1
}

/// The numbers of the blocks go up from each block to the next.
pub open spec fn rising<Submitter>(ancestry: Seq<Ancestor<Submitter>>) -> bool {
    forall|i: int, j: int|
        0 <= i < j < ancestry.len() ==> (#[trigger] ancestry[i]).id.number
            < (#[trigger] ancestry[j]).id.number
}

/// The ancestry of a header for which no votes were cached: the blocks
/// `read` on the way back, given newest first, and the header itself.
pub open spec fn rescanned<Submitter>(
    read: Seq<(HeaderId, Option<Submitter>, Header)>,
    id: HeaderId,
    submitter: Option<Submitter>,
    header: Header,
) -> Seq<Ancestor<Submitter>> {
    merged_ancestry(Seq::empty(), read, 0, id, submitter, header)
}

/// In a consistent tally a validator is named exactly if some block of the
/// ancestry credits it, and then with the number of the blocks that do: no
/// validator is named with zero votes.
pub proof fn law_votes_count_crediting_blocks<Submitter>(tally: Tally<Submitter>, a: Address)
    requires
        tally.consistent(),
    ensures
        tally.votes.contains_key(a) <==> tally.ancestry.filter(
            |b: Ancestor<Submitter>| b.signers.contains(a),
        ).len() > 0,
        tally.votes.contains_key(a) ==> tally.votes[a] == tally.ancestry.filter(
            |b: Ancestor<Submitter>| b.signers.contains(a),
        ).len(),
        tally.votes.contains_key(a) ==> tally.votes[a] > 0,
{
    lemma_votes_of_is_filter_len(tally.ancestry, a);
}

/// The votes of a validator are as many as the blocks that credit it.
pub proof fn lemma_votes_of_is_filter_len<Submitter>(
    ancestry: Seq<Ancestor<Submitter>>,
    a: Address,
)
    ensures
        votes_of(ancestry, a) == ancestry.filter(
            |b: Ancestor<Submitter>| b.signers.contains(a),
        ).len(),
    decreases ancestry.len(),
{
    reveal(Seq::filter);
    if ancestry.len() > 0 {
        lemma_votes_of_is_filter_len(ancestry.drop_last(), a);
    }
}

/// What `unfinalized` leaves is the ancestry without its first `dropped`
/// blocks, where those are the blocks in front of the first one above
/// `best`.
pub proof fn lemma_unfinalized_skips<Submitter>(
    ancestry: Seq<Ancestor<Submitter>>,
    best: u64,
    dropped: int,
)
    requires
        0 <= dropped <= ancestry.len(),
        forall|i: int| 0 <= i < dropped ==> (#[trigger] ancestry[i]).id.number <= best,
        dropped < ancestry.len() ==> ancestry[dropped].id.number > best,
    ensures
        unfinalized(ancestry, best) == ancestry.skip(dropped),
    decreases dropped,
{
    if dropped == 0 {
        assert(ancestry.skip(0) =~= ancestry);
    } else {
        assert(ancestry[0].id.number <= best);
        let rest = ancestry.drop_first();
        assert forall|i: int| 0 <= i < dropped - 1 implies (#[trigger] rest[i]).id.number
            <= best by {
            assert(rest[i] == ancestry[i + 1]);
        }
        lemma_unfinalized_skips(rest, best, dropped - 1);
        assert(rest.skip(dropped - 1) =~= ancestry.skip(dropped));
    }
}

/// Pruning takes blocks from the front only, and only blocks up to `best`.
/// Where the numbers of the ancestry rise, no block up to `best` is left.
pub proof fn law_pruned_blocks_are_gone<Submitter>(ancestry: Seq<Ancestor<Submitter>>, best: u64)
    ensures
        unfinalized(ancestry, best).len() <= ancestry.len(),
        unfinalized(ancestry, best) == ancestry.skip(
            ancestry.len() - unfinalized(ancestry, best).len(),
        ),
        forall|i: int|
            0 <= i < ancestry.len() - unfinalized(ancestry, best).len() ==> (
            #[trigger] ancestry[i]).id.number <= best,
        unfinalized(ancestry, best).len() > 0 ==> unfinalized(ancestry, best).first().id.number
            > best,
        rising(ancestry) ==> forall|k: int|
            0 <= k < unfinalized(ancestry, best).len() ==> (#[trigger] unfinalized(
                ancestry,
                best,
            )[k]).id.number > best,
    decreases ancestry.len(),
{
    let kept = unfinalized(ancestry, best);
    if ancestry.len() > 0 && ancestry.first().id.number <= best {
        let rest = ancestry.drop_first();
        law_pruned_blocks_are_gone(rest, best);
        let gone = ancestry.len() - kept.len();
        assert(rest.skip(rest.len() - kept.len()) =~= ancestry.skip(gone));
        assert forall|i: int| 0 <= i < gone implies (#[trigger] ancestry[i]).id.number
            <= best by {
            if i > 0 {
                assert(ancestry[i] == rest[i - 1]);
            }
        }
        if rising(ancestry) {
            assert forall|i: int, j: int| 0 <= i < j < rest.len() implies (
            #[trigger] rest[i]).id.number < (#[trigger] rest[j]).id.number by {
                assert(ancestry[i + 1].id.number < ancestry[j + 1].id.number);
            }
        }
    } else {
        assert(ancestry.skip(0) =~= ancestry);
        if rising(ancestry) {
            assert forall|k: int| 0 <= k < kept.len() implies (#[trigger] kept[k]).id.number
                > best by {
                if k > 0 {
                    assert(ancestry[0].id.number < ancestry[k].id.number);
                }
            }
        }
    }
}

/// No block up to the best finalized number is in the ancestry of an
/// imported header, and so none has a part in its votes, where the numbers
/// of the cached ancestry rise and the blocks read since, and the header,
/// are above that number.
pub proof fn law_merged_ancestry_is_unfinalized<Submitter>(
    cached: Seq<Ancestor<Submitter>>,
    unaccounted: Seq<(HeaderId, Option<Submitter>, Header)>,
    best: u64,
    id: HeaderId,
    submitter: Option<Submitter>,
    header: Header,
)
    requires
        rising(cached),
        forall|i: int| 0 <= i < unaccounted.len() ==> (#[trigger] unaccounted[i]).0.number > best,
        id.number > best,
    ensures
        forall|k: int|
            0 <= k < merged_ancestry(cached, unaccounted, best, id, submitter, header).len() ==> (
            #[trigger] merged_ancestry(
                cached,
                unaccounted,
                best,
                id,
                submitter,
                header,
            )[k]).id.number > best,
{
    law_pruned_blocks_are_gone(cached, best);
    let kept = unfinalized(cached, best);
    let merged = merged_ancestry(cached, unaccounted, best, id, submitter, header);
    assert forall|k: int| 0 <= k < merged.len() implies (#[trigger] merged[k]).id.number
        > best by {
        if k < kept.len() {
            assert(merged[k] == kept[k]);
        } else if k < kept.len() + unaccounted.len() {
            let i = unaccounted.len() - 1 - (k - kept.len());
            assert(merged[k].id == unaccounted[i].0);
        }
    }
}

/// The ancestry of an imported header is contiguous where the cached
/// ancestry is, the blocks read since follow it one by one, and the header
/// follows them.
pub proof fn law_merged_ancestry_is_contiguous<Submitter>(
    cached: Seq<Ancestor<Submitter>>,
    unaccounted: Seq<(HeaderId, Option<Submitter>, Header)>,
    best: u64,
    id: HeaderId,
    submitter: Option<Submitter>,
    header: Header,
)
    requires
        contiguous(cached),
        forall|i: int|
            0 <= i < unaccounted.len() - 1 ==> (#[trigger] unaccounted[i]).0.number
                == unaccounted[i + 1].0.number + 1,
        unaccounted.len() > 0 ==> id.number == unaccounted.first().0.number + 1,
        unaccounted.len() > 0 && unfinalized(cached, best).len() > 0 ==> unaccounted.last().0.number
            == unfinalized(cached, best).last().id.number + 1,
        unaccounted.len() == 0 && unfinalized(cached, best).len() > 0 ==> id.number == unfinalized(
            cached,
            best,
        ).last().id.number + 1,
    ensures
        contiguous(merged_ancestry(cached, unaccounted, best, id, submitter, header)),
{
    law_pruned_blocks_are_gone(cached, best);
    let kept = unfinalized(cached, best);
    let gone = cached.len() - kept.len();
    let merged = merged_ancestry(cached, unaccounted, best, id, submitter, header);
    let n = unaccounted.len() as int;
    assert forall|k: int| 0 <= k < merged.len() - 1 implies (#[trigger] merged[k + 1]).id.number
        == merged[k].id.number + 1 by {
        if k + 1 < kept.len() {
            assert(merged[k] == cached[gone + k]);
            assert(merged[k + 1] == cached[gone + k + 1]);
        } else if k + 1 == kept.len() {
            assert(merged[k] == kept.last());
            if n > 0 {
                assert(merged[k + 1].id == unaccounted[n - 1].0);
            }
        } else if k + 1 < kept.len() + n {
            let i = n - 1 - (k - kept.len());
            assert(merged[k].id == unaccounted[i].0);
            assert(merged[k + 1].id == unaccounted[i - 1].0);
        } else {
            if n > 0 {
                assert(merged[k].id == unaccounted[0].0);
            }
        }
    }
}

/// The finalized blocks are the front of the ancestry, block by block: where
/// the ancestry is contiguous, their numbers go up by one without a gap.
pub proof fn law_finalized_blocks_are_contiguous<Submitter: Clone>(
    finalized: Seq<(HeaderId, Option<Submitter>)>,
    ancestry: Seq<Ancestor<Submitter>>,
)
    requires
        lists_front_of(finalized, ancestry),
        contiguous(ancestry),
    ensures
        forall|i: int| 0 <= i < finalized.len() ==> (#[trigger] finalized[i]).0 == ancestry[i].id,
        forall|i: int|
            0 <= i < finalized.len() - 1 ==> (#[trigger] finalized[i + 1]).0.number
                == finalized[i].0.number + 1,
{
    assert forall|i: int| 0 <= i < finalized.len() - 1 implies (
    #[trigger] finalized[i + 1]).0.number == finalized[i].0.number + 1 by {
        assert(finalized[i].0 == ancestry[i].id);
        assert(ancestry[i + 1].id.number == ancestry[i].id.number + 1);
    }
}

/// The rule changes at the transition: the oldest block is final by more
/// than two thirds of the validators if its number is the transition's or
/// above, and by more than half of them if it is below.
pub proof fn law_rule_changes_at_transition<Submitter>(
    votes: Map<Address, nat>,
    ancestry: Seq<Ancestor<Submitter>>,
    validators: nat,
    transition: u64,
)
    requires
        ancestry.len() > 0,
    ensures
        ancestry.first().id.number >= transition ==> (finalized_count(
            votes,
            ancestry,
            validators,
            transition,
        ) > 0 <==> votes.dom().len() * 3 > validators * 2),
        ancestry.first().id.number < transition ==> (finalized_count(
            votes,
            ancestry,
            validators,
            transition,
        ) > 0 <==> votes.dom().len() * 2 > validators),
        finalized_count(votes, ancestry, validators, transition) <= ancestry.len(),
{
    lemma_finalized_count_bound(votes, ancestry, validators, transition);
}

/// No more blocks are final than the ancestry has.
pub proof fn lemma_finalized_count_bound<Submitter>(
    votes: Map<Address, nat>,
    ancestry: Seq<Ancestor<Submitter>>,
    validators: nat,
    transition: u64,
)
    ensures
        finalized_count(votes, ancestry, validators, transition) <= ancestry.len(),
    decreases ancestry.len(),
{
    if ancestry.len() > 0 && enough_votes(
        votes.dom().len(),
        validators,
        ancestry.first().id.number >= transition,
    ) {
        lemma_finalized_count_bound(
            without_votes(votes, ancestry.first().signers),
            ancestry.drop_first(),
            validators,
            transition,
        );
    }
}

/// Votes cached at an ancestor and brought up to date give the ancestry
/// that reading all the unfinalized blocks again gives.
///
/// The cached votes are those of the block `mid`, made from the blocks
/// `older` that were read for it. Since then the oldest `pruned` of those
/// blocks have become final, and the blocks `newer` lie between `mid` and
/// the imported header. Both sequences are given newest first.
///
/// The empty steps that a block seals count for its parent, and the cached
/// votes credit `mid` with its author alone: the two ancestries agree where
/// the child of `mid` seals no empty step of another signer.
pub proof fn law_replay_equals_rescan<Submitter>(
    older: Seq<(HeaderId, Option<Submitter>, Header)>,
    mid: (HeaderId, Option<Submitter>, Header),
    newer: Seq<(HeaderId, Option<Submitter>, Header)>,
    pruned: int,
    best: u64,
    id: HeaderId,
    submitter: Option<Submitter>,
    header: Header,
)
    requires
        0 <= pruned <= older.len() + 1,
        forall|i: int|
            older.len() + 1 - pruned <= i < older.len() + 1 ==> (#[trigger] (seq![mid]
                + older)[i]).0.number <= best,
        pruned < older.len() + 1 ==> (seq![mid] + older)[older.len() - pruned].0.number > best,
        pruned < older.len() + 1 ==> signers_of_empty_steps(
            child_of(newer, header, newer.len() as int),
        ).subset_of(Set::<Address>::empty().insert(mid.2.author)),
    ensures
        merged_ancestry(
            rescanned(older, mid.0, mid.1, mid.2),
            newer,
            best,
            id,
            submitter,
            header,
        ) == rescanned(
            newer + (seq![mid] + older).take(older.len() + 1 - pruned),
            id,
            submitter,
            header,
        ),
        tally_of(
            merged_ancestry(
                rescanned(older, mid.0, mid.1, mid.2),
                newer,
                best,
                id,
                submitter,
                header,
            ),
        ) == tally_of(
            rescanned(
                newer + (seq![mid] + older).take(older.len() + 1 - pruned),
                id,
                submitter,
                header,
            ),
        ),
{
    let chain = seq![mid] + older;
    let m = chain.len() as int;
    let snapshot = rescanned(older, mid.0, mid.1, mid.2);
    let nobody = Seq::<Ancestor<Submitter>>::empty();
    assert(unfinalized(nobody, 0) == nobody);
    assert(unfinalized(nobody, best) == nobody);
    assert(snapshot =~= replayed(older, mid.2) + seq![own_entry(mid.0, mid.1, mid.2)]);
    assert(snapshot.len() == m);
    assert forall|j: int| 0 <= j < m implies (#[trigger] snapshot[j]).id == chain[m - 1 - j].0 by {
        if j < m - 1 {
            assert(chain[m - 1 - j] == older[m - 2 - j]);
        }
    }
    assert forall|j: int| 0 <= j < pruned implies (#[trigger] snapshot[j]).id.number <= best by {
        assert(chain[m - 1 - j].0.number <= best);
    }
    lemma_unfinalized_skips(snapshot, best, pruned);
    let kept = snapshot.skip(pruned);
    let read = newer + chain.take(m - pruned);
    let n = newer.len() as int;
    let left = merged_ancestry(snapshot, newer, best, id, submitter, header);
    let right = rescanned(read, id, submitter, header);
    assert(left =~= kept + replayed(newer, header) + seq![own_entry(id, submitter, header)]);
    assert(right =~= replayed(read, header) + seq![own_entry(id, submitter, header)]);
    assert(left.len() == right.len());
    assert forall|j: int| 0 <= j < left.len() implies left[j] == right[j] by {
        if j < m - pruned {
            let i = read.len() - 1 - j;
            let c = i - n;
            assert(right[j] == replayed(read, header)[j]);
            assert(read[i] == chain[c]);
            assert(left[j] == snapshot[j + pruned]);
            if c == 0 {
                assert(left[j] == own_entry(mid.0, mid.1, mid.2));
                assert(child_of(read, header, i) == child_of(newer, header, n)) by {
                    if n > 0 {
                        assert(read[i - 1] == newer[n - 1]);
                    }
                }
                assert(credited(read, header, i) =~= Set::<Address>::empty().insert(
                    mid.2.author,
                ));
            } else {
                assert(chain[c] == older[c - 1]);
                assert(left[j] == replayed(older, mid.2)[j + pruned]);
                assert(read[i - 1] == chain[c - 1]);
                assert(child_of(read, header, i) == child_of(older, mid.2, c - 1)) by {
                    if c - 1 > 0 {
                        assert(chain[c - 1] == older[c - 2]);
                    }
                }
            }
        } else if j < left.len() - 1 {
            let i = read.len() - 1 - j;
            assert(right[j] == replayed(read, header)[j]);
            assert(left[j] == replayed(newer, header)[j - (m - pruned)]);
            assert(read[i] == newer[i]);
            assert(child_of(read, header, i) == child_of(newer, header, i)) by {
                if i > 0 {
                    assert(read[i - 1] == newer[i - 1]);
                }
            }
        }
    }
    assert(left =~= right);
}

/// The votes returned for a block serve as the cache for its child: brought
/// up to date they give the ancestry that reading the unfinalized blocks
/// again gives, where the child seals no empty step of another signer than
/// the block's author.
pub proof fn law_returned_votes_serve_as_cache<Submitter>(
    older: Seq<(HeaderId, Option<Submitter>, Header)>,
    parent: (HeaderId, Option<Submitter>, Header),
    pruned: int,
    best: u64,
    id: HeaderId,
    submitter: Option<Submitter>,
    header: Header,
)
    requires
        0 <= pruned <= older.len() + 1,
        forall|i: int|
            older.len() + 1 - pruned <= i < older.len() + 1 ==> (#[trigger] (seq![parent]
                + older)[i]).0.number <= best,
        pruned < older.len() + 1 ==> (seq![parent] + older)[older.len() - pruned].0.number > best,
        pruned < older.len() + 1 ==> signers_of_empty_steps(header).subset_of(
            Set::<Address>::empty().insert(parent.2.author),
        ),
    ensures
        merged_ancestry(
            rescanned(older, parent.0, parent.1, parent.2),
            Seq::empty(),
            best,
            id,
            submitter,
            header,
        ) == rescanned((seq![parent] + older).take(older.len() + 1 - pruned), id, submitter, header),
{
    let nothing = Seq::<(HeaderId, Option<Submitter>, Header)>::empty();
    law_replay_equals_rescan(older, parent, nothing, pruned, best, id, submitter, header);
    assert(nothing + (seq![parent] + older).take(older.len() + 1 - pruned) =~= (seq![parent]
        + older).take(older.len() + 1 - pruned));
}

} // verus!
