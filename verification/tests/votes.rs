use poa_finality::address_set::AddressSet;
use poa_finality::decide::{finalize_blocks, is_finalized, is_walk_end, FinalityEffects};
use poa_finality::primitives::{Address, Error, Header, HeaderId, H256};
use poa_finality::signers::public_to_address;
use poa_finality::tally::{prepare_votes, CachedFinalityVotes, FinalityAncestor, FinalityVotes};
use poa_finality::vote_counts::{
    add_signers_votes, credit_signers, remove_signers_votes, VoteCounts,
};
use std::collections::{BTreeMap, VecDeque};

fn validator(index: u8) -> libsecp256k1::SecretKey {
    let mut raw = [0u8; 32];
    raw[31] = index + 1;
    raw[0] = 0x42;
    libsecp256k1::SecretKey::parse(&raw).unwrap()
}

fn validator_address(index: u8) -> Address {
    let public = libsecp256k1::PublicKey::from_secret_key(&validator(index)).serialize();
    let mut raw = [0u8; 64];
    raw.copy_from_slice(&public[1..65]);
    public_to_address(&raw)
}

fn validators_addresses(count: u8) -> Vec<Address> {
    (0..count).map(validator_address).collect()
}

fn compute_hash(header: &Header) -> H256 {
    let mut raw = Vec::new();
    raw.extend(header.author.to_bytes());
    raw.extend(header.parent_hash.to_bytes());
    raw.extend(header.number.to_be_bytes());
    H256::from_bytes(&sp_io::hashing::keccak_256(&raw))
}

fn compute_id(header: &Header) -> HeaderId {
    HeaderId { number: header.number, hash: compute_hash(header) }
}

fn genesis() -> Header {
    Header { author: Address { hi: 0, lo: 0x77 }, ..Default::default() }
}

fn signers_of(addresses: &[Address]) -> AddressSet {
    AddressSet::from_slice(addresses)
}

fn counts_of(pairs: &[(Address, u64)]) -> VoteCounts {
    let mut counts = VoteCounts::new();
    for (address, count) in pairs {
        counts.set(*address, *count);
    }
    counts
}

fn ancestor_of(header: &Header) -> FinalityAncestor<u64> {
    FinalityAncestor { id: compute_id(header), submitter: None, signers: signers_of(&[header.author]) }
}

/// The headers and cached votes that an importer would hold, and its walk
/// back through them.
struct Storage {
    headers: BTreeMap<H256, Header>,
    cache: BTreeMap<H256, FinalityVotes<u64>>,
}

impl Storage {
    fn new() -> Storage {
        let mut storage = Storage { headers: BTreeMap::new(), cache: BTreeMap::new() };
        storage.insert_header(genesis());
        storage
    }

    fn insert_header(&mut self, header: Header) {
        self.headers.insert(compute_hash(&header), header);
    }

    fn cached_finality_votes(
        &self,
        parent: &H256,
        best_finalized: &HeaderId,
        stop_at: impl Fn(&H256) -> bool,
    ) -> CachedFinalityVotes<u64> {
        let mut votes = CachedFinalityVotes::default();
        let mut current = *parent;
        loop {
            if stop_at(&current) {
                return votes;
            }
            if let Some(cached) = self.cache.get(&current) {
                votes.votes = Some(cached.clone());
                return votes;
            }
            let header = match self.headers.get(&current) {
                Some(header) if header.number > best_finalized.number => header.clone(),
                _ => return votes,
            };
            let parent = header.parent_hash;
            let id = HeaderId { number: header.number, hash: current };
            votes.unaccounted_ancestry.push_back((id, None, header));
            current = parent;
        }
    }

    fn finalize(
        &self,
        best_finalized: HeaderId,
        validators_begin: HeaderId,
        validators: &[Address],
        id: HeaderId,
        header: &Header,
        transition: u64,
    ) -> Result<FinalityEffects<u64>, Error> {
        let cached = self.cached_finality_votes(&header.parent_hash, &best_finalized, |hash| {
            is_walk_end(hash, &validators_begin, &best_finalized)
        });
        finalize_blocks(cached, best_finalized, validators, id, None, header, transition)
    }
}

#[test]
fn verifies_header_author() {
    assert_eq!(
        finalize_blocks(
            CachedFinalityVotes::<u64>::default(),
            Default::default(),
            &[],
            Default::default(),
            None,
            &Header::default(),
            0,
        ),
        Err(Error::NotValidator),
    );
}

#[test]
fn finalize_blocks_works() {
    // 5 validators: 'votes' from 3 of them are needed to achieve finality
    let mut storage = Storage::new();
    let validators = validators_addresses(5);

    // when header#1 is inserted, nothing is finalized (1 vote)
    let header1 = Header {
        author: validator_address(0),
        parent_hash: compute_hash(&genesis()),
        number: 1,
        ..Default::default()
    };
    let id1 = compute_id(&header1);
    assert_eq!(
        storage
            .finalize(Default::default(), Default::default(), &validators, id1, &header1, u64::MAX)
            .map(|eff| eff.finalized_headers),
        Ok(Vec::new()),
    );
    storage.insert_header(header1);

    // when header#2 is inserted, nothing is finalized (2 votes)
    let header2 = Header {
        author: validator_address(1),
        parent_hash: id1.hash,
        number: 2,
        ..Default::default()
    };
    let id2 = compute_id(&header2);
    assert_eq!(
        storage
            .finalize(Default::default(), Default::default(), &validators, id2, &header2, u64::MAX)
            .map(|eff| eff.finalized_headers),
        Ok(Vec::new()),
    );
    storage.insert_header(header2);

    // when header#3 is inserted, header#1 is finalized (3 votes)
    let header3 = Header {
        author: validator_address(2),
        parent_hash: id2.hash,
        number: 3,
        ..Default::default()
    };
    let id3 = compute_id(&header3);
    assert_eq!(
        storage
            .finalize(Default::default(), Default::default(), &validators, id3, &header3, u64::MAX)
            .map(|eff| eff.finalized_headers),
        Ok(vec![(id1, None)]),
    );
    storage.insert_header(header3);
}

#[test]
fn cached_votes_are_updated_with_ancestry() {
    // we're inserting header#5
    // cached votes are from header#3
    // header#4 has finalized header#1 and header#2
    // => when inserting header#5, we need to:
    // 1) remove votes from header#1 and header#2
    // 2) add votes from header#4 and header#5
    let validators = validators_addresses(5);
    let headers = (1..6u64)
        .map(|number| Header {
            number,
            author: validators[number as usize - 1],
            ..Default::default()
        })
        .collect::<Vec<_>>();
    let ancestry = headers.iter().map(ancestor_of).collect::<Vec<_>>();
    let header5 = headers[4].clone();
    assert_eq!(
        prepare_votes::<u64>(
            CachedFinalityVotes {
                unaccounted_ancestry: vec![(compute_id(&headers[3]), None, headers[3].clone())]
                    .into_iter()
                    .collect(),
                votes: Some(FinalityVotes {
                    votes: counts_of(&[(validators[0], 1), (validators[1], 1), (validators[2], 1)]),
                    ancestry: ancestry[..3].iter().cloned().collect(),
                }),
            },
            2,
            &signers_of(&validators),
            compute_id(&header5),
            &header5,
            None,
        )
        .unwrap(),
        FinalityVotes {
            votes: counts_of(&[(validators[2], 1), (validators[3], 1), (validators[4], 1)]),
            ancestry: ancestry[2..].iter().cloned().collect(),
        },
    );
}

#[test]
fn prepare_votes_respects_finality_cache() {
    let validators_addresses = validators_addresses(5);
    // we need signatures of 3 validators to finalize block
    let mut storage = Storage::new();

    // headers 1..3 are signed by validator#0
    // headers 4..6 are signed by validator#1
    // headers 7..9 are signed by validator#2
    let mut hashes = Vec::new();
    let mut headers = Vec::new();
    let mut ancestry = Vec::new();
    let mut parent_hash = compute_hash(&genesis());
    for i in 1..10 {
        let header = Header {
            author: validator_address((i - 1) / 3),
            parent_hash,
            number: i as _,
            ..Default::default()
        };
        let id = compute_id(&header);
        storage.insert_header(header.clone());
        hashes.push(id.hash);
        ancestry.push(ancestor_of(&header));
        headers.push(header);
        parent_hash = id.hash;
    }
    let nothing = HeaderId::default();

    // when we're inserting header#7 and last finalized header is 0:
    // check that votes at #7 are computed correctly without cache
    let expected_votes_at_7 = FinalityVotes {
        votes: counts_of(&[
            (validators_addresses[0], 3),
            (validators_addresses[1], 3),
            (validators_addresses[2], 1),
        ]),
        ancestry: ancestry[..7].iter().cloned().collect(),
    };
    let id7 = compute_id(&headers[6]);
    assert_eq!(
        prepare_votes(
            storage.cached_finality_votes(hashes.get(5).unwrap(), &nothing, |_| false),
            0,
            &signers_of(&validators_addresses),
            id7,
            headers.get(6).unwrap(),
            None,
        )
        .unwrap(),
        expected_votes_at_7,
    );

    // cached votes at #5
    let expected_votes_at_5 = FinalityVotes {
        votes: counts_of(&[(validators_addresses[0], 3), (validators_addresses[1], 2)]),
        ancestry: ancestry[..5].iter().cloned().collect(),
    };
    storage.cache.insert(hashes[4], expected_votes_at_5);

    // when we're inserting header#7 and last finalized header is 0:
    // check that votes at #7 are computed correctly with cache
    assert_eq!(
        prepare_votes(
            storage.cached_finality_votes(hashes.get(5).unwrap(), &nothing, |_| false),
            0,
            &signers_of(&validators_addresses),
            id7,
            headers.get(6).unwrap(),
            None,
        )
        .unwrap(),
        expected_votes_at_7,
    );

    // when we're inserting header#7 and last finalized header is 3:
    // check that votes at #7 are computed correctly with cache
    let expected_votes_at_7 = FinalityVotes {
        votes: counts_of(&[(validators_addresses[1], 3), (validators_addresses[2], 1)]),
        ancestry: ancestry[3..7].iter().cloned().collect(),
    };
    assert_eq!(
        prepare_votes(
            storage.cached_finality_votes(hashes.get(5).unwrap(), &nothing, |hash| *hash
                == hashes[2]),
            3,
            &signers_of(&validators_addresses),
            id7,
            headers.get(6).unwrap(),
            None,
        )
        .unwrap(),
        expected_votes_at_7,
    );
}

#[test]
fn default_votes_are_empty() {
    let votes = FinalityVotes::<u64>::default();
    assert_eq!(votes.votes.len(), 0);
    assert_eq!(votes.ancestry, VecDeque::new());
}

#[test]
fn majority_needs_more_than_half() {
    let validators = signers_of(&validators_addresses(5));
    let two = counts_of(&[(validator_address(0), 4), (validator_address(1), 1)]);
    let three = counts_of(&[
        (validator_address(0), 1),
        (validator_address(1), 1),
        (validator_address(2), 1),
    ]);
    assert!(!is_finalized(&validators, &two, false));
    assert!(is_finalized(&validators, &three, false));
    let six = signers_of(&validators_addresses(6));
    assert!(!is_finalized(&six, &three, false));
}

#[test]
fn two_thirds_needs_more_than_two_thirds() {
    let validators = signers_of(&validators_addresses(5));
    let three = counts_of(&[
        (validator_address(0), 1),
        (validator_address(1), 1),
        (validator_address(2), 1),
    ]);
    let four = counts_of(&[
        (validator_address(0), 1),
        (validator_address(1), 1),
        (validator_address(2), 1),
        (validator_address(3), 9),
    ]);
    assert!(!is_finalized(&validators, &three, true));
    assert!(is_finalized(&validators, &four, true));
    let six = signers_of(&validators_addresses(6));
    assert!(!is_finalized(&six, &four, true));
}

fn chain(authors: &[u8]) -> Vec<Header> {
    let mut headers = Vec::new();
    let mut parent_hash = compute_hash(&genesis());
    for (i, author) in authors.iter().enumerate() {
        let header = Header {
            author: validator_address(*author),
            parent_hash,
            number: i as u64 + 1,
            ..Default::default()
        };
        parent_hash = compute_hash(&header);
        headers.push(header);
    }
    headers
}

fn unaccounted(headers: &[Header]) -> VecDeque<(HeaderId, Option<u64>, Header)> {
    headers.iter().rev().map(|h| (compute_id(h), None, h.clone())).collect()
}

#[test]
fn transition_block_itself_needs_two_thirds() {
    // three voters of five are a majority, not two thirds
    let headers = chain(&[0, 1, 2]);
    let validators = validators_addresses(5);
    let finalized = |transition: u64| {
        finalize_blocks(
            CachedFinalityVotes { unaccounted_ancestry: unaccounted(&headers[..2]), votes: None },
            HeaderId::default(),
            &validators,
            compute_id(&headers[2]),
            None,
            &headers[2],
            transition,
        )
        .unwrap()
        .finalized_headers
    };
    assert_eq!(finalized(2), vec![(compute_id(&headers[0]), None)]);
    assert_eq!(finalized(1), Vec::new());
    assert_eq!(finalized(0), Vec::new());
}

#[test]
fn two_thirds_finalizes_with_four_of_five() {
    let headers = chain(&[0, 1, 2, 3]);
    let validators = validators_addresses(5);
    let effects = finalize_blocks(
        CachedFinalityVotes { unaccounted_ancestry: unaccounted(&headers[..3]), votes: None },
        HeaderId::default(),
        &validators,
        compute_id(&headers[3]),
        None,
        &headers[3],
        0,
    )
    .unwrap();
    // after block 1 is final, three voters are left: not enough for block 2
    assert_eq!(effects.finalized_headers, vec![(compute_id(&headers[0]), None)]);
    assert_eq!(effects.votes.ancestry.len(), 4);
    assert_eq!(effects.votes.votes.len(), 4);
}

#[test]
fn finalized_headers_are_the_front_of_the_ancestry() {
    // one validator of one: every block is final at once
    let headers = chain(&[0, 0, 0, 0]);
    let validators = validators_addresses(1);
    let effects = finalize_blocks(
        CachedFinalityVotes { unaccounted_ancestry: unaccounted(&headers[..3]), votes: None },
        HeaderId::default(),
        &validators,
        compute_id(&headers[3]),
        Some(7),
        &headers[3],
        u64::MAX,
    )
    .unwrap();
    let ids: Vec<HeaderId> = effects.votes.ancestry.iter().map(|a| a.id).collect();
    assert_eq!(
        effects.finalized_headers,
        vec![(ids[0], None), (ids[1], None), (ids[2], None), (ids[3], Some(7))],
    );
    assert_eq!(effects.votes.votes, counts_of(&[(validator_address(0), 4)]));
}

#[test]
fn unknown_signer_in_ancestry_is_refused() {
    let headers = chain(&[0, 4, 1]);
    let validators = validators_addresses(3);
    let result = prepare_votes(
        CachedFinalityVotes { unaccounted_ancestry: unaccounted(&headers[..2]), votes: None },
        0,
        &signers_of(&validators),
        compute_id(&headers[2]),
        &headers[2],
        None,
    );
    assert_eq!(result, Err(Error::NotValidator));
}

#[test]
fn unknown_author_is_refused() {
    let headers = chain(&[0, 1, 4]);
    let validators = validators_addresses(3);
    let result = prepare_votes(
        CachedFinalityVotes { unaccounted_ancestry: unaccounted(&headers[..2]), votes: None },
        0,
        &signers_of(&validators),
        compute_id(&headers[2]),
        &headers[2],
        None,
    );
    assert_eq!(result, Err(Error::NotValidator));
}

fn rescan(headers: &[Header], best: u64) -> FinalityVotes<u64> {
    let (target, ancestors) = headers.split_last().unwrap();
    let above: Vec<Header> = ancestors.iter().filter(|h| h.number > best).cloned().collect();
    prepare_votes(
        CachedFinalityVotes { unaccounted_ancestry: unaccounted(&above), votes: None },
        best,
        &signers_of(&validators_addresses(5)),
        compute_id(target),
        target,
        None,
    )
    .unwrap()
}

#[test]
fn votes_count_the_blocks_that_credit_each_validator() {
    let votes = rescan(&chain(&[0, 1, 0, 2, 0, 1]), 0);
    assert_eq!(
        votes.votes,
        counts_of(&[(validator_address(0), 3), (validator_address(1), 2), (validator_address(2), 1)]),
    );
    for i in 0..5u8 {
        let address = validator_address(i);
        let blocks = votes.ancestry.iter().filter(|a| a.signers.contains(&address)).count();
        assert_eq!(votes.votes.get(&address), blocks as u64);
    }
    assert_eq!(votes.votes.len(), 3);
}

#[test]
fn replay_from_any_snapshot_equals_rescan() {
    let headers = chain(&[0, 1, 2, 3, 4, 0, 1, 2]);
    for best in 0..4u64 {
        let expected = rescan(&headers, best);
        // the blocks read on the way to the snapshot are all above `best`
        for snapshot_at in (best.max(1) as usize)..headers.len() {
            let snapshot = rescan(&headers[..snapshot_at], 0);
            let replayed = prepare_votes(
                CachedFinalityVotes {
                    unaccounted_ancestry: unaccounted(&headers[snapshot_at..headers.len() - 1]),
                    votes: Some(snapshot),
                },
                best,
                &signers_of(&validators_addresses(5)),
                compute_id(&headers[headers.len() - 1]),
                &headers[headers.len() - 1],
                None,
            )
            .unwrap();
            assert_eq!(replayed, expected);
        }
    }
}

#[test]
fn returned_votes_serve_as_the_next_cache() {
    let headers = chain(&[0, 1, 2, 3]);
    let validators = validators_addresses(5);
    let mut cached: Option<FinalityVotes<u64>> = None;
    for (i, header) in headers.iter().enumerate() {
        let effects = finalize_blocks(
            CachedFinalityVotes { unaccounted_ancestry: VecDeque::new(), votes: cached.clone() },
            HeaderId::default(),
            &validators,
            compute_id(header),
            None,
            header,
            u64::MAX,
        )
        .unwrap();
        assert_eq!(effects.votes, rescan(&headers[..i + 1], 0));
        cached = Some(effects.votes);
    }
}

#[test]
fn finalized_blocks_leave_the_tally() {
    let headers = chain(&[0, 1, 2, 3, 4]);
    let snapshot = rescan(&headers[..4], 0);
    let votes = prepare_votes(
        CachedFinalityVotes { unaccounted_ancestry: VecDeque::new(), votes: Some(snapshot) },
        3,
        &signers_of(&validators_addresses(5)),
        compute_id(&headers[4]),
        &headers[4],
        None,
    )
    .unwrap();
    assert!(votes.ancestry.iter().all(|a| a.id.number > 3));
    assert_eq!(
        votes.votes,
        counts_of(&[(validator_address(3), 1), (validator_address(4), 1)]),
    );
}

#[test]
fn pruning_stops_at_the_first_block_above_best() {
    let a = validator_address(0);
    let entry = |number: u64| FinalityAncestor::<u64> {
        id: HeaderId { number, hash: H256 { hi: 0, lo: number as u128 } },
        submitter: None,
        signers: signers_of(&[a]),
    };
    let header = Header { author: a, number: 9, ..Default::default() };
    let votes = prepare_votes(
        CachedFinalityVotes {
            unaccounted_ancestry: VecDeque::new(),
            votes: Some(FinalityVotes {
                votes: counts_of(&[(a, 3)]),
                ancestry: vec![entry(1), entry(5), entry(2)].into_iter().collect(),
            }),
        },
        2,
        &signers_of(&[a]),
        compute_id(&header),
        &header,
        None,
    )
    .unwrap();
    let numbers: Vec<u64> = votes.ancestry.iter().map(|a| a.id.number).collect();
    assert_eq!(numbers, vec![5, 2, 9]);
    assert_eq!(votes.votes.get(&a), 3);
}

#[test]
fn adding_and_removing_signers_votes() {
    let validators = signers_of(&validators_addresses(3));
    let mut votes = VoteCounts::new();
    let first = signers_of(&[validator_address(0), validator_address(1)]);
    let second = signers_of(&[validator_address(1), validator_address(2)]);
    assert_eq!(add_signers_votes(&validators, &first, &mut votes), Ok(()));
    assert_eq!(add_signers_votes(&validators, &second, &mut votes), Ok(()));
    assert_eq!(
        votes,
        counts_of(&[(validator_address(0), 1), (validator_address(1), 2), (validator_address(2), 1)]),
    );
    let stranger = signers_of(&[validator_address(0), validator_address(3)]);
    assert_eq!(add_signers_votes(&validators, &stranger, &mut votes), Err(Error::NotValidator));
    assert_eq!(votes.get(&validator_address(0)), 1);
    remove_signers_votes(&first, &mut votes);
    assert_eq!(votes, counts_of(&[(validator_address(1), 1), (validator_address(2), 1)]));
    assert_eq!(votes.get(&validator_address(0)), 0);
    assert_eq!(votes.len(), 2);
}

#[test]
fn vote_counts_keep_byte_order() {
    let low = Address { hi: 1, lo: u128::MAX };
    let high = Address { hi: 2, lo: 0 };
    let mut votes = VoteCounts::new();
    votes.increment(high);
    votes.increment(low);
    votes.increment(high);
    assert_eq!(votes.entry(0), (low, 1));
    assert_eq!(votes.entry(1), (high, 2));
    votes.decrement(low);
    assert_eq!(votes.len(), 1);
    assert_eq!(votes.entry(0), (high, 2));
    votes.set(high, 0);
    assert_eq!(votes, VoteCounts::new());
}

#[test]
fn address_set_keeps_byte_order_and_members_once() {
    let low = Address { hi: 1, lo: u128::MAX };
    let high = Address { hi: 2, lo: 0 };
    let mut set = AddressSet::new();
    assert!(set.insert(high));
    assert!(set.insert(low));
    assert!(!set.insert(high));
    assert_eq!(set.len(), 2);
    assert_eq!(set.get(0), low);
    assert_eq!(set.get(1), high);
    assert!(set.contains(&low));
    assert!(!set.contains(&Address { hi: 1, lo: 0 }));
    assert_eq!(set, AddressSet::from_slice(&[low, high, low]));
    assert_eq!(set.clone(), set);
}

#[test]
fn walk_ends_at_either_hash() {
    let begin = HeaderId { number: 3, hash: H256 { hi: 1, lo: 2 } };
    let best = HeaderId { number: 5, hash: H256 { hi: 3, lo: 4 } };
    assert!(is_walk_end(&begin.hash, &begin, &best));
    assert!(is_walk_end(&best.hash, &begin, &best));
    assert!(!is_walk_end(&H256 { hi: 1, lo: 4 }, &begin, &best));
}

#[test]
fn prepared_votes_are_consistent() {
    let votes = rescan(&chain(&[0, 1, 0, 2, 0, 1]), 2);
    assert!(votes.is_consistent());
    assert!(FinalityVotes::<u64>::default().is_consistent());
}

#[test]
fn tampered_votes_are_not_consistent() {
    let votes = rescan(&chain(&[0, 1, 0]), 0);
    let mut more = votes.clone();
    more.votes.increment(validator_address(1));
    assert!(!more.is_consistent());
    let mut fewer = votes.clone();
    fewer.votes.decrement(validator_address(1));
    assert!(!fewer.is_consistent());
    let mut stranger = votes.clone();
    stranger.votes.increment(validator_address(4));
    assert!(!stranger.is_consistent());
    let mut shorter = votes.clone();
    shorter.ancestry.pop_back();
    assert!(!shorter.is_consistent());
}

#[test]
fn same_votes_are_told_apart_from_others() {
    let a = validator_address(0);
    let b = validator_address(1);
    let one = counts_of(&[(a, 1), (b, 2)]);
    let mut other = VoteCounts::new();
    other.increment(b);
    other.increment(a);
    assert!(!one.same_as(&other));
    other.increment(b);
    assert!(one.same_as(&other));
    assert!(one.same_as(&one.clone()));
    assert!(!one.same_as(&VoteCounts::new()));
    assert!(!one.same_as(&counts_of(&[(a, 1)])));
    assert!(!one.same_as(&counts_of(&[(a, 1), (validator_address(2), 2)])));
}

#[test]
fn crediting_signers_gives_each_one_vote() {
    let mut votes = counts_of(&[(validator_address(1), 4)]);
    credit_signers(&signers_of(&[validator_address(0), validator_address(1)]), &mut votes);
    assert_eq!(votes, counts_of(&[(validator_address(0), 1), (validator_address(1), 5)]));
    credit_signers(&AddressSet::new(), &mut votes);
    assert_eq!(votes.len(), 2);
}
