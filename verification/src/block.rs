use vstd::prelude::*;
use crate::bytes::{bytes_eq, copy_bytes};
use crate::error::Error;
use crate::id_set::{id_set_from, is_id_set, ordered_ids};
use std::collections::BTreeSet;

verus! {

/// A vote of a peer for a network event (its payload bytes). `signer` is the
/// public id whose key produced the vote's signature.
pub struct Vote {
    pub payload: Vec<u8>,
    pub signer: u64,
}

/// What a vote holds, as plain values.
pub struct VoteView {
    pub payload: Seq<u8>,
    pub signer: u64,
}

impl View for Vote {
    type V = VoteView;

    open spec fn view(&self) -> VoteView {
        VoteView { payload: self.payload@, signer: self.signer }
    }
}

impl Vote {
    /// A vote by `signer` for the network event `payload`.
    pub fn new(payload: Vec<u8>, signer: u64) -> (v: Vote)
        ensures
            v@ == (VoteView { payload: payload@, signer }),
    {
        Vote { payload, signer }
    }

    /// A copy of this vote.
    pub fn copy(&self) -> (v: Vote)
        ensures
            v@ == self@,
    {
        Vote { payload: copy_bytes(&self.payload), signer: self.signer }
    }

    /// Whether the vote's signature is that of `peer_id`.
    pub fn is_valid(&self, peer_id: u64) -> (r: bool)
        ensures
            r == (self@.signer == peer_id),
    {
        self.signer == peer_id
    }
}

/// Why a vote presented for `peer_id` cannot back a block of `payload`, if it
/// cannot: it is for another event, or it was not signed by `peer_id`.
pub open spec fn vote_error(payload: Seq<u8>, peer_id: u64, vote: VoteView) -> Option<Error> {
    if vote.payload != payload {
        Some(Error::MismatchedPayload)
    } else if vote.signer != peer_id {
        Some(Error::SignatureFailure)
    } else {
        None
    }
}

/// The plain values of a list of votes.
pub open spec fn votes_view(votes: Seq<Vote>) -> Seq<VoteView> {
    votes.map_values(|v: Vote| v@)
}

/// The first `n` votes, presented for the first `n` ids, are all for
/// `payload` and signed by their peers.
pub open spec fn votes_valid_upto(
    payload: Seq<u8>,
    ids: Seq<u64>,
    votes: Seq<VoteView>,
    n: int,
) -> bool {
    forall|j: int| 0 <= j < n ==> vote_error(payload, ids[j], #[trigger] votes[j]) is None
}

/// What `new_block` returns for `payload`, the ids `ids` and their votes
/// `votes`: a block of `payload` backed by the ids where every vote is valid,
/// otherwise the error of the first invalid vote.
pub open spec fn new_block_post(
    payload: Seq<u8>,
    ids: Seq<u64>,
    votes: Seq<VoteView>,
    r: Result<BlockView, Error>,
) -> bool {
    &&& r is Ok <==> votes_valid_upto(payload, ids, votes, votes.len() as int)
    &&& r matches Ok(b) ==> b.payload == payload && b.proofs == ids.to_set()
    &&& r matches Err(e) ==> exists|i: int|
        0 <= i < votes.len() && vote_error(payload, ids[i], #[trigger] votes[i]) == Some(e)
            && votes_valid_upto(payload, ids, votes, i)
}

/// The plain values of the outcome of `new_block`.
pub open spec fn block_result_view(r: Result<Block, Error>) -> Result<BlockView, Error> {
    match r {
        Ok(b) => Ok(b@),
        Err(e) => Err(e),
    }
}

/// A stable block: a network event (its payload) and the proofs (public ids of
/// the peers whose valid votes back it).
pub struct Block {
    payload: Vec<u8>,
    proofs: BTreeSet<u64>,
}

/// What a block holds, as plain values.
pub struct BlockView {
    pub payload: Seq<u8>,
    pub proofs: Set<u64>,
}

impl View for Block {
    type V = BlockView;

    closed spec fn view(&self) -> BlockView {
        BlockView { payload: self.payload@, proofs: self.proofs@ }
    }
}

/// The relation between a block before and after presenting `vote` for
/// `peer_id`, and what the call returns.
pub open spec fn add_vote_post(
    before: BlockView,
    peer_id: u64,
    vote: VoteView,
    after: BlockView,
    r: Result<bool, Error>,
) -> bool {
    match vote_error(before.payload, peer_id, vote) {
        Some(e) => r == Err::<bool, Error>(e) && after == before,
        None => {
            &&& r == Ok::<bool, Error>(!before.proofs.contains(peer_id))
            &&& after.payload == before.payload
            &&& after.proofs == before.proofs.insert(peer_id)
        },
    }
}

impl Block {
    /// A block of `payload` whose proofs are `proofs`.
    pub(crate) fn from_parts(payload: Vec<u8>, proofs: BTreeSet<u64>) -> (b: Block)
        ensures
            b@ == (BlockView { payload: payload@, proofs: proofs@ }),
    {
        Block { payload, proofs }
    }
}

/// Creates a block for `payload` from the peers `public_ids` and their
/// corresponding `votes` (the i-th vote presented for the i-th id). Fails with
/// the error of the first vote that is for another event or not signed by its
/// peer; otherwise the proofs are the given ids, each once.
pub fn new_block(payload: &Vec<u8>, public_ids: &Vec<u64>, votes: &Vec<Vote>) -> (r: Result<
    Block,
    Error,
>)
    requires
        public_ids.len() == votes.len(),
    ensures
        r is Ok <==> forall|i: int|
            0 <= i < votes.len() ==> vote_error(payload@, public_ids@[i], #[trigger] votes@[i]@)
                is None,
        r matches Ok(b) ==> b@.payload == payload@ && b@.proofs == public_ids@.to_set(),
        r matches Err(e) ==> exists|i: int|
            0 <= i < votes.len() && vote_error(payload@, public_ids@[i], #[trigger] votes@[i]@)
                == Some(e) && forall|j: int|
                0 <= j < i ==> vote_error(payload@, public_ids@[j], #[trigger] votes@[j]@)
                    is None,
        new_block_post(payload@, public_ids@, votes_view(votes@), block_result_view(r)),
{
    let mut i: usize = 0;
    while i < votes.len()
        invariant
            i <= votes.len(),
            public_ids.len() == votes.len(),
            forall|j: int|
                0 <= j < i ==> vote_error(payload@, public_ids@[j], #[trigger] votes@[j]@)
                    is None,
        decreases votes.len() - i,
    {
        let vote = &votes[i];
        assert(votes_view(votes@)[i as int] == votes@[i as int]@);
        assert(votes_valid_upto(payload@, public_ids@, votes_view(votes@), i as int)) by {
            assert forall|j: int| 0 <= j < i implies vote_error(payload@, public_ids@[j], #[trigger] votes_view(votes@)[j]) is None by {
                assert(votes_view(votes@)[j] == votes@[j]@);
            }
        }
        if !bytes_eq(&vote.payload, payload) {
            assert(vote_error(payload@, public_ids@[i as int], votes@[i as int]@) == Some(
                Error::MismatchedPayload,
            ));
            return Err(Error::MismatchedPayload);
        }
        if !vote.is_valid(public_ids[i]) {
            assert(vote_error(payload@, public_ids@[i as int], votes@[i as int]@) == Some(
                Error::SignatureFailure,
            ));
            return Err(Error::SignatureFailure);
        }
        i = i + 1;
    }
    assert(votes_valid_upto(payload@, public_ids@, votes_view(votes@), votes.len() as int)) by {
        assert forall|j: int| 0 <= j < votes.len() implies vote_error(payload@, public_ids@[j], #[trigger] votes_view(votes@)[j]) is None by {
            assert(votes_view(votes@)[j] == votes@[j]@);
        }
    }
    let proofs = id_set_from(public_ids);
    Ok(Block::from_parts(copy_bytes(payload), proofs))
}

/// The payload (network event) of the block.
pub fn block_payload(block: &Block) -> (r: &Vec<u8>)
    ensures
        r@ == block@.payload,
{
    &block.payload
}

/// The proofs of the block: the public ids backing it, in increasing order.
pub fn block_proofs(block: &Block) -> (r: Vec<u64>)
    ensures
        is_id_set(r@, block@.proofs),
{
    ordered_ids(&block.proofs)
}

/// Turns `vote` into a proof by `peer_id` and adds it to the block. Fails,
/// leaving the block as it was, if the vote is for another network event or
/// was not signed by `peer_id`; otherwise returns whether the proof is new.
pub fn block_add_vote(block: &mut Block, peer_id: u64, vote: &Vote) -> (r: Result<bool, Error>)
    ensures
        add_vote_post(old(block)@, peer_id, vote@, final(block)@, r),
{
    broadcast use {vstd::laws_cmp::group_laws_cmp, vstd::std_specs::btree::group_btree_axioms};

    if !bytes_eq(&vote.payload, &block.payload) {
        return Err(Error::MismatchedPayload);
    }
    if !vote.is_valid(peer_id) {
        return Err(Error::SignatureFailure);
    }
    let inserted = block.proofs.insert(peer_id);
    Ok(inserted)
}

/// Presenting the same vote twice: once the first presentation has been
/// accepted, the second one is accepted as well, reports the proof as already
/// held and leaves the block unchanged.
pub proof fn law_add_vote_idempotent(
    b0: BlockView,
    peer_id: u64,
    vote: VoteView,
    b1: BlockView,
    r1: Result<bool, Error>,
    b2: BlockView,
    r2: Result<bool, Error>,
)
    requires
        add_vote_post(b0, peer_id, vote, b1, r1),
        add_vote_post(b1, peer_id, vote, b2, r2),
        r1 is Ok,
    ensures
        r2 == Ok::<bool, Error>(false),
        b2 == b1,
{
    assert(b1.proofs.contains(peer_id));
    assert(b1.proofs.insert(peer_id) =~= b1.proofs);
}

/// A block's payload never changes: presenting a vote, accepted or refused,
/// leaves the network event the block is for as it was.
pub proof fn law_add_vote_keeps_payload(
    b0: BlockView,
    peer_id: u64,
    vote: VoteView,
    b1: BlockView,
    r: Result<bool, Error>,
)
    requires
        add_vote_post(b0, peer_id, vote, b1, r),
    ensures
        b1.payload == b0.payload,
{
}

/// A proof is only ever added, never lost: after presenting a vote, the block
/// holds every proof it held before, and it holds a proof by `peer_id` exactly
/// when it held one before or the vote was accepted.
pub proof fn law_add_vote_grows_proofs(
    b0: BlockView,
    peer_id: u64,
    vote: VoteView,
    b1: BlockView,
    r: Result<bool, Error>,
)
    requires
        add_vote_post(b0, peer_id, vote, b1, r),
    ensures
        b0.proofs.subset_of(b1.proofs),
        b1.proofs.contains(peer_id) <==> (b0.proofs.contains(peer_id) || r is Ok),
{
}

/// The checks of `new_block`, stated over the votes themselves: a block is
/// made only if every vote is for the payload, byte for byte, and signed by
/// the peer it is presented for; the block then holds the payload and exactly
/// the given ids; and where the `i`-th vote is the first that is for another
/// event or signed by another peer, the error says which check it failed.
pub proof fn law_new_block_checks(
    payload: Seq<u8>,
    ids: Seq<u64>,
    votes: Seq<VoteView>,
    r: Result<BlockView, Error>,
)
    requires
        ids.len() == votes.len(),
        new_block_post(payload, ids, votes, r),
    ensures
        r is Ok ==> forall|i: int|
            0 <= i < votes.len() ==> #[trigger] votes[i].payload == payload && votes[i].signer
                == ids[i],
        r matches Ok(b) ==> b.payload == payload && forall|m: u64|
            #[trigger] b.proofs.contains(m) <==> ids.contains(m),
        forall|i: int|
            0 <= i < votes.len() && (#[trigger] votes[i].payload != payload || votes[i].signer
                != ids[i]) && (forall|j: int|
                0 <= j < i ==> votes[j].payload == payload && votes[j].signer == ids[j]) ==> r
                == Err::<BlockView, Error>(
                if votes[i].payload != payload {
                    Error::MismatchedPayload
                } else {
                    Error::SignatureFailure
                },
            ),
{
    if r is Ok {
        assert forall|i: int| 0 <= i < votes.len() implies #[trigger] votes[i].payload == payload
            && votes[i].signer == ids[i] by {
            assert(vote_error(payload, ids[i], votes[i]) is None);
        }
    }
    assert forall|i: int|
        0 <= i < votes.len() && (#[trigger] votes[i].payload != payload || votes[i].signer != ids[i])
            && (forall|j: int| 0 <= j < i ==> votes[j].payload == payload && votes[j].signer == ids[j])
        implies r == Err::<BlockView, Error>(
        if votes[i].payload != payload {
            Error::MismatchedPayload
        } else {
            Error::SignatureFailure
        },
    ) by {
        assert(vote_error(payload, ids[i], votes[i]) is Some);
        match r {
            Ok(_) => {
                assert(vote_error(payload, ids[i], votes[i]) is None);
            },
            Err(e) => {
                let i2 = choose|i2: int|
                    0 <= i2 < votes.len() && vote_error(payload, ids[i2], #[trigger] votes[i2])
                        == Some(e) && votes_valid_upto(payload, ids, votes, i2);
                if i2 < i {
                    assert(votes[i2].payload == payload && votes[i2].signer == ids[i2]);
                } else if i < i2 {
                    assert(vote_error(payload, ids[i], votes[i]) is None);
                }
            },
        }
    }
}

/// The checks of `block_add_vote`, stated over the vote itself and whatever
/// proofs the block holds: a vote for another event, byte for byte, is
/// refused with `MismatchedPayload`, a vote for the block's event signed by
/// another peer with `SignatureFailure`, and a refused vote leaves the block
/// unchanged; an accepted vote is for the block's event and signed by
/// `peer_id`, adds `peer_id` to the proofs, keeps the payload, and the result
/// says whether `peer_id` was new.
pub proof fn law_add_vote_checks(
    before: BlockView,
    peer_id: u64,
    vote: VoteView,
    after: BlockView,
    r: Result<bool, Error>,
)
    requires
        add_vote_post(before, peer_id, vote, after, r),
    ensures
        vote.payload != before.payload ==> r == Err::<bool, Error>(Error::MismatchedPayload)
            && after == before,
        vote.payload == before.payload && vote.signer != peer_id ==> r == Err::<bool, Error>(
            Error::SignatureFailure,
        ) && after == before,
        r is Ok ==> {
            &&& vote.payload == before.payload
            &&& vote.signer == peer_id
            &&& after.payload == before.payload
            &&& forall|m: u64| #[trigger] after.proofs.contains(m) <==> (before.proofs.contains(m) || m == peer_id)
            &&& r == Ok::<bool, Error>(!before.proofs.contains(peer_id))
        },
{
}

} // verus!
