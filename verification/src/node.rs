//! A node of the network: its votes, the gossip it exchanges, and the stable
//! blocks it hands out in the order that `crate::order` fixes.

use vstd::prelude::*;
use crate::block::{Block, BlockView};
use crate::bytes::{bytes_eq, copy_bytes};
use crate::error::Error;
use crate::id_set::{id_set_from, is_id_set, ordered_ids};
use crate::order::{
    compute_stable_seq, consistent, Event, EventView, events_view, is_supermajority, known_within,
    lemma_prefixes_comparable, lemma_stable_seq_grows, payloads_view, settles, stable_seq,
    voters_upto,
};
use std::collections::BTreeSet;

verus! {

broadcast use {vstd::laws_cmp::group_laws_cmp, vstd::std_specs::btree::group_btree_axioms};

/// A gossip request: the votes that the sender shares with the recipient.
pub struct Request {
    pub events: Vec<Event>,
}

/// The answer to a gossip request: the votes that the answering peer knows.
pub struct Response {
    pub events: Vec<Event>,
}

/// A node of the network: our id, the genesis group (ours included) as a set
/// and as an increasing list, the votes we know of (ours and those learnt by
/// gossip), the number our next vote gets, and the payloads that we have
/// already handed out as stable blocks, in order.
pub struct Parsec {
    our_id: u64,
    genesis: BTreeSet<u64>,
    members: Vec<u64>,
    known: Vec<Event>,
    next_index: u64,
    stable: Vec<Vec<u8>>,
}

/// What a node holds, as plain values.
pub struct ParsecView {
    pub our_id: u64,
    pub genesis: Set<u64>,
    pub members: Seq<u64>,
    pub known: Seq<EventView>,
    pub next_index: u64,
    pub stable: Seq<Seq<u8>>,
}

impl Parsec {
    /// Every node handle is well formed.
    #[verifier::type_invariant]
    closed spec fn inv(self) -> bool {
        parsec_wf(self@)
    }
}

impl View for Parsec {
    type V = ParsecView;

    closed spec fn view(&self) -> ParsecView {
        ParsecView {
            our_id: self.our_id,
            genesis: self.genesis@,
            members: self.members@,
            known: events_view(self.known@),
            next_index: self.next_index,
            stable: payloads_view(self.stable@),
        }
    }
}

/// The invariant of a node: the member list orders the genesis group, which
/// holds our id; every known vote is by a member, none is known twice, and no
/// member has two different votes with the same number; our own votes are
/// numbered below `next_index`; and the blocks handed out so far are the
/// start of the node's stable sequence.
pub open spec fn parsec_wf(s: ParsecView) -> bool {
    &&& is_id_set(s.members, s.genesis)
    &&& s.genesis.contains(s.our_id)
    &&& s.known.no_duplicates()
    &&& forall|i: int| 0 <= i < s.known.len() ==> s.genesis.contains(#[trigger] s.known[i].creator)
    &&& consistent(s.known)
    &&& forall|i: int|
        0 <= i < s.known.len() && #[trigger] s.known[i].creator == s.our_id ==> s.known[i].index
            < s.next_index
    &&& s.stable.is_prefix_of(stable_seq(s.members, s.known))
}

/// Whether we have voted for the network event `e`.
pub open spec fn has_voted(s: ParsecView, e: Seq<u8>) -> bool {
    exists|i: int|
        0 <= i < s.known.len() && #[trigger] s.known[i].creator == s.our_id && s.known[i].payload
            == e
}

/// Our vote for `e`: the next one we cast.
pub open spec fn our_vote(s: ParsecView, e: Seq<u8>) -> EventView {
    EventView { payload: e, creator: s.our_id, index: s.next_index }
}

/// Voting for `e`: refused if we already have, otherwise our vote, numbered
/// next, joins the votes we know.
pub open spec fn spec_vote_for(s: ParsecView, e: Seq<u8>) -> (ParsecView, Result<(), Error>) {
    if has_voted(s, e) {
        (s, Err(Error::DuplicateVote))
    } else {
        (
            ParsecView {
                known: s.known.push(our_vote(s, e)),
                next_index: (s.next_index + 1) as u64,
                ..s
            },
            Ok(()),
        )
    }
}

/// Gossip for `peer` (or for anyone, where `peer` is `None`): all votes we
/// know; refused for a peer outside the genesis group.
pub open spec fn spec_create_gossip(s: ParsecView, peer: Option<u64>) -> Result<
    Seq<EventView>,
    Error,
> {
    match peer {
        Some(p) => if s.genesis.contains(p) {
            Ok(s.known)
        } else {
            Err(Error::UnknownPeer)
        },
        None => Ok(s.known),
    }
}

/// The votes of a gossip message can be learnt: each is by a member; those
/// said to be ours are votes we did cast; and together with the votes we know
/// no member has two different votes with the same number.
pub open spec fn events_acceptable(s: ParsecView, events: Seq<EventView>) -> bool {
    &&& forall|i: int| 0 <= i < events.len() ==> s.genesis.contains(#[trigger] events[i].creator)
    &&& forall|i: int|
        0 <= i < events.len() && #[trigger] events[i].creator == s.our_id ==> s.known.contains(
            events[i],
        )
    &&& consistent(s.known + events)
}

/// The elements held after learning `events`: those held before, followed by
/// the new ones in the order received, each once.
pub open spec fn merged<A>(known: Seq<A>, events: Seq<A>) -> Seq<A> {
    events.remove_duplicates(known)
}

/// Learning the votes of a gossip message from `src`: refused if `src` is not
/// a member, or if the votes cannot be learnt; otherwise they are merged into
/// ours.
pub open spec fn spec_learn(s: ParsecView, src: u64, events: Seq<EventView>) -> (
    ParsecView,
    Result<(), Error>,
) {
    if !s.genesis.contains(src) {
        (s, Err(Error::UnknownPeer))
    } else if !events_acceptable(s, events) {
        (s, Err(Error::InvalidEvent))
    } else {
        (ParsecView { known: merged(s.known, events), ..s }, Ok(()))
    }
}

/// Handling a gossip request from `src`: learning its votes, then answering
/// with all votes we know.
pub open spec fn spec_handle_request(s: ParsecView, src: u64, events: Seq<EventView>) -> (
    ParsecView,
    Result<Seq<EventView>, Error>,
) {
    let (s2, r) = spec_learn(s, src, events);
    match r {
        Ok(_) => (s2, Ok(s2.known)),
        Err(e) => (s2, Err(e)),
    }
}

/// The peers known to have voted for `p`.
pub open spec fn voters(known: Seq<EventView>, p: Seq<u8>) -> Set<u64> {
    Set::new(
        |m: u64|
            exists|i: int| 0 <= i < known.len() && #[trigger] known[i].creator == m && known[i].payload == p,
    )
}

/// The relation between a node before and after a poll and what it returns:
/// where the node's stable sequence goes beyond the blocks handed out, its
/// next payload becomes a block, backed by the proofs of all its known
/// voters, and is recorded as handed out; otherwise nothing changes.
pub open spec fn poll_post(before: ParsecView, after: ParsecView, r: Option<BlockView>) -> bool {
    let seq = stable_seq(before.members, before.known);
    if before.stable.len() < seq.len() {
        &&& r is Some
        &&& r.unwrap().payload == seq[before.stable.len() as int]
        &&& r.unwrap().proofs == voters(before.known, r.unwrap().payload)
        &&& after == (ParsecView { stable: before.stable.push(r.unwrap().payload), ..before })
    } else {
        r is None && after == before
    }
}

/// The plain values of an optional block.
pub open spec fn opt_block_view(r: Option<Block>) -> Option<BlockView> {
    match r {
        Some(b) => Some(b@),
        None => None,
    }
}

/// Merging keeps what was known as a prefix, holds exactly the elements held
/// before or received, and holds none twice if none was held twice before.
pub proof fn lemma_merged<A>(known: Seq<A>, events: Seq<A>)
    ensures
        known.is_prefix_of(merged(known, events)),
        forall|x: A| #[trigger]
            merged(known, events).contains(x) <==> (known.contains(x) || events.contains(x)),
        known.no_duplicates() ==> merged(known, events).no_duplicates(),
    decreases events.len(),
{
    events.lemma_remove_duplicates_properties(known);
    assert forall|x: A| #[trigger]
        merged(known, events).contains(x) <==> (known.contains(x) || events.contains(x)) by {
        assert((events + known).contains(x) <==> (known.contains(x) || events.contains(x))) by {
            if (events + known).contains(x) {
                let k = choose|k: int| 0 <= k < (events + known).len() && #[trigger] (events + known)[k] == x;
                if k < events.len() {
                    assert(events[k] == x);
                } else {
                    assert(known[k - events.len()] == x);
                }
            }
            if events.contains(x) {
                let k = choose|k: int| 0 <= k < events.len() && #[trigger] events[k] == x;
                assert((events + known)[k] == x);
            }
            if known.contains(x) {
                let k = choose|k: int| 0 <= k < known.len() && #[trigger] known[k] == x;
                assert((events + known)[k + events.len()] == x);
            }
        }
    }
    if events.len() == 0 {
    } else {
        let rest = events.skip(1);
        if known.contains(events[0]) {
            lemma_merged(known, rest);
        } else {
            let k2 = known + seq![events[0]];
            lemma_merged(k2, rest);
            assert(known.is_prefix_of(k2));
            if known.no_duplicates() {
                assert(k2.no_duplicates()) by {
                    assert forall|i: int, j: int|
                        0 <= i < k2.len() && 0 <= j < k2.len() && i != j implies k2[i] != k2[j] by {
                        if i == known.len() {
                            assert(known[j] == k2[j]);
                        } else if j == known.len() {
                            assert(known[i] == k2[i]);
                        }
                    }
                }
            }
        }
    }
}

/// Whether a list of events holds `e`.
fn contains_event(events: &Vec<Event>, e: &Event) -> (r: bool)
    ensures
        r == events_view(events@).contains(e@),
{
    let mut i: usize = 0;
    while i < events.len()
        invariant
            i <= events.len(),
            forall|k: int| 0 <= k < i ==> events@[k]@ != e@,
        decreases events.len() - i,
    {
        if events[i].same_as(e) {
            assert(events_view(events@)[i as int] == e@);
            return true;
        }
        i = i + 1;
    }
    assert(!events_view(events@).contains(e@)) by {
        if events_view(events@).contains(e@) {
            let k = choose|k: int|
                0 <= k < events_view(events@).len() && #[trigger] events_view(events@)[k] == e@;
            assert(events@[k]@ == e@);
        }
    }
    false
}

/// A copy of a list of events.
fn copy_events(events: &Vec<Event>) -> (r: Vec<Event>)
    ensures
        events_view(r@) == events_view(events@),
{
    let mut r: Vec<Event> = Vec::with_capacity(events.len());
    let mut i: usize = 0;
    while i < events.len()
        invariant
            i <= events.len(),
            events_view(r@) == events_view(events@).take(i as int),
        decreases events.len() - i,
    {
        let ghost before = r@;
        r.push(events[i].copy());
        assert(events_view(r@) =~= events_view(before).push(events@[i as int]@));
        assert(events_view(events@).take(i + 1) =~= events_view(events@).take(i as int).push(
            events@[i as int]@,
        ));
        i = i + 1;
    }
    assert(events_view(events@).take(events.len() as int) =~= events_view(events@));
    r
}

/// A copy of a list of payloads.
fn copy_payloads(list: &Vec<Vec<u8>>) -> (r: Vec<Vec<u8>>)
    ensures
        payloads_view(r@) == payloads_view(list@),
{
    let mut r: Vec<Vec<u8>> = Vec::with_capacity(list.len());
    let mut i: usize = 0;
    while i < list.len()
        invariant
            i <= list.len(),
            payloads_view(r@) == payloads_view(list@).take(i as int),
        decreases list.len() - i,
    {
        let ghost before = r@;
        r.push(copy_bytes(&list[i]));
        assert(payloads_view(r@) =~= payloads_view(before).push(list@[i as int]@));
        assert(payloads_view(list@).take(i + 1) =~= payloads_view(list@).take(i as int).push(
            list@[i as int]@,
        ));
        i = i + 1;
    }
    assert(payloads_view(list@).take(list.len() as int) =~= payloads_view(list@));
    r
}

/// Creates a node for the peer `our_id` in the genesis group `genesis_group`
/// (ours included; an id given twice counts once). Fails if our id is not in
/// the group. The new node knows no vote and has handed out no block.
pub fn parsec_new(our_id: u64, genesis_group: &Vec<u64>) -> (r: Result<Parsec, Error>)
    ensures
        r is Ok <==> genesis_group@.contains(our_id),
        r matches Err(e) ==> e == Error::InvalidSelfState,
        r matches Ok(p) ==> {
            &&& parsec_wf(p@)
            &&& p@.our_id == our_id
            &&& p@.genesis == genesis_group@.to_set()
            &&& p@.known == Seq::<EventView>::empty()
            &&& p@.next_index == 0
            &&& p@.stable == Seq::<Seq<u8>>::empty()
        },
{
    let genesis = id_set_from(genesis_group);
    if !genesis.contains(&our_id) {
        return Err(Error::InvalidSelfState);
    }
    let members = ordered_ids(&genesis);
    let p = Parsec { our_id, genesis, members, known: Vec::new(), next_index: 0, stable: Vec::new() };
    assert(p@.known =~= Seq::<EventView>::empty());
    assert(p@.stable =~= Seq::<Seq<u8>>::empty());
    Ok(p)
}

/// Whether we have already voted for `network_event`.
pub fn parsec_have_voted_for(parsec: &Parsec, network_event: &Vec<u8>) -> (r: bool)
    ensures
        r == has_voted(parsec@, network_event@),
{
    let ghost k = parsec@.known;
    let mut i: usize = 0;
    while i < parsec.known.len()
        invariant
            i <= parsec.known.len(),
            k == parsec@.known,
            forall|t: int| 0 <= t < i ==> !(k[t].creator == parsec.our_id && k[t].payload == network_event@),
        decreases parsec.known.len() - i,
    {
        if parsec.known[i].creator == parsec.our_id && bytes_eq(&parsec.known[i].payload, network_event) {
            assert(k[i as int].creator == parsec.our_id);
            return true;
        }
        i = i + 1;
    }
    false
}

/// The number of votes we have cast, which is the number our next vote gets.
pub fn parsec_votes_cast(parsec: &Parsec) -> (n: u64)
    ensures
        n == parsec@.next_index,
{
    parsec.next_index
}

/// Adds our vote for `network_event`. Fails, changing nothing, if we have
/// already voted for it.
pub fn parsec_vote_for(parsec: &mut Parsec, network_event: &Vec<u8>) -> (r: Result<(), Error>)
    requires
        old(parsec)@.next_index < u64::MAX,
    ensures
        parsec_wf(final(parsec)@),
        (final(parsec)@, r) == spec_vote_for(old(parsec)@, network_event@),
{
    proof {
        use_type_invariant(&*parsec);
    }
    if parsec_have_voted_for(parsec, network_event) {
        return Err(Error::DuplicateVote);
    }
    let ghost s0 = parsec@;
    let e = Event::new(copy_bytes(network_event), parsec.our_id, parsec.next_index);
    proof {
        law_voting_extends_stable_seq(s0, network_event@);
        assert(parsec_wf(ParsecView { next_index: (s0.next_index + 1) as u64, ..s0 }));
    }
    let mut known = copy_events(&parsec.known);
    let ghost before = known@;
    known.push(e);
    proof {
        assert(events_view(known@) =~= events_view(before).push(e@));
    }
    parsec.next_index = parsec.next_index + 1;
    parsec.known = known;
    proof {
        use_type_invariant(&*parsec);
    }
    Ok(())
}

/// Creates the gossip for `peer_id`, or for anyone where it is `None`: a
/// request carrying all votes we know. Fails if `peer_id` names a peer
/// outside the genesis group.
pub fn parsec_create_gossip(parsec: &Parsec, peer_id: Option<u64>) -> (r: Result<Request, Error>)
    ensures
        match spec_create_gossip(parsec@, peer_id) {
            Ok(events) => r matches Ok(req) && events_view(req.events@) == events,
            Err(e) => r == Err::<Request, Error>(e),
        },
{
    match peer_id {
        Some(p) => {
            if !parsec.genesis.contains(&p) {
                return Err(Error::UnknownPeer);
            }
        },
        None => {},
    }
    Ok(Request { events: copy_events(&parsec.known) })
}

/// No event of `a` has the member and number of `e` but another payload.
pub open spec fn no_conflict(a: Seq<EventView>, e: EventView) -> bool {
    forall|t: int|
        0 <= t < a.len() && #[trigger] a[t].creator == e.creator && a[t].index == e.index
            ==> a[t].payload == e.payload
}

/// A consistent list stays consistent when events that conflict with
/// nothing are appended.
proof fn lemma_consistent_concat(k: Seq<EventView>, e: Seq<EventView>)
    requires
        consistent(k),
        forall|t: int| 0 <= t < e.len() ==> no_conflict(k, #[trigger] e[t]),
        forall|t: int| 0 <= t < e.len() ==> no_conflict(e, #[trigger] e[t]),
    ensures
        consistent(k + e),
{
    let ke = k + e;
    assert forall|a: EventView, b: EventView|
        #[trigger] ke.contains(a) && #[trigger] ke.contains(b) && a.creator == b.creator && a.index
            == b.index implies a.payload == b.payload by {
        let ia = choose|ia: int| 0 <= ia < ke.len() && ke[ia] == a;
        let ib = choose|ib: int| 0 <= ib < ke.len() && ke[ib] == b;
        if ia < k.len() && ib < k.len() {
            assert(k.contains(a) && k[ia] == a);
            assert(k.contains(b) && k[ib] == b);
        } else if ia >= k.len() {
            assert(e[ia - k.len()] == a);
            assert(no_conflict(k, e[ia - k.len()]));
            assert(no_conflict(e, e[ia - k.len()]));
            if ib < k.len() {
                assert(k[ib] == b);
            } else {
                assert(e[ib - k.len()] == b);
            }
        } else {
            assert(e[ib - k.len()] == b);
            assert(no_conflict(k, e[ib - k.len()]));
            assert(k[ia] == a);
        }
    }
}

/// Whether some event of `list` has the member and number of `e` but another
/// payload.
fn conflicts(list: &Vec<Event>, e: &Event) -> (r: bool)
    ensures
        r == !no_conflict(events_view(list@), e@),
{
    let ghost a = events_view(list@);
    let mut i: usize = 0;
    while i < list.len()
        invariant
            i <= list.len(),
            a == events_view(list@),
            forall|t: int|
                0 <= t < i && #[trigger] a[t].creator == e@.creator && a[t].index == e@.index
                    ==> a[t].payload == e@.payload,
        decreases list.len() - i,
    {
        if list[i].creator == e.creator && list[i].index == e.index && !bytes_eq(&list[i].payload, &e.payload) {
            assert(a[i as int].creator == e@.creator);
            return true;
        }
        i = i + 1;
    }
    false
}

/// Whether the votes of a gossip message can be learnt, as
/// `events_acceptable` says.
fn acceptable(parsec: &Parsec, events: &Vec<Event>) -> (r: bool)
    requires
        parsec_wf(parsec@),
    ensures
        r == events_acceptable(parsec@, events_view(events@)),
{
    let ghost s = parsec@;
    let ghost ev = events_view(events@);
    let mut i: usize = 0;
    while i < events.len()
        invariant
            i <= events.len(),
            s == parsec@,
            parsec_wf(s),
            ev == events_view(events@),
            forall|t: int| 0 <= t < i ==> s.genesis.contains(#[trigger] ev[t].creator),
            forall|t: int|
                0 <= t < i && #[trigger] ev[t].creator == s.our_id ==> s.known.contains(ev[t]),
            forall|t: int| 0 <= t < i ==> no_conflict(s.known, #[trigger] ev[t]),
            forall|t: int| 0 <= t < i ==> no_conflict(ev, #[trigger] ev[t]),
        decreases events.len() - i,
    {
        let e = &events[i];
        assert(ev[i as int] == e@);
        if !parsec.genesis.contains(&e.creator) {
            assert(!s.genesis.contains(ev[i as int].creator));
            return false;
        }
        if e.creator == parsec.our_id && !contains_event(&parsec.known, e) {
            assert(ev[i as int].creator == s.our_id && !s.known.contains(ev[i as int]));
            return false;
        }
        if conflicts(&parsec.known, e) || conflicts(events, e) {
            proof {
                let ke = s.known + ev;
                if !no_conflict(s.known, e@) {
                    let t = choose|t: int|
                        0 <= t < s.known.len() && #[trigger] s.known[t].creator == e@.creator
                            && s.known[t].index == e@.index && s.known[t].payload != e@.payload;
                    assert(ke[t] == s.known[t]);
                    assert(ke[s.known.len() + i] == e@);
                    assert(ke.contains(s.known[t]) && ke.contains(e@));
                } else {
                    let t = choose|t: int|
                        0 <= t < ev.len() && #[trigger] ev[t].creator == e@.creator && ev[t].index
                            == e@.index && ev[t].payload != e@.payload;
                    assert(ke[s.known.len() + t] == ev[t]);
                    assert(ke[s.known.len() + i] == e@);
                    assert(ke.contains(ev[t]) && ke.contains(e@));
                }
            }
            return false;
        }
        i = i + 1;
    }
    proof {
        lemma_consistent_concat(s.known, ev);
    }
    true
}

/// Adds to `known` the events of `events` that it does not hold yet, in order.
fn merge_events(known: &mut Vec<Event>, events: &Vec<Event>)
    ensures
        events_view(final(known)@) == merged(events_view(old(known)@), events_view(events@)),
{
    let ghost k0 = events_view(known@);
    let ghost ev = events_view(events@);
    assert(ev.skip(0) =~= ev);
    let mut i: usize = 0;
    while i < events.len()
        invariant
            i <= events.len(),
            ev == events_view(events@),
            merged(k0, ev) == ev.skip(i as int).remove_duplicates(events_view(known@)),
        decreases events.len() - i,
    {
        let ghost t = ev.skip(i as int);
        let ghost kv = events_view(known@);
        assert(t[0] == events@[i as int]@);
        assert(t.skip(1) =~= ev.skip(i + 1));
        if !contains_event(known, &events[i]) {
            known.push(events[i].copy());
            assert(events_view(known@) =~= kv + seq![t[0]]);
        }
        i = i + 1;
    }
    assert(ev.skip(events.len() as int) =~= Seq::<EventView>::empty());
}

/// Learning keeps a node well formed.
pub proof fn lemma_learn_wf(s: ParsecView, src: u64, events: Seq<EventView>)
    requires
        parsec_wf(s),
    ensures
        parsec_wf(spec_learn(s, src, events).0),
{
    lemma_merged(s.known, events);
    let (s2, r) = spec_learn(s, src, events);
    if r is Ok {
        let m = s2.known;
        let ke = s.known + events;
        assert forall|x: EventView| #[trigger] m.contains(x) implies ke.contains(x) by {
            if s.known.contains(x) {
                let t = choose|t: int| 0 <= t < s.known.len() && s.known[t] == x;
                assert(ke[t] == x);
            } else {
                let t = choose|t: int| 0 <= t < events.len() && events[t] == x;
                assert(ke[s.known.len() + t] == x);
            }
        }
        assert forall|i: int| 0 <= i < m.len() implies s.genesis.contains(#[trigger] m[i].creator) by {
            assert(m.contains(m[i]));
            if s.known.contains(m[i]) {
                let k = choose|k: int| 0 <= k < s.known.len() && #[trigger] s.known[k] == m[i];
            } else {
                let k = choose|k: int| 0 <= k < events.len() && #[trigger] events[k] == m[i];
            }
        }
        assert(consistent(m)) by {
            assert forall|a: EventView, b: EventView|
                #[trigger] m.contains(a) && #[trigger] m.contains(b) && a.creator == b.creator
                    && a.index == b.index implies a.payload == b.payload by {
                assert(ke.contains(a));
                assert(ke.contains(b));
            }
        }
        assert forall|i: int|
            0 <= i < m.len() && #[trigger] m[i].creator == s.our_id implies m[i].index < s.next_index by {
            assert(m.contains(m[i]));
            if !s.known.contains(m[i]) {
                let k = choose|k: int| 0 <= k < events.len() && #[trigger] events[k] == m[i];
                assert(events[k].creator == s.our_id);
            }
            let k = choose|k: int| 0 <= k < s.known.len() && #[trigger] s.known[k] == m[i];
            assert(s.known[k].creator == s.our_id);
        }
        assert(known_within(s.known, m)) by {
            assert forall|x: EventView| #[trigger] s.known.contains(x) implies m.contains(x) by {}
        }
        lemma_stable_seq_grows(s.members, s.known, m);
    }
}

/// Learns the votes of a gossip message from `src`, as `spec_learn` says.
fn learn(parsec: &mut Parsec, src: u64, events: &Vec<Event>) -> (r: Result<(), Error>)
    ensures
        parsec_wf(final(parsec)@),
        (final(parsec)@, r) == spec_learn(old(parsec)@, src, events_view(events@)),
{
    proof {
        use_type_invariant(&*parsec);
    }
    if !parsec.genesis.contains(&src) {
        return Err(Error::UnknownPeer);
    }
    if !acceptable(parsec, events) {
        return Err(Error::InvalidEvent);
    }
    let ghost s0 = parsec@;
    proof {
        lemma_learn_wf(s0, src, events_view(events@));
    }
    let mut known = copy_events(&parsec.known);
    merge_events(&mut known, events);
    parsec.known = known;
    Ok(())
}

/// Handles a gossip request from `src`: learns its votes and answers with all
/// votes we then know. Fails, changing nothing, if `src` is not a member of
/// the genesis group or the votes cannot be learnt (a vote by a non-member, a
/// vote said to be ours that we did not cast, or two different votes of one
/// member with the same number).
pub fn parsec_handle_request(parsec: &mut Parsec, src: u64, req: &Request) -> (r: Result<
    Response,
    Error,
>)
    ensures
        parsec_wf(final(parsec)@),
        final(parsec)@ == spec_handle_request(old(parsec)@, src, events_view(req.events@)).0,
        match spec_handle_request(old(parsec)@, src, events_view(req.events@)).1 {
            Ok(events) => r matches Ok(resp) && events_view(resp.events@) == events,
            Err(e) => r == Err::<Response, Error>(e),
        },
{
    match learn(parsec, src, &req.events) {
        Ok(()) => Ok(Response { events: copy_events(&parsec.known) }),
        Err(e) => Err(e),
    }
}

/// Handles the response of `src` to our gossip: learns its votes. Fails,
/// changing nothing, if `src` is not a member of the genesis group or the
/// votes cannot be learnt.
pub fn parsec_handle_response(parsec: &mut Parsec, src: u64, resp: &Response) -> (r: Result<
    (),
    Error,
>)
    ensures
        parsec_wf(final(parsec)@),
        (final(parsec)@, r) == spec_learn(old(parsec)@, src, events_view(resp.events@)),
{
    learn(parsec, src, &resp.events)
}

/// The set of the peers that `known` holds a vote for `p` by.
fn voters_of(known: &Vec<Event>, p: &Vec<u8>) -> (r: BTreeSet<u64>)
    ensures
        r@ == voters(events_view(known@), p@),
{
    let ghost kv = events_view(known@);
    let mut r: BTreeSet<u64> = BTreeSet::new();
    let mut i: usize = 0;
    while i < known.len()
        invariant
            i <= known.len(),
            kv == events_view(known@),
            r@ == voters(kv.take(i as int), p@),
        decreases known.len() - i,
    {
        if bytes_eq(&known[i].payload, p) {
            r.insert(known[i].creator);
        }
        proof {
            let t0 = kv.take(i as int);
            let t1 = kv.take(i + 1);
            assert forall|x: u64| #[trigger] r@.contains(x) == voters(t1, p@).contains(x) by {
                if voters(t1, p@).contains(x) {
                    let u = choose|u: int| 0 <= u < t1.len() && #[trigger] t1[u].creator == x && t1[u].payload == p@;
                    if u < i {
                        assert(t0[u].creator == x);
                    }
                }
                if voters(t0, p@).contains(x) {
                    let u = choose|u: int| 0 <= u < t0.len() && #[trigger] t0[u].creator == x && t0[u].payload == p@;
                    assert(t1[u].creator == x);
                }
                if kv[i as int].creator == x && kv[i as int].payload == p@ {
                    assert(t1[i as int].creator == x);
                }
            }
            assert(r@ =~= voters(t1, p@));
        }
        i = i + 1;
    }
    assert(kv.take(known.len() as int) =~= kv);
    r
}

/// Steps the node: hands out the next stable block, if any. The stable
/// sequence is decided round by round from the complete rounds of votes (see
/// `crate::order`); the next block is the first payload of that sequence not
/// handed out yet, and its proofs are all peers known to have voted for it.
pub fn parsec_poll(parsec: &mut Parsec) -> (r: Option<Block>)
    ensures
        parsec_wf(final(parsec)@),
        poll_post(old(parsec)@, final(parsec)@, opt_block_view(r)),
{
    proof {
        use_type_invariant(&*parsec);
    }
    let ghost s0 = parsec@;
    let seq = compute_stable_seq(&parsec.members, &parsec.known);
    let n = parsec.stable.len();
    if n < seq.len() {
        let payload = copy_bytes(&seq[n]);
        let proofs = voters_of(&parsec.known, &payload);
        let mut stable = copy_payloads(&parsec.stable);
        let ghost before = stable@;
        stable.push(copy_bytes(&payload));
        proof {
            let sq = stable_seq(s0.members, s0.known);
            let st = s0.stable.push(payload@);
            assert(payload@ == sq[n as int]);
            assert(payloads_view(stable@) =~= payloads_view(before).push(payload@));
            assert(payloads_view(stable@) =~= st);
            assert(st.is_prefix_of(sq)) by {
                assert forall|t: int| 0 <= t < st.len() implies st[t] == sq[t] by {
                    if t < n {
                        assert(s0.stable[t] == sq[t]);
                    }
                }
            }
        }
        parsec.stable = stable;
        proof {
            use_type_invariant(&*parsec);
        }
        Some(Block::from_parts(payload, proofs))
    } else {
        None
    }
}

// ---------------------------------------------------------------------------
// Laws

/// Voting and then asking: once `parsec_vote_for(e)` has run, successfully or
/// not, we have voted for `e`; the vote succeeds exactly when we had not voted
/// for `e` before, and a second vote for `e` is refused with `DuplicateVote`
/// and changes nothing.
pub proof fn law_vote_then_voted(s: ParsecView, e: Seq<u8>)
    requires
        parsec_wf(s),
        s.next_index < u64::MAX,
    ensures
        has_voted(spec_vote_for(s, e).0, e),
        spec_vote_for(s, e).1 is Ok <==> !has_voted(s, e),
        spec_vote_for(spec_vote_for(s, e).0, e) == (spec_vote_for(s, e).0, Err::<(), Error>(
            Error::DuplicateVote,
        )),
{
    let s1 = spec_vote_for(s, e).0;
    if !has_voted(s, e) {
        assert(s1.known[s.known.len() as int] == our_vote(s, e));
        assert(s1.known[s.known.len() as int].creator == s1.our_id);
        assert(has_voted(s1, e));
    }
}

/// Learning never loses anything and never votes for us: whatever comes of
/// handling a gossip message, the votes known before stay known, in the same
/// order at the front; the handed-out blocks, our id, the group and our vote
/// numbering stay as they were; we have voted for exactly the events we had
/// voted for before; and the stable sequence only grows at its end. On
/// success, every vote of the message is known.
pub proof fn law_learning_keeps_knowledge(s: ParsecView, src: u64, events: Seq<EventView>)
    requires
        parsec_wf(s),
    ensures
        s.known.is_prefix_of(spec_learn(s, src, events).0.known),
        spec_learn(s, src, events).0.stable == s.stable,
        spec_learn(s, src, events).0.genesis == s.genesis,
        spec_learn(s, src, events).0.members == s.members,
        spec_learn(s, src, events).0.our_id == s.our_id,
        spec_learn(s, src, events).0.next_index == s.next_index,
        forall|e: Seq<u8>| #[trigger] has_voted(spec_learn(s, src, events).0, e) == has_voted(s, e),
        stable_seq(s.members, s.known).is_prefix_of(
            stable_seq(s.members, spec_learn(s, src, events).0.known),
        ),
        spec_learn(s, src, events).1 is Ok ==> forall|i: int|
            0 <= i < events.len() ==> spec_learn(s, src, events).0.known.contains(
                #[trigger] events[i],
            ),
{
    lemma_merged(s.known, events);
    lemma_learn_wf(s, src, events);
    let (s2, r) = spec_learn(s, src, events);
    assert forall|e: Seq<u8>| #[trigger] has_voted(s2, e) == has_voted(s, e) by {
        if has_voted(s, e) {
            let k = choose|k: int| 0 <= k < s.known.len() && #[trigger] s.known[k].creator == s.our_id && s.known[k].payload == e;
            assert(s2.known[k] == s.known[k]);
        }
        if has_voted(s2, e) && r is Ok {
            let k = choose|k: int| 0 <= k < s2.known.len() && #[trigger] s2.known[k].creator == s.our_id && s2.known[k].payload == e;
            assert(s2.known.contains(s2.known[k]));
            if !s.known.contains(s2.known[k]) {
                let t = choose|t: int| 0 <= t < events.len() && events[t] == s2.known[k];
                assert(events[t].creator == s.our_id);
            }
            let t = choose|t: int| 0 <= t < s.known.len() && s.known[t] == s2.known[k];
            assert(s.known[t].creator == s.our_id);
        }
    }
    if r is Ok {
        assert forall|i: int| 0 <= i < events.len() implies s2.known.contains(#[trigger] events[i]) by {
            assert(events.contains(events[i]));
        }
        let k2 = s2.known;
        assert(known_within(s.known, k2)) by {
            assert forall|x: EventView| #[trigger] s.known.contains(x) implies k2.contains(x) by {}
        }
        lemma_stable_seq_grows(s.members, s.known, k2);
    } else {
        assert(s.known.is_prefix_of(s.known));
    }
}

/// Casting a vote only adds blocks at the end of the node's stable sequence.
pub proof fn law_voting_extends_stable_seq(s: ParsecView, e: Seq<u8>)
    requires
        parsec_wf(s),
        s.next_index < u64::MAX,
    ensures
        parsec_wf(spec_vote_for(s, e).0),
        stable_seq(s.members, s.known).is_prefix_of(
            stable_seq(s.members, spec_vote_for(s, e).0.known),
        ),
{
    let s1 = spec_vote_for(s, e).0;
    if !has_voted(s, e) {
        let v = our_vote(s, e);
        let k2 = s.known.push(v);
        assert(!s.known.contains(v)) by {
            if s.known.contains(v) {
                let t = choose|t: int| 0 <= t < s.known.len() && #[trigger] s.known[t] == v;
                assert(s.known[t].creator == s.our_id);
            }
        }
        assert(consistent(k2)) by {
            assert forall|a: EventView, b: EventView|
                #[trigger] k2.contains(a) && #[trigger] k2.contains(b) && a.creator == b.creator
                    && a.index == b.index implies a.payload == b.payload by {
                let ia = choose|ia: int| 0 <= ia < k2.len() && k2[ia] == a;
                let ib = choose|ib: int| 0 <= ib < k2.len() && k2[ib] == b;
                if ia < s.known.len() && ib < s.known.len() {
                    assert(s.known.contains(a));
                    assert(s.known.contains(b));
                } else if ia < s.known.len() {
                    assert(s.known[ia].creator == s.our_id);
                } else if ib < s.known.len() {
                    assert(s.known[ib].creator == s.our_id);
                }
            }
        }
        assert(known_within(s.known, k2)) by {
            assert forall|x: EventView| #[trigger] s.known.contains(x) implies k2.contains(x) by {
                let t = choose|t: int| 0 <= t < s.known.len() && s.known[t] == x;
                assert(k2[t] == x);
            }
        }
        lemma_stable_seq_grows(s.members, s.known, k2);
        assert(k2.no_duplicates()) by {
            assert forall|a: int, b: int|
                0 <= a < k2.len() && 0 <= b < k2.len() && a != b implies k2[a] != k2[b] by {
                if a == s.known.len() {
                    assert(s.known.contains(k2[b]));
                } else if b == s.known.len() {
                    assert(s.known.contains(k2[a]));
                }
            }
        }
        assert(s1.known == k2);
    } else {
        assert(stable_seq(s.members, s.known).is_prefix_of(stable_seq(s.members, s.known)));
    }
}

/// Agreement: for any two members of one group whose votes together are
/// free of conflicts (no member has two different votes with the same
/// number), the blocks one has handed out are a prefix of those the other
/// has, or the other way round: no two nodes ever hand out different blocks
/// at the same height.
pub proof fn law_agreement(s: ParsecView, t: ParsecView)
    requires
        parsec_wf(s),
        parsec_wf(t),
        s.members == t.members,
        consistent(s.known + t.known),
    ensures
        s.stable.is_prefix_of(t.stable) || t.stable.is_prefix_of(s.stable),
{
    let g = s.members;
    let u = s.known + t.known;
    assert(known_within(s.known, u)) by {
        assert forall|x: EventView| #[trigger] s.known.contains(x) implies u.contains(x) by {
            let i = choose|i: int| 0 <= i < s.known.len() && s.known[i] == x;
            assert(u[i] == x);
        }
    }
    assert(known_within(t.known, u)) by {
        assert forall|x: EventView| #[trigger] t.known.contains(x) implies u.contains(x) by {
            let i = choose|i: int| 0 <= i < t.known.len() && t.known[i] == x;
            assert(u[s.known.len() + i] == x);
        }
    }
    lemma_stable_seq_grows(g, s.known, u);
    lemma_stable_seq_grows(g, t.known, u);
    let c = stable_seq(g, u);
    assert(s.stable.is_prefix_of(c)) by {
        assert forall|i: int| 0 <= i < s.stable.len() implies s.stable[i] == c[i] by {
            assert(s.stable[i] == stable_seq(g, s.known)[i]);
        }
    }
    assert(t.stable.is_prefix_of(c)) by {
        assert forall|i: int| 0 <= i < t.stable.len() implies t.stable[i] == c[i] by {
            assert(t.stable[i] == stable_seq(g, t.known)[i]);
        }
    }
    lemma_prefixes_comparable(s.stable, t.stable, c);
}

/// Two members of one group that know the same votes (in whatever order they
/// learnt them) have the same stable sequence, and a node for which polling
/// finds no block has handed out exactly its stable sequence: so two such
/// nodes that have polled until no block was left hold the same blocks.
pub proof fn law_same_votes_same_blocks(s: ParsecView, t: ParsecView, s1: ParsecView)
    requires
        parsec_wf(s),
        parsec_wf(t),
        s.members == t.members,
        forall|x: EventView| #[trigger] s.known.contains(x) <==> t.known.contains(x),
        poll_post(s, s1, None),
    ensures
        stable_seq(s.members, s.known) == stable_seq(t.members, t.known),
        s.stable == stable_seq(s.members, s.known),
{
    let g = s.members;
    assert(s.known.to_set() =~= t.known.to_set());
    s.known.unique_seq_to_set();
    t.known.unique_seq_to_set();
    assert(known_within(s.known, t.known));
    assert(known_within(t.known, s.known));
    lemma_stable_seq_grows(g, s.known, t.known);
    lemma_stable_seq_grows(g, t.known, s.known);
    let a = stable_seq(g, s.known);
    let b = stable_seq(g, t.known);
    assert(a =~= b);
    assert(s.stable =~= a);
}

/// Blocks are never handed out twice: the blocks a node has handed out hold
/// no payload twice.
pub proof fn law_poll_never_repeats(s: ParsecView)
    requires
        parsec_wf(s),
    ensures
        s.stable.no_duplicates(),
{
    let c = stable_seq(s.members, s.known);
    crate::order::lemma_stable_seq_no_dup(s.members, s.known);
    assert forall|a: int, b: int| 0 <= a < s.stable.len() && 0 <= b < s.stable.len() && a != b implies s.stable[a] != s.stable[b] by {
        assert(s.stable[a] == c[a]);
        assert(s.stable[b] == c[b]);
    }
}

/// A polled block is new and backed: its payload had not been handed out;
/// by some round, more than two thirds of the group had voted for it; its
/// proofs are group members that voted for it, more than two thirds of the
/// group; and so some peer voted for it.
pub proof fn law_polled_block_new_and_backed(s: ParsecView, s1: ParsecView, b: BlockView) -> (q0: int)
    requires
        parsec_wf(s),
        poll_post(s, s1, Some(b)),
    ensures
        !s.stable.contains(b.payload),
        s1.stable == s.stable.push(b.payload),
        exists|q: int| 0 <= q && #[trigger] settles(s.members, s.known, b.payload, q),
        0 <= q0,
        3 * Set::new(
            |m: u64|
                s.genesis.contains(m) && exists|i: int|
                    0 <= i < s.known.len() && #[trigger] s.known[i].creator == m
                        && s.known[i].index <= q0 && s.known[i].payload == b.payload,
        ).len() > 2 * s.genesis.len(),
        b.proofs.subset_of(s.genesis),
        forall|m: u64| #[trigger] b.proofs.contains(m) <==> exists|i: int|
            0 <= i < s.known.len() && s.known[i].creator == m && s.known[i].payload == b.payload,
        is_supermajority(b.proofs.len() as int, s.genesis.len() as int),
        3 * b.proofs.len() > 2 * s.genesis.len(),
        exists|i: int| 0 <= i < s.known.len() && #[trigger] s.known[i].payload == b.payload,
{
    assert(stable_seq(s.members, s.known)[s.stable.len() as int] == b.payload);
    let q0 = crate::order::law_stable_blocks_have_supermajority(s.members, s.known, b.payload);
    crate::id_set::lemma_id_set_len(s.members, s.genesis);
    assert(Set::new(
        |m: u64|
            s.members.contains(m) && exists|i: int|
                0 <= i < s.known.len() && #[trigger] s.known[i].creator == m && s.known[i].index <= q0
                    && s.known[i].payload == b.payload,
    ) =~= Set::new(
        |m: u64|
            s.genesis.contains(m) && exists|i: int|
                0 <= i < s.known.len() && #[trigger] s.known[i].creator == m && s.known[i].index <= q0
                    && s.known[i].payload == b.payload,
    ));
    let g = s.members;
    let k = s.known;
    let c = stable_seq(g, k);
    let n = s.stable.len();
    crate::order::lemma_stable_seq_no_dup(g, k);
    assert(c[n as int] == b.payload);
    assert(c.contains(b.payload));
    assert(!s.stable.contains(b.payload)) by {
        if s.stable.contains(b.payload) {
            let t = choose|t: int| 0 <= t < s.stable.len() && s.stable[t] == b.payload;
            assert(c[t] == b.payload);
        }
    }
    let q = choose|q: int| 0 <= q && settles(g, k, b.payload, q);
    let vu = voters_upto(g, k, b.payload, q);
    let ids = k.map_values(|e: EventView| e.creator);
    assert(b.proofs.subset_of(ids.to_set())) by {
        assert forall|m: u64| b.proofs.contains(m) implies ids.to_set().contains(m) by {
            let i = choose|i: int| 0 <= i < k.len() && #[trigger] k[i].creator == m && k[i].payload == b.payload;
            assert(ids[i] == m);
        }
    }
    broadcast use vstd::seq_lib::seq_to_set_is_finite;
    vstd::set_lib::lemma_len_subset(b.proofs, ids.to_set());
    assert(vu.subset_of(b.proofs)) by {
        assert forall|m: u64| vu.contains(m) implies b.proofs.contains(m) by {
            let i = choose|i: int| 0 <= i < k.len() && #[trigger] k[i].creator == m && k[i].index <= q && k[i].payload == b.payload;
        }
    }
    vstd::set_lib::lemma_len_subset(vu, b.proofs);
    crate::id_set::lemma_id_set_len(g, s.genesis);
    assert forall|m: u64| b.proofs.contains(m) implies s.genesis.contains(m) by {
        let i = choose|i: int| 0 <= i < k.len() && #[trigger] k[i].creator == m && k[i].payload == b.payload;
    }
    assert(b.proofs.len() > 0);
    assert(exists|m: u64| b.proofs.contains(m)) by {
        if forall|m: u64| !b.proofs.contains(m) {
            assert(b.proofs =~= Set::<u64>::empty());
        }
    }
    let m = choose|m: u64| b.proofs.contains(m);
    let i = choose|i: int| 0 <= i < k.len() && #[trigger] k[i].creator == m && k[i].payload == b.payload;
    assert(k[i].payload == b.payload);
    q0
}

/// Members that hold no forged votes of each other and no conflicting votes
/// between them.
pub open spec fn honest_pair(a: ParsecView, b: ParsecView) -> bool {
    &&& consistent(a.known + b.known)
    &&& forall|i: int|
        0 <= i < a.known.len() && #[trigger] a.known[i].creator == b.our_id ==> b.known.contains(
            a.known[i],
        )
    &&& forall|i: int|
        0 <= i < b.known.len() && #[trigger] b.known[i].creator == a.our_id ==> a.known.contains(
            b.known[i],
        )
}

/// One gossip exchange brings two members to the same knowledge: when `a`
/// sends its gossip to `b`, `b` handles the request and `a` handles the
/// response, all three steps succeed and afterwards both know exactly the
/// votes that either knew before.
pub proof fn law_gossip_exchange_converges(a: ParsecView, b: ParsecView)
    requires
        parsec_wf(a),
        parsec_wf(b),
        a.genesis == b.genesis,
        honest_pair(a, b),
    ensures
        spec_create_gossip(a, Some(b.our_id)) == Ok::<Seq<EventView>, Error>(a.known),
        spec_handle_request(b, a.our_id, a.known).1 is Ok,
        ({
            let b2 = spec_handle_request(b, a.our_id, a.known).0;
            let (a2, r) = spec_learn(a, b.our_id, b2.known);
            &&& r is Ok
            &&& forall|x: EventView| #[trigger]
                a2.known.contains(x) <==> (a.known.contains(x) || b.known.contains(x))
            &&& forall|x: EventView| #[trigger]
                b2.known.contains(x) <==> (a.known.contains(x) || b.known.contains(x))
        }),
{
    let ab = a.known + b.known;
    assert forall|x: EventView| #[trigger] ab.contains(x) <==> (a.known.contains(x) || b.known.contains(x)) by {
        if ab.contains(x) {
            let i = choose|i: int| 0 <= i < ab.len() && ab[i] == x;
            if i < a.known.len() {
                assert(a.known[i] == x);
            } else {
                assert(b.known[i - a.known.len()] == x);
            }
        }
        if a.known.contains(x) {
            let i = choose|i: int| 0 <= i < a.known.len() && a.known[i] == x;
            assert(ab[i] == x);
        }
        if b.known.contains(x) {
            let i = choose|i: int| 0 <= i < b.known.len() && b.known[i] == x;
            assert(ab[a.known.len() + i] == x);
        }
    }
    // b can learn a's votes
    let ba = b.known + a.known;
    assert(consistent(ba)) by {
        assert forall|x: EventView, y: EventView|
            #[trigger] ba.contains(x) && #[trigger] ba.contains(y) && x.creator == y.creator && x.index
                == y.index implies x.payload == y.payload by {
            lemma_in_concat(b.known, a.known, x);
            lemma_in_concat(b.known, a.known, y);
            assert(ab.contains(x) && ab.contains(y));
        }
    }
    assert(events_acceptable(b, a.known));
    lemma_merged(b.known, a.known);
    let b2 = spec_handle_request(b, a.our_id, a.known).0;
    // a can learn b2's votes
    let a_b2 = a.known + b2.known;
    assert forall|i: int| 0 <= i < b2.known.len() && #[trigger] b2.known[i].creator == a.our_id
        implies a.known.contains(b2.known[i]) by {
        assert(b2.known.contains(b2.known[i]));
        if b.known.contains(b2.known[i]) {
            let t = choose|t: int| 0 <= t < b.known.len() && b.known[t] == b2.known[i];
            assert(b.known[t].creator == a.our_id);
        }
    }
    assert forall|i: int| 0 <= i < b2.known.len() implies a.genesis.contains(#[trigger] b2.known[i].creator) by {
        assert(b2.known.contains(b2.known[i]));
        if b.known.contains(b2.known[i]) {
            let t = choose|t: int| 0 <= t < b.known.len() && b.known[t] == b2.known[i];
            assert(b.genesis.contains(b.known[t].creator));
        } else {
            let t = choose|t: int| 0 <= t < a.known.len() && a.known[t] == b2.known[i];
            assert(a.genesis.contains(a.known[t].creator));
        }
    }
    assert(consistent(a_b2)) by {
        assert forall|x: EventView, y: EventView|
            #[trigger] a_b2.contains(x) && #[trigger] a_b2.contains(y) && x.creator == y.creator && x.index
                == y.index implies x.payload == y.payload by {
            lemma_in_concat(a.known, b2.known, x);
            lemma_in_concat(a.known, b2.known, y);
            assert(ab.contains(x) && ab.contains(y));
        }
    }
    assert(events_acceptable(a, b2.known));
    lemma_merged(a.known, b2.known);
}

/// Membership in a concatenation.
proof fn lemma_in_concat<A>(a: Seq<A>, b: Seq<A>, x: A)
    ensures
        (a + b).contains(x) <==> (a.contains(x) || b.contains(x)),
{
    if (a + b).contains(x) {
        let i = choose|i: int| 0 <= i < (a + b).len() && (a + b)[i] == x;
        if i < a.len() {
            assert(a[i] == x);
        } else {
            assert(b[i - a.len()] == x);
        }
    }
    if a.contains(x) {
        let i = choose|i: int| 0 <= i < a.len() && a[i] == x;
        assert((a + b)[i] == x);
    }
    if b.contains(x) {
        let i = choose|i: int| 0 <= i < b.len() && b[i] == x;
        assert((a + b)[a.len() + i] == x);
    }
}

/// What voting does, stated over the votes themselves: we have voted for `e`
/// exactly when a known vote by us is for `e`; then a new vote is refused
/// with `DuplicateVote` and nothing changes; otherwise our vote for `e`,
/// numbered `next_index`, is appended to the known votes, the numbering moves
/// on by one, and nothing else changes.
pub proof fn law_vote_for_checks(s: ParsecView, e: Seq<u8>)
    requires
        parsec_wf(s),
        s.next_index < u64::MAX,
    ensures
        has_voted(s, e) <==> exists|i: int|
            0 <= i < s.known.len() && #[trigger] s.known[i].creator == s.our_id && s.known[i].payload
                == e,
        (exists|i: int|
            0 <= i < s.known.len() && #[trigger] s.known[i].creator == s.our_id && s.known[i].payload
                == e) ==> spec_vote_for(s, e) == (s, Err::<(), Error>(Error::DuplicateVote)),
        !(exists|i: int|
            0 <= i < s.known.len() && #[trigger] s.known[i].creator == s.our_id && s.known[i].payload
                == e) ==> {
            let (s1, r) = spec_vote_for(s, e);
            &&& r == Ok::<(), Error>(())
            &&& s1.known == s.known.push(
                EventView { payload: e, creator: s.our_id, index: s.next_index },
            )
            &&& s1.next_index == s.next_index + 1
            &&& s1.stable == s.stable
            &&& s1.our_id == s.our_id
            &&& s1.genesis == s.genesis
            &&& s1.members == s.members
        },
{
}

/// What creating gossip does: for a named peer outside the genesis group it
/// fails with `UnknownPeer`; otherwise it carries every vote we know, in the
/// order we know them.
pub proof fn law_create_gossip_checks(s: ParsecView, peer: Option<u64>)
    ensures
        (peer matches Some(p) && !s.genesis.contains(p)) ==> spec_create_gossip(s, peer) == Err::<
            Seq<EventView>,
            Error,
        >(Error::UnknownPeer),
        !(peer matches Some(p) && !s.genesis.contains(p)) ==> spec_create_gossip(s, peer) == Ok::<
            Seq<EventView>,
            Error,
        >(s.known),
{
}

/// What learning a gossip message from `src` does, stated over the votes
/// themselves. It fails, changing nothing, with `UnknownPeer` if `src` is not
/// a member, and otherwise with `InvalidEvent` exactly when a vote of the
/// message is by a non-member, or is said to be ours but is not one we know,
/// or two votes among those known and received have the same member and
/// number but different payloads. On success the known votes are those known
/// before, still in front and in the same order, and the received ones, each
/// once, and nothing else changes.
pub proof fn law_learn_checks(s: ParsecView, src: u64, events: Seq<EventView>)
    requires
        parsec_wf(s),
    ensures
        !s.genesis.contains(src) ==> spec_learn(s, src, events) == (s, Err::<(), Error>(
            Error::UnknownPeer,
        )),
        s.genesis.contains(src) ==> (spec_learn(s, src, events).1 is Ok <==> {
            &&& forall|i: int| 0 <= i < events.len() ==> s.genesis.contains(#[trigger] events[i].creator)
            &&& forall|i: int|
                0 <= i < events.len() && #[trigger] events[i].creator == s.our_id ==> s.known.contains(
                    events[i],
                )
            &&& forall|a: EventView, b: EventView|
                (#[trigger] s.known.contains(a) || events.contains(a)) && (#[trigger] s.known.contains(b)
                    || events.contains(b)) && a.creator == b.creator && a.index == b.index
                    ==> a.payload == b.payload
        }),
        s.genesis.contains(src) && !(spec_learn(s, src, events).1 is Ok) ==> spec_learn(
            s,
            src,
            events,
        ) == (s, Err::<(), Error>(Error::InvalidEvent)),
        spec_learn(s, src, events).1 is Ok ==> {
            let s2 = spec_learn(s, src, events).0;
            &&& s.known.is_prefix_of(s2.known)
            &&& forall|x: EventView| #[trigger] s2.known.contains(x) <==> (s.known.contains(x) || events.contains(x))
            &&& s2.known.no_duplicates()
            &&& s2.stable == s.stable
            &&& s2.our_id == s.our_id
            &&& s2.genesis == s.genesis
            &&& s2.members == s.members
            &&& s2.next_index == s.next_index
        },
        spec_handle_request(s, src, events).0 == spec_learn(s, src, events).0,
        spec_handle_request(s, src, events).1 is Ok <==> spec_learn(s, src, events).1 is Ok,
        spec_handle_request(s, src, events).1 matches Ok(resp) ==> resp == spec_learn(
            s,
            src,
            events,
        ).0.known,
        spec_handle_request(s, src, events).1 matches Err(e) ==> spec_learn(s, src, events).1 == Err::<
            (),
            Error,
        >(e),
{
    lemma_merged(s.known, events);
    if s.genesis.contains(src) {
        let ke = s.known + events;
        assert forall|x: EventView| #[trigger] ke.contains(x) <==> (s.known.contains(x) || events.contains(x)) by {
            lemma_in_concat(s.known, events, x);
        }
        let lit = forall|a: EventView, b: EventView|
            (#[trigger] s.known.contains(a) || events.contains(a)) && (#[trigger] s.known.contains(b)
                || events.contains(b)) && a.creator == b.creator && a.index == b.index
                ==> a.payload == b.payload;
        if consistent(ke) {
            assert(lit) by {
                assert forall|a: EventView, b: EventView|
                    (#[trigger] s.known.contains(a) || events.contains(a)) && (#[trigger] s.known.contains(b)
                        || events.contains(b)) && a.creator == b.creator && a.index == b.index
                    implies a.payload == b.payload by {
                    assert(ke.contains(a));
                    assert(ke.contains(b));
                }
            }
        }
        if lit {
            assert(consistent(ke)) by {
                assert forall|a: EventView, b: EventView|
                    #[trigger] ke.contains(a) && #[trigger] ke.contains(b) && a.creator == b.creator
                        && a.index == b.index implies a.payload == b.payload by {
                    assert(s.known.contains(a) || events.contains(a));
                    assert(s.known.contains(b) || events.contains(b));
                }
            }
        }
    }
}

/// What polling does, stated over the node: it finds a block exactly when
/// the stable sequence goes beyond the blocks handed out; the block is the
/// next payload of that sequence, its proofs are exactly the members with a
/// known vote for it, and it is appended to the blocks handed out; the known
/// votes never change, and where no block is found nothing changes.
pub proof fn law_poll_checks(s: ParsecView, s1: ParsecView, r: Option<BlockView>)
    requires
        parsec_wf(s),
        poll_post(s, s1, r),
    ensures
        r is Some <==> s.stable.len() < stable_seq(s.members, s.known).len(),
        r is None ==> s1 == s && s.stable == stable_seq(s.members, s.known),
        r matches Some(b) ==> {
            &&& b.payload == stable_seq(s.members, s.known)[s.stable.len() as int]
            &&& s1.stable == s.stable.push(b.payload)
            &&& forall|m: u64| #[trigger] b.proofs.contains(m) <==> exists|i: int|
                0 <= i < s.known.len() && s.known[i].creator == m && s.known[i].payload == b.payload
        },
        s1.known == s.known,
        s1.next_index == s.next_index,
        s1.our_id == s.our_id,
        s1.genesis == s.genesis,
        s1.members == s.members,
{
    if r is None {
        let c = stable_seq(s.members, s.known);
        assert(s.stable =~= c);
    }
}

/// A node hands out every payload that is backed in time: if the rounds up to
/// `q` are complete at the node and, by round `q`, more than two thirds of
/// the genesis group have a known vote for `p`, then once polling finds no
/// more blocks, `p` has been handed out.
pub proof fn law_poll_hands_out_backed_payloads(
    s: ParsecView,
    s1: ParsecView,
    p: Seq<u8>,
    q: int,
)
    requires
        parsec_wf(s),
        poll_post(s, s1, None),
        0 <= q,
        forall|t: int| 0 <= t <= q ==> #[trigger] crate::order::round_complete(s.members, s.known, t),
        3 * Set::new(
            |m: u64|
                s.genesis.contains(m) && exists|i: int|
                    0 <= i < s.known.len() && #[trigger] s.known[i].creator == m
                        && s.known[i].index <= q && s.known[i].payload == p,
        ).len() > 2 * s.genesis.len(),
    ensures
        s.stable.contains(p),
{
    law_poll_checks(s, s1, None);
    crate::id_set::lemma_id_set_len(s.members, s.genesis);
    assert(s.members.contains(s.our_id));
    assert(Set::new(
        |m: u64|
            s.genesis.contains(m) && exists|i: int|
                0 <= i < s.known.len() && #[trigger] s.known[i].creator == m && s.known[i].index <= q
                    && s.known[i].payload == p,
    ) =~= Set::new(
        |m: u64|
            s.members.contains(m) && exists|i: int|
                0 <= i < s.known.len() && #[trigger] s.known[i].creator == m && s.known[i].index <= q
                    && s.known[i].payload == p,
    ));
    crate::order::law_stable_seq_complete(s.members, s.known, p, q);
}

} // verus!
