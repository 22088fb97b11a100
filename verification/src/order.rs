//! The order in which network events become stable blocks.
//!
//! Every member numbers its own votes 0, 1, 2, ... Round `r` is complete at a
//! node once the node knows the `r`-th vote of every member of the genesis
//! group. The stable sequence is a function of the complete rounds alone:
//! round by round, and within a round member by member in increasing id
//! order, the payload of that member's vote of the round becomes the next
//! block if more than two thirds of the group have voted for it in this round
//! or an earlier one, and it is not a block yet. Knowing more votes can only
//! complete more rounds, never change a complete one, so the stable sequence
//! of a node only grows at its end, and those of any two nodes are prefixes
//! of one another.

use vstd::prelude::*;
use crate::bytes::{bytes_eq, copy_bytes};
use crate::id_set::{is_id_set, lemma_id_set_len, sorted_strict};

verus! {

/// A gossip event: the `index`-th vote (counting from 0) of the member
/// `creator`, for the network event `payload`.
pub struct Event {
    pub payload: Vec<u8>,
    pub creator: u64,
    pub index: u64,
}

/// What an event holds, as plain values.
pub struct EventView {
    pub payload: Seq<u8>,
    pub creator: u64,
    pub index: u64,
}

impl View for Event {
    type V = EventView;

    open spec fn view(&self) -> EventView {
        EventView { payload: self.payload@, creator: self.creator, index: self.index }
    }
}

impl Event {
    /// The `index`-th vote of `creator`, for `payload`.
    pub fn new(payload: Vec<u8>, creator: u64, index: u64) -> (e: Event)
        ensures
            e@ == (EventView { payload: payload@, creator, index }),
    {
        Event { payload, creator, index }
    }

    /// A copy of this event.
    pub fn copy(&self) -> (e: Event)
        ensures
            e@ == self@,
    {
        Event { payload: copy_bytes(&self.payload), creator: self.creator, index: self.index }
    }

    /// Whether this event and `other` are the same event.
    pub fn same_as(&self, other: &Event) -> (r: bool)
        ensures
            r == (self@ == other@),
    {
        self.creator == other.creator && self.index == other.index && bytes_eq(
            &self.payload,
            &other.payload,
        )
    }
}

/// The plain values of a list of events.
pub open spec fn events_view(s: Seq<Event>) -> Seq<EventView> {
    s.map_values(|e: Event| e@)
}

/// No member has two different votes with the same number.
pub open spec fn consistent(k: Seq<EventView>) -> bool {
    forall|a: EventView, b: EventView|
        #[trigger] k.contains(a) && #[trigger] k.contains(b) && a.creator == b.creator && a.index
            == b.index ==> a.payload == b.payload
}

/// Whether `k` holds the `r`-th vote of `m`.
pub open spec fn has_vote_at(k: Seq<EventView>, m: u64, r: int) -> bool {
    exists|i: int| 0 <= i < k.len() && #[trigger] k[i].creator == m && k[i].index == r
}

/// Whether `k` holds the `r`-th vote of every member of `g`.
pub open spec fn round_complete(g: Seq<u64>, k: Seq<EventView>, r: int) -> bool {
    forall|j: int| 0 <= j < g.len() ==> #[trigger] has_vote_at(k, g[j], r)
}

/// The payload of the `r`-th vote of `m` (meaningful where `k` holds it).
pub open spec fn slot_payload(k: Seq<EventView>, m: u64, r: int) -> Seq<u8> {
    k[choose|i: int| 0 <= i < k.len() && #[trigger] k[i].creator == m && k[i].index == r].payload
}

/// The members of `g` known to have voted for `p` in round `r` or earlier.
pub open spec fn voters_upto(g: Seq<u64>, k: Seq<EventView>, p: Seq<u8>, r: int) -> Set<u64> {
    Set::new(
        |m: u64|
            g.contains(m) && exists|i: int|
                0 <= i < k.len() && #[trigger] k[i].creator == m && k[i].index <= r && k[i].payload
                    == p,
    )
}

/// More than two thirds of `n_peers`.
pub open spec fn is_supermajority(n_votes: int, n_peers: int) -> bool {
    3 * n_votes > 2 * n_peers
}

/// `p` has the votes of more than two thirds of `g` by round `r`.
pub open spec fn settles(g: Seq<u64>, k: Seq<EventView>, p: Seq<u8>, r: int) -> bool {
    is_supermajority(voters_upto(g, k, p, r).len() as int, g.len() as int)
}

/// The blocks decided by the rounds before `r` and the first `j` members'
/// votes of round `r`.
pub open spec fn blocks_to(g: Seq<u64>, k: Seq<EventView>, r: nat, j: nat) -> Seq<Seq<u8>>
    decreases r, j,
{
    if j == 0 {
        if r == 0 {
            Seq::empty()
        } else {
            blocks_to(g, k, (r - 1) as nat, g.len())
        }
    } else {
        let prev = blocks_to(g, k, r, (j - 1) as nat);
        if j > g.len() {
            prev
        } else {
            let p = slot_payload(k, g[j - 1], r as int);
            if settles(g, k, p, r as int) && !prev.contains(p) {
                prev.push(p)
            } else {
                prev
            }
        }
    }
}

/// The first round from `r` on that is not complete (a round needs votes, so
/// none from `k.len()` on is looked at).
pub open spec fn settled_from(g: Seq<u64>, k: Seq<EventView>, r: nat) -> nat
    decreases k.len() - r,
{
    if r >= k.len() || !round_complete(g, k, r as int) {
        r
    } else {
        settled_from(g, k, r + 1)
    }
}

/// The number of leading complete rounds.
pub open spec fn settled_rounds(g: Seq<u64>, k: Seq<EventView>) -> nat {
    settled_from(g, k, 0)
}

/// The stable sequence: the blocks decided by the complete rounds.
pub open spec fn stable_seq(g: Seq<u64>, k: Seq<EventView>) -> Seq<Seq<u8>> {
    blocks_to(g, k, settled_rounds(g, k), 0)
}

/// Every vote of `k` is a vote of `k2`.
pub open spec fn known_within(k: Seq<EventView>, k2: Seq<EventView>) -> bool {
    forall|x: EventView| #[trigger] k.contains(x) ==> k2.contains(x)
}

// ---------------------------------------------------------------------------
// Lemmas

/// The rounds before the first incomplete one are complete.
pub proof fn lemma_settled_complete(g: Seq<u64>, k: Seq<EventView>, r: nat)
    ensures
        r <= settled_from(g, k, r),
        forall|q: int| r <= q < settled_from(g, k, r) ==> round_complete(g, k, q),
    decreases k.len() - r,
{
    if r >= k.len() || !round_complete(g, k, r as int) {
    } else {
        lemma_settled_complete(g, k, r + 1);
    }
}

/// A round complete with fewer votes known stays complete with more.
pub proof fn lemma_complete_mono(g: Seq<u64>, k: Seq<EventView>, k2: Seq<EventView>, r: int)
    requires
        known_within(k, k2),
        round_complete(g, k, r),
    ensures
        round_complete(g, k2, r),
{
    assert forall|j: int| 0 <= j < g.len() implies #[trigger] has_vote_at(k2, g[j], r) by {
        assert(has_vote_at(k, g[j], r));
        let i = choose|i: int| 0 <= i < k.len() && #[trigger] k[i].creator == g[j] && k[i].index == r;
        assert(k.contains(k[i]));
        assert(k2.contains(k[i]));
        let i2 = choose|i2: int| 0 <= i2 < k2.len() && #[trigger] k2[i2] == k[i];
        assert(k2[i2].creator == g[j]);
    }
}

/// Knowing more votes never lowers the number of complete rounds.
pub proof fn lemma_settled_mono(g: Seq<u64>, k: Seq<EventView>, k2: Seq<EventView>, r: nat)
    requires
        known_within(k, k2),
        k.len() <= k2.len(),
    ensures
        settled_from(g, k, r) <= settled_from(g, k2, r),
    decreases k.len() - r,
{
    lemma_settled_complete(g, k2, r);
    if r >= k.len() || !round_complete(g, k, r as int) {
    } else {
        lemma_complete_mono(g, k, k2, r as int);
        lemma_settled_mono(g, k, k2, r + 1);
    }
}

/// Once rounds up to `r` are complete, learning more votes (without
/// conflicts) changes neither who has voted for a payload by round `r` nor
/// the payloads of round `r`.
pub proof fn lemma_frozen(g: Seq<u64>, k: Seq<EventView>, k2: Seq<EventView>, r: int)
    requires
        known_within(k, k2),
        consistent(k2),
        forall|q: int| 0 <= q <= r ==> round_complete(g, k, q),
        r >= 0,
    ensures
        forall|p: Seq<u8>| #[trigger] voters_upto(g, k, p, r) == voters_upto(g, k2, p, r),
        forall|j: int|
            0 <= j < g.len() ==> #[trigger] slot_payload(k, g[j], r) == slot_payload(k2, g[j], r),
{
    assert forall|p: Seq<u8>| #[trigger] voters_upto(g, k, p, r) == voters_upto(g, k2, p, r) by {
        assert forall|m: u64| voters_upto(g, k, p, r).contains(m) == voters_upto(g, k2, p, r).contains(m) by {
            if voters_upto(g, k, p, r).contains(m) {
                let i = choose|i: int|
                    0 <= i < k.len() && #[trigger] k[i].creator == m && k[i].index <= r && k[i].payload == p;
                assert(k.contains(k[i]));
                let i2 = choose|i2: int| 0 <= i2 < k2.len() && #[trigger] k2[i2] == k[i];
                assert(k2[i2].creator == m);
            }
            if voters_upto(g, k2, p, r).contains(m) {
                let i2 = choose|i2: int|
                    0 <= i2 < k2.len() && #[trigger] k2[i2].creator == m && k2[i2].index <= r && k2[i2].payload == p;
                let q = k2[i2].index as int;
                let j = choose|j: int| 0 <= j < g.len() && g[j] == m;
                assert(round_complete(g, k, q));
                assert(has_vote_at(k, g[j], q));
                let i = choose|i: int| 0 <= i < k.len() && #[trigger] k[i].creator == g[j] && k[i].index == q;
                assert(k.contains(k[i]));
                assert(k2.contains(k[i]));
                assert(k2.contains(k2[i2]));
                assert(k[i].payload == p);
                assert(k[i].creator == m);
            }
        }
        assert(voters_upto(g, k, p, r) =~= voters_upto(g, k2, p, r));
    }
    assert forall|j: int| 0 <= j < g.len() implies #[trigger] slot_payload(k, g[j], r) == slot_payload(k2, g[j], r) by {
        assert(round_complete(g, k, r));
        assert(has_vote_at(k, g[j], r));
        let i = choose|i: int| 0 <= i < k.len() && #[trigger] k[i].creator == g[j] && k[i].index == r;
        assert(k.contains(k[i]));
        assert(k2.contains(k[i]));
        let i2 = choose|i2: int| 0 <= i2 < k2.len() && #[trigger] k2[i2] == k[i];
        assert(k2[i2].creator == g[j] && k2[i2].index == r);
        let c = choose|c: int| 0 <= c < k.len() && #[trigger] k[c].creator == g[j] && k[c].index == r;
        let c2 = choose|c2: int| 0 <= c2 < k2.len() && #[trigger] k2[c2].creator == g[j] && k2[c2].index == r;
        assert(k.contains(k[c]));
        assert(k2.contains(k[c]));
        assert(k2.contains(k2[c2]));
    }
}

/// The blocks decided by complete rounds do not change when more votes are
/// learnt without conflicts.
pub proof fn lemma_blocks_frozen(g: Seq<u64>, k: Seq<EventView>, k2: Seq<EventView>, r: nat, j: nat)
    requires
        known_within(k, k2),
        consistent(k2),
        j <= g.len(),
        forall|q: int| 0 <= q < r ==> round_complete(g, k, q),
        j > 0 ==> round_complete(g, k, r as int),
    ensures
        blocks_to(g, k, r, j) == blocks_to(g, k2, r, j),
    decreases r, j,
{
    if j == 0 {
        if r > 0 {
            lemma_blocks_frozen(g, k, k2, (r - 1) as nat, g.len());
        }
    } else {
        lemma_blocks_frozen(g, k, k2, r, (j - 1) as nat);
        lemma_frozen(g, k, k2, r as int);
        let p = slot_payload(k, g[j - 1], r as int);
        assert(slot_payload(k, g[j - 1], r as int) == slot_payload(k2, g[j - 1], r as int));
        assert(voters_upto(g, k, p, r as int) == voters_upto(g, k2, p, r as int));
    }
}

/// Deciding more slots only adds blocks at the end.
pub proof fn lemma_blocks_step(g: Seq<u64>, k: Seq<EventView>, r: nat, j: nat)
    ensures
        blocks_to(g, k, r, 0).is_prefix_of(blocks_to(g, k, r, j)),
    decreases j,
{
    if j > 0 {
        lemma_blocks_step(g, k, r, (j - 1) as nat);
        let prev = blocks_to(g, k, r, (j - 1) as nat);
        assert(prev.is_prefix_of(blocks_to(g, k, r, j)));
    }
}

/// Deciding more rounds only adds blocks at the end.
pub proof fn lemma_blocks_prefix(g: Seq<u64>, k: Seq<EventView>, r: nat, r2: nat)
    requires
        r <= r2,
    ensures
        blocks_to(g, k, r, 0).is_prefix_of(blocks_to(g, k, r2, 0)),
    decreases r2,
{
    if r < r2 {
        lemma_blocks_prefix(g, k, r, (r2 - 1) as nat);
        lemma_blocks_step(g, k, (r2 - 1) as nat, g.len());
    }
}

/// Learning more votes without conflicts only adds blocks at the end of the
/// stable sequence.
pub proof fn lemma_stable_seq_grows(g: Seq<u64>, k: Seq<EventView>, k2: Seq<EventView>)
    requires
        known_within(k, k2),
        k.len() <= k2.len(),
        consistent(k2),
    ensures
        stable_seq(g, k).is_prefix_of(stable_seq(g, k2)),
{
    let r = settled_rounds(g, k);
    let r2 = settled_rounds(g, k2);
    lemma_settled_complete(g, k, 0);
    lemma_settled_mono(g, k, k2, 0);
    lemma_blocks_frozen(g, k, k2, r, 0);
    lemma_blocks_prefix(g, k2, r, r2);
}

/// Two prefixes of one sequence are prefixes of one another.
pub proof fn lemma_prefixes_comparable<A>(a: Seq<A>, b: Seq<A>, c: Seq<A>)
    requires
        a.is_prefix_of(c),
        b.is_prefix_of(c),
    ensures
        a.is_prefix_of(b) || b.is_prefix_of(a),
{
    if a.len() <= b.len() {
        assert(a.is_prefix_of(b)) by {
            assert forall|i: int| 0 <= i < a.len() implies a[i] == b[i] by {
                assert(a[i] == c[i]);
                assert(b[i] == c[i]);
            }
        }
    } else {
        assert(b.is_prefix_of(a)) by {
            assert forall|i: int| 0 <= i < b.len() implies b[i] == a[i] by {
                assert(a[i] == c[i]);
                assert(b[i] == c[i]);
            }
        }
    }
}

// ---------------------------------------------------------------------------
// Computing the stable sequence

/// The plain values of a list of byte strings.
pub open spec fn payloads_view(s: Seq<Vec<u8>>) -> Seq<Seq<u8>> {
    s.map_values(|q: Vec<u8>| q@)
}

/// Whether `p` is in `list`.
pub fn contains_bytes(list: &Vec<Vec<u8>>, p: &Vec<u8>) -> (r: bool)
    ensures
        r == payloads_view(list@).contains(p@),
{
    let ghost sv = payloads_view(list@);
    let mut i: usize = 0;
    while i < list.len()
        invariant
            i <= list.len(),
            sv == payloads_view(list@),
            forall|t: int| 0 <= t < i ==> sv[t] != p@,
        decreases list.len() - i,
    {
        if bytes_eq(&list[i], p) {
            assert(sv[i as int] == p@);
            return true;
        }
        i = i + 1;
    }
    assert(!sv.contains(p@)) by {
        if sv.contains(p@) {
            let t = choose|t: int| 0 <= t < sv.len() && #[trigger] sv[t] == p@;
        }
    }
    false
}

/// Where `known` holds the `r`-th vote of `m`, its position.
fn find_vote(known: &Vec<Event>, m: u64, r: u64) -> (res: Option<usize>)
    ensures
        match res {
            Some(i) => i < known.len() && known@[i as int].creator == m && known@[i as int].index == r,
            None => !has_vote_at(events_view(known@), m, r as int),
        },
{
    let mut i: usize = 0;
    while i < known.len()
        invariant
            i <= known.len(),
            forall|t: int| 0 <= t < i ==> !(known@[t].creator == m && known@[t].index == r),
        decreases known.len() - i,
    {
        if known[i].creator == m && known[i].index == r {
            return Some(i);
        }
        i = i + 1;
    }
    assert(!has_vote_at(events_view(known@), m, r as int)) by {
        if has_vote_at(events_view(known@), m, r as int) {
            let k = events_view(known@);
            let t = choose|t: int| 0 <= t < k.len() && #[trigger] k[t].creator == m && k[t].index == r;
            assert(known@[t].creator == m);
        }
    }
    None
}

/// Whether round `r` is complete.
fn is_round_complete(members: &Vec<u64>, known: &Vec<Event>, r: u64) -> (b: bool)
    ensures
        b == round_complete(members@, events_view(known@), r as int),
{
    let mut j: usize = 0;
    while j < members.len()
        invariant
            j <= members.len(),
            forall|t: int| 0 <= t < j ==> #[trigger] has_vote_at(events_view(known@), members@[t], r as int),
        decreases members.len() - j,
    {
        match find_vote(known, members[j], r) {
            None => {
                return false;
            },
            Some(i) => {
                assert(events_view(known@)[i as int].creator == members@[j as int]);
                assert(has_vote_at(events_view(known@), members@[j as int], r as int));
            },
        }
        j = j + 1;
    }
    true
}

/// Whether `known` holds a vote of `m` for `p` numbered `r` or lower.
fn voted_by_round(known: &Vec<Event>, m: u64, p: &Vec<u8>, r: u64) -> (b: bool)
    ensures
        b == exists|i: int|
            0 <= i < known.len() && #[trigger] events_view(known@)[i].creator == m
                && events_view(known@)[i].index <= r && events_view(known@)[i].payload == p@,
{
    let ghost k = events_view(known@);
    let mut i: usize = 0;
    while i < known.len()
        invariant
            i <= known.len(),
            k == events_view(known@),
            forall|t: int| 0 <= t < i ==> !(k[t].creator == m && k[t].index <= r && k[t].payload == p@),
        decreases known.len() - i,
    {
        if known[i].creator == m && known[i].index <= r && bytes_eq(&known[i].payload, p) {
            assert(k[i as int].creator == m);
            return true;
        }
        i = i + 1;
    }
    false
}

/// The members that voted for `p` in round `r` or earlier, in increasing order.
fn voters_by_round(members: &Vec<u64>, known: &Vec<Event>, p: &Vec<u8>, r: u64) -> (v: Vec<u64>)
    requires
        sorted_strict(members@),
    ensures
        is_id_set(v@, voters_upto(members@, events_view(known@), p@, r as int)),
{
    let ghost g = members@;
    let ghost k = events_view(known@);
    let mut v: Vec<u64> = Vec::new();
    let mut j: usize = 0;
    while j < members.len()
        invariant
            j <= members.len(),
            g == members@,
            k == events_view(known@),
            sorted_strict(g),
            sorted_strict(v@),
            forall|t: int| 0 <= t < v@.len() ==> g.take(j as int).contains(#[trigger] v@[t]),
            forall|x: u64| #[trigger] v@.contains(x) <==> (g.take(j as int).contains(x)
                && voters_upto(g, k, p@, r as int).contains(x)),
        decreases members.len() - j,
    {
        let m = members[j];
        let ghost before = v@;
        let voted = voted_by_round(known, m, p, r);
        assert(voters_upto(g, k, p@, r as int).contains(m) == voted) by {
            assert(g.contains(m)) by {
                assert(g[j as int] == m);
            }
        }
        if voted {
            v.push(m);
            assert forall|a: int, b: int| 0 <= a < b < v@.len() implies v@[a] < v@[b] by {
                if b == before.len() {
                    assert(g.take(j as int).contains(v@[a]));
                    let t = choose|t: int| 0 <= t < j && #[trigger] g.take(j as int)[t] == v@[a];
                    assert(g[t] == v@[a]);
                }
            }
        }
        assert forall|t: int| 0 <= t < v@.len() implies g.take(j + 1).contains(#[trigger] v@[t]) by {
            if t < before.len() {
                let u = choose|u: int| 0 <= u < j && #[trigger] g.take(j as int)[u] == v@[t];
                assert(g.take(j + 1)[u] == v@[t]);
            } else {
                assert(g.take(j + 1)[j as int] == m);
            }
        }
        assert forall|x: u64| #[trigger] v@.contains(x) <==> (g.take(j + 1).contains(x)
            && voters_upto(g, k, p@, r as int).contains(x)) by {
            if g.take(j + 1).contains(x) {
                let u = choose|u: int| 0 <= u < j + 1 && #[trigger] g.take(j + 1)[u] == x;
                if u < j {
                    assert(g.take(j as int)[u] == x);
                }
            }
            if g.take(j as int).contains(x) {
                let u = choose|u: int| 0 <= u < j && #[trigger] g.take(j as int)[u] == x;
                assert(g.take(j + 1)[u] == x);
            }
            if v@.contains(x) && !before.contains(x) {
                assert(v@[before.len() as int] == m);
                let u = choose|u: int| 0 <= u < v@.len() && #[trigger] v@[u] == x;
                if u < before.len() {
                    assert(before[u] == x);
                }
                assert(g.take(j + 1)[j as int] == m);
            }
            if before.contains(x) {
                let u = choose|u: int| 0 <= u < before.len() && #[trigger] before[u] == x;
                assert(v@[u] == x);
            }
            if x == m && voted {
                assert(v@[before.len() as int] == m);
            }
            if g.take(j + 1).contains(x) && voters_upto(g, k, p@, r as int).contains(x) && x != m {
                let u = choose|u: int| 0 <= u < j + 1 && #[trigger] g.take(j + 1)[u] == x;
                assert(u != j);
                assert(g.take(j as int)[u] == x);
            }
        }
        j = j + 1;
    }
    assert(g.take(members.len() as int) =~= g);
    assert forall|x: u64| #[trigger] v@.contains(x) <==> voters_upto(g, k, p@, r as int).contains(x) by {}
    v
}

/// The stable sequence of a node with group `members` that knows `known`.
pub fn compute_stable_seq(members: &Vec<u64>, known: &Vec<Event>) -> (s: Vec<Vec<u8>>)
    requires
        sorted_strict(members@),
        consistent(events_view(known@)),
    ensures
        payloads_view(s@) == stable_seq(members@, events_view(known@)),
{
    let ghost g = members@;
    let ghost k = events_view(known@);
    let mut r: usize = 0;
    while r < known.len() && is_round_complete(members, known, r as u64)
        invariant
            r <= known.len(),
            g == members@,
            k == events_view(known@),
            settled_from(g, k, 0) == settled_from(g, k, r as nat),
        decreases known.len() - r,
    {
        r = r + 1;
    }
    proof {
        lemma_settled_complete(g, k, 0);
    }
    let mut seq: Vec<Vec<u8>> = Vec::new();
    let mut q: usize = 0;
    while q < r
        invariant
            q <= r,
            r == settled_rounds(g, k),
            g == members@,
            k == events_view(known@),
            sorted_strict(g),
            consistent(k),
            forall|t: int| 0 <= t < settled_rounds(g, k) ==> round_complete(g, k, t),
            payloads_view(seq@) == blocks_to(g, k, q as nat, 0),
        decreases r - q,
    {
        let mut j: usize = 0;
        assert(round_complete(g, k, q as int));
        while j < members.len()
            invariant
                j <= members.len(),
                q < r,
                g == members@,
                k == events_view(known@),
                sorted_strict(g),
                consistent(k),
                round_complete(g, k, q as int),
                payloads_view(seq@) == blocks_to(g, k, q as nat, j as nat),
            decreases members.len() - j,
        {
            let ghost prev = payloads_view(seq@);
            assert(has_vote_at(k, g[j as int], q as int));
            match find_vote(known, members[j], q as u64) {
                None => {
                    assert(false);
                },
                Some(i) => {
                    proof {
                        let c = choose|c: int|
                            0 <= c < k.len() && #[trigger] k[c].creator == g[j as int] && k[c].index == q;
                        assert(k.contains(k[c]));
                        assert(k.contains(k[i as int]));
                    }
                    assert(k[i as int].payload == slot_payload(k, g[j as int], q as int));
                    let payload = copy_bytes(&known[i].payload);
                    let vs = voters_by_round(members, known, &payload, q as u64);
                    proof {
                        lemma_id_set_len(vs@, voters_upto(g, k, payload@, q as int));
                    }
                    let enough = (vs.len() as u128) * 3 > (members.len() as u128) * 2;
                    if enough && !contains_bytes(&seq, &payload) {
                        let ghost before = seq@;
                        seq.push(payload);
                        assert(payloads_view(seq@) =~= payloads_view(before).push(payload@));
                    }
                },
            }
            j = j + 1;
        }
        q = q + 1;
    }
    seq
}

/// No payload is decided twice.
pub proof fn lemma_blocks_no_dup(g: Seq<u64>, k: Seq<EventView>, r: nat, j: nat)
    ensures
        blocks_to(g, k, r, j).no_duplicates(),
    decreases r, j,
{
    if j == 0 {
        if r > 0 {
            lemma_blocks_no_dup(g, k, (r - 1) as nat, g.len());
        }
    } else {
        lemma_blocks_no_dup(g, k, r, (j - 1) as nat);
        let prev = blocks_to(g, k, r, (j - 1) as nat);
        if j <= g.len() {
            let p = slot_payload(k, g[j - 1], r as int);
            if settles(g, k, p, r as int) && !prev.contains(p) {
                let b = prev.push(p);
                assert forall|a: int, c: int| 0 <= a < b.len() && 0 <= c < b.len() && a != c implies b[a] != b[c] by {
                    if a == prev.len() {
                        assert(prev.contains(b[c]));
                    } else if c == prev.len() {
                        assert(prev.contains(b[a]));
                    }
                }
            }
        }
    }
}

/// Every decided payload has, by some round, the votes of more than two
/// thirds of the group.
pub proof fn lemma_blocks_settle(g: Seq<u64>, k: Seq<EventView>, r: nat, j: nat)
    ensures
        forall|x: Seq<u8>| #[trigger] blocks_to(g, k, r, j).contains(x) ==> exists|q: int|
            0 <= q <= r && settles(g, k, x, q),
    decreases r, j,
{
    if j == 0 {
        if r > 0 {
            lemma_blocks_settle(g, k, (r - 1) as nat, g.len());
            assert forall|x: Seq<u8>| #[trigger] blocks_to(g, k, r, j).contains(x) implies exists|q: int|
                0 <= q <= r && settles(g, k, x, q) by {
                assert(blocks_to(g, k, (r - 1) as nat, g.len()).contains(x));
                let q = choose|q: int| 0 <= q <= r - 1 && settles(g, k, x, q);
            }
        }
    } else {
        lemma_blocks_settle(g, k, r, (j - 1) as nat);
        let prev = blocks_to(g, k, r, (j - 1) as nat);
        assert forall|x: Seq<u8>| #[trigger] blocks_to(g, k, r, j).contains(x) implies exists|q: int|
            0 <= q <= r && settles(g, k, x, q) by {
            if prev.contains(x) {
            } else {
                let p = slot_payload(k, g[j - 1], r as int);
                let b = blocks_to(g, k, r, j);
                let i = choose|i: int| 0 <= i < b.len() && b[i] == x;
                if i < prev.len() {
                    assert(prev[i] == x);
                    assert(prev.contains(x));
                }
                assert(x == p);
                assert(settles(g, k, x, r as int));
            }
        }
    }
}

/// A stable sequence holds no payload twice.
pub proof fn lemma_stable_seq_no_dup(g: Seq<u64>, k: Seq<EventView>)
    ensures
        stable_seq(g, k).no_duplicates(),
        forall|x: Seq<u8>| #[trigger] stable_seq(g, k).contains(x) ==> exists|q: int|
            0 <= q && settles(g, k, x, q),
{
    lemma_blocks_no_dup(g, k, settled_rounds(g, k), 0);
    lemma_blocks_settle(g, k, settled_rounds(g, k), 0);
}

/// Every block of the stable sequence is backed by more than two thirds of
/// the group: there is a round `q` by which the members of `g` with a known
/// vote for the payload numbered `q` or lower are more than two thirds of
/// `g`; the round is returned.
pub proof fn law_stable_blocks_have_supermajority(g: Seq<u64>, k: Seq<EventView>, x: Seq<u8>) -> (q: int)
    requires
        stable_seq(g, k).contains(x),
    ensures
        0 <= q,
        3 * Set::new(
            |m: u64|
                g.contains(m) && exists|i: int|
                    0 <= i < k.len() && #[trigger] k[i].creator == m && k[i].index <= q
                        && k[i].payload == x,
        ).len() > 2 * g.len(),
{
    lemma_stable_seq_no_dup(g, k);
    let q = choose|q: int| 0 <= q && settles(g, k, x, q);
    let lit = Set::new(
        |m: u64|
            g.contains(m) && exists|i: int|
                0 <= i < k.len() && #[trigger] k[i].creator == m && k[i].index <= q && k[i].payload == x,
    );
    assert(voters_upto(g, k, x, q) =~= lit);
    assert(3 * lit.len() > 2 * g.len());
    q
}

/// Deciding more slots of a round only adds blocks at the end.
proof fn lemma_blocks_slots(g: Seq<u64>, k: Seq<EventView>, r: nat, j: nat, j2: nat)
    requires
        j <= j2,
    ensures
        blocks_to(g, k, r, j).is_prefix_of(blocks_to(g, k, r, j2)),
    decreases j2,
{
    if j < j2 {
        lemma_blocks_slots(g, k, r, j, (j2 - 1) as nat);
    }
}

/// If the rounds from `r` to `q` are complete and `q` is below the number of
/// known votes, more than `q` rounds are complete.
proof fn lemma_settled_beyond(g: Seq<u64>, k: Seq<EventView>, r: nat, q: int)
    requires
        r <= q + 1,
        q < k.len(),
        forall|t: int| r <= t <= q ==> #[trigger] round_complete(g, k, t),
    ensures
        settled_from(g, k, r) > q,
    decreases q + 1 - r,
{
    if r == q + 1 {
        lemma_settled_complete(g, k, r);
    } else {
        assert(round_complete(g, k, r as int));
        lemma_settled_beyond(g, k, r + 1, q);
    }
}

/// Complete rounds need votes: if the rounds up to `q` are complete for a
/// non-empty group, more than `q` votes are known.
proof fn lemma_rounds_need_votes(g: Seq<u64>, k: Seq<EventView>, q: int)
    requires
        g.len() > 0,
        k.no_duplicates(),
        0 <= q,
        forall|t: int| 0 <= t <= q ==> #[trigger] round_complete(g, k, t),
    ensures
        q < k.len(),
{
    let m = g[0];
    let t = Seq::new(
        (q + 1) as nat,
        |r: int| k[choose|i: int| 0 <= i < k.len() && #[trigger] k[i].creator == m && k[i].index == r],
    );
    assert forall|r: int| 0 <= r <= q implies #[trigger] t[r].index == r && t[r].creator == m && k.contains(t[r]) by {
        assert(round_complete(g, k, r));
        assert(has_vote_at(k, g[0], r));
        let i = choose|i: int| 0 <= i < k.len() && #[trigger] k[i].creator == m && k[i].index == r;
    }
    assert(t.no_duplicates()) by {
        assert forall|a: int, b: int| 0 <= a < t.len() && 0 <= b < t.len() && a != b implies t[a] != t[b] by {
            assert(t[a].index == a);
            assert(t[b].index == b);
        }
    }
    t.unique_seq_to_set();
    k.lemma_cardinality_of_set();
    assert(t.to_set().subset_of(k.to_set())) by {
        assert forall|x: EventView| t.to_set().contains(x) implies k.to_set().contains(x) by {
            let r = choose|r: int| 0 <= r < t.len() && t[r] == x;
            assert(t[r].index == r);
            assert(k.contains(t[r]));
        }
    }
    broadcast use vstd::seq_lib::seq_to_set_is_finite;
    vstd::set_lib::lemma_len_subset(t.to_set(), k.to_set());
}

/// The members of `g` with a known vote for `p` numbered `q` or lower,
/// written out.
proof fn lemma_voters_literal(g: Seq<u64>, k: Seq<EventView>, p: Seq<u8>, q: int)
    ensures
        voters_upto(g, k, p, q) == Set::new(
            |m: u64|
                g.contains(m) && exists|i: int|
                    0 <= i < k.len() && #[trigger] k[i].creator == m && k[i].index <= q
                        && k[i].payload == p,
        ),
{
    assert(voters_upto(g, k, p, q) =~= Set::new(
        |m: u64|
            g.contains(m) && exists|i: int|
                0 <= i < k.len() && #[trigger] k[i].creator == m && k[i].index <= q && k[i].payload
                    == p,
    ));
}

/// The first round, at `q` or below, by which `p` settles.
proof fn lemma_first_settling_round(g: Seq<u64>, k: Seq<EventView>, p: Seq<u8>, q: int) -> (q0: int)
    requires
        0 <= q,
        settles(g, k, p, q),
    ensures
        0 <= q0 <= q,
        settles(g, k, p, q0),
        q0 > 0 ==> !settles(g, k, p, q0 - 1),
    decreases q,
{
    if q > 0 && settles(g, k, p, q - 1) {
        lemma_first_settling_round(g, k, p, q - 1)
    } else {
        q
    }
}

/// Completeness of the stable sequence: a payload that, by some round `q`
/// such that the rounds up to `q` are complete, has known votes numbered `q`
/// or lower from more than two thirds of the group is in the stable
/// sequence.
pub proof fn law_stable_seq_complete(g: Seq<u64>, k: Seq<EventView>, p: Seq<u8>, q: int)
    requires
        consistent(k),
        k.no_duplicates(),
        g.len() > 0,
        0 <= q,
        forall|t: int| 0 <= t <= q ==> #[trigger] round_complete(g, k, t),
        3 * Set::new(
            |m: u64|
                g.contains(m) && exists|i: int|
                    0 <= i < k.len() && #[trigger] k[i].creator == m && k[i].index <= q
                        && k[i].payload == p,
        ).len() > 2 * g.len(),
    ensures
        stable_seq(g, k).contains(p),
{
    lemma_voters_literal(g, k, p, q);
    lemma_rounds_need_votes(g, k, q);
    lemma_settled_beyond(g, k, 0, q);
    let q0 = lemma_first_settling_round(g, k, p, q);
    // a member whose vote numbered q0 is for p
    let v0 = voters_upto(g, k, p, q0);
    let m = if q0 > 0 {
        let v1 = voters_upto(g, k, p, q0 - 1);
        assert(v1.subset_of(v0));
        if v0.subset_of(v1) {
            assert(v0 =~= v1);
            assert(false);
        }
        choose|m: u64| v0.contains(m) && !v1.contains(m)
    } else {
        if forall|m: u64| !v0.contains(m) {
            assert(v0 =~= Set::<u64>::empty());
            assert(false);
        }
        choose|m: u64| v0.contains(m)
    };
    assert(v0.contains(m));
    let i = choose|i: int| 0 <= i < k.len() && #[trigger] k[i].creator == m && k[i].index <= q0 && k[i].payload == p;
    if q0 > 0 {
        let v1 = voters_upto(g, k, p, q0 - 1);
        assert(!v1.contains(m));
        assert(k[i].index == q0);
    }
    assert(k[i].index == q0);
    let j = choose|j: int| 0 <= j < g.len() && g[j] == m;
    // its slot of round q0 has payload p
    assert(round_complete(g, k, q0));
    assert(has_vote_at(k, g[j], q0));
    let c = choose|c: int| 0 <= c < k.len() && #[trigger] k[c].creator == g[j] && k[c].index == q0;
    assert(k.contains(k[c]) && k.contains(k[i]));
    assert(slot_payload(k, g[j], q0) == p);
    // so p is decided at that slot, or before it
    let prev = blocks_to(g, k, q0 as nat, j as nat);
    let at = blocks_to(g, k, q0 as nat, (j + 1) as nat);
    assert(at.contains(p)) by {
        if prev.contains(p) {
            let t = choose|t: int| 0 <= t < prev.len() && prev[t] == p;
            assert(at[t] == p);
        } else {
            assert(at == prev.push(p));
            assert(at[prev.len() as int] == p);
        }
    }
    lemma_blocks_slots(g, k, q0 as nat, (j + 1) as nat, g.len());
    lemma_blocks_prefix(g, k, (q0 + 1) as nat, settled_rounds(g, k));
    let full = stable_seq(g, k);
    let t = choose|t: int| 0 <= t < at.len() && at[t] == p;
    assert(blocks_to(g, k, q0 as nat, g.len())[t] == p);
    assert(blocks_to(g, k, (q0 + 1) as nat, 0) == blocks_to(g, k, q0 as nat, g.len()));
    assert(full[t] == p);
}

} // verus!
