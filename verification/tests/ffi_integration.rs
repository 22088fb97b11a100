// A simulated network of nodes driven through the node handle operations:
// peers vote, gossip with each other under a schedule, and at the end all
// live peers must hold the same sequence of stable blocks.

use parsec::block::Block;
use parsec::error::Error;
use parsec::node::{
    parsec_create_gossip, parsec_handle_request, parsec_handle_response, parsec_have_voted_for,
    parsec_new, parsec_poll, parsec_vote_for, Parsec, Request, Response,
};
use std::collections::{BTreeMap, BTreeSet};

// Alter the seed here to reproduce failures
const SEED: Option<[u32; 4]> = None;

type PeerId = u64;
type Transaction = Vec<u8>;

// ---------------------------------------------------------------------------
// Random numbers

struct Rng {
    state: [u32; 4],
}

impl Rng {
    fn new(seed: Option<[u32; 4]>) -> Rng {
        let seed = match seed {
            Some(s) => s,
            None => {
                let nanos = std::time::SystemTime::now()
                    .duration_since(std::time::UNIX_EPOCH)
                    .map(|d| d.subsec_nanos() ^ (d.as_secs() as u32))
                    .unwrap_or(0x1234_5678);
                [nanos | 1, 0x9E37_79B9, 0x85EB_CA6B, 0xC2B2_AE35]
            }
        };
        println!("Using seed {:?}", seed);
        Rng { state: seed }
    }

    fn next_u32(&mut self) -> u32 {
        // xorshift128
        let mut t = self.state[3];
        let s = self.state[0];
        self.state[3] = self.state[2];
        self.state[2] = self.state[1];
        self.state[1] = s;
        t ^= t << 11;
        t ^= t >> 8;
        self.state[0] = t ^ s ^ (s >> 19);
        self.state[0]
    }

    /// A number in `low..high`.
    fn gen_range(&mut self, low: usize, high: usize) -> usize {
        low + (self.next_u32() as usize) % (high - low)
    }

    /// `true` with probability `p`.
    fn gen_bool(&mut self, p: f64) -> bool {
        (self.next_u32() as f64) / (u32::MAX as f64) < p
    }

    fn shuffle<T>(&mut self, items: &mut Vec<T>) {
        let n = items.len();
        for i in (1..n).rev() {
            let j = self.gen_range(0, i + 1);
            items.swap(i, j);
        }
    }
}

// ---------------------------------------------------------------------------
// Schedule

struct PeerCount(usize);
struct TransactionCount(usize);

#[allow(dead_code)]
enum DelayDistribution {
    Poisson(f64),
    Constant(usize),
}

#[allow(dead_code)]
enum GossipStrategy {
    Random,
    Probabilistic(f64),
}

struct ScheduleOptions {
    votes_before_gossip: bool,
    prob_vote_duplication: f64,
    deterministic_failures: BTreeMap<usize, usize>,
    prob_failure: f64,
    delay_distr: DelayDistribution,
    gossip_strategy: GossipStrategy,
}

impl Default for ScheduleOptions {
    fn default() -> ScheduleOptions {
        ScheduleOptions {
            votes_before_gossip: false,
            prob_vote_duplication: 0.0,
            deterministic_failures: BTreeMap::new(),
            prob_failure: 0.0,
            delay_distr: DelayDistribution::Poisson(4.0),
            gossip_strategy: GossipStrategy::Random,
        }
    }
}

struct RequestSpec {
    recipient: PeerId,
    req_delay: usize,
    resp_delay: usize,
}

enum ScheduleEvent {
    LocalStep {
        global_step: usize,
        peer: PeerId,
        request: Option<RequestSpec>,
    },
    VoteFor(PeerId, Transaction),
    Fail(PeerId),
}

struct Schedule {
    num_transactions: usize,
    events: Vec<ScheduleEvent>,
}

fn sample_delay(rng: &mut Rng, distr: &DelayDistribution) -> usize {
    match *distr {
        DelayDistribution::Constant(d) => d,
        DelayDistribution::Poisson(lambda) => {
            // Knuth's method
            let l = (-lambda).exp();
            let mut k = 0usize;
            let mut p = 1.0f64;
            loop {
                p *= (rng.next_u32() as f64) / (u32::MAX as f64);
                if p <= l {
                    return k;
                }
                k += 1;
            }
        }
    }
}

const NUM_STEPS: usize = 200;

impl Schedule {
    fn new(env: &mut Environment, options: &ScheduleOptions) -> Schedule {
        let peers: Vec<PeerId> = env.network.peers.iter().map(|p| p.id).collect();
        let num_peers = peers.len();
        let max_failures = (num_peers - 1) / 3;
        let mut failed: BTreeSet<PeerId> = BTreeSet::new();

        // Each peer votes for every transaction, in an order of its own.
        let mut pending_votes: BTreeMap<PeerId, Vec<Transaction>> = BTreeMap::new();
        for peer in &peers {
            let mut txs = env.transactions.clone();
            env.rng.shuffle(&mut txs);
            let mut with_duplicates = Vec::new();
            for tx in txs {
                with_duplicates.push(tx.clone());
                if env.rng.gen_bool(options.prob_vote_duplication) {
                    with_duplicates.push(tx);
                }
            }
            let _ = pending_votes.insert(*peer, with_duplicates);
        }

        let mut events = Vec::new();
        if options.votes_before_gossip {
            for peer in &peers {
                for tx in pending_votes.get_mut(peer).unwrap().drain(..) {
                    events.push(ScheduleEvent::VoteFor(*peer, tx));
                }
            }
        }

        for step in 0..NUM_STEPS {
            if let Some(count) = options.deterministic_failures.get(&step) {
                for _ in 0..*count {
                    let alive: Vec<PeerId> =
                        peers.iter().filter(|p| !failed.contains(p)).cloned().collect();
                    if failed.len() < max_failures && alive.len() > 1 {
                        let victim = alive[env.rng.gen_range(0, alive.len())];
                        let _ = failed.insert(victim);
                        events.push(ScheduleEvent::Fail(victim));
                    }
                }
            }
            for peer in &peers {
                if failed.contains(peer) {
                    continue;
                }
                if failed.len() < max_failures && env.rng.gen_bool(options.prob_failure) {
                    let _ = failed.insert(*peer);
                    events.push(ScheduleEvent::Fail(*peer));
                    continue;
                }
                let votes = pending_votes.get_mut(peer).unwrap();
                if !votes.is_empty() && env.rng.gen_bool(0.3) {
                    let tx = votes.remove(0);
                    events.push(ScheduleEvent::VoteFor(*peer, tx));
                }
                let others: Vec<PeerId> = peers.iter().filter(|p| *p != peer).cloned().collect();
                let send = match options.gossip_strategy {
                    GossipStrategy::Random => true,
                    GossipStrategy::Probabilistic(p) => env.rng.gen_bool(p),
                };
                let request = if send && !others.is_empty() {
                    let recipient = others[env.rng.gen_range(0, others.len())];
                    let req_delay = sample_delay(&mut env.rng, &options.delay_distr);
                    let resp_delay = sample_delay(&mut env.rng, &options.delay_distr);
                    Some(RequestSpec {
                        recipient,
                        req_delay,
                        resp_delay,
                    })
                } else {
                    None
                };
                events.push(ScheduleEvent::LocalStep {
                    global_step: step,
                    peer: *peer,
                    request,
                });
            }
        }

        Schedule {
            num_transactions: env.transactions.len(),
            events,
        }
    }
}

// ---------------------------------------------------------------------------
// Peers and the network

struct ParsecFfiImpl {
    parsec: Parsec,
    // The C-interface harness drops the polled blocks; the checks of
    // agreement below keep them.
    keep_blocks: bool,
}

struct BlockFfiImpl(Block);

impl BlockFfiImpl {
    fn payload(&self) -> Transaction {
        parsec::block::block_payload(&self.0).clone()
    }
}

impl ParsecFfiImpl {
    fn new(our_id: PeerId, genesis_group: &BTreeSet<PeerId>, keep_blocks: bool) -> Self {
        let genesis_vec: Vec<PeerId> = genesis_group.iter().cloned().collect();
        let parsec = parsec_new(our_id, &genesis_vec).unwrap();
        ParsecFfiImpl { parsec, keep_blocks }
    }

    fn poll(&mut self) -> Option<BlockFfiImpl> {
        let block = parsec_poll(&mut self.parsec);
        if self.keep_blocks {
            block.map(BlockFfiImpl)
        } else {
            None
        }
    }

    fn have_voted_for(&self, event: &Transaction) -> bool {
        parsec_have_voted_for(&self.parsec, event)
    }

    fn vote_for(&mut self, event: Transaction) -> Result<(), Error> {
        parsec_vote_for(&mut self.parsec, &event)
    }

    fn handle_request(&mut self, src: &PeerId, req: Request) -> Result<Response, Error> {
        parsec_handle_request(&mut self.parsec, *src, &req)
    }

    fn handle_response(&mut self, src: &PeerId, resp: Response) -> Result<(), Error> {
        parsec_handle_response(&mut self.parsec, *src, &resp)
    }

    fn create_gossip(&self, peer_id: Option<PeerId>) -> Result<Request, Error> {
        parsec_create_gossip(&self.parsec, peer_id)
    }
}

struct Peer {
    id: PeerId,
    parsec: ParsecFfiImpl,
    blocks: Vec<BlockFfiImpl>,
}

impl Peer {
    fn new(id: PeerId, genesis_group: &BTreeSet<PeerId>, keep_blocks: bool) -> Peer {
        Peer {
            id,
            parsec: ParsecFfiImpl::new(id, genesis_group, keep_blocks),
            blocks: Vec::new(),
        }
    }

    fn vote_for(&mut self, transaction: &Transaction) -> bool {
        if !self.parsec.have_voted_for(transaction) {
            self.parsec.vote_for(transaction.clone()).unwrap();
            true
        } else {
            false
        }
    }

    fn poll(&mut self) {
        while let Some(block) = self.parsec.poll() {
            self.blocks.push(block);
        }
    }

    fn blocks_payloads(&self) -> Vec<Transaction> {
        self.blocks.iter().map(|b| b.payload()).collect()
    }
}

enum Message {
    Request(Request, usize),
    Response(Response),
}

struct QueueEntry {
    sender: PeerId,
    message: Message,
    deliver_after: usize,
}

struct Network {
    peers: Vec<Peer>,
    msg_queue: BTreeMap<PeerId, Vec<QueueEntry>>,
}

impl Network {
    /// Create test network with the given initial number of peers (the genesis group).
    fn new(count: usize, keep_blocks: bool) -> Self {
        let genesis_group: BTreeSet<PeerId> = (0..count as PeerId).collect();
        let peers = genesis_group
            .iter()
            .map(|id| Peer::new(*id, &genesis_group, keep_blocks))
            .collect();
        Network {
            peers,
            msg_queue: BTreeMap::new(),
        }
    }

    /// Returns `Ok` if all peers hold the same sequence of stable blocks.
    fn blocks_all_in_sequence(
        &self,
    ) -> Result<(), (PeerId, Vec<Transaction>, PeerId, Vec<Transaction>)> {
        let payloads = self.peers[0].blocks_payloads();
        if let Some(peer) = self
            .peers
            .iter()
            .find(|peer| peer.blocks_payloads() != payloads)
        {
            Err((self.peers[0].id, payloads, peer.id, peer.blocks_payloads()))
        } else {
            Ok(())
        }
    }

    fn peer(&self, id: PeerId) -> &Peer {
        self.peers.iter().find(|peer| peer.id == id).unwrap()
    }

    fn peer_mut(&mut self, id: PeerId) -> &mut Peer {
        self.peers.iter_mut().find(|peer| peer.id == id).unwrap()
    }

    fn send_message(&mut self, src: PeerId, dst: PeerId, message: Message, deliver_after: usize) {
        self.msg_queue
            .entry(dst)
            .or_insert_with(Vec::new)
            .push(QueueEntry {
                sender: src,
                message,
                deliver_after,
            });
    }

    /// Handles incoming requests and responses
    fn handle_messages(&mut self, peer: PeerId, step: usize) -> bool {
        if let Some(msgs) = self.msg_queue.remove(&peer) {
            let (to_handle, rest): (Vec<QueueEntry>, Vec<QueueEntry>) = msgs
                .into_iter()
                .partition(|entry| entry.deliver_after <= step);
            let _ = self.msg_queue.insert(peer, rest);
            let result = !to_handle.is_empty();
            for entry in to_handle {
                match entry.message {
                    Message::Request(req, resp_delay) => {
                        let response = self
                            .peer_mut(peer)
                            .parsec
                            .handle_request(&entry.sender, req)
                            .unwrap();
                        self.send_message(
                            peer,
                            entry.sender,
                            Message::Response(response),
                            step + resp_delay,
                        );
                    }
                    Message::Response(resp) => {
                        self.peer_mut(peer)
                            .parsec
                            .handle_response(&entry.sender, resp)
                            .unwrap();
                    }
                }
            }
            result
        } else {
            false
        }
    }

    /// Every live peer gossips with every other, then polls all its blocks.
    fn sync_all(&mut self) {
        let ids: Vec<PeerId> = self.peers.iter().map(|p| p.id).collect();
        for _ in 0..2 {
            for a in &ids {
                for b in &ids {
                    if a != b {
                        let req = self.peer(*a).parsec.create_gossip(Some(*b)).unwrap();
                        let resp = self.peer_mut(*b).parsec.handle_request(a, req).unwrap();
                        self.peer_mut(*a).parsec.handle_response(b, resp).unwrap();
                    }
                }
            }
        }
        for id in ids {
            self.peer_mut(id).poll();
        }
    }

    /// Whether the blocks of any two peers are prefixes of one another.
    fn blocks_prefix_consistent(&self) -> bool {
        self.peers.iter().all(|p| {
            self.peers.iter().all(|q| {
                let a = p.blocks_payloads();
                let b = q.blocks_payloads();
                let n = a.len().min(b.len());
                a[..n] == b[..n]
            })
        })
    }

    fn consensus_broken(&self) -> bool {
        let mut block_order = BTreeMap::new();
        for peer in &self.peers {
            for (index, block) in peer.blocks_payloads().into_iter().enumerate() {
                let old_index = block_order.insert(block, index);
                if old_index.map(|idx| idx != index).unwrap_or(false) {
                    // old index exists and isn't equal to the new one
                    return true;
                }
            }
        }
        false
    }

    fn consensus_complete(&self, num_transactions: usize) -> bool {
        self.peers[0].blocks_payloads().len() == num_transactions
            && self.blocks_all_in_sequence().is_ok()
    }

    /// Simulates the network according to the given schedule
    fn execute_schedule(&mut self, schedule: Schedule) {
        let Schedule {
            num_transactions,
            events,
        } = schedule;
        for event in events {
            match event {
                ScheduleEvent::LocalStep {
                    global_step,
                    peer,
                    request,
                } => {
                    let _ = self.handle_messages(peer, global_step);
                    self.peer_mut(peer).poll();
                    if let Some(req) = request {
                        let request = self
                            .peer(peer)
                            .parsec
                            .create_gossip(Some(req.recipient))
                            .unwrap();
                        self.send_message(
                            peer,
                            req.recipient,
                            Message::Request(request, req.resp_delay),
                            global_step + req.req_delay,
                        );
                    }
                }
                ScheduleEvent::VoteFor(peer, transaction) => {
                    let _ = self.peer_mut(peer).vote_for(&transaction);
                }
                ScheduleEvent::Fail(peer) => {
                    self.peers.retain(|p| p.id != peer);
                }
            }
            if self.consensus_broken() || self.consensus_complete(num_transactions) {
                break;
            }
        }
    }
}

struct Environment {
    network: Network,
    transactions: Vec<Transaction>,
    rng: Rng,
}

impl Environment {
    fn new(peers: &PeerCount, transactions: &TransactionCount, seed: Option<[u32; 4]>) -> Self {
        Environment::with_blocks(peers, transactions, seed, false)
    }

    fn with_blocks(
        peers: &PeerCount,
        transactions: &TransactionCount,
        seed: Option<[u32; 4]>,
        keep_blocks: bool,
    ) -> Self {
        let rng = Rng::new(seed);
        let transactions = (0..transactions.0)
            .map(|i| format!("Transaction({})", i).into_bytes())
            .collect();
        Environment {
            network: Network::new(peers.0, keep_blocks),
            transactions,
            rng,
        }
    }
}

// ---------------------------------------------------------------------------
// Tests

#[test]
fn ffi_minimal_network() {
    // 4 is the minimal network size for which the super majority is less than it.
    let num_peers = 4;
    let mut env = Environment::new(&PeerCount(num_peers), &TransactionCount(1), SEED);

    let schedule = Schedule::new(
        &mut env,
        &ScheduleOptions {
            votes_before_gossip: true,
            ..Default::default()
        },
    );
    env.network.execute_schedule(schedule);

    let result = env.network.blocks_all_in_sequence();
    assert!(result.is_ok(), "{:?}", result);
}

#[test]
fn ffi_multiple_votes_before_gossip() {
    let num_transactions = 10;
    let mut env = Environment::new(&PeerCount(4), &TransactionCount(num_transactions), SEED);

    let schedule = Schedule::new(
        &mut env,
        &ScheduleOptions {
            votes_before_gossip: true,
            ..Default::default()
        },
    );
    env.network.execute_schedule(schedule);

    let result = env.network.blocks_all_in_sequence();
    assert!(result.is_ok(), "{:?}", result);
}

#[test]
fn ffi_multiple_votes_during_gossip() {
    let num_transactions = 10;
    let mut env = Environment::new(&PeerCount(4), &TransactionCount(num_transactions), SEED);

    let schedule = Schedule::new(&mut env, &Default::default());
    env.network.execute_schedule(schedule);

    let result = env.network.blocks_all_in_sequence();
    assert!(result.is_ok(), "{:?}", result);
}

#[test]
fn ffi_duplicate_votes_before_gossip() {
    let mut env = Environment::new(&PeerCount(4), &TransactionCount(1), SEED);

    let schedule = Schedule::new(
        &mut env,
        &ScheduleOptions {
            votes_before_gossip: true,
            prob_vote_duplication: 0.5,
            ..Default::default()
        },
    );
    env.network.execute_schedule(schedule);

    let result = env.network.blocks_all_in_sequence();
    assert!(result.is_ok(), "{:?}", result);
}

#[test]
fn ffi_faulty_third_never_gossip() {
    let num_peers = 10;
    let num_transactions = 10;
    let num_faulty = (num_peers - 1) / 3;
    let mut env = Environment::new(
        &PeerCount(num_peers),
        &TransactionCount(num_transactions),
        SEED,
    );

    let mut failures = BTreeMap::new();
    let _ = failures.insert(0, num_faulty);
    let schedule = Schedule::new(
        &mut env,
        &ScheduleOptions {
            deterministic_failures: failures,
            ..Default::default()
        },
    );
    env.network.execute_schedule(schedule);

    let result = env.network.blocks_all_in_sequence();
    assert!(result.is_ok(), "{:?}", result);
}

#[test]
fn ffi_faulty_third_terminate_concurrently() {
    let num_peers = 10;
    let num_transactions = 10;
    let num_faulty = (num_peers - 1) / 3;
    let mut env = Environment::new(
        &PeerCount(num_peers),
        &TransactionCount(num_transactions),
        SEED,
    );

    let mut failures = BTreeMap::new();
    let _ = failures.insert(env.rng.gen_range(10, 50), num_faulty);
    let schedule = Schedule::new(
        &mut env,
        &ScheduleOptions {
            deterministic_failures: failures,
            ..Default::default()
        },
    );
    env.network.execute_schedule(schedule);

    let result = env.network.blocks_all_in_sequence();
    assert!(result.is_ok(), "{:?}", result);
}

#[test]
fn ffi_faulty_nodes_terminate_at_random_points() {
    let num_peers = 10;
    let num_transactions = 10;
    let prob_failure = 0.05;
    let mut env = Environment::new(
        &PeerCount(num_peers),
        &TransactionCount(num_transactions),
        SEED,
    );
    let schedule = Schedule::new(
        &mut env,
        &ScheduleOptions {
            prob_failure,
            ..Default::default()
        },
    );
    env.network.execute_schedule(schedule);

    let result = env.network.blocks_all_in_sequence();
    assert!(result.is_ok(), "{:?}", result);
}

#[test]
fn ffi_random_schedule_no_delays() {
    let num_transactions = 10;
    let mut env = Environment::new(&PeerCount(4), &TransactionCount(num_transactions), SEED);
    let schedule = Schedule::new(
        &mut env,
        &ScheduleOptions {
            delay_distr: DelayDistribution::Constant(0),
            ..Default::default()
        },
    );
    env.network.execute_schedule(schedule);

    let result = env.network.blocks_all_in_sequence();
    assert!(result.is_ok(), "{:?}", result);
}

#[test]
fn ffi_random_schedule_probabilistic_gossip() {
    let num_transactions = 10;
    let mut env = Environment::new(&PeerCount(4), &TransactionCount(num_transactions), SEED);
    let schedule = Schedule::new(
        &mut env,
        &ScheduleOptions {
            gossip_strategy: GossipStrategy::Probabilistic(0.8),
            ..Default::default()
        },
    );
    env.network.execute_schedule(schedule);

    let result = env.network.blocks_all_in_sequence();
    assert!(result.is_ok(), "{:?}", result);
}

// ---------------------------------------------------------------------------
// The same schedules with the polled blocks kept: at every step the peers'
// blocks are prefixes of one another, and once every live peer has gossiped
// with every other they hold the same blocks.

fn run_keeping_blocks(peers: usize, transactions: usize, options: ScheduleOptions) -> Environment {
    let mut env = Environment::with_blocks(
        &PeerCount(peers),
        &TransactionCount(transactions),
        SEED,
        true,
    );
    let schedule = Schedule::new(&mut env, &options);
    env.network.execute_schedule(schedule);
    assert!(env.network.blocks_prefix_consistent());
    assert!(!env.network.consensus_broken());
    env.network.sync_all();
    let result = env.network.blocks_all_in_sequence();
    assert!(result.is_ok(), "{:?}", result);
    env
}

#[test]
fn kept_blocks_agree_votes_before_gossip() {
    let env = run_keeping_blocks(
        4,
        10,
        ScheduleOptions {
            votes_before_gossip: true,
            ..Default::default()
        },
    );
    assert_eq!(env.network.peers[0].blocks.len(), 10);
}

#[test]
fn kept_blocks_agree_votes_during_gossip() {
    let env = run_keeping_blocks(4, 10, Default::default());
    assert_eq!(env.network.peers[0].blocks.len(), 10);
}

#[test]
fn kept_blocks_agree_duplicate_votes() {
    let env = run_keeping_blocks(
        4,
        3,
        ScheduleOptions {
            votes_before_gossip: true,
            prob_vote_duplication: 0.5,
            ..Default::default()
        },
    );
    assert_eq!(env.network.peers[0].blocks.len(), 3);
}

#[test]
fn kept_blocks_agree_no_delays_and_probabilistic_gossip() {
    let env = run_keeping_blocks(
        4,
        10,
        ScheduleOptions {
            delay_distr: DelayDistribution::Constant(0),
            gossip_strategy: GossipStrategy::Probabilistic(0.8),
            ..Default::default()
        },
    );
    assert_eq!(env.network.peers[0].blocks.len(), 10);
}

#[test]
fn kept_blocks_agree_with_faulty_peers() {
    let mut failures = BTreeMap::new();
    let _ = failures.insert(20, 3);
    let _ = run_keeping_blocks(
        10,
        10,
        ScheduleOptions {
            deterministic_failures: failures,
            ..Default::default()
        },
    );
}
