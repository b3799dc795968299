//! Gossip in a mesh of TCP and QUIC nodes: every node broadcasts numbered
//! messages, every node notes which ones it received, and the delivery has to
//! meet thresholds.

use std::collections::BTreeMap;
use std::collections::BTreeSet;

use bytes::Bytes;
use vstd::arithmetic::power2::*;
use vstd::prelude::*;

use crate::binary64;
use crate::binary64::Binary64;
use crate::env;
use crate::env::Environment;
use crate::rounding;
use crate::time::Duration;
use crate::wire;

verus! {

broadcast use vstd::std_specs::btree::group_btree_axioms;

/// The settings of a run.
#[derive(Clone, Copy, PartialEq, Eq, Structural, Debug)]
pub struct Config {
    pub nodes: u32,
    pub duration: Duration,
    pub interval: Duration,
    /// How many messages every node must receive from every other node.
    pub min_per_pair: u64,
    /// The largest share of messages that a node may miss.
    pub max_loss_ratio: Binary64,
}

impl Config {
    /// The settings that an environment asks for.
    pub fn from_env(e: &Environment) -> (r: Config)
        ensures
            r.nodes == env::asked_whole(e, "QA_NODES"@, u32::MAX as nat, 6),
            r.duration.nanos == env::asked_whole(e, "QA_DURATION_SECS"@, u64::MAX as nat, 8)
                * crate::time::NANOS_PER_SEC,
            r.interval.nanos == env::asked_whole(e, "QA_INTERVAL_MS"@, u64::MAX as nat, 100)
                * crate::time::NANOS_PER_MILLI,
            r.min_per_pair == env::asked_whole(e, "QA_MIN_PER_PAIR"@, u64::MAX as nat, 20),
            match e.number_of("QA_MAX_LOSS_RATIO"@) {
                Some(n) => r.max_loss_ratio == n,
                None => r.max_loss_ratio@ == binary64::Value::ratio(5, 100),
            },
    {
        let nodes: u32 = env::env_or(e, "QA_NODES", 6u32);
        let min_per_pair: u64 = env::env_or(e, "QA_MIN_PER_PAIR", 20u64);
        Config {
            nodes,
            duration: env::duration_secs(e, "QA_DURATION_SECS", 8),
            interval: env::duration_millis(e, "QA_INTERVAL_MS", 100),
            min_per_pair,
            max_loss_ratio: env::env_number_or(e, "QA_MAX_LOSS_RATIO", Binary64::ratio(5, 100)),
        }
    }
}

/// The messages that a node has received.
pub struct NodeState {
    pub received: BTreeMap<u32, BTreeSet<u64>>,
}

impl NodeState {
    /// The sequence numbers received from a node.
    pub open spec fn heard(&self, from: u32) -> Set<u64> {
        if self.received@.dom().contains(from) {
            self.received@[from]@
        } else {
            Set::empty()
        }
    }

    /// A node that has received nothing.
    pub fn new() -> (r: NodeState)
        ensures
            forall|from: u32| #[trigger] r.heard(from) == Set::<u64>::empty(),
    {
        NodeState { received: BTreeMap::new() }
    }

    /// Notes a sequence number from a node.
    pub fn note(&mut self, from: u32, seq: u64)
        ensures
            forall|j: u32| #[trigger]
                final(self).heard(j) == (if j == from {
                    old(self).heard(from).insert(seq)
                } else {
                    old(self).heard(j)
                }),
    {
        let mut seqs: BTreeSet<u64> = match self.received.remove(&from) {
            Some(s) => s,
            None => BTreeSet::new(),
        };
        seqs.insert(seq);
        self.received.insert(from, seqs);
    }

    /// Takes a message: a gossip frame is noted, anything else is ignored.
    pub fn receive(&mut self, data: &Bytes)
        ensures
            match wire::gossip_of(wire::contents(*data)) {
                Some(frame) => {
                    &&& final(self).heard(frame.0 as u32) == old(self).heard(frame.0 as u32).insert(
                        frame.1 as u64,
                    )
                    &&& forall|j: u32| #[trigger]
                        final(self).heard(j) == (if j == frame.0 {
                            old(self).heard(j).insert(frame.1 as u64)
                        } else {
                            old(self).heard(j)
                        })
                },
                None => *final(self) == *old(self),
            },
    {
        if let Some((from, seq)) = wire::read_gossip(data) {
            self.note(from, seq);
        }
    }

    /// How many sequence numbers were received from a node.
    pub fn observed(&self, from: u32) -> (r: u64)
        ensures
            r == self.heard(from).len(),
    {
        match self.received.get(&from) {
            Some(s) => s.len() as u64,
            None => 0,
        }
    }

    /// How many sequence numbers were received from each node of a mesh.
    pub fn row(&self, nodes: u32) -> (r: Vec<u64>)
        ensures
            r@.len() == nodes,
            forall|j: int| 0 <= j < nodes ==> #[trigger] r@[j] == self.heard(j as u32).len(),
    {
        let mut out: Vec<u64> = Vec::new();
        let mut j: u32 = 0;
        while j < nodes
            invariant
                j <= nodes,
                out@.len() == j,
                forall|k: int| 0 <= k < j ==> #[trigger] out@[k] == self.heard(k as u32).len(),
            decreases nodes - j,
        {
            out.push(self.observed(j));
            j = j + 1;
        }
        out
    }
}

/// The sender side of a node.
#[derive(Clone, Copy, PartialEq, Eq, Structural, Debug)]
pub struct Broadcaster {
    pub id: u32,
    /// How many messages were sent.
    pub seq: u64,
}

impl Broadcaster {
    pub fn new(id: u32) -> (r: Broadcaster)
        ensures
            r == (Broadcaster { id, seq: 0 }),
    {
        Broadcaster { id, seq: 0 }
    }

    /// The next message: the frame of the node and the next sequence number.
    pub fn next_frame(&mut self) -> (r: Bytes)
        requires
            old(self).seq < u64::MAX,
        ensures
            wire::contents(r) == wire::gossip_bytes(old(self).id as nat, old(self).seq as nat),
            final(self).id == old(self).id,
            final(self).seq == old(self).seq + 1,
    {
        let frame: Bytes = wire::gossip_frame(self.id, self.seq);
        self.seq = self.seq + 1;
        frame
    }
}

/// What was sent and what arrived: `observed[i][j]` counts the messages of
/// node `j` that node `i` received.
pub struct Delivery {
    pub observed: Vec<Vec<u64>>,
    pub sent: Vec<u64>,
}

impl Delivery {
    pub open spec fn nodes(&self) -> nat {
        self.sent@.len()
    }

    /// Whether there is a count for every pair of nodes.
    pub open spec fn complete(&self) -> bool {
        &&& self.nodes() <= u32::MAX
        &&& self.observed@.len() == self.nodes()
        &&& forall|i: int|
            0 <= i < self.nodes() ==> (#[trigger] self.observed@[i])@.len() == self.nodes()
    }

    /// Whether there is a count for every pair of nodes.
    pub fn is_complete(&self) -> (r: bool)
        ensures
            r == self.complete(),
    {
        let n: usize = self.sent.len();
        if n as u128 > u32::MAX as u128 || self.observed.len() != n {
            return false;
        }
        let mut i: usize = 0;
        while i < n
            invariant
                i <= n,
                n == self.sent@.len(),
                n == self.observed@.len(),
                forall|k: int| 0 <= k < i ==> (#[trigger] self.observed@[k])@.len() == n,
            decreases n - i,
        {
            if self.observed[i].len() != n {
                return false;
            }
            i = i + 1;
        }
        true
    }
}

/// The messages that node `i` received from node `j`.
pub open spec fn observed(d: Delivery, i: int, j: int) -> nat {
    d.observed@[i]@[j] as nat
}

/// The messages that every other node expects from node `j`.
pub open spec fn expected(d: Delivery, j: int) -> nat {
    if d.sent@[j] > 1 {
        d.sent@[j] as nat
    } else {
        1
    }
}

/// The messages of node `j` that node `i` missed.
pub open spec fn missing(d: Delivery, i: int, j: int) -> nat {
    if observed(d, i, j) < expected(d, j) {
        (expected(d, j) - observed(d, i, j)) as nat
    } else {
        0
    }
}

/// The messages that node `i` missed of the first `j` nodes.
pub open spec fn row_missing(d: Delivery, i: int, j: nat) -> nat
    decreases j,
{
    if j == 0 {
        0
    } else if j - 1 == i {
        row_missing(d, i, (j - 1) as nat)
    } else {
        row_missing(d, i, (j - 1) as nat) + missing(d, i, j - 1)
    }
}

/// The messages that node `i` expects from the first `j` nodes.
pub open spec fn row_expected(d: Delivery, i: int, j: nat) -> nat
    decreases j,
{
    if j == 0 {
        0
    } else if j - 1 == i {
        row_expected(d, i, (j - 1) as nat)
    } else {
        row_expected(d, i, (j - 1) as nat) + expected(d, j - 1)
    }
}

/// The loss ratio of a node: what it missed over what it expects.
pub open spec fn node_loss(d: Delivery, i: int) -> binary64::Value {
    if row_expected(d, i, d.nodes()) == 0 {
        binary64::Value::of(0)
    } else {
        binary64::Value::of(row_missing(d, i, d.nodes())).over(
            binary64::Value::of(row_expected(d, i, d.nodes())),
        )
    }
}

/// Whether every node received enough messages from every other node.
pub open spec fn enough_per_pair(d: Delivery, min_per_pair: nat) -> bool {
    forall|i: int, j: int|
        0 <= i < d.nodes() && 0 <= j < d.nodes() && i != j ==> min_per_pair <= #[trigger] observed(
            d,
            i,
            j,
        )
}

/// Whether no node missed too large a share of the messages.
pub open spec fn losses_within(d: Delivery, max_loss_ratio: binary64::Value) -> bool {
    forall|i: int| 0 <= i < d.nodes() ==> !max_loss_ratio.less(#[trigger] node_loss(d, i))
}

/// The loss of a pair, as it is reported.
pub open spec fn pair_loss(d: Delivery, i: int, j: int) -> binary64::Value {
    binary64::Value::of(1).minus(
        binary64::Value::of(observed(d, i, j)).over(binary64::Value::of(expected(d, j))).smaller(
            binary64::Value::of(1),
        ),
    )
}

/// The losses of the pairs before `(i, j)`, added up row by row.
pub open spec fn total_loss(d: Delivery, i: nat, j: nat) -> binary64::Value
    decreases i, j,
{
    if j > 0 {
        let before = total_loss(d, i, (j - 1) as nat);
        if j - 1 == i {
            before
        } else {
            before.plus(pair_loss(d, i as int, j - 1))
        }
    } else if i > 0 {
        total_loss(d, (i - 1) as nat, d.nodes())
    } else {
        binary64::Value::of(0)
    }
}

/// How many pairs there are before `(i, j)`.
pub open spec fn pair_count(d: Delivery, i: nat, j: nat) -> nat
    decreases i, j,
{
    if j > 0 {
        pair_count(d, i, (j - 1) as nat) + if j - 1 == i {
            0nat
        } else {
            1nat
        }
    } else if i > 0 {
        pair_count(d, (i - 1) as nat, d.nodes())
    } else {
        0
    }
}

/// The average loss of a pair.
pub open spec fn average_loss(d: Delivery) -> binary64::Value {
    if pair_count(d, d.nodes(), 0) == 0 {
        binary64::Value::of(0)
    } else {
        total_loss(d, d.nodes(), 0).over(binary64::Value::of(pair_count(d, d.nodes(), 0)))
    }
}

/// A pair of nodes between which too little arrived.
#[derive(Clone, Copy, PartialEq, Eq, Structural, Debug)]
pub struct ShortPair {
    pub to: usize,
    pub from: usize,
    pub observed: u64,
}

/// The pairs before `(i, j)` between which too little arrived, row by row.
pub open spec fn short_pairs(d: Delivery, min_per_pair: nat, i: nat, j: nat) -> Seq<ShortPair>
    decreases i, j,
{
    if j > 0 {
        let before = short_pairs(d, min_per_pair, i, (j - 1) as nat);
        if j - 1 == i || min_per_pair <= observed(d, i as int, j - 1) {
            before
        } else {
            before.push(
                ShortPair {
                    to: i as usize,
                    from: (j - 1) as usize,
                    observed: observed(d, i as int, j - 1) as u64,
                },
            )
        }
    } else if i > 0 {
        short_pairs(d, min_per_pair, (i - 1) as nat, d.nodes())
    } else {
        Seq::empty()
    }
}

/// The outcome of a run.
pub struct Verdict {
    pub short_pairs: Vec<ShortPair>,
    /// The loss ratio of each node.
    pub node_losses: Vec<Binary64>,
    pub average_loss: Binary64,
    pub enough_per_pair: bool,
    pub losses_within: bool,
}

impl Verdict {
    pub open spec fn is_pass(&self) -> bool {
        self.enough_per_pair && self.losses_within
    }

    /// Whether the run passed.
    pub fn passed(&self) -> (r: bool)
        ensures
            r == self.is_pass(),
    {
        self.enough_per_pair && self.losses_within
    }
}

/// The messages that node `i` missed, and those that it expects.
fn node_sums(d: &Delivery, i: usize) -> (r: (u128, u128))
    requires
        d.complete(),
        i < d.nodes(),
    ensures
        r.0 == row_missing(*d, i as int, d.nodes()),
        r.1 == row_expected(*d, i as int, d.nodes()),
{
    let n: usize = d.sent.len();
    let mut missed: u128 = 0;
    let mut wanted: u128 = 0;
    let mut j: usize = 0;
    while j < n
        invariant
            d.complete(),
            n == d.nodes(),
            i < n,
            j <= n,
            missed == row_missing(*d, i as int, j as nat),
            wanted == row_expected(*d, i as int, j as nat),
            missed <= wanted <= j * (u64::MAX as u128),
        decreases n - j,
    {
        if j != i {
            let seen: u64 = d.observed[i][j];
            let want: u64 = if d.sent[j] > 1 {
                d.sent[j]
            } else {
                1
            };
            if seen < want {
                missed = missed + (want - seen) as u128;
            }
            wanted = wanted + want as u128;
        }
        j = j + 1;
    }
    (missed, wanted)
}

/// The loss ratio of a node.
pub fn loss_of_node(d: &Delivery, i: usize) -> (r: Binary64)
    requires
        d.complete(),
        i < d.nodes(),
    ensures
        r@ == node_loss(*d, i as int),
{
    let (missed, wanted): (u128, u128) = node_sums(d, i);
    if wanted == 0 {
        Binary64::of(0)
    } else {
        Binary64::of(missed).over(Binary64::of(wanted))
    }
}

/// The loss of a pair.
pub fn loss_of_pair(d: &Delivery, i: usize, j: usize) -> (r: Binary64)
    requires
        d.complete(),
        i < d.nodes(),
        j < d.nodes(),
    ensures
        r@ == pair_loss(*d, i as int, j as int),
{
    let want: u64 = if d.sent[j] > 1 {
        d.sent[j]
    } else {
        1
    };
    let share: Binary64 = Binary64::of(d.observed[i][j] as u128).over(Binary64::of(want as u128));
    Binary64::of(1).minus(share.smaller(Binary64::of(1)))
}

proof fn lemma_short_pairs(d: Delivery, min_per_pair: nat, i: nat, j: nat)
    requires
        i < d.nodes() || i == d.nodes() && j == 0,
        j <= d.nodes(),
    ensures
        short_pairs(d, min_per_pair, i, j).len() == 0 <==> forall|a: int, b: int|
            0 <= a < d.nodes() && 0 <= b < d.nodes() && a != b && (a < i || a == i && b < j)
                ==> min_per_pair <= #[trigger] observed(d, a, b),
    decreases i, j,
{
    if j > 0 {
        lemma_short_pairs(d, min_per_pair, i, (j - 1) as nat);
        let last = observed(d, i as int, j - 1);
    } else if i > 0 {
        lemma_short_pairs(d, min_per_pair, (i - 1) as nat, d.nodes());
    }
}

/// Judges the delivery of a run.
pub fn judge(cfg: &Config, d: &Delivery) -> (r: Verdict)
    requires
        d.complete(),
    ensures
        r.enough_per_pair == enough_per_pair(*d, cfg.min_per_pair as nat),
        r.losses_within == losses_within(*d, cfg.max_loss_ratio@),
        r.short_pairs@ == short_pairs(*d, cfg.min_per_pair as nat, d.nodes(), 0),
        r.node_losses@.len() == d.nodes(),
        forall|i: int| 0 <= i < d.nodes() ==> (#[trigger] r.node_losses@[i])@ == node_loss(*d, i),
        r.average_loss@ == average_loss(*d),
{
    let n: usize = d.sent.len();
    let mut shorts: Vec<ShortPair> = Vec::new();
    let mut losses: Vec<Binary64> = Vec::new();
    let mut within: bool = true;
    let mut total: Binary64 = Binary64::of(0);
    let mut count: u128 = 0;
    let mut i: usize = 0;
    while i < n
        invariant
            d.complete(),
            n == d.nodes(),
            i <= n,
            shorts@ == short_pairs(*d, cfg.min_per_pair as nat, i as nat, 0),
            losses@.len() == i,
            forall|k: int| 0 <= k < i ==> (#[trigger] losses@[k])@ == node_loss(*d, k),
            within <==> forall|k: int|
                0 <= k < i ==> !cfg.max_loss_ratio@.less(#[trigger] node_loss(*d, k)),
            total@ == total_loss(*d, i as nat, 0),
            count == pair_count(*d, i as nat, 0),
            count <= i * (u32::MAX as u128),
        decreases n - i,
    {
        let mut j: usize = 0;
        while j < n
            invariant
                d.complete(),
                n == d.nodes(),
                i < n,
                j <= n,
                shorts@ == short_pairs(*d, cfg.min_per_pair as nat, i as nat, j as nat),
                total@ == total_loss(*d, i as nat, j as nat),
                count == pair_count(*d, i as nat, j as nat),
                count <= i * (u32::MAX as u128) + j,
            decreases n - j,
        {
            if j != i {
                total = total.plus(loss_of_pair(d, i, j));
                count = count + 1;
                let seen: u64 = d.observed[i][j];
                if seen < cfg.min_per_pair {
                    shorts.push(ShortPair { to: i, from: j, observed: seen });
                }
            }
            j = j + 1;
        }
        let loss: Binary64 = loss_of_node(d, i);
        if cfg.max_loss_ratio.less(loss) {
            within = false;
        }
        losses.push(loss);
        i = i + 1;
    }
    proof {
        lemma_short_pairs(*d, cfg.min_per_pair as nat, n as nat, 0);
    }
    Verdict {
        enough_per_pair: shorts.len() == 0,
        losses_within: within,
        short_pairs: shorts,
        node_losses: losses,
        average_loss: if count == 0 {
            Binary64::of(0)
        } else {
            total.over(Binary64::of(count))
        },
    }
}

/// A run in which every node received all that every other node sent passes,
/// where that is enough for a pair and the loss budget is not negative.
pub proof fn law_full_delivery_passes(d: Delivery, min_per_pair: nat, max_loss: binary64::Value)
    requires
        forall|i: int, j: int|
            0 <= i < d.nodes() && 0 <= j < d.nodes() && i != j ==> #[trigger] observed(d, i, j)
                >= expected(d, j) && observed(d, i, j) >= min_per_pair,
        !max_loss.less(binary64::Value::of(0)),
    ensures
        enough_per_pair(d, min_per_pair),
        losses_within(d, max_loss),
{
    binary64::lemma_of_exact(0);
    assert forall|i: int| 0 <= i < d.nodes() implies !max_loss.less(
        #[trigger] node_loss(d, i),
    ) by {
        lemma_nothing_missed(d, i, d.nodes());
        if row_expected(d, i, d.nodes()) > 0 {
            binary64::lemma_zero_over(row_expected(d, i, d.nodes()));
        }
    }
}

proof fn lemma_nothing_missed(d: Delivery, i: int, j: nat)
    requires
        0 <= i < d.nodes(),
        j <= d.nodes(),
        forall|a: int, b: int|
            0 <= a < d.nodes() && 0 <= b < d.nodes() && a != b ==> #[trigger] observed(d, a, b)
                >= expected(d, b),
    ensures
        row_missing(d, i, j) == 0,
    decreases j,
{
    if j > 0 {
        lemma_nothing_missed(d, i, (j - 1) as nat);
        if j - 1 != i {
            let seen = observed(d, i, j - 1);
        }
    }
}

/// A run in which some node received nothing of another fails, where a pair
/// has a minimum.
pub proof fn law_silent_pair_fails(d: Delivery, min_per_pair: nat, i: int, j: int)
    requires
        0 <= i < d.nodes(),
        0 <= j < d.nodes(),
        i != j,
        observed(d, i, j) == 0,
        min_per_pair > 0,
    ensures
        !enough_per_pair(d, min_per_pair),
{
}

/// No node misses more than it expects.
pub proof fn law_loss_is_a_share(d: Delivery, i: int, j: nat)
    ensures
        row_missing(d, i, j) <= row_expected(d, i, j),
    decreases j,
{
    if j > 0 {
        law_loss_is_a_share(d, i, (j - 1) as nat);
    }
}

/// A sequence number that arrives twice counts once.
pub proof fn law_duplicates_count_once(heard: Set<u64>, seq: u64)
    requires
        heard.finite(),
    ensures
        heard.insert(seq).insert(seq) == heard.insert(seq),
        heard.insert(seq).len() == heard.len() + if heard.contains(seq) {
            0nat
        } else {
            1nat
        },
{
    assert(heard.insert(seq).insert(seq) =~= heard.insert(seq));
    if heard.contains(seq) {
        assert(heard.insert(seq) =~= heard);
    }
}

/// What a node broadcasts, every node takes for what it is: the sender and
/// the number of the message.
pub proof fn law_broadcast_is_understood(id: u32, seq: u64)
    ensures
        wire::gossip_of(wire::gossip_bytes(id as nat, seq as nat)) == Some(
            (id as nat, seq as nat),
        ),
{
    wire::law_gossip_frame_reads_back(id, seq);
}

/// A node that heard the messages up to a number, and no others, counts that
/// many.
pub proof fn law_all_messages_are_counted(heard: Set<u64>, sent: u64)
    requires
        forall|seq: u64| #[trigger] heard.contains(seq) <==> seq < sent,
    ensures
        heard.finite(),
        heard.len() == sent,
    decreases sent,
{
    if sent == 0 {
        assert(heard =~= Set::<u64>::empty());
    } else {
        let last = (sent - 1) as u64;
        let before = heard.remove(last);
        assert forall|seq: u64| #[trigger] before.contains(seq) <==> seq < last by {
            assert(heard.contains(seq) <==> seq < sent);
        }
        law_all_messages_are_counted(before, last);
        assert(heard =~= before.insert(last));
    }
}

/// What each node sent that node `i` did not receive; nothing for node `i`
/// itself, and one message at least for every other node.
pub open spec fn missed_shares(d: Delivery, i: int, n: nat) -> Seq<int> {
    Seq::new(
        n,
        |j: int|
            {
                let sent = if d.sent@[j] > 1 {
                    d.sent@[j] as int
                } else {
                    1
                };
                if j == i || d.observed@[i]@[j] >= sent {
                    0
                } else {
                    sent - d.observed@[i]@[j]
                }
            },
    )
}

/// What each node sent that node `i` expects; nothing for node `i` itself, and
/// one message at least for every other node.
pub open spec fn expected_shares(d: Delivery, i: int, n: nat) -> Seq<int> {
    Seq::new(
        n,
        |j: int|
            if j == i {
                0
            } else if d.sent@[j] > 1 {
                d.sent@[j] as int
            } else {
                1
            },
    )
}

/// What a node missed is the sum over all other nodes of what it missed of
/// each, and what it expects is the sum over all other nodes of what each
/// sent.
pub proof fn law_node_sums_cover_every_sender(d: Delivery, i: int, n: nat)
    ensures
        row_missing(d, i, n) == missed_shares(d, i, n).fold_left(0, |a: int, x: int| a + x),
        row_expected(d, i, n) == expected_shares(d, i, n).fold_left(0, |a: int, x: int| a + x),
    decreases n,
{
    if n > 0 {
        let before = (n - 1) as nat;
        law_node_sums_cover_every_sender(d, i, before);
        assert(missed_shares(d, i, n).drop_last() =~= missed_shares(d, i, before));
        assert(expected_shares(d, i, n).drop_last() =~= expected_shares(d, i, before));
    }
}

/// One more sender adds its own share to what a node missed and expects, and
/// takes nothing of the shares of the senders before it. A node is no sender
/// for itself.
pub proof fn law_every_sender_adds_its_share(d: Delivery, i: int, j: nat)
    ensures
        row_missing(d, i, 0) == 0,
        row_expected(d, i, 0) == 0,
        j == i ==> row_missing(d, i, j + 1) == row_missing(d, i, j) && row_expected(d, i, j + 1)
            == row_expected(d, i, j),
        j != i ==> {
            let sent = if d.sent@[j as int] == 0 {
                1
            } else {
                d.sent@[j as int] as int
            };
            let seen = d.observed@[i]@[j as int] as int;
            &&& row_expected(d, i, j + 1) - row_expected(d, i, j) == sent
            &&& seen >= sent ==> row_missing(d, i, j + 1) == row_missing(d, i, j)
            &&& seen < sent ==> row_missing(d, i, j + 1) - row_missing(d, i, j) == sent - seen
        },
{
}

/// A message less from any one sender is a message more that the node missed;
/// it changes neither what the node expects nor what other nodes missed.
pub proof fn law_missed_message_counts(full: Delivery, short: Delivery, i: int, j: int, n: nat)
    requires
        full.sent@ == short.sent@,
        0 <= j < n,
        i != j,
        short.observed@[i]@[j] < full.observed@[i]@[j] <= full.sent@[j],
        forall|a: int, b: int|
            (a != i || b != j) ==> #[trigger] full.observed@[a]@[b] == short.observed@[a]@[b],
    ensures
        row_missing(short, i, n) - row_missing(full, i, n) == full.observed@[i]@[j]
            - short.observed@[i]@[j],
        row_expected(short, i, n) == row_expected(full, i, n),
        forall|a: int| a != i ==> #[trigger] row_missing(short, a, n) == row_missing(full, a, n),
    decreases n,
{
    let before = (n - 1) as nat;
    lemma_same_expected(full, short, i, n);
    assert forall|a: int| a != i implies #[trigger] row_missing(short, a, n) == row_missing(
        full,
        a,
        n,
    ) by {
        lemma_same_row(full, short, a, n);
    }
    if j == n - 1 {
        lemma_same_row_before(full, short, i, j, before);
    } else {
        law_missed_message_counts(full, short, i, j, before);
        if n - 1 != i {
            assert(full.observed@[i]@[n - 1] == short.observed@[i]@[n - 1]);
        }
    }
}

proof fn lemma_same_expected(a: Delivery, b: Delivery, i: int, n: nat)
    requires
        a.sent@ == b.sent@,
    ensures
        row_expected(a, i, n) == row_expected(b, i, n),
    decreases n,
{
    if n > 0 {
        lemma_same_expected(a, b, i, (n - 1) as nat);
    }
}

proof fn lemma_same_row(a: Delivery, b: Delivery, i: int, n: nat)
    requires
        a.sent@ == b.sent@,
        forall|k: int| #[trigger] a.observed@[i]@[k] == b.observed@[i]@[k],
    ensures
        row_missing(a, i, n) == row_missing(b, i, n),
    decreases n,
{
    if n > 0 {
        lemma_same_row(a, b, i, (n - 1) as nat);
        assert(a.observed@[i]@[n - 1] == b.observed@[i]@[n - 1]);
    }
}

proof fn lemma_same_row_before(a: Delivery, b: Delivery, i: int, j: int, n: nat)
    requires
        a.sent@ == b.sent@,
        n <= j,
        forall|k: int| k != j ==> #[trigger] a.observed@[i]@[k] == b.observed@[i]@[k],
    ensures
        row_missing(a, i, n) == row_missing(b, i, n),
    decreases n,
{
    if n > 0 {
        lemma_same_row_before(a, b, i, j, (n - 1) as nat);
        assert(a.observed@[i]@[n - 1] == b.observed@[i]@[n - 1]);
    }
}

/// The loss ratio of a node is the number nearest to what it missed of all
/// other nodes over what all other nodes sent, where there are such numbers.
pub proof fn law_node_loss_is_missed_over_expected(d: Delivery, i: int)
    requires
        0 <= i < d.nodes(),
        d.nodes() >= 2,
        expected_shares(d, i, d.nodes()).fold_left(0, |a: int, x: int| a + x)
            <= rounding::SIGNIFICAND_LIMIT,
    ensures
        node_loss(d, i) == binary64::Value::ratio(
            missed_shares(d, i, d.nodes()).fold_left(0, |a: int, x: int| a + x) as nat,
            expected_shares(d, i, d.nodes()).fold_left(0, |a: int, x: int| a + x) as nat,
        ),
{
    let n = d.nodes();
    law_node_sums_cover_every_sender(d, i, n);
    law_loss_is_a_share(d, i, n);
    lemma_something_expected(d, i, n);
    binary64::law_quotient_is_nearest(row_missing(d, i, n), row_expected(d, i, n));
}

proof fn lemma_something_expected(d: Delivery, i: int, n: nat)
    ensures
        n >= 1 && i != 0 ==> row_expected(d, i, n) > 0,
        n >= 2 ==> row_expected(d, i, n) > 0,
        n == 1 && i == 0 ==> row_expected(d, i, n) == 0,
    decreases n,
{
    reveal_with_fuel(row_expected, 3);
    if n > 2 {
        lemma_something_expected(d, i, (n - 1) as nat);
    } else if n == 2 {
        lemma_something_expected(d, i, 1);
    }
}

/// The losses are within a budget exactly where no node missed a larger share
/// of what all other nodes sent: one node above the budget is enough to fail.
pub proof fn law_every_node_keeps_the_loss_budget(d: Delivery, max_loss: binary64::Value)
    requires
        d.nodes() >= 2,
        forall|i: int|
            0 <= i < d.nodes() ==> (#[trigger] expected_shares(d, i, d.nodes())).fold_left(
                0,
                |a: int, x: int| a + x,
            ) <= rounding::SIGNIFICAND_LIMIT,
    ensures
        losses_within(d, max_loss) <==> forall|i: int|
            0 <= i < d.nodes() ==> !max_loss.less(
                binary64::Value::ratio(
                    (#[trigger] missed_shares(d, i, d.nodes())).fold_left(
                        0,
                        |a: int, x: int| a + x,
                    ) as nat,
                    expected_shares(d, i, d.nodes()).fold_left(0, |a: int, x: int| a + x) as nat,
                ),
            ),
{
    assert forall|i: int| 0 <= i < d.nodes() implies #[trigger] node_loss(d, i)
        == binary64::Value::ratio(
        missed_shares(d, i, d.nodes()).fold_left(0, |a: int, x: int| a + x) as nat,
        expected_shares(d, i, d.nodes()).fold_left(0, |a: int, x: int| a + x) as nat,
    ) by {
        let e = expected_shares(d, i, d.nodes());
        law_node_loss_is_missed_over_expected(d, i);
    }
    if losses_within(d, max_loss) {
        assert forall|i: int| 0 <= i < d.nodes() implies !max_loss.less(
            binary64::Value::ratio(
                (#[trigger] missed_shares(d, i, d.nodes())).fold_left(0, |a: int, x: int| a + x) as nat,
                expected_shares(d, i, d.nodes()).fold_left(0, |a: int, x: int| a + x) as nat,
            ),
        ) by {
            let loss = node_loss(d, i);
        }
    } else {
        let i = choose|i: int| 0 <= i < d.nodes() && max_loss.less(#[trigger] node_loss(d, i));
        let m = missed_shares(d, i, d.nodes());
    }
}

/// Enough arrived exactly where every node counts the minimum from every
/// other node; what a node counts from itself does not matter.
pub proof fn law_every_pair_needs_its_minimum(d: Delivery, min_per_pair: nat)
    ensures
        enough_per_pair(d, min_per_pair) <==> forall|i: int, j: int|
            0 <= i < d.sent@.len() && 0 <= j < d.sent@.len() && i != j ==> #[trigger] d.observed@[i]@[j]
                >= min_per_pair,
{
    if enough_per_pair(d, min_per_pair) {
        assert forall|i: int, j: int|
            0 <= i < d.sent@.len() && 0 <= j < d.sent@.len() && i != j implies #[trigger] d.observed@[i]@[j]
            >= min_per_pair by {
            let seen = observed(d, i, j);
        }
    }
}

/// The loss of a pair is one less the share that arrived of what was sent: all
/// of it where more arrived than was sent, and one message where none was.
pub proof fn law_pair_loss_is_what_did_not_arrive(d: Delivery, i: int, j: int)
    requires
        d.sent@[j] <= rounding::SIGNIFICAND_LIMIT,
        d.observed@[i]@[j] <= rounding::SIGNIFICAND_LIMIT,
    ensures
        ({
            let sent = if d.sent@[j] == 0 {
                1nat
            } else {
                d.sent@[j] as nat
            };
            let seen = d.observed@[i]@[j] as nat;
            pair_loss(d, i, j) == binary64::Value::of(1).minus(
                binary64::Value::ratio(
                    if seen < sent {
                        seen
                    } else {
                        sent
                    },
                    sent,
                ),
            )
        }),
        d.observed@[i]@[j] == 0 ==> pair_loss(d, i, j) == binary64::Value::of(1),
        d.observed@[i]@[j] >= d.sent@[j] && d.observed@[i]@[j] >= 1 ==> pair_loss(d, i, j)
            == binary64::Value::of(0),
{
    let sent = expected(d, j);
    let seen = observed(d, i, j);
    let one = binary64::Value::of(1);
    binary64::lemma_of_exact(0);
    binary64::lemma_of_exact(1);
    lemma_pow2_pos(1074);
    binary64::law_quotient_is_nearest(seen, sent);
    binary64::lemma_ratio_finite(seen, sent);
    binary64::lemma_over_self(sent);
    binary64::law_quotient_is_nearest(sent, sent);
    if seen >= sent {
        assert(sent * sent <= seen * sent) by (nonlinear_arith)
            requires
                sent <= seen,
        ;
        binary64::law_ratio_keeps_order(sent, sent, seen, sent);
        assert(binary64::Value::of(seen).over(binary64::Value::of(sent)).smaller(one) == one);
    } else {
        assert(seen * sent <= sent * sent) by (nonlinear_arith)
            requires
                seen <= sent,
        ;
        binary64::law_ratio_keeps_order(seen, sent, sent, sent);
        if seen == 0 {
            binary64::lemma_zero_over(sent);
            rounding::lemma_representable(1, 1074);
        }
    }
}

/// The reported loss of a mesh is the sum of the losses of all pairs of two
/// nodes, row by row, over their number.
pub proof fn law_average_covers_every_pair(d: Delivery, i: nat, j: nat)
    ensures
        total_loss(d, 0, 0) == binary64::Value::of(0),
        total_loss(d, i + 1, 0) == total_loss(d, i, d.sent@.len()),
        i == j ==> total_loss(d, i, j + 1) == total_loss(d, i, j),
        i != j ==> total_loss(d, i, j + 1) == total_loss(d, i, j).plus(
            pair_loss(d, i as int, j as int),
        ),
        d.sent@.len() < 2 ==> average_loss(d) == binary64::Value::of(0),
        d.sent@.len() >= 2 ==> average_loss(d) == total_loss(d, d.sent@.len(), 0).over(
            binary64::Value::of((d.sent@.len() * (d.sent@.len() - 1)) as nat),
        ),
{
    let n = d.nodes();
    lemma_pairs(d, n, 0);
    assert(n >= 2 ==> n * (n - 1) >= 2) by (nonlinear_arith);
    assert(n < 2 ==> n * (n - 1) == 0) by (nonlinear_arith)
        requires
            n >= 0,
    ;
}

proof fn lemma_pairs(d: Delivery, i: nat, j: nat)
    requires
        j <= d.nodes(),
        i <= d.nodes(),
        i == d.nodes() ==> j == 0,
    ensures
        d.nodes() > 0 ==> pair_count(d, i, j) == i * (d.nodes() - 1) + j - if j > i {
            1int
        } else {
            0int
        },
        d.nodes() == 0 ==> pair_count(d, i, j) == 0,
    decreases i, j,
{
    let n = d.nodes();
    if j > 0 {
        lemma_pairs(d, i, (j - 1) as nat);
    } else if i > 0 {
        lemma_pairs(d, (i - 1) as nat, n);
        assert((i - 1) * (n - 1) + n - 1 == i * (n - 1)) by (nonlinear_arith);
    } else {
        assert(0 * (n - 1) == 0) by (nonlinear_arith);
    }
}

/// The short pairs are all the pairs of two nodes between which less than the
/// minimum arrived, each with what did arrive, and no others.
pub proof fn law_short_pairs_are_those_below_the_minimum(
    d: Delivery,
    min_per_pair: nat,
    pair: ShortPair,
)
    requires
        d.sent@.len() <= u32::MAX,
    ensures
        short_pairs(d, min_per_pair, d.sent@.len(), 0).contains(pair) <==> pair.to
            < d.sent@.len() && pair.from < d.sent@.len() && pair.to != pair.from && pair.observed
            == d.observed@[pair.to as int]@[pair.from as int] && pair.observed < min_per_pair,
        short_pairs(d, min_per_pair, d.sent@.len(), 0).no_duplicates(),
{
    lemma_shorts(d, min_per_pair, d.nodes(), 0, pair);
    lemma_shorts_once(d, min_per_pair, d.nodes(), 0);
}

proof fn lemma_shorts(d: Delivery, min_per_pair: nat, i: nat, j: nat, pair: ShortPair)
    requires
        d.nodes() <= u32::MAX,
        i <= d.nodes(),
        j <= d.nodes(),
        i == d.nodes() ==> j == 0,
    ensures
        short_pairs(d, min_per_pair, i, j).contains(pair) <==> pair.to < d.nodes() && pair.from
            < d.nodes() && (pair.to < i || pair.to == i && pair.from < j) && pair.to != pair.from
            && pair.observed == d.observed@[pair.to as int]@[pair.from as int] && pair.observed
            < min_per_pair,
    decreases i, j,
{
    if j > 0 {
        lemma_shorts(d, min_per_pair, i, (j - 1) as nat, pair);
        let before = short_pairs(d, min_per_pair, i, (j - 1) as nat);
        let last = ShortPair {
            to: i as usize,
            from: (j - 1) as usize,
            observed: observed(d, i as int, j - 1) as u64,
        };
        lemma_pushed(before, last, pair);
    } else if i > 0 {
        lemma_shorts(d, min_per_pair, (i - 1) as nat, d.nodes(), pair);
    } else {
        assert(!short_pairs(d, min_per_pair, 0, 0).contains(pair));
    }
}

proof fn lemma_pushed(before: Seq<ShortPair>, last: ShortPair, pair: ShortPair)
    ensures
        before.push(last).contains(pair) <==> before.contains(pair) || pair == last,
{
    let after = before.push(last);
    assert(after[before.len() as int] == last);
    if before.contains(pair) {
        let k = choose|k: int| 0 <= k < before.len() && before[k] == pair;
        assert(after[k] == pair);
    }
    if after.contains(pair) {
        let k = choose|k: int| 0 <= k < after.len() && after[k] == pair;
        assert(k < before.len() ==> before[k] == pair);
    }
}

proof fn lemma_shorts_once(d: Delivery, min_per_pair: nat, i: nat, j: nat)
    requires
        d.nodes() <= u32::MAX,
        i <= d.nodes(),
        j <= d.nodes(),
        i == d.nodes() ==> j == 0,
    ensures
        short_pairs(d, min_per_pair, i, j).no_duplicates(),
    decreases i, j,
{
    if j > 0 {
        lemma_shorts_once(d, min_per_pair, i, (j - 1) as nat);
        let before = short_pairs(d, min_per_pair, i, (j - 1) as nat);
        let last = ShortPair {
            to: i as usize,
            from: (j - 1) as usize,
            observed: observed(d, i as int, j - 1) as u64,
        };
        lemma_shorts(d, min_per_pair, i, (j - 1) as nat, last);
        assert(!before.contains(last));
    } else if i > 0 {
        lemma_shorts_once(d, min_per_pair, (i - 1) as nat, d.nodes());
    }
}

/// A run passes exactly where enough arrived between all pairs and no node lost
/// too much.
pub proof fn law_pass_needs_every_part(v: Verdict)
    ensures
        v.is_pass() <==> v.enough_per_pair && v.losses_within,
{
}

/// What a node heard of another is what it noted of it, and nothing where it
/// noted nothing.
pub proof fn law_heard_is_what_was_noted(node: NodeState, from: u32)
    ensures
        node.received@.dom().contains(from) ==> node.heard(from) == node.received@[from]@,
        !node.received@.dom().contains(from) ==> node.heard(from) == Set::<u64>::empty(),
{
}

/// A delivery is complete exactly where it has a row for each sender, with a
/// count for each.
pub proof fn law_complete_means_a_count_for_every_pair(d: Delivery)
    ensures
        d.complete() <==> d.sent@.len() <= u32::MAX && d.observed@.len() == d.sent@.len() && forall|
            i: int,
        |
            0 <= i < d.observed@.len() ==> (#[trigger] d.observed@[i])@.len() == d.sent@.len(),
        d.nodes() == d.sent@.len(),
{
}

/// A run passes exactly where every node counts the minimum from every other
/// node, and where no node missed a larger share than the budget of what all
/// other nodes sent. The losses that it reports are these shares.
pub proof fn law_verdict_weighs_pairs_and_nodes(cfg: Config, d: Delivery, v: Verdict)
    requires
        call_ensures(judge, (&cfg, &d), v),
        d.nodes() >= 2,
        forall|i: int|
            0 <= i < d.nodes() ==> (#[trigger] expected_shares(d, i, d.nodes())).fold_left(
                0,
                |a: int, x: int| a + x,
            ) <= rounding::SIGNIFICAND_LIMIT,
    ensures
        v.is_pass() <==> (forall|i: int, j: int|
            0 <= i < d.sent@.len() && 0 <= j < d.sent@.len() && i != j ==> #[trigger] d.observed@[i]@[j]
                >= cfg.min_per_pair) && (forall|i: int|
            0 <= i < d.nodes() ==> !cfg.max_loss_ratio@.less(
                binary64::Value::ratio(
                    (#[trigger] missed_shares(d, i, d.nodes())).fold_left(
                        0,
                        |a: int, x: int| a + x,
                    ) as nat,
                    expected_shares(d, i, d.nodes()).fold_left(0, |a: int, x: int| a + x) as nat,
                ),
            )),
        v.node_losses@.len() == d.sent@.len(),
        forall|i: int|
            0 <= i < d.nodes() ==> (#[trigger] v.node_losses@[i])@ == binary64::Value::ratio(
                missed_shares(d, i, d.nodes()).fold_left(0, |a: int, x: int| a + x) as nat,
                expected_shares(d, i, d.nodes()).fold_left(0, |a: int, x: int| a + x) as nat,
            ),
        v.enough_per_pair <==> v.short_pairs@.len() == 0,
{
    law_every_node_keeps_the_loss_budget(d, cfg.max_loss_ratio@);
    law_every_pair_needs_its_minimum(d, cfg.min_per_pair as nat);
    assert forall|i: int| 0 <= i < d.nodes() implies (#[trigger] v.node_losses@[i])@
        == binary64::Value::ratio(
        missed_shares(d, i, d.nodes()).fold_left(0, |a: int, x: int| a + x) as nat,
        expected_shares(d, i, d.nodes()).fold_left(0, |a: int, x: int| a + x) as nat,
    ) by {
        let e = expected_shares(d, i, d.nodes());
        law_node_loss_is_missed_over_expected(d, i);
    }
    lemma_short_pairs(d, cfg.min_per_pair as nat, d.nodes(), 0);
    assert(v.enough_per_pair == enough_per_pair(d, cfg.min_per_pair as nat));
}

/// A node that receives a frame has heard its number from its sender, once. A
/// message that is no frame changes nothing.
pub proof fn law_received_frame_is_heard(
    from: u32,
    seq: u64,
    frame: Bytes,
    node: &mut NodeState,
    noise: Bytes,
    other: &mut NodeState,
)
    requires
        call_ensures(wire::gossip_frame, (from, seq), frame),
        call_ensures(NodeState::receive, (node, &frame), ()),
        call_ensures(NodeState::receive, (other, &noise), ()),
        wire::contents(noise).len() < 12,
    ensures
        final(node).heard(from) == old(node).heard(from).insert(seq),
        *final(other) == *old(other),
{
    wire::law_gossip_frame_reads_back(from, seq);
    wire::law_gossip_is_read_from_the_front(wire::contents(noise), Seq::empty());
}

/// What a sender broadcasts is the frame of its id and the number of messages
/// that it sent before.
pub proof fn law_broadcasts_are_numbered(
    sender: &mut Broadcaster,
    frame: Bytes,
    read: Option<(u32, u64)>,
)
    requires
        call_ensures(Broadcaster::next_frame, (sender,), frame),
        call_ensures(wire::read_gossip, (&frame,), read),
    ensures
        read == Some((old(sender).id, old(sender).seq)),
        final(sender).seq == old(sender).seq + 1,
        final(sender).id == old(sender).id,
{
    wire::law_gossip_frame_reads_back(sender.id, sender.seq);
}

} // verus!
