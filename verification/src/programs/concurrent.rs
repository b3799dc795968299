//! Many clients at once against one server: every client connects, and every
//! ping is echoed.

use bytes::Bytes;
use vstd::prelude::*;

use crate::binary64;
use crate::binary64::Binary64;
use crate::env;
use crate::env::Environment;
use crate::resources;
use crate::session;
use crate::session::Wait;
use crate::time;
use crate::time::Duration;
use crate::wire;

verus! {

/// What a ping is filled with.
pub const PAYLOAD_BYTE: u8 = 0xCD;

/// Milliseconds between two looks at the clients.
pub const POLL_MS: u64 = 25;

/// The settings of a run.
#[derive(Clone, Copy, PartialEq, Eq, Structural, Debug)]
pub struct Config {
    pub clients: usize,
    /// Pings per client.
    pub pings: usize,
    /// Bytes in a ping.
    pub payload: usize,
    /// The budget of the whole run.
    pub budget: Duration,
    /// The largest growth of the peak memory, in percent.
    pub max_growth_pct: Binary64,
}

impl Config {
    /// The settings that an environment asks for.
    pub fn from_env(e: &Environment) -> (r: Config)
        ensures
            r.clients == env::asked_whole(e, "QA_CC_CLIENTS"@, usize::MAX as nat, 50),
            r.pings == env::asked_whole(e, "QA_CC_PINGS_PER"@, usize::MAX as nat, 10),
            r.payload == env::asked_whole(e, "QA_CC_PAYLOAD"@, usize::MAX as nat, 256),
            r.budget.nanos == env::asked_whole(e, "QA_CC_TIMEOUT_S"@, u64::MAX as nat, 30)
                * time::NANOS_PER_SEC,
            match e.number_of("QA_CC_RSS_GROWTH_PCT"@) {
                Some(n) => r.max_growth_pct == n,
                None => r.max_growth_pct@ == binary64::Value::of(80),
            },
    {
        let clients: usize = env::env_or(e, "QA_CC_CLIENTS", 50usize);
        let pings: usize = env::env_or(e, "QA_CC_PINGS_PER", 10usize);
        let payload: usize = env::env_or(e, "QA_CC_PAYLOAD", 256usize);
        Config {
            clients,
            pings,
            payload,
            budget: env::duration_secs(e, "QA_CC_TIMEOUT_S", 30),
            max_growth_pct: env::env_number_or(e, "QA_CC_RSS_GROWTH_PCT", Binary64::of(80)),
        }
    }

    /// The ping that the clients send.
    pub fn ping(&self) -> (r: Bytes)
        requires
            self.payload <= isize::MAX as usize,
        ensures
            wire::contents(r) == Seq::new(self.payload as nat, |i: int| PAYLOAD_BYTE),
    {
        wire::filler(PAYLOAD_BYTE, self.payload)
    }
}

/// What one client has seen.
#[derive(Clone, Copy, PartialEq, Eq, Structural, Debug)]
pub struct Client {
    pub connected: bool,
    pub acked: usize,
}

/// The clients of a run.
pub struct Fleet {
    pub clients: Vec<Client>,
    /// Pings per client.
    pub pings: usize,
    /// When the run began.
    pub started: u128,
    /// The budget of the whole run.
    pub budget: Duration,
}

/// How many clients are connected.
pub open spec fn connected_count(clients: Seq<Client>) -> nat
    decreases clients.len(),
{
    if clients.len() == 0 {
        0
    } else {
        connected_count(clients.drop_last()) + if clients.last().connected {
            1nat
        } else {
            0nat
        }
    }
}

/// How many echoes the clients have, all together.
pub open spec fn echo_count(clients: Seq<Client>) -> nat
    decreases clients.len(),
{
    if clients.len() == 0 {
        0
    } else {
        echo_count(clients.drop_last()) + clients.last().acked as nat
    }
}

impl Fleet {
    /// Whether every client is connected.
    pub open spec fn all_connected(&self) -> bool {
        forall|i: int| 0 <= i < self.clients@.len() ==> (#[trigger] self.clients@[i]).connected
    }

    /// Whether every client has all its echoes.
    pub open spec fn all_echoed(&self) -> bool {
        forall|i: int|
            0 <= i < self.clients@.len() ==> (#[trigger] self.clients@[i]).acked >= self.pings
    }

    /// Clients that have seen nothing.
    pub fn new(clients: usize, pings: usize, started: u128, budget: Duration) -> (r: Fleet)
        ensures
            r.pings == pings,
            r.started == started,
            r.budget == budget,
            r.clients@ == Seq::new(clients as nat, |i: int| Client { connected: false, acked: 0 }),
    {
        let mut list: Vec<Client> = Vec::new();
        let mut i: usize = 0;
        while i < clients
            invariant
                i <= clients,
                list@.len() == i,
                forall|k: int|
                    0 <= k < i ==> #[trigger] list@[k] == (Client { connected: false, acked: 0 }),
            decreases clients - i,
        {
            list.push(Client { connected: false, acked: 0 });
            i = i + 1;
        }
        assert(list@ =~= Seq::new(clients as nat, |i: int| Client { connected: false, acked: 0 }));
        Fleet { clients: list, pings, started, budget }
    }

    /// A client connected.
    pub fn on_connected(&mut self, i: usize)
        requires
            i < old(self).clients@.len(),
        ensures
            final(self).pings == old(self).pings,
            final(self).started == old(self).started,
            final(self).budget == old(self).budget,
            final(self).clients@ == old(self).clients@.update(
                i as int,
                Client { connected: true, ..old(self).clients@[i as int] },
            ),
    {
        let before: Client = self.clients[i];
        self.clients.set(i, Client { connected: true, acked: before.acked });
    }

    /// An echo arrived at a client. Says whether it has all of them.
    pub fn on_echo(&mut self, i: usize) -> (r: bool)
        requires
            i < old(self).clients@.len(),
        ensures
            final(self).pings == old(self).pings,
            final(self).started == old(self).started,
            final(self).budget == old(self).budget,
            final(self).clients@ == old(self).clients@.update(
                i as int,
                Client {
                    acked: old(self).clients@[i as int].acked.wrapping_add(1),
                    ..old(self).clients@[i as int]
                },
            ),
            r == (final(self).clients@[i as int].acked >= old(self).pings),
    {
        let before: Client = self.clients[i];
        let acked: usize = before.acked.wrapping_add(1);
        self.clients.set(i, Client { connected: before.connected, acked });
        acked >= self.pings
    }

    /// How many clients are connected.
    pub fn connected(&self) -> (r: usize)
        ensures
            r == connected_count(self.clients@),
            r <= self.clients@.len(),
            r == self.clients@.len() <==> self.all_connected(),
    {
        let mut n: usize = 0;
        let mut i: usize = 0;
        proof {
            assert(self.clients@.take(0) =~= Seq::empty());
        }
        while i < self.clients.len()
            invariant
                n <= i <= self.clients@.len(),
                n == connected_count(self.clients@.take(i as int)),
                n == i <==> forall|k: int|
                    0 <= k < i ==> (#[trigger] self.clients@[k]).connected,
            decreases self.clients@.len() - i,
        {
            proof {
                assert(self.clients@.take(i + 1).drop_last() =~= self.clients@.take(i as int));
            }
            if self.clients[i].connected {
                n = n + 1;
            }
            i = i + 1;
        }
        proof {
            assert(self.clients@.take(self.clients@.len() as int) =~= self.clients@);
        }
        n
    }

    /// Whether every client has all its echoes.
    pub fn is_echoed(&self) -> (r: bool)
        ensures
            r == self.all_echoed(),
    {
        let mut i: usize = 0;
        while i < self.clients.len()
            invariant
                i <= self.clients@.len(),
                forall|k: int|
                    0 <= k < i ==> (#[trigger] self.clients@[k]).acked >= self.pings,
            decreases self.clients@.len() - i,
        {
            if self.clients[i].acked < self.pings {
                return false;
            }
            i = i + 1;
        }
        true
    }

    /// How many echoes the clients have, all together.
    pub fn echoes(&self) -> (r: u128)
        ensures
            r == echo_count(self.clients@),
    {
        let mut n: u128 = 0;
        let mut i: usize = 0;
        proof {
            assert(self.clients@.take(0) =~= Seq::empty());
        }
        while i < self.clients.len()
            invariant
                i <= self.clients@.len(),
                n == echo_count(self.clients@.take(i as int)),
                n <= i * (u64::MAX as u128),
            decreases self.clients@.len() - i,
        {
            proof {
                assert(self.clients@.take(i + 1).drop_last() =~= self.clients@.take(i as int));
            }
            n = n + self.clients[i].acked as u128;
            i = i + 1;
        }
        proof {
            assert(self.clients@.take(self.clients@.len() as int) =~= self.clients@);
        }
        n
    }

    /// What is left of the budget of the run.
    pub fn left(&self, now: u128) -> (r: Duration)
        ensures
            r.nanos == session::left_of(self.started, now, self.budget),
    {
        session::left(self.started, now, self.budget)
    }

    /// How the wait for the connections goes on.
    pub fn poll_connected(&self, now: u128) -> (r: Wait)
        ensures
            r == session::wait_state(self.all_connected(), self.started, now, self.budget),
    {
        let come: bool = self.connected() == self.clients.len();
        session::poll(come, self.started, now, self.budget)
    }

    /// How the wait for the echoes goes on, under the same budget. It cannot
    /// be over before the last ping is sent.
    pub fn poll_echoed(&self, all_sent: bool, now: u128) -> (r: Wait)
        ensures
            r == session::wait_state(
                all_sent && self.all_echoed(),
                self.started,
                now,
                self.budget,
            ),
    {
        let come: bool = all_sent && self.is_echoed();
        session::poll(come, self.started, now, self.budget)
    }
}

/// The outcome of a run.
#[derive(Clone, Copy, PartialEq, Eq, Structural, Debug)]
pub struct Verdict {
    pub growth_pct: Binary64,
    /// Whether every client connected in time.
    pub all_connected: bool,
    /// Whether every ping was echoed in time.
    pub all_echoed: bool,
    /// Whether every session stayed open.
    pub undisturbed: bool,
    /// Whether the memory stayed bounded.
    pub memory_bounded: bool,
}

impl Verdict {
    pub open spec fn is_pass(self) -> bool {
        self.all_connected && self.all_echoed && self.undisturbed && self.memory_bounded
    }

    /// Whether the run passed.
    pub fn passed(self) -> (r: bool)
        ensures
            r == self.is_pass(),
    {
        self.all_connected && self.all_echoed && self.undisturbed && self.memory_bounded
    }
}

/// Judges a run, with how its two waits ended.
pub fn judge(
    cfg: &Config,
    connecting: Wait,
    pinging: Wait,
    disconnects: u64,
    start_rss: u64,
    end_rss: u64,
) -> (r: Verdict)
    ensures
        r.growth_pct@ == resources::growth_value(start_rss as nat, end_rss as nat),
        r.all_connected == (connecting is Done),
        r.all_echoed == (pinging is Done),
        r.undisturbed == (disconnects == 0),
        r.memory_bounded == !cfg.max_growth_pct@.less(r.growth_pct@),
{
    let growth_pct: Binary64 = resources::growth_pct(start_rss, end_rss);
    Verdict {
        growth_pct,
        all_connected: connecting == Wait::Done,
        all_echoed: pinging == Wait::Done,
        undisturbed: disconnects == 0,
        memory_bounded: !cfg.max_growth_pct.less(growth_pct),
    }
}

/// A client that connects adds one to the connected clients, and nothing where
/// it is connected already.
pub proof fn law_connecting_counts_once(clients: Seq<Client>, i: int)
    requires
        0 <= i < clients.len(),
    ensures
        connected_count(clients.update(i, Client { connected: true, ..clients[i] }))
            == connected_count(clients) + if clients[i].connected {
            0nat
        } else {
            1nat
        },
    decreases clients.len(),
{
    let after = clients.update(i, Client { connected: true, ..clients[i] });
    if i == clients.len() - 1 {
        assert(after.drop_last() =~= clients.drop_last());
    } else {
        law_connecting_counts_once(clients.drop_last(), i);
        assert(after.drop_last() =~= clients.drop_last().update(
            i,
            Client { connected: true, ..clients[i] },
        ));
    }
}

/// A run in which every client has exactly its echoes has as many echoes as
/// clients times pings.
pub proof fn law_echoes_add_up(clients: Seq<Client>, pings: nat)
    requires
        forall|i: int| 0 <= i < clients.len() ==> (#[trigger] clients[i]).acked == pings,
    ensures
        echo_count(clients) == clients.len() * pings,
    decreases clients.len(),
{
    if clients.len() > 0 {
        let front = clients.drop_last();
        law_echoes_add_up(front, pings);
        assert(front.len() * pings + pings == clients.len() * pings) by (nonlinear_arith)
            requires
                front.len() + 1 == clients.len(),
        ;
    }
}

/// The counts of two groups of clients add up.
pub proof fn law_counts_add_up(a: Seq<Client>, b: Seq<Client>)
    ensures
        connected_count(a + b) == connected_count(a) + connected_count(b),
        echo_count(a + b) == echo_count(a) + echo_count(b),
    decreases b.len(),
{
    if b.len() == 0 {
        assert(a + b =~= a);
    } else {
        law_counts_add_up(a, b.drop_last());
        assert((a + b).drop_last() =~= a + b.drop_last());
        assert((a + b).last() == b.last());
    }
}

/// One client counts once where it is connected, and with its own echoes.
pub proof fn law_one_client_counts_for_itself(c: Client)
    ensures
        connected_count(Seq::empty()) == 0,
        echo_count(Seq::empty()) == 0,
        connected_count(seq![c]) == (if c.connected {
            1nat
        } else {
            0nat
        }),
        echo_count(seq![c]) == c.acked,
{
    reveal_with_fuel(connected_count, 2);
    reveal_with_fuel(echo_count, 2);
    assert(seq![c].drop_last() =~= Seq::empty());
}

/// The clients are all connected, or have all their echoes, exactly where each
/// of them is, or has: one that lags behind is enough to wait for.
pub proof fn law_fleet_waits_for_the_last_client(f: Fleet)
    ensures
        f.all_connected() <==> forall|i: int|
            0 <= i < f.clients@.len() ==> (#[trigger] f.clients@[i]).connected,
        f.all_echoed() <==> forall|i: int|
            0 <= i < f.clients@.len() ==> (#[trigger] f.clients@[i]).acked >= f.pings,
        f.all_connected() <==> connected_count(f.clients@) == f.clients@.len(),
{
    lemma_all_connected(f.clients@);
}

proof fn lemma_all_connected(clients: Seq<Client>)
    ensures
        connected_count(clients) <= clients.len(),
        connected_count(clients) == clients.len() <==> forall|i: int|
            0 <= i < clients.len() ==> (#[trigger] clients[i]).connected,
    decreases clients.len(),
{
    if clients.len() > 0 {
        let front = clients.drop_last();
        lemma_all_connected(front);
        if forall|i: int| 0 <= i < clients.len() ==> (#[trigger] clients[i]).connected {
            assert forall|i: int| 0 <= i < front.len() implies (#[trigger] front[i]).connected by {
                assert(clients[i].connected);
            }
        }
        if connected_count(clients) == clients.len() {
            assert forall|i: int| 0 <= i < clients.len() implies (#[trigger] clients[i]).connected by {
                if i < front.len() {
                    assert(front[i].connected);
                }
            }
        }
    }
}

/// A run passes exactly where every part of its verdict holds.
pub proof fn law_pass_needs_every_part(v: Verdict)
    ensures
        v.is_pass() <==> v.all_connected && v.all_echoed && v.undisturbed && v.memory_bounded,
{
}

/// A run passes exactly where both waits came to their end, every session stayed
/// open, and the memory did not grow beyond the limit from the start to the end.
pub proof fn law_verdict_weighs_waits_and_memory(
    cfg: Config,
    connecting: Wait,
    pinging: Wait,
    disconnects: u64,
    start_rss: u64,
    end_rss: u64,
    v: Verdict,
)
    requires
        call_ensures(judge, (&cfg, connecting, pinging, disconnects, start_rss, end_rss), v),
    ensures
        v.is_pass() <==> connecting == Wait::Done && pinging == Wait::Done && disconnects == 0
            && !cfg.max_growth_pct@.less(
            resources::growth_value(start_rss as nat, end_rss as nat),
        ),
        v.growth_pct@ == resources::growth_value(start_rss as nat, end_rss as nat),
{
}

/// A client that connects or gets an echo changes nothing but itself.
pub proof fn law_events_touch_one_client(
    connecting: &mut Fleet,
    echoing: &mut Fleet,
    i: usize,
    other: int,
    all: bool,
)
    requires
        call_ensures(Fleet::on_connected, (connecting, i), ()),
        call_ensures(Fleet::on_echo, (echoing, i), all),
        i < connecting.clients@.len() == echoing.clients@.len(),
        0 <= other < connecting.clients@.len(),
        other != i,
        echoing.clients@[i as int].acked < usize::MAX,
    ensures
        final(connecting).clients@[i as int].connected,
        final(connecting).clients@[i as int].acked == old(connecting).clients@[i as int].acked,
        final(connecting).clients@[other] == old(connecting).clients@[other],
        final(echoing).clients@[i as int].acked == old(echoing).clients@[i as int].acked + 1,
        final(echoing).clients@[i as int].connected == old(echoing).clients@[i as int].connected,
        final(echoing).clients@[other] == old(echoing).clients@[other],
        all <==> old(echoing).clients@[i as int].acked + 1 >= old(echoing).pings,
{
}

} // verus!
