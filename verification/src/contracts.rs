//! What a QUIC transport owes its users, scenario by scenario: the errors of
//! a dial, both transports in one service, idle timeouts and keep-alives,
//! listeners that survive, and dials that are not repeated.

use bytes::Bytes;
use vstd::prelude::*;

use crate::addr;
use crate::addr::Transport;
use crate::time;
use crate::time::Duration;
use crate::wire;

verus! {

/// Whether a text contains another.
pub open spec fn contains_text(s: Seq<char>, part: Seq<char>) -> bool {
    exists|i: int|
        0 <= i <= s.len() - part.len() && #[trigger] s.subrange(i, i + part.len()) == part
}

/// Whether a text goes on with another at a position.
fn goes_on(s: &str, end: usize, at: usize, part: &str, len: usize) -> (r: bool)
    requires
        end == s@.len(),
        len == part@.len(),
        at + len <= end,
    ensures
        r == (s@.subrange(at as int, at + len) == part@),
{
    let ghost stretch = s@.subrange(at as int, at + len);
    let mut k: usize = 0;
    while k < len
        invariant
            k <= len,
            end == s@.len(),
            len == part@.len(),
            at + len <= end,
            stretch == s@.subrange(at as int, at + len),
            forall|j: int| 0 <= j < k ==> stretch[j] == part@[j],
        decreases len - k,
    {
        if s.get_char(at + k) != part.get_char(k) {
            assert(stretch[k as int] != part@[k as int]);
            return false;
        }
        k = k + 1;
    }
    assert(stretch =~= part@);
    true
}

/// Whether a text contains another.
pub fn has_text(s: &str, part: &str) -> (r: bool)
    ensures
        r == contains_text(s@, part@),
{
    let n: usize = s.unicode_len();
    let m: usize = part.unicode_len();
    if m > n {
        return false;
    }
    let mut i: usize = 0;
    while i <= n - m
        invariant
            n == s@.len(),
            m == part@.len(),
            m <= n,
            i <= n - m + 1,
            forall|j: int| 0 <= j < i ==> #[trigger] s@.subrange(j, j + m) != part@,
        decreases n - m + 1 - i,
    {
        if goes_on(s, n, i, part, m) {
            return true;
        }
        if i == n - m {
            return false;
        }
        i = i + 1;
    }
    false
}

/// How a service answers a dial.
pub enum DialOutcome {
    Accepted,
    /// The service has no QUIC at all.
    NotSupported,
    /// The service could have QUIC, but is not configured for it.
    NotConfigured { message: String },
    /// The service is configured for QUIC, but has no identity for it.
    Misconfigured,
    /// The address is no QUIC address.
    InvalidAddress,
    OtherError,
}

/// How a service was built, or which address was dialed.
#[derive(Clone, Copy, PartialEq, Eq, Structural, Debug)]
pub enum Scenario {
    /// Neither an identity nor QUIC.
    Bare,
    /// An identity, but no QUIC.
    IdentityOnly,
    /// QUIC, but no identity.
    QuicOnly,
    /// Both.
    Complete,
    /// Both, and an address that is no QUIC address.
    MalformedAddress,
}

impl Scenario {
    /// Whether the service has an identity.
    pub fn has_identity(self) -> (r: bool)
        ensures
            r == !(self is Bare || self is QuicOnly),
    {
        match self {
            Scenario::Bare => false,
            Scenario::QuicOnly => false,
            _ => true,
        }
    }

    /// Whether the service is configured for QUIC.
    pub fn has_quic(self) -> (r: bool)
        ensures
            r == !(self is Bare || self is IdentityOnly),
    {
        match self {
            Scenario::Bare => false,
            Scenario::IdentityOnly => false,
            _ => true,
        }
    }

    /// Whether an accepted dial may still be refused later.
    pub fn may_be_refused_later(self) -> (r: bool)
        ensures
            r == self is MalformedAddress,
    {
        match self {
            Scenario::MalformedAddress => true,
            _ => false,
        }
    }
}

/// The hint that a user is owed where QUIC is not configured.
pub const HINT: &'static str = "ServiceBuilder::quic_config";

/// Whether a service answered a dial as it should, at once or later. Only a
/// malformed address may be accepted first and refused later.
pub open spec fn owed(scenario: Scenario, at_once: DialOutcome, later: Option<DialOutcome>) -> bool {
    match scenario {
        Scenario::Bare => at_once is NotSupported,
        Scenario::IdentityOnly => at_once matches DialOutcome::NotConfigured { message }
            && contains_text(message@, HINT@),
        Scenario::QuicOnly => at_once is Misconfigured,
        Scenario::Complete => at_once is Accepted,
        Scenario::MalformedAddress => at_once is InvalidAddress || (at_once is Accepted && later
            matches Some(DialOutcome::InvalidAddress)),
    }
}

/// Whether a service answered a dial as it should.
pub fn answers_as_owed(
    scenario: Scenario,
    at_once: &DialOutcome,
    later: &Option<DialOutcome>,
) -> (r: bool)
    ensures
        r == owed(scenario, *at_once, *later),
{
    match scenario {
        Scenario::Bare => match at_once {
            DialOutcome::NotSupported => true,
            _ => false,
        },
        Scenario::IdentityOnly => match at_once {
            DialOutcome::NotConfigured { message } => has_text(message.as_str(), HINT),
            _ => false,
        },
        Scenario::QuicOnly => match at_once {
            DialOutcome::Misconfigured => true,
            _ => false,
        },
        Scenario::Complete => match at_once {
            DialOutcome::Accepted => true,
            _ => false,
        },
        Scenario::MalformedAddress => match at_once {
            DialOutcome::InvalidAddress => true,
            DialOutcome::Accepted => match later {
                Some(DialOutcome::InvalidAddress) => true,
                _ => false,
            },
            _ => false,
        },
    }
}

/// Seconds in which the error behind an accepted dial has to come.
pub const LATER_SECS: u64 = 3;

/// A dial that is tried.
pub struct DialCase {
    pub scenario: Scenario,
    pub address: String,
}

/// A dial that is tried, in the abstract.
pub ghost struct DialCaseView {
    pub scenario: Scenario,
    pub address: Seq<char>,
}

impl View for DialCase {
    type V = DialCaseView;

    open spec fn view(&self) -> DialCaseView {
        DialCaseView { scenario: self.scenario, address: self.address@ }
    }
}

/// The dials that are tried: a sound address in every scenario, and addresses
/// with `/tcp` in place of `/udp`, with two peers, and with a name in place of
/// an address.
pub open spec fn all_cases(peer_id: Seq<char>) -> Seq<DialCaseView> {
    let sound = "/ip4/127.0.0.1/udp/4433/quic-v1"@;
    seq![
        DialCaseView { scenario: Scenario::Bare, address: sound },
        DialCaseView { scenario: Scenario::IdentityOnly, address: sound },
        DialCaseView { scenario: Scenario::QuicOnly, address: sound },
        DialCaseView { scenario: Scenario::Complete, address: sound },
        DialCaseView {
            scenario: Scenario::MalformedAddress,
            address: "/ip4/127.0.0.1/tcp/4433/quic-v1"@,
        },
        DialCaseView {
            scenario: Scenario::MalformedAddress,
            address: addr::dial_text(addr::dial_text(sound, peer_id), peer_id),
        },
        DialCaseView {
            scenario: Scenario::MalformedAddress,
            address: "/dns4/example.com/udp/4433/quic-v1"@,
        },
    ]
}

fn dial_case(scenario: Scenario, address: &str) -> (r: DialCase)
    ensures
        r@ == (DialCaseView { scenario, address: address@ }),
{
    DialCase { scenario, address: address.to_owned() }
}

/// The dials that are tried.
pub fn dial_cases(peer_id: &str) -> (r: Vec<DialCase>)
    ensures
        r@.map_values(|c: DialCase| c@) == all_cases(peer_id@),
{
    let sound: &str = "/ip4/127.0.0.1/udp/4433/quic-v1";
    let once: String = addr::dialed(sound, peer_id);
    let twice: String = addr::dialed(once.as_str(), peer_id);
    let malformed: Scenario = Scenario::MalformedAddress;
    let mut out: Vec<DialCase> = Vec::new();
    out.push(dial_case(Scenario::Bare, sound));
    out.push(dial_case(Scenario::IdentityOnly, sound));
    out.push(dial_case(Scenario::QuicOnly, sound));
    out.push(dial_case(Scenario::Complete, sound));
    out.push(dial_case(malformed, "/ip4/127.0.0.1/tcp/4433/quic-v1"));
    out.push(dial_case(malformed, twice.as_str()));
    out.push(dial_case(malformed, "/dns4/example.com/udp/4433/quic-v1"));
    proof {
        assert(out@.map_values(|c: DialCase| c@) =~= all_cases(peer_id@));
    }
    out
}

/// How many rows of a table failed.
pub open spec fn failed_rows(passed: Seq<bool>) -> nat
    decreases passed.len(),
{
    if passed.len() == 0 {
        0
    } else {
        failed_rows(passed.drop_last()) + if passed.last() {
            0nat
        } else {
            1nat
        }
    }
}

/// How many rows of a table failed.
pub fn count_failed(passed: &Vec<bool>) -> (r: usize)
    ensures
        r == failed_rows(passed@),
        r <= passed@.len(),
        r == 0 <==> forall|i: int| 0 <= i < passed@.len() ==> #[trigger] passed@[i],
{
    let mut n: usize = 0;
    let mut i: usize = 0;
    proof {
        assert(passed@.take(0) =~= Seq::empty());
    }
    while i < passed.len()
        invariant
            n <= i <= passed@.len(),
            n == failed_rows(passed@.take(i as int)),
            n == 0 <==> forall|k: int| 0 <= k < i ==> #[trigger] passed@[k],
        decreases passed@.len() - i,
    {
        proof {
            assert(passed@.take(i + 1).drop_last() =~= passed@.take(i as int));
        }
        if !passed[i] {
            n = n + 1;
        }
        i = i + 1;
    }
    proof {
        assert(passed@.take(passed@.len() as int) =~= passed@);
    }
    n
}

/// The transports over which clients reached a service.
#[derive(Clone, Copy, PartialEq, Eq, Structural, Debug)]
pub struct Seen {
    pub tcp: bool,
    pub quic: bool,
}

impl Seen {
    pub fn new() -> (r: Seen)
        ensures
            r == (Seen { tcp: false, quic: false }),
    {
        Seen { tcp: false, quic: false }
    }

    /// A client is connected. Says whether both transports were seen.
    pub fn on_connected(&mut self, transport: Transport) -> (r: bool)
        ensures
            final(self).tcp == (old(self).tcp || transport is Tcp),
            final(self).quic == (old(self).quic || transport is Quic),
            r == (final(self).tcp && final(self).quic),
    {
        match transport {
            Transport::Tcp => {
                self.tcp = true;
            },
            Transport::Quic => {
                self.quic = true;
            },
            Transport::Other => {},
        }
        self.tcp && self.quic
    }

    /// Whether both transports live in one service, given whether the server
    /// and both clients were done in time.
    pub fn coexist(&self, server: bool, tcp_client: bool, quic_client: bool) -> (r: bool)
        ensures
            r == (server && tcp_client && quic_client && self.tcp && self.quic),
    {
        server && tcp_client && quic_client && self.tcp && self.quic
    }
}

/// The least seconds after which an idle session may close.
pub const IDLE_LOW_SECS: u64 = 2;

/// The most seconds after which an idle session may close.
pub const IDLE_HIGH_SECS: u64 = 10;

/// Whether an idle session closed when it should: not at all is not.
pub fn idle_close_is_timely(closed_after: Option<Duration>) -> (r: bool)
    ensures
        r == (closed_after matches Some(d) && 2_000_000_000 <= d.nanos <= 10_000_000_000),
{
    match closed_after {
        Some(d) => Duration::from_secs(IDLE_LOW_SECS).nanos <= d.nanos && d.nanos
            <= Duration::from_secs(IDLE_HIGH_SECS).nanos,
        None => false,
    }
}

/// Seconds that a kept session is watched.
pub const WATCH_SECS: u64 = 10;

/// A silent session that keep-alives should hold open.
#[derive(Clone, Copy, PartialEq, Eq, Structural, Debug)]
pub struct KeptSession {
    pub connected_at: Option<u128>,
    /// When the session first closed or the service first reported an error.
    pub broken_at: Option<u128>,
}

/// How the watch over a session stands.
#[derive(Clone, Copy, PartialEq, Eq, Structural, Debug)]
pub enum Watch {
    /// Nothing is settled yet.
    Watching,
    /// The session was held open.
    Held,
    /// The session closed, or the service reported an error.
    Broken,
}

/// The earlier of an instant that may have been noted and another.
pub open spec fn earlier(noted: Option<u128>, now: u128) -> u128 {
    match noted {
        Some(at) => if at <= now {
            at
        } else {
            now
        },
        None => now,
    }
}

impl KeptSession {
    pub fn new() -> (r: KeptSession)
        ensures
            r == (KeptSession { connected_at: None, broken_at: None }),
    {
        KeptSession { connected_at: None, broken_at: None }
    }

    pub fn on_connected(&mut self, now: u128)
        ensures
            *final(self) == (KeptSession { connected_at: Some(now), ..*old(self) }),
    {
        self.connected_at = Some(now);
    }

    /// The session closed, or the service reported an error.
    pub fn on_broken(&mut self, now: u128)
        ensures
            *final(self) == (KeptSession {
                broken_at: Some(earlier(old(self).broken_at, now)),
                ..*old(self)
            }),
    {
        self.broken_at = match self.broken_at {
            Some(at) => if at <= now {
                Some(at)
            } else {
                Some(now)
            },
            None => Some(now),
        };
    }

    /// Whether the session broke within the watch that began at an instant.
    pub open spec fn broke_within(self, since: u128) -> bool {
        self.broken_at matches Some(at) && time::between(since as nat, at as nat) < WATCH_SECS
            * time::NANOS_PER_SEC
    }

    /// How the watch stands that began at an instant behind the connect: it is
    /// lost as soon as the session breaks within it, and won once it is over.
    pub open spec fn stands(self, since: u128, now: u128) -> Watch {
        if self.broke_within(since) {
            Watch::Broken
        } else if time::between(since as nat, now as nat) < WATCH_SECS * time::NANOS_PER_SEC {
            Watch::Watching
        } else if self.connected_at is None {
            Watch::Broken
        } else {
            Watch::Held
        }
    }

    /// How the watch stands.
    pub fn look(&self, since: u128, now: u128) -> (r: Watch)
        ensures
            r == self.stands(since, now),
    {
        let window: u128 = Duration::from_secs(WATCH_SECS).nanos;
        if let Some(at) = self.broken_at {
            if time::elapsed(since, at).nanos < window {
                return Watch::Broken;
            }
        }
        if time::elapsed(since, now).nanos < window {
            Watch::Watching
        } else if self.connected_at.is_none() {
            Watch::Broken
        } else {
            Watch::Held
        }
    }
}

/// A session that breaks within the watch is not held, however late one looks
/// and whatever was noted before.
pub proof fn law_broken_session_is_not_held(
    before: KeptSession,
    at: u128,
    since: u128,
    now: u128,
)
    requires
        time::between(since as nat, at as nat) < WATCH_SECS * time::NANOS_PER_SEC,
    ensures
        (KeptSession { broken_at: Some(earlier(before.broken_at, at)), ..before }).stands(since, now)
            == Watch::Broken,
{
}

/// The message of a client that dials behind a failed handshake.
pub const GOOD_MESSAGE: &'static str = "ping-after-bad-handshake";

/// Whether the text of an error tells of a peer that is not the expected one.
pub open spec fn tells_of_mismatch(error: Seq<char>) -> bool {
    contains_text(error, "QuicError"@) && contains_text(error, "expected peer_id"@)
        && contains_text(error, "got "@)
}

/// Whether a listener survived a failed handshake: the bad dial was refused
/// for the right reason, and a good one behind it was served.
pub fn listener_survived(bad_error: Option<&str>, good_served: bool) -> (r: bool)
    ensures
        r == (bad_error matches Some(e) && tells_of_mismatch(e@) && good_served),
{
    match bad_error {
        Some(e) => has_text(e, "QuicError") && has_text(e, "expected peer_id") && has_text(
            e,
            "got ",
        ) && good_served,
        None => false,
    }
}

/// Whether a message is the one that was sent.
pub fn is_echo_of(sent: &Bytes, data: &Bytes) -> (r: bool)
    ensures
        r == (wire::contents(*data) == wire::contents(*sent)),
{
    wire::same_bytes(sent, data)
}

/// The sessions that two dials to one peer opened.
#[derive(Clone, Copy, PartialEq, Eq, Structural, Debug)]
pub struct DoubleDial {
    /// Sessions that the server saw.
    pub sessions: usize,
    /// Whether the service of the client reported an error.
    pub failed: bool,
    /// Whether the first connect of the client was to the address that it
    /// dialed first; nothing before that connect.
    pub first_address: Option<bool>,
}

impl DoubleDial {
    pub fn new() -> (r: DoubleDial)
        ensures
            r == (DoubleDial { sessions: 0, failed: false, first_address: None }),
    {
        DoubleDial { sessions: 0, failed: false, first_address: None }
    }

    /// The server saw a session.
    pub fn on_session(&mut self)
        ensures
            *final(self) == (DoubleDial {
                sessions: old(self).sessions.wrapping_add(1),
                ..*old(self)
            }),
    {
        self.sessions = self.sessions.wrapping_add(1);
    }

    /// The client connected, to the address that it dialed first or to
    /// another. Only its first connect counts.
    pub fn on_connected(&mut self, first_address: bool)
        ensures
            *final(self) == (DoubleDial {
                first_address: match old(self).first_address {
                    Some(noted) => Some(noted),
                    None => Some(first_address),
                },
                ..*old(self)
            }),
    {
        if self.first_address.is_none() {
            self.first_address = Some(first_address);
        }
    }

    /// Whether the client connected first to the address that it dialed first.
    pub fn is_at_first_address(&self) -> (r: bool)
        ensures
            r == (self.first_address == Some(true)),
    {
        match self.first_address {
            Some(first) => first,
            None => false,
        }
    }

    /// The service of the client reported an error.
    pub fn on_error(&mut self)
        ensures
            *final(self) == (DoubleDial { failed: true, ..*old(self) }),
    {
        self.failed = true;
    }

    /// Whether the second dial of one address opened no second session.
    pub fn same_address_is_dialed_once(&self) -> (r: bool)
        ensures
            r == (self.sessions == 1),
    {
        self.sessions == 1
    }

    /// Whether the dial of a second address of one peer opened no second
    /// session, and did so without a word.
    pub fn same_peer_is_dialed_once(&self) -> (r: bool)
        ensures
            r == (self.sessions == 1 && self.first_address == Some(true) && !self.failed),
    {
        self.sessions == 1 && self.is_at_first_address() && !self.failed
    }
}

/// What is owed to a dial of a sound address is owed at once: nothing that
/// comes later makes up for it.
pub proof fn law_sound_dials_are_answered_at_once(
    scenario: Scenario,
    at_once: DialOutcome,
    later: Option<DialOutcome>,
)
    requires
        scenario !is MalformedAddress,
    ensures
        owed(scenario, at_once, later) == owed(scenario, at_once, None),
{
}

/// A text contains itself, and whatever it is made of.
pub proof fn law_texts_contain_their_pieces(front: Seq<char>, part: Seq<char>, back: Seq<char>)
    ensures
        contains_text(front + part + back, part),
{
    let s = front + part + back;
    let i = front.len() as int;
    assert(s.subrange(i, i + part.len()) =~= part);
}

/// What each scenario owes: no QUIC at all without an identity and without
/// QUIC, the hint where only QUIC is missing, a misconfiguration where only the
/// identity is, no refusal where nothing is missing, and an invalid address,
/// sooner or later, where the address is malformed.
pub proof fn law_scenarios_owe_their_answer(at_once: DialOutcome, later: Option<DialOutcome>)
    ensures
        owed(Scenario::Bare, at_once, later) <==> at_once is NotSupported,
        owed(Scenario::QuicOnly, at_once, later) <==> at_once is Misconfigured,
        owed(Scenario::Complete, at_once, later) <==> at_once is Accepted,
        !(at_once is NotConfigured) ==> !owed(Scenario::IdentityOnly, at_once, later),
        at_once matches DialOutcome::NotConfigured { message } ==> (owed(
            Scenario::IdentityOnly,
            at_once,
            later,
        ) <==> contains_text(message@, "ServiceBuilder::quic_config"@)),
        at_once is InvalidAddress ==> owed(Scenario::MalformedAddress, at_once, later),
        at_once is Accepted ==> (owed(Scenario::MalformedAddress, at_once, later) <==> later
            == Some(DialOutcome::InvalidAddress)),
        !(at_once is InvalidAddress || at_once is Accepted) ==> !owed(
            Scenario::MalformedAddress,
            at_once,
            later,
        ),
{
}

/// A text contains another exactly where it is made of something, the other,
/// and something again.
pub proof fn law_containing_is_being_made_of(s: Seq<char>, part: Seq<char>)
    ensures
        contains_text(s, part) <==> exists|front: Seq<char>, back: Seq<char>|
            s == #[trigger] (front + part + back),
{
    if contains_text(s, part) {
        let i = choose|i: int|
            0 <= i <= s.len() - part.len() && #[trigger] s.subrange(i, i + part.len()) == part;
        let front = s.take(i);
        let back = s.skip(i + part.len());
        assert(s =~= front + s.subrange(i, i + part.len()) + back);
        assert(s == front + part + back);
    }
    if exists|front: Seq<char>, back: Seq<char>| s == #[trigger] (front + part + back) {
        let (front, back) = choose|front: Seq<char>, back: Seq<char>|
            s == #[trigger] (front + part + back);
        law_texts_contain_their_pieces(front, part, back);
    }
}

/// Rows of two tables fail as they do in each, and a row counts where it did not
/// pass.
pub proof fn law_failed_rows_add_up(a: Seq<bool>, b: Seq<bool>)
    ensures
        failed_rows(a + b) == failed_rows(a) + failed_rows(b),
        failed_rows(seq![true]) == 0,
        failed_rows(seq![false]) == 1,
        failed_rows(Seq::empty()) == 0,
    decreases b.len(),
{
    reveal_with_fuel(failed_rows, 2);
    assert(seq![true].drop_last() =~= Seq::empty());
    assert(seq![false].drop_last() =~= Seq::empty());
    if b.len() == 0 {
        assert(a + b =~= a);
    } else {
        law_failed_rows_add_up(a, b.drop_last());
        assert((a + b).drop_last() =~= a + b.drop_last());
        assert((a + b).last() == b.last());
    }
}

/// A connected session that did not break within the ten seconds of the watch
/// is held once they are over, and watched until then.
pub proof fn law_unbroken_session_is_held(session: KeptSession, since: u128, now: u128)
    requires
        since <= now,
        session.broken_at matches Some(at) ==> at >= since + 10_000_000_000,
    ensures
        now - since < 10_000_000_000 ==> session.stands(since, now) == Watch::Watching,
        now - since >= 10_000_000_000 && session.connected_at is Some ==> session.stands(since, now)
            == Watch::Held,
        now - since >= 10_000_000_000 && session.connected_at is None ==> session.stands(since, now)
            == Watch::Broken,
{
}

/// Of two instants the earlier is kept.
pub proof fn law_first_break_is_kept(noted: u128, now: u128)
    ensures
        earlier(None, now) == now,
        earlier(Some(noted), now) <= noted,
        earlier(Some(noted), now) <= now,
        earlier(Some(noted), now) == noted || earlier(Some(noted), now) == now,
{
}

/// An error tells of a mismatch only where it names the transport, the expected
/// peer and the peer that answered.
pub proof fn law_mismatch_names_both_peers(error: Seq<char>)
    ensures
        tells_of_mismatch(error) <==> contains_text(error, "QuicError"@) && contains_text(
            error,
            "expected peer_id"@,
        ) && contains_text(error, "got "@),
{
}

/// An idle session closed in time exactly where it closed after two seconds at
/// least and ten at most.
pub proof fn law_idle_sessions_close_in_their_window(closed_after: Option<Duration>, r: bool)
    requires
        call_ensures(idle_close_is_timely, (closed_after,), r),
    ensures
        closed_after is None ==> !r,
        closed_after matches Some(d) ==> (r <==> d.nanos >= 2 * time::NANOS_PER_SEC && d.nanos <= 10
            * time::NANOS_PER_SEC),
{
}

/// A second dial opened no second session exactly where the server saw one; for
/// two addresses of one peer the client must also have connected to the first
/// of them, and without an error.
pub proof fn law_second_dials_open_nothing(d: DoubleDial, same_address: bool, same_peer: bool)
    requires
        call_ensures(DoubleDial::same_address_is_dialed_once, (&d,), same_address),
        call_ensures(DoubleDial::same_peer_is_dialed_once, (&d,), same_peer),
    ensures
        same_address <==> d.sessions == 1,
        same_peer <==> d.sessions == 1 && d.first_address == Some(true) && !d.failed,
{
}

/// Both transports live in one service exactly where the server saw a session
/// over each and all three parties were done.
pub proof fn law_coexistence_needs_both_transports(
    seen: Seen,
    server: bool,
    tcp: bool,
    quic: bool,
    r: bool,
)
    requires
        call_ensures(Seen::coexist, (&seen, server, tcp, quic), r),
    ensures
        r <==> seen.tcp && seen.quic && server && tcp && quic,
{
}

/// The first break of a session is kept, and only the first connect of a client
/// decides where it connected.
pub proof fn law_first_events_decide(
    session: &mut KeptSession,
    now: u128,
    dials: &mut DoubleDial,
    first_address: bool,
)
    requires
        call_ensures(KeptSession::on_broken, (session, now), ()),
        call_ensures(DoubleDial::on_connected, (dials, first_address), ()),
    ensures
        old(session).broken_at is None ==> final(session).broken_at == Some(now),
        old(session).broken_at matches Some(at) ==> at <= now ==> final(session).broken_at == Some(
            at,
        ),
        final(session).connected_at == old(session).connected_at,
        old(dials).first_address is None ==> final(dials).first_address == Some(first_address),
        old(dials).first_address is Some ==> final(dials).first_address == old(dials).first_address,
        final(dials).sessions == old(dials).sessions && final(dials).failed == old(dials).failed,
{
}

} // verus!
