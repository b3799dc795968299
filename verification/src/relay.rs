//! The WAN relay: a UDP hop that delays, jitters and drops datagrams.

use vstd::arithmetic::div_mod::*;
use vstd::arithmetic::power2::*;
use vstd::prelude::*;

use crate::binary64;
use crate::binary64::Binary64;
use crate::rng;
use crate::rng::XorShift;
use crate::rounding;
use crate::time::Duration;

verus! {

/// An IPv4 socket address.
#[derive(Clone, Copy, PartialEq, Eq, Structural, Debug)]
pub struct Endpoint {
    pub ip: u32,
    pub port: u16,
}

/// What the relay does to datagrams.
#[derive(Clone, Copy, PartialEq, Eq, Structural, Debug)]
pub struct WanCfg {
    pub one_way_ms: u64,
    pub jitter_ms: u64,
    /// The share of datagrams that are dropped, in percent.
    pub loss_pct: Binary64,
}

impl WanCfg {
    /// Whether the delays stay in the range of the clock arithmetic.
    pub open spec fn in_range(self) -> bool {
        &&& self.jitter_ms <= rng::MAX_JITTER_MS
        &&& self.one_way_ms + self.jitter_ms <= i64::MAX
    }

    /// Whether the delays stay in the range of the clock arithmetic.
    pub fn is_in_range(&self) -> (r: bool)
        ensures
            r == self.in_range(),
    {
        self.jitter_ms <= rng::MAX_JITTER_MS && self.one_way_ms <= i64::MAX as u64
            - self.jitter_ms
    }
}

/// A datagram to send on, after a delay.
#[derive(Clone, Copy, PartialEq, Eq, Structural, Debug)]
pub struct Hop {
    pub to: Endpoint,
    pub delay: Duration,
}

/// Whether the draw in a state drops a datagram.
pub open spec fn drops(state: u64, loss_pct: binary64::Value) -> bool {
    rng::unit_value(rng::drawn(state)).times(binary64::Value::of(100)).less(loss_pct)
}

/// The delay in milliseconds with the jitter of the draw in a state.
pub open spec fn delay_ms(state: u64, cfg: WanCfg) -> int {
    let jitter = if cfg.jitter_ms == 0 {
        0
    } else {
        rng::jitter_value(rng::drawn(state), cfg.jitter_ms)
    };
    if cfg.one_way_ms + jitter > 0 {
        cfg.one_way_ms + jitter
    } else {
        0
    }
}

/// The state of the relay between one client and one upstream.
#[derive(PartialEq, Eq, Structural, Debug)]
pub struct Relay {
    pub upstream: Endpoint,
    pub client: Option<Endpoint>,
    pub cfg: WanCfg,
    pub rng: XorShift,
}

/// Where a datagram from `source` goes, if anywhere.
pub open spec fn destination(relay: Relay, source: Endpoint) -> Option<Endpoint> {
    if source == relay.upstream {
        relay.client
    } else {
        Some(relay.upstream)
    }
}

impl Relay {
    /// A relay that has seen no client yet.
    pub fn new(upstream: Endpoint, cfg: WanCfg, rng: XorShift) -> (r: Relay)
        ensures
            r == (Relay { upstream, client: None, cfg, rng }),
    {
        Relay { upstream, client: None, cfg, rng }
    }

    /// Takes a datagram from `source`: says where it goes and when, or drops
    /// it. Whoever is not the upstream becomes the client.
    pub fn forward(&mut self, source: Endpoint) -> (r: Option<Hop>)
        requires
            old(self).cfg.in_range(),
        ensures
            final(self).upstream == old(self).upstream,
            final(self).cfg == old(self).cfg,
            final(self).client == (if source == old(self).upstream {
                old(self).client
            } else {
                Some(source)
            }),
            destination(*old(self), source) is None ==> r is None && final(self).rng == old(self).rng,
            destination(*old(self), source) is Some ==> {
                let first = old(self).rng.state;
                let second = rng::xorshift(first);
                if drops(first, old(self).cfg.loss_pct@) {
                    r is None && final(self).rng.state == second
                } else {
                    &&& r matches Some(hop)
                    &&& Some(hop.to) == destination(*old(self), source)
                    &&& hop.delay.nanos == delay_ms(second, old(self).cfg)
                        * crate::time::NANOS_PER_MILLI
                    &&& final(self).rng.state == (if old(self).cfg.jitter_ms == 0 {
                        second
                    } else {
                        rng::xorshift(second)
                    })
                }
            },
    {
        let to: Option<Endpoint> = if source == self.upstream {
            self.client
        } else {
            self.client = Some(source);
            Some(self.upstream)
        };
        match to {
            None => None,
            Some(to) => {
                let draw: Binary64 = self.rng.next_f64();
                if draw.times(Binary64::of(100)).less(self.cfg.loss_pct) {
                    return None;
                }
                proof {
                    rng::law_jitter_range(rng::drawn(self.rng.state), self.cfg.jitter_ms);
                }
                let jitter: i64 = self.rng.jitter_ms(self.cfg.jitter_ms);
                let extra: i64 = self.cfg.one_way_ms as i64 + jitter;
                let millis: u64 = if extra > 0 {
                    extra as u64
                } else {
                    0
                };
                Some(Hop { to, delay: Duration::from_millis(millis) })
            },
        }
    }
}

/// The delay of a datagram differs from the one-way delay by no more than
/// the jitter, and is never negative.
pub proof fn law_delay_range(state: u64, cfg: WanCfg)
    ensures
        0 <= delay_ms(state, cfg),
        cfg.one_way_ms - cfg.jitter_ms <= delay_ms(state, cfg) <= cfg.one_way_ms + cfg.jitter_ms,
{
    rng::law_jitter_range(rng::drawn(state), cfg.jitter_ms);
}

/// A relay that is to drop no share of the datagrams drops none of them,
/// whatever its jitter.
pub proof fn law_no_loss_drops_none(state: u64, loss_pct: binary64::Value)
    requires
        loss_pct !is Nan,
        !binary64::Value::of(0).less(loss_pct),
    ensures
        !drops(state, loss_pct),
{
    let out = rng::drawn(state);
    rng::law_unit_draw_is_below_one(out);
    binary64::lemma_of_exact(0);
    binary64::lemma_of_exact(100);
}

/// A relay without loss and without jitter delays every datagram by exactly
/// the one-way delay.
pub proof fn law_plain_relay_forwards_all(state: u64, cfg: WanCfg)
    requires
        cfg.loss_pct@ !is Nan,
        !binary64::Value::of(0).less(cfg.loss_pct@),
        cfg.jitter_ms == 0,
    ensures
        !drops(state, cfg.loss_pct@),
        delay_ms(state, cfg) == cfg.one_way_ms,
{
    law_no_loss_drops_none(state, cfg.loss_pct@);
}

/// A relay that is to drop everything drops every datagram.
pub proof fn law_total_loss_drops_all(state: u64, loss_pct: binary64::Value)
    requires
        loss_pct !is Nan,
        !loss_pct.less(binary64::Value::of(100)),
    ensures
        drops(state, loss_pct),
{
    let out = rng::drawn(state);
    rng::law_unit_draw_is_below_one(out);
    binary64::lemma_of_exact(100);
    assert(out >> 11 <= 0x1F_FFFF_FFFF_FFFF) by (bit_vector);
    let k = (out >> 11) as nat;
    let most = 0x1F_FFFF_FFFF_FFFFnat;
    let u = binary64::unit();
    let fine = pow2(1021);
    lemma_pow2_pos(1074);
    lemma_pow2_pos(1021);
    lemma_pow2_adds(53, 1021);
    lemma_pow2_adds(7, 1021);
    lemma2_to64();
    lemma2_to64_rest();
    assert(u == 0x20_0000_0000_0000 * fine);
    // The product of the draw and one hundred.
    assert((k * fine) * (100 * u) * 1 == ((100 * k) * fine) * u) by (nonlinear_arith);
    rounding::lemma_round_same_value((k * fine) * (100 * u), u, (100 * k) * fine, 1);
    rounding::lemma_round_shifted(100 * k, 1021);
    rounding::lemma_round_monotone(100 * k, 1, 100 * most, 1);
    // The largest product, rounded.
    let top = 100 * most;
    assert(top as int / 1 == top);
    rounding::lemma_excess_unique(top, 7);
    assert(1 * pow2(7) == 128);
    assert(rounding::round_quotient(top, 1) == 7036874417766399 * 128);
    let y = rounding::round_quotient(100 * k, 1);
    assert(y < 100 * 0x20_0000_0000_0000);
    assert(y * fine < 100 * u) by (nonlinear_arith)
        requires
            y < 100 * 0x20_0000_0000_0000,
            u == 0x20_0000_0000_0000 * fine,
            fine > 0,
    ;
}

/// A reply of the upstream goes to whoever sent the last datagram from
/// elsewhere, and to nobody before the first one.
pub proof fn law_replies_go_to_last_client(relay: Relay, client: Endpoint)
    ensures
        destination(Relay { client: Some(client), ..relay }, relay.upstream) == Some(client),
        relay.client is None ==> destination(relay, relay.upstream) is None,
        client != relay.upstream ==> destination(relay, client) == Some(relay.upstream),
{
}

/// The draw of a datagram times one hundred, rounded: what the share of lost
/// datagrams is held against.
proof fn lemma_draw_in_percent(state: u64) -> (y: nat)
    ensures
        ({
            let k = (rng::drawn(state) >> 11) as nat;
            &&& k < 0x20_0000_0000_0000
            &&& rng::unit_value(rng::drawn(state)).times(binary64::Value::of(100)) == (
            binary64::Value::Finite { negative: false, magnitude: y * pow2(1021) })
            &&& 100 * k - 100 < y < 100 * k + 100
            &&& 100 * k < 0x20_0000_0000_0000 ==> y == 100 * k
        }),
{
    let out = rng::drawn(state);
    rng::law_unit_draw_is_below_one(out);
    binary64::lemma_of_exact(100);
    assert(out >> 11 <= 0x1F_FFFF_FFFF_FFFF) by (bit_vector);
    let k = (out >> 11) as nat;
    let u = binary64::unit();
    let fine = pow2(1021);
    lemma_pow2_pos(1074);
    lemma_pow2_pos(1021);
    lemma_pow2_adds(53, 1021);
    lemma2_to64();
    lemma2_to64_rest();
    assert(u == 0x20_0000_0000_0000 * fine);
    assert((k * fine) * (100 * u) * 1 == ((100 * k) * fine) * u) by (nonlinear_arith);
    rounding::lemma_round_same_value((k * fine) * (100 * u), u, (100 * k) * fine, 1);
    rounding::lemma_round_shifted(100 * k, 1021);
    rounding::law_rounding_error(100 * k, 1);
    let y = rounding::round_quotient(100 * k, 1);
    lemma_pow2_adds(7, 1074);
    lemma_pow2_strictly_increases(1081, 2098);
    assert(y * fine < 128 * u) by (nonlinear_arith)
        requires
            y < 128 * 0x20_0000_0000_0000,
            u == 0x20_0000_0000_0000 * fine,
            fine > 0,
    ;
    y
}

/// A datagram is dropped exactly where its draw, one of 2^53 in the unit
/// interval, is below the share of lost datagrams in percent. The product with
/// one hundred is exact for the draws below one percent, and within a hundred
/// steps of it for all others.
pub proof fn law_loss_is_a_percentage(state: u64, loss_pct: binary64::Value)
    requires
        loss_pct matches binary64::Value::Finite { negative, .. } && !negative,
    ensures
        ({
            let k = (rng::drawn(state) >> 11) as nat;
            let share = loss_pct->Finite_magnitude;
            &&& 100 * k < 0x20_0000_0000_0000 ==> (drops(state, loss_pct) <==> (100 * k) * pow2(1021)
                < share)
            &&& (100 * k + 100) * pow2(1021) <= share ==> drops(state, loss_pct)
            &&& drops(state, loss_pct) ==> (100 * k) * pow2(1021) < share + 100 * pow2(1021)
        }),
{
    let k = (rng::drawn(state) >> 11) as nat;
    let fine = pow2(1021);
    lemma_pow2_pos(1021);
    let y = lemma_draw_in_percent(state);
    assert(y * fine < (100 * k + 100) * fine) by (nonlinear_arith)
        requires
            y < 100 * k + 100,
            fine > 0,
    ;
    assert((100 * k) * fine < y * fine + 100 * fine) by (nonlinear_arith)
        requires
            100 * k - 100 < y,
            fine > 0,
    ;
}

/// Where a whole number of percent is lost, that many hundredths of the 2^53
/// draws drop a datagram, up to one draw at the border.
pub proof fn law_whole_percents_drop_their_share(state: u64, percent: nat)
    requires
        percent <= 100,
    ensures
        ({
            let k = (rng::drawn(state) >> 11) as nat;
            &&& 100 * (k + 1) <= percent * 0x20_0000_0000_0000 ==> drops(
                state,
                binary64::Value::of(percent),
            )
            &&& 100 * k >= percent * 0x20_0000_0000_0000 + 100 ==> !drops(
                state,
                binary64::Value::of(percent),
            )
        }),
{
    let k = (rng::drawn(state) >> 11) as nat;
    let u = binary64::unit();
    let fine = pow2(1021);
    binary64::lemma_of_exact(percent);
    lemma_pow2_pos(1021);
    lemma_pow2_adds(53, 1021);
    lemma2_to64_rest();
    law_loss_is_a_percentage(state, binary64::Value::of(percent));
    let border = percent * 0x20_0000_0000_0000;
    assert(percent * u == border * fine) by (nonlinear_arith)
        requires
            u == 0x20_0000_0000_0000 * fine,
            border == percent * 0x20_0000_0000_0000,
    ;
    if 100 * (k + 1) <= border {
        assert((100 * k + 100) * fine <= border * fine) by (nonlinear_arith)
            requires
                100 * k + 100 <= border,
        ;
    }
    if 100 * k >= border + 100 {
        assert((100 * k) * fine >= border * fine + 100 * fine) by (nonlinear_arith)
            requires
                100 * k >= border + 100,
        ;
    }
}

/// A relay that is to drop a larger share drops whatever one that is to drop a
/// smaller share drops.
pub proof fn law_more_loss_drops_no_less(
    state: u64,
    less: binary64::Value,
    more: binary64::Value,
)
    requires
        less.less(more),
        drops(state, less),
    ensures
        drops(state, more),
{
    let y = lemma_draw_in_percent(state);
}

/// The delay is the one-way delay plus the jitter of the draw, and zero where
/// that is negative: of the numbers within the jitter either way, the jitter is
/// the one that differs from the draw by a whole number of spans.
pub proof fn law_delay_is_one_way_plus_jitter(state: u64, cfg: WanCfg, jitter: int, turns: int)
    requires
        -(cfg.jitter_ms as int) <= jitter <= cfg.jitter_ms,
        rng::drawn(state) == jitter + cfg.jitter_ms + turns * (2 * cfg.jitter_ms + 1),
    ensures
        cfg.one_way_ms + jitter >= 0 ==> delay_ms(state, cfg) == cfg.one_way_ms + jitter,
        cfg.one_way_ms + jitter <= 0 ==> delay_ms(state, cfg) == 0,
{
    rng::law_jitter_is_the_draw_in_its_range(rng::drawn(state), cfg.jitter_ms, jitter, turns);
}

/// The upstream's datagrams go to the client, and everybody else's go to the
/// upstream.
pub proof fn law_datagrams_cross(relay: Relay, source: Endpoint)
    ensures
        source == relay.upstream ==> destination(relay, source) == relay.client,
        source != relay.upstream ==> destination(relay, source) == Some(relay.upstream),
{
}

/// A share that is not a number drops nothing.
pub proof fn law_no_number_drops_none(state: u64)
    ensures
        !drops(state, binary64::Value::Nan),
{
}

/// Delays are in range exactly where the span of the jitter and the longest
/// delay are signed numbers.
pub proof fn law_delays_fit_the_clock(cfg: WanCfg)
    ensures
        cfg.in_range() <==> 2 * cfg.jitter_ms + 1 <= i64::MAX && cfg.one_way_ms + cfg.jitter_ms
            <= i64::MAX,
{
}

/// A datagram of the upstream goes to the client, if there is one yet, and any
/// other goes to the upstream, whose sender is the client from then on. It goes
/// after the one-way delay plus the jitter of the second draw.
pub proof fn law_forwarded_datagrams_cross_after_their_delay(
    relay: &mut Relay,
    source: Endpoint,
    r: Option<Hop>,
    jitter: int,
    turns: int,
)
    requires
        call_ensures(Relay::forward, (relay, source), r),
        -(relay.cfg.jitter_ms as int) <= jitter <= relay.cfg.jitter_ms,
        rng::drawn(rng::xorshift(relay.rng.state)) == jitter + relay.cfg.jitter_ms + turns * (2
            * relay.cfg.jitter_ms + 1),
    ensures
        final(relay).upstream == old(relay).upstream,
        final(relay).cfg == old(relay).cfg,
        source == old(relay).upstream ==> final(relay).client == old(relay).client,
        source != old(relay).upstream ==> final(relay).client == Some(source),
        source == old(relay).upstream && old(relay).client is None ==> r is None,
        r matches Some(hop) ==> {
            &&& source == old(relay).upstream ==> old(relay).client == Some(hop.to)
            &&& source != old(relay).upstream ==> hop.to == old(relay).upstream
            &&& old(relay).cfg.one_way_ms + jitter >= 0 ==> hop.delay.nanos == (
            old(relay).cfg.one_way_ms + jitter) * 1_000_000
            &&& old(relay).cfg.one_way_ms + jitter <= 0 ==> hop.delay.nanos == 0
        },
{
    law_delay_is_one_way_plus_jitter(rng::xorshift(relay.rng.state), relay.cfg, jitter, turns);
}

/// A datagram with somewhere to go is dropped exactly where its draw, one of
/// 2^53, is below the lost share in percent, up to a hundred steps of the
/// product at the border; the draws below one percent are exact.
pub proof fn law_forwarding_loses_the_share(relay: &mut Relay, source: Endpoint, r: Option<Hop>)
    requires
        call_ensures(Relay::forward, (relay, source), r),
        source != relay.upstream || relay.client is Some,
        relay.cfg.loss_pct@ matches binary64::Value::Finite { negative, .. } && !negative,
    ensures
        ({
            let k = (rng::drawn(old(relay).rng.state) >> 11) as nat;
            let share = old(relay).cfg.loss_pct@->Finite_magnitude;
            &&& 100 * k < 0x20_0000_0000_0000 ==> (r is None <==> (100 * k) * pow2(1021) < share)
            &&& (100 * k + 100) * pow2(1021) <= share ==> r is None
            &&& r is None ==> (100 * k) * pow2(1021) < share + 100 * pow2(1021)
        }),
{
    law_loss_is_a_percentage(relay.rng.state, relay.cfg.loss_pct@);
}

} // verus!
