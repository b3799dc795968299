//! The echo server of a run over a real wide area network.

use vstd::prelude::*;
use vstd::utf8;

use crate::addr;
use crate::env;
use crate::env::Environment;
use crate::identity;
use crate::identity::Identity;
use crate::resources::MIB;
use crate::text;
use crate::time;
use crate::time::Duration;

verus! {

/// The settings of a server.
pub struct Config {
    pub host: String,
    /// The port for both transports.
    pub port: u16,
    /// `quic`, `tcp` or `both`.
    pub transport: String,
    /// The host that clients are told to dial.
    pub advertise: String,
    pub idle_timeout: Duration,
    pub keep_alive: Duration,
    /// The largest frame, in mebibytes.
    pub max_frame_mib: usize,
}

impl Config {
    /// The settings that an environment asks for.
    pub fn from_env(e: &Environment) -> (r: Config)
        ensures
            r.host@ == env::asked_text(e, "QA_LISTEN_HOST"@, "0.0.0.0"@),
            r.port == env::asked_whole(e, "QA_LISTEN_PORT"@, u16::MAX as nat, 9443),
            r.transport@ == env::asked_text(e, "QA_TRANSPORT"@, "both"@),
            r.advertise@ == env::asked_text(e, "QA_ADVERTISE_HOST"@, r.host@),
            r.idle_timeout.nanos == env::asked_whole(
                e,
                "QA_IDLE_TIMEOUT_S"@,
                u64::MAX as nat,
                60,
            ) * time::NANOS_PER_SEC,
            r.keep_alive.nanos == env::asked_whole(e, "QA_KEEPALIVE_MS"@, u64::MAX as nat, 5000)
                * time::NANOS_PER_MILLI,
            r.max_frame_mib == env::asked_whole(e, "QA_MAX_FRAME_MIB"@, usize::MAX as nat, 16),
    {
        let host: String = env::env_or(e, "QA_LISTEN_HOST", "0.0.0.0".to_owned());
        let port: u16 = env::env_or(e, "QA_LISTEN_PORT", 9443u16);
        let transport: String = env::env_or(e, "QA_TRANSPORT", "both".to_owned());
        let advertise: String = env::env_or(e, "QA_ADVERTISE_HOST", host.clone());
        let max_frame_mib: usize = env::env_or(e, "QA_MAX_FRAME_MIB", 16usize);
        Config {
            host,
            port,
            transport,
            advertise,
            idle_timeout: env::duration_secs(e, "QA_IDLE_TIMEOUT_S", 60),
            keep_alive: env::duration_millis(e, "QA_KEEPALIVE_MS", 5000),
            max_frame_mib,
        }
    }

    /// The largest frame, in bytes.
    pub fn max_frame(&self) -> (r: usize)
        requires
            self.max_frame_mib * MIB <= usize::MAX,
        ensures
            r == self.max_frame_mib * MIB,
    {
        self.max_frame_mib * MIB
    }

    /// Whether the server listens on TCP.
    pub open spec fn wants_tcp(&self) -> bool {
        self.transport@ == "tcp"@ || self.transport@ == "both"@
    }

    /// Whether the server listens on QUIC.
    pub open spec fn wants_quic(&self) -> bool {
        self.transport@ == "quic"@ || self.transport@ == "both"@
    }
}

/// The text of a QUIC address.
pub open spec fn quic_text(host: Seq<char>, port: nat) -> Seq<char> {
    "/ip4/"@ + host + "/udp/"@ + text::decimal(port) + "/quic-v1"@
}

/// The text of a TCP address.
pub open spec fn tcp_text(host: Seq<char>, port: nat) -> Seq<char> {
    "/ip4/"@ + host + "/tcp/"@ + text::decimal(port)
}

/// The text of a QUIC address.
pub fn quic_addr(host: &str, port: u16) -> (r: String)
    ensures
        r@ == quic_text(host@, port as nat),
{
    let mut out: String = "/ip4/".to_owned();
    out.append(host);
    out.append("/udp/");
    text::push_decimal(&mut out, port as u128);
    out.append("/quic-v1");
    out
}

/// The text of a TCP address.
pub fn tcp_addr(host: &str, port: u16) -> (r: String)
    ensures
        r@ == tcp_text(host@, port as nat),
{
    let mut out: String = "/ip4/".to_owned();
    out.append(host);
    out.append("/tcp/");
    text::push_decimal(&mut out, port as u128);
    out
}

/// A listener of the server.
pub struct Listener {
    pub quic: bool,
    /// Where it listens.
    pub listen: String,
    /// What clients dial.
    pub dial: String,
}

/// A listener, in the abstract.
pub ghost struct ListenerTexts {
    pub quic: bool,
    pub listen: Seq<char>,
    pub dial: Seq<char>,
}

impl View for Listener {
    type V = ListenerTexts;

    open spec fn view(&self) -> ListenerTexts {
        ListenerTexts { quic: self.quic, listen: self.listen@, dial: self.dial@ }
    }
}

/// The listeners that settings ask for, QUIC before TCP.
pub open spec fn listeners_of(cfg: Config, peer_id: Seq<char>) -> Seq<ListenerTexts> {
    let port = cfg.port as nat;
    let quic = ListenerTexts {
        quic: true,
        listen: quic_text(cfg.host@, port),
        dial: addr::dial_text(quic_text(cfg.advertise@, port), peer_id),
    };
    let tcp = ListenerTexts {
        quic: false,
        listen: tcp_text(cfg.host@, port),
        dial: addr::dial_text(tcp_text(cfg.advertise@, port), peer_id),
    };
    (if cfg.wants_quic() {
        seq![quic]
    } else {
        seq![]
    }) + (if cfg.wants_tcp() {
        seq![tcp]
    } else {
        seq![]
    })
}

/// The listeners that settings ask for.
pub fn listeners(cfg: &Config, peer_id: &str) -> (r: Vec<Listener>)
    ensures
        r@.map_values(|l: Listener| l@) == listeners_of(*cfg, peer_id@),
{
    let tcp: String = "tcp".to_owned();
    let quic: String = "quic".to_owned();
    let both: String = "both".to_owned();
    let mut out: Vec<Listener> = Vec::new();
    if cfg.transport == quic || cfg.transport == both {
        let advertised: String = quic_addr(cfg.advertise.as_str(), cfg.port);
        out.push(
            Listener {
                quic: true,
                listen: quic_addr(cfg.host.as_str(), cfg.port),
                dial: addr::dialed(advertised.as_str(), peer_id),
            },
        );
    }
    if cfg.transport == tcp || cfg.transport == both {
        let advertised: String = tcp_addr(cfg.advertise.as_str(), cfg.port);
        out.push(
            Listener {
                quic: false,
                listen: tcp_addr(cfg.host.as_str(), cfg.port),
                dial: addr::dialed(advertised.as_str(), peer_id),
            },
        );
    }
    proof {
        assert(out@.map_values(|l: Listener| l@) =~= listeners_of(*cfg, peer_id@));
    }
    out
}

/// Why a server has no identity.
#[derive(Clone, Copy, PartialEq, Eq, Structural, Debug)]
pub enum SeedError {
    /// The seed is no secret key.
    NotASecret,
}

/// The identity that an environment asks for: that of the seed it names, or
/// one drawn at random where it names none. A text that is no seed names none.
pub fn server_identity(e: &Environment) -> (r: Result<Identity, SeedError>)
    ensures
        r matches Ok(id) ==> id.sound(),
        match e.text_of("QA_SERVER_SEED"@) {
            None => r is Ok,
            Some(seed) => match identity::seed_of(utf8::encode_utf8(seed)) {
                Some(secret) => if identity::valid_secret(secret) {
                    r matches Ok(id) && identity::secret(id.key) == secret && id.peer_id@
                        == identity::peer_text(secret)
                } else {
                    r == Err::<Identity, SeedError>(SeedError::NotASecret)
                },
                None => r is Ok,
            },
        },
{
    let asked: Option<Identity> = match e.text("QA_SERVER_SEED") {
        None => Identity::asked(None),
        Some(seed) => Identity::asked(Some(seed.as_str())),
    };
    match asked {
        Some(id) => Ok(id),
        None => Err(SeedError::NotASecret),
    }
}

/// A server for both transports listens on QUIC and then on TCP, on its host and
/// port, and is dialed on the advertised host with its peer id; a server for one
/// of them has that listener alone.
pub proof fn law_listeners_are_those_of_the_transport(cfg: Config, peer_id: Seq<char>)
    ensures
        ({
            let port = text::decimal(cfg.port as nat);
            let quic = ListenerTexts {
                quic: true,
                listen: "/ip4/"@ + cfg.host@ + "/udp/"@ + port + "/quic-v1"@,
                dial: "/ip4/"@ + cfg.advertise@ + "/udp/"@ + port + "/quic-v1"@ + "/p2p/"@ + peer_id,
            };
            let tcp = ListenerTexts {
                quic: false,
                listen: "/ip4/"@ + cfg.host@ + "/tcp/"@ + port,
                dial: "/ip4/"@ + cfg.advertise@ + "/tcp/"@ + port + "/p2p/"@ + peer_id,
            };
            &&& cfg.transport@ == "both"@ ==> listeners_of(cfg, peer_id) == seq![quic, tcp]
            &&& cfg.transport@ == "quic"@ ==> listeners_of(cfg, peer_id) == seq![quic]
            &&& cfg.transport@ == "tcp"@ ==> listeners_of(cfg, peer_id) == seq![tcp]
            &&& cfg.transport@ != "both"@ && cfg.transport@ != "quic"@ && cfg.transport@ != "tcp"@
                ==> listeners_of(cfg, peer_id) == Seq::<ListenerTexts>::empty()
        }),
{
    reveal_strlit("both");
    reveal_strlit("quic");
    reveal_strlit("tcp");
    assert("both"@.len() == 4 && "quic"@.len() == 4 && "tcp"@.len() == 3);
    assert("both"@[0] != "quic"@[0]);
    let all = listeners_of(cfg, peer_id);
    if cfg.transport@ == "both"@ {
        assert(all =~= seq![all[0], all[1]]);
    } else if cfg.transport@ == "quic"@ || cfg.transport@ == "tcp"@ {
        assert(all =~= seq![all[0]]);
    } else {
        assert(all =~= Seq::empty());
    }
}

} // verus!
