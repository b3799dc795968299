//! Multiaddresses: ports, dial addresses and their texts.

use tentacle::multiaddr::Multiaddr;
use tentacle::multiaddr::Protocol;
use vstd::prelude::*;

use crate::text;

verus! {

#[verifier::external_type_specification]
#[verifier::external_body]
pub struct ExMultiaddr(tentacle::multiaddr::Multiaddr);

#[verifier::external_type_specification]
#[verifier::external_body]
pub struct ExMultiaddrError(tentacle::multiaddr::Error);

/// A component of an address.
pub enum Component {
    /// `/udp/<port>`.
    Udp(u16),
    /// `/tcp/<port>`.
    Tcp(u16),
    /// `/quic-v1`.
    QuicV1,
    /// Any other component, in its binary encoding.
    Other(Vec<u8>),
}

/// A component of an address, in the abstract.
pub ghost enum Part {
    Udp(u16),
    Tcp(u16),
    QuicV1,
    Other(Seq<u8>),
}

impl View for Component {
    type V = Part;

    open spec fn view(&self) -> Part {
        match *self {
            Component::Udp(port) => Part::Udp(port),
            Component::Tcp(port) => Part::Tcp(port),
            Component::QuicV1 => Part::QuicV1,
            Component::Other(bytes) => Part::Other(bytes@),
        }
    }
}

/// Whether the bytes of an address can be read as components to their end.
/// An address that was parsed, listened on or dialed can; one put together from
/// unchecked components need not.
pub uninterp spec fn well_formed(addr: Multiaddr) -> bool;

/// The components that a well-formed address holds.
pub uninterp spec fn parts(addr: Multiaddr) -> Seq<Part>;

/// The abstract components of a list.
pub open spec fn parts_of(components: Seq<Component>) -> Seq<Part> {
    components.map_values(|c: Component| c@)
}

/// Whether some well-formed address holds a component, so that its encoding
/// is sound.
pub open spec fn sound(part: Part) -> bool {
    part is Other ==> exists|addr: Multiaddr| #[trigger]
        parts(addr).contains(part) && well_formed(addr)
}

/// `Multiaddr::try_from` on the bytes of the address: the same address again
/// where they can be read as components to their end, and an error where they
/// cannot. Nothing is said of which error that is.
#[verifier::external_body]
fn reread(addr: &Multiaddr) -> (r: Result<Multiaddr, tentacle::multiaddr::Error>)
    ensures
        r is Ok <==> well_formed(*addr),
        r matches Ok(same) ==> well_formed(same) && parts(same) == parts(*addr),
{
    Multiaddr::try_from(addr.to_vec())
}

/// Whether an address can be read as components.
pub fn is_well_formed(addr: &Multiaddr) -> (r: bool)
    ensures
        r == well_formed(*addr),
{
    reread(addr).is_ok()
}

/// `Multiaddr::iter`: the components of the address, in order. The ones other
/// than `Protocol::Udp`, `Tcp` and `QuicV1` are encoded by
/// `Protocol::write_to_bytes`. It panics on an address that is not well formed.
#[verifier::external_body]
fn components(addr: &Multiaddr) -> (r: Vec<Component>)
    requires
        well_formed(*addr),
    ensures
        parts_of(r@) == parts(*addr),
{
    addr.iter()
        .map(|p| match p {
            Protocol::Udp(port) => Component::Udp(port),
            Protocol::Tcp(port) => Component::Tcp(port),
            Protocol::QuicV1 => Component::QuicV1,
            other => {
                let mut bytes = Vec::new();
                other.write_to_bytes(&mut bytes);
                Component::Other(bytes)
            },
        })
        .collect()
}

/// `Multiaddr::from_iter`: the address of the components, in order. The
/// encoded ones are decoded by `Protocol::from_bytes`, which undoes
/// `Protocol::write_to_bytes` on every component that a well-formed address
/// holds, so that the address of them is well formed.
#[verifier::external_body]
fn assemble(list: &Vec<Component>) -> (r: Multiaddr)
    requires
        forall|i: int| 0 <= i < list@.len() ==> sound(#[trigger] list@[i]@),
    ensures
        well_formed(r),
        parts(r) == parts_of(list@),
{
    list.iter()
        .map(|c| match c {
            Component::Udp(port) => Protocol::Udp(*port),
            Component::Tcp(port) => Protocol::Tcp(*port),
            Component::QuicV1 => Protocol::QuicV1,
            Component::Other(bytes) => Protocol::from_bytes(bytes).expect("sound component").0,
        })
        .collect()
}

/// What an encoded component looks like in the text of an address.
pub uninterp spec fn other_text(encoding: Seq<u8>) -> Seq<char>;

/// What a component looks like in the text of an address.
pub open spec fn part_text(part: Part) -> Seq<char> {
    match part {
        Part::Udp(port) => "/udp/"@ + text::decimal(port as nat),
        Part::Tcp(port) => "/tcp/"@ + text::decimal(port as nat),
        Part::QuicV1 => "/quic-v1"@,
        Part::Other(encoding) => other_text(encoding),
    }
}

/// The text of a list of components: their texts, one after another.
pub open spec fn parts_text(list: Seq<Part>) -> Seq<char>
    decreases list.len(),
{
    if list.len() == 0 {
        Seq::empty()
    } else {
        part_text(list[0]) + parts_text(list.drop_first())
    }
}

/// `Multiaddr::to_string`: the texts of the components, one after another,
/// where the text of `Protocol::Udp` is `/udp/` and the port in decimal, that
/// of `Tcp` likewise, that of `QuicV1` is `/quic-v1`, and the text of any other
/// component is that of an address of it alone. It panics on an address that is
/// not well formed.
#[verifier::external_body]
fn to_text(addr: &Multiaddr) -> (r: String)
    requires
        well_formed(*addr),
    ensures
        r@ == parts_text(parts(*addr)),
        parts(*addr).len() == 1 && parts(*addr)[0] is Other ==> r@ == other_text(
            parts(*addr)[0]->Other_0,
        ),
{
    addr.to_string()
}

/// The components of the address that a text denotes, if it denotes one.
pub uninterp spec fn parsed(text: Seq<char>) -> Option<Seq<Part>>;

/// `Multiaddr::from_str`: the address that the text denotes, which is well
/// formed, or an error where it denotes none. Nothing is said of which error that is.
#[verifier::external_body]
fn from_text(text: &str) -> (r: Result<Multiaddr, tentacle::multiaddr::Error>)
    ensures
        r is Ok <==> parsed(text@) is Some,
        r matches Ok(addr) ==> well_formed(addr) && parsed(text@) == Some(parts(addr)),
{
    text.parse()
}

/// The address that a text denotes, if it denotes one.
pub fn parse(text: &str) -> (r: Option<Multiaddr>)
    ensures
        r is Some <==> parsed(text@) is Some,
        r matches Some(addr) ==> well_formed(addr) && parsed(text@) == Some(parts(addr)),
{
    match from_text(text) {
        Ok(addr) => Some(addr),
        Err(_) => None,
    }
}

/// The port of the first `/udp` component.
pub open spec fn first_udp(list: Seq<Part>) -> Option<u16>
    decreases list.len(),
{
    if list.len() == 0 {
        None
    } else {
        match list[0] {
            Part::Udp(port) => Some(port),
            _ => first_udp(list.drop_first()),
        }
    }
}

/// The port of the first `/udp` component among components.
pub fn first_udp_component(list: &Vec<Component>) -> (r: Option<u16>)
    ensures
        r == first_udp(parts_of(list@)),
{
    let mut i: usize = 0;
    proof {
        assert(parts_of(list@).skip(0) =~= parts_of(list@));
    }
    while i < list.len()
        invariant
            i <= list.len(),
            first_udp(parts_of(list@)) == first_udp(parts_of(list@).skip(i as int)),
        decreases list.len() - i,
    {
        proof {
            assert(parts_of(list@).skip(i as int)[0] == list@[i as int]@);
            assert(parts_of(list@).skip(i as int).drop_first() =~= parts_of(list@).skip(i + 1));
        }
        if let Component::Udp(port) = &list[i] {
            return Some(*port);
        }
        i = i + 1;
    }
    None
}

/// The port of the first `/udp` component of an address, where it is well
/// formed and has one.
pub fn quic_port(addr: &Multiaddr) -> (r: Option<u16>)
    ensures
        r == (if well_formed(*addr) {
            first_udp(parts(*addr))
        } else {
            None
        }),
{
    if is_well_formed(addr) {
        first_udp_component(&components(addr))
    } else {
        None
    }
}

/// A component with its UDP port replaced.
pub open spec fn with_port(part: Part, port: u16) -> Part {
    match part {
        Part::Udp(_) => Part::Udp(port),
        _ => part,
    }
}

/// Components with every UDP port replaced.
pub open spec fn with_ports(list: Seq<Part>, port: u16) -> Seq<Part> {
    Seq::new(list.len(), |i: int| with_port(list[i], port))
}

/// Components with every UDP port replaced.
pub fn force_port(list: Vec<Component>, port: u16) -> (r: Vec<Component>)
    ensures
        parts_of(r@) == with_ports(parts_of(list@), port),
{
    let mut out: Vec<Component> = Vec::new();
    let mut i: usize = 0;
    while i < list.len()
        invariant
            i <= list.len(),
            out@.len() == i,
            forall|j: int| 0 <= j < i ==> #[trigger] out@[j]@ == with_port(list@[j]@, port),
        decreases list.len() - i,
    {
        let c: Component = match &list[i] {
            Component::Udp(_) => Component::Udp(port),
            Component::Tcp(kept) => Component::Tcp(*kept),
            Component::QuicV1 => Component::QuicV1,
            Component::Other(bytes) => Component::Other(bytes.clone()),
        };
        proof {
            assert(c@ == with_port(list@[i as int]@, port));
        }
        out.push(c);
        i = i + 1;
    }
    proof {
        assert(parts_of(out@) =~= with_ports(parts_of(list@), port));
    }
    out
}

/// The address with every UDP port replaced, where it is well formed.
pub fn force_quic_port(addr: &Multiaddr, port: u16) -> (r: Option<Multiaddr>)
    ensures
        r is Some <==> well_formed(*addr),
        r matches Some(forced) ==> well_formed(forced) && parts(forced) == with_ports(
            parts(*addr),
            port,
        ),
{
    if !is_well_formed(addr) {
        return None;
    }
    let list: Vec<Component> = components(addr);
    let forced: Vec<Component> = force_port(list, port);
    proof {
        let before = parts(*addr);
        assert(parts_of(forced@).len() == before.len());
        assert forall|i: int| 0 <= i < forced@.len() implies sound(#[trigger] forced@[i]@) by {
            assert(forced@[i]@ == parts_of(forced@)[i]);
            assert(forced@[i]@ == with_port(before[i], port));
            if forced@[i]@ is Other {
                assert(before.contains(before[i]));
            }
        }
    }
    Some(assemble(&forced))
}

/// The transport of an address.
#[derive(Clone, Copy, PartialEq, Eq, Structural, Debug)]
pub enum Transport {
    Tcp,
    Quic,
    Other,
}

/// The transport of components: QUIC where `/quic-v1` is among them, else TCP
/// where `/tcp` is.
pub open spec fn transport_of(list: Seq<Part>) -> Transport {
    if list.contains(Part::QuicV1) {
        Transport::Quic
    } else if exists|i: int| 0 <= i < list.len() && (#[trigger] list[i]) is Tcp {
        Transport::Tcp
    } else {
        Transport::Other
    }
}

/// The transport of components.
pub fn transport(list: &Vec<Component>) -> (r: Transport)
    ensures
        r == transport_of(parts_of(list@)),
{
    let mut tcp: bool = false;
    let mut quic: bool = false;
    let mut i: usize = 0;
    let ghost parts = parts_of(list@);
    while i < list.len()
        invariant
            i <= list@.len(),
            parts == parts_of(list@),
            quic <==> exists|k: int| 0 <= k < i && #[trigger] parts[k] == Part::QuicV1,
            tcp <==> exists|k: int| 0 <= k < i && (#[trigger] parts[k]) is Tcp,
        decreases list@.len() - i,
    {
        proof {
            assert(parts[i as int] == list@[i as int]@);
        }
        match &list[i] {
            Component::Tcp(_) => {
                tcp = true;
            },
            Component::QuicV1 => {
                quic = true;
            },
            _ => {},
        }
        i = i + 1;
    }
    if quic {
        Transport::Quic
    } else if tcp {
        Transport::Tcp
    } else {
        Transport::Other
    }
}

/// The transport of an address, where it is well formed.
pub fn classify(addr: &Multiaddr) -> (r: Option<Transport>)
    ensures
        r == (if well_formed(*addr) {
            Some(transport_of(parts(*addr)))
        } else {
            None
        }),
{
    if is_well_formed(addr) {
        Some(transport(&components(addr)))
    } else {
        None
    }
}

/// Where each node of a mesh listens: the first half on TCP, the second half
/// on QUIC.
pub open spec fn mesh_listen(idx: nat, nodes: nat) -> Seq<char> {
    if idx < nodes / 2 {
        TCP_LOOPBACK@
    } else {
        QUIC_LOOPBACK@
    }
}

/// A TCP listener on the loopback interface, on a port of the system's
/// choice.
pub const TCP_LOOPBACK: &'static str = "/ip4/127.0.0.1/tcp/0";

/// A QUIC listener on the loopback interface, on a port of the system's
/// choice.
pub const QUIC_LOOPBACK: &'static str = "/ip4/127.0.0.1/udp/0/quic-v1";

/// The listen address of a mesh node, as text.
pub fn listen_text_for(idx: u32, nodes: u32) -> (r: &'static str)
    ensures
        r@ == mesh_listen(idx as nat, nodes as nat),
{
    if idx < nodes / 2 {
        TCP_LOOPBACK
    } else {
        QUIC_LOOPBACK
    }
}

/// The listen address of a mesh node.
pub fn listen_addr_for(idx: u32, nodes: u32) -> (r: Option<Multiaddr>)
    ensures
        r is Some <==> parsed(mesh_listen(idx as nat, nodes as nat)) is Some,
        r matches Some(addr) ==> well_formed(addr) && parsed(
            mesh_listen(idx as nat, nodes as nat),
        ) == Some(parts(addr)),
{
    parse(listen_text_for(idx, nodes))
}

/// The text of the address under which a listener with a peer id is dialed.
pub open spec fn dial_text(listen: Seq<char>, peer_id: Seq<char>) -> Seq<char> {
    listen + "/p2p/"@ + peer_id
}

/// The text of the address under which a listener is dialed.
pub fn dialed(listen: &str, peer_id: &str) -> (r: String)
    ensures
        r@ == dial_text(listen@, peer_id@),
{
    let mut out: String = listen.to_owned();
    out.append("/p2p/");
    out.append(peer_id);
    out
}

/// The address under which a listener with a peer id is dialed. There is none
/// where the listener's is not well formed or where the peer id is none.
pub fn dial_addr(listen: &Multiaddr, peer_id: &str) -> (r: Option<Multiaddr>)
    ensures
        ({
            let text = dial_text(parts_text(parts(*listen)), peer_id@);
            &&& r is Some <==> well_formed(*listen) && parsed(text) is Some
            &&& r matches Some(addr) ==> well_formed(addr) && parsed(text) == Some(parts(addr))
        }),
{
    if !is_well_formed(listen) {
        return None;
    }
    let listen_text: String = to_text(listen);
    let text: String = dialed(listen_text.as_str(), peer_id);
    parse(text.as_str())
}

/// A text up to its first slash.
pub open spec fn head(s: Seq<char>) -> Seq<char>
    decreases s.len(),
{
    if s.len() == 0 || s[0] == '/' {
        Seq::empty()
    } else {
        seq![s[0]] + head(s.drop_first())
    }
}

/// A text behind its first slash, where it has one.
pub open spec fn tail(s: Seq<char>) -> Option<Seq<char>>
    decreases s.len(),
{
    if s.len() == 0 {
        None
    } else if s[0] == '/' {
        Some(s.drop_first())
    } else {
        tail(s.drop_first())
    }
}

proof fn lemma_cut(s: Seq<char>)
    ensures
        tail(s) matches Some(rest) ==> s == head(s) + seq!['/'] + rest && rest.len() < s.len(),
        tail(s) is None ==> s == head(s),
        !head(s).contains('/'),
    decreases s.len(),
{
    if s.len() > 0 && s[0] != '/' {
        lemma_cut(s.drop_first());
        let h = head(s.drop_first());
        assert(s =~= seq![s[0]] + s.drop_first());
        match tail(s.drop_first()) {
            Some(rest) => {
                assert(s =~= head(s) + seq!['/'] + rest);
            },
            None => {
                assert(s =~= head(s));
            },
        }
        assert forall|i: int| 0 <= i < head(s).len() implies head(s)[i] != '/' by {
            if i > 0 {
                assert(head(s)[i] == h[i - 1]);
            }
        }
    } else if s.len() > 0 {
        assert(s =~= head(s) + seq!['/'] + s.drop_first());
    } else {
        assert(s =~= head(s));
    }
}

/// What stands before a slash is the head, what stands behind it the tail.
proof fn lemma_cut_at(s: Seq<char>, k: int)
    requires
        0 <= k <= s.len(),
        forall|i: int| 0 <= i < k ==> s[i] != '/',
        k < s.len() ==> s[k] == '/',
    ensures
        head(s) == s.take(k),
        tail(s) == (if k < s.len() {
            Some(s.skip(k + 1))
        } else {
            None
        }),
    decreases k,
{
    if k > 0 {
        let t = s.drop_first();
        lemma_cut_at(t, k - 1);
        assert(s.take(k) =~= seq![s[0]] + t.take(k - 1));
        if k < s.len() {
            assert(t.skip(k) =~= s.skip(k + 1));
        }
    } else {
        assert(s.take(0) =~= Seq::empty());
        if s.len() > 0 {
            assert(s.skip(1) =~= s.drop_first());
        }
    }
}

/// The port that the text of an address names: between slashes, the number
/// right behind the first `udp` that a port number follows.
pub open spec fn named_port(s: Seq<char>) -> Option<nat>
    decreases s.len(),
    via named_port_decreases
{
    match tail(s) {
        None => None,
        Some(rest) => if head(s) == "udp"@ && text::unsigned_value(head(rest), u16::MAX as nat)
            is Some {
            text::unsigned_value(head(rest), u16::MAX as nat)
        } else {
            named_port(rest)
        },
    }
}

#[via_fn]
proof fn named_port_decreases(s: Seq<char>) {
    lemma_cut(s);
}

/// Where the slash at or behind a position stands; the length where there is
/// none.
fn next_slash(s: &str, from: usize, len: usize) -> (r: usize)
    requires
        from <= len,
        len == s@.len(),
    ensures
        from <= r <= len,
        forall|i: int| from <= i < r ==> s@[i] != '/',
        r < len ==> s@[r as int] == '/',
{
    let mut i: usize = from;
    while i < len
        invariant
            from <= i <= len,
            len == s@.len(),
            forall|j: int| from <= j < i ==> s@[j] != '/',
        decreases len - i,
    {
        if s.get_char(i) == '/' {
            return i;
        }
        i = i + 1;
    }
    i
}

/// Whether a stretch of a text is `udp`.
fn is_udp(s: &str, from: usize, to: usize) -> (r: bool)
    requires
        from <= to <= s@.len(),
    ensures
        r == (s@.subrange(from as int, to as int) == "udp"@),
{
    proof {
        reveal_strlit("udp");
    }
    let ghost stretch = s@.subrange(from as int, to as int);
    assert(stretch.len() == to - from);
    if to - from != 3 {
        return false;
    }
    let r: bool = s.get_char(from) == 'u' && s.get_char(from + 1) == 'd' && s.get_char(from + 2)
        == 'p';
    proof {
        assert(stretch[0] == s@[from as int]);
        assert(stretch[1] == s@[from + 1]);
        assert(stretch[2] == s@[from + 2]);
        if r {
            assert(stretch =~= "udp"@);
        }
    }
    r
}

/// The UDP port that the text of an address names.
pub fn udp_port(s: &str) -> (r: Option<u16>)
    ensures
        r is Some <==> named_port(s@) is Some,
        r matches Some(port) ==> named_port(s@) == Some(port as nat),
{
    let len: usize = s.unicode_len();
    let mut start: usize = 0;
    proof {
        assert(s@.skip(0) =~= s@);
    }
    loop
        invariant
            start <= len,
            len == s@.len(),
            named_port(s@) == named_port(s@.skip(start as int)),
        decreases len - start,
    {
        let end: usize = next_slash(s, start, len);
        let ghost here = s@.skip(start as int);
        proof {
            lemma_cut_at(here, end - start);
            assert(here.take(end - start) =~= s@.subrange(start as int, end as int));
        }
        if end == len {
            return None;
        }
        let second: usize = next_slash(s, end + 1, len);
        let ghost rest = s@.skip(end + 1);
        proof {
            assert(here.skip(end - start + 1) =~= rest);
            lemma_cut_at(rest, second - end - 1);
            assert(rest.take(second - end - 1) =~= s@.subrange(end + 1, second as int));
        }
        if is_udp(s, start, end) {
            if let Some(port) = text::read_unsigned_in(s, end + 1, second, u16::MAX as u64) {
                return Some(port as u16);
            }
        }
        start = end + 1;
    }
}

/// The UDP port that the text of an address names, where the address is well
/// formed and its text names one.
pub fn listen_port(addr: &Multiaddr) -> (r: Option<u16>)
    ensures
        r is Some <==> well_formed(*addr) && named_port(parts_text(parts(*addr))) is Some,
        r matches Some(port) ==> named_port(parts_text(parts(*addr))) == Some(port as nat),
{
    if !is_well_formed(addr) {
        return None;
    }
    let shown: String = to_text(addr);
    udp_port(shown.as_str())
}

/// Whether no stretch of a text between slashes is `udp`.
pub open spec fn without_udp(s: Seq<char>) -> bool
    decreases s.len(),
    via without_udp_decreases
{
    &&& head(s) != "udp"@
    &&& tail(s) matches Some(rest) ==> without_udp(rest)
}

#[via_fn]
proof fn without_udp_decreases(s: Seq<char>) {
    lemma_cut(s);
}

/// Whether a component cannot be taken for `/udp` in the text of an address.
pub open spec fn plain(part: Part) -> bool {
    part matches Part::Other(encoding) ==> {
        let t = other_text(encoding);
        t.len() > 0 && t[0] == '/' && without_udp(t.drop_first())
    }
}

proof fn lemma_skip_plain(c: Seq<char>, rest: Seq<char>)
    requires
        without_udp(c),
        rest.len() > 0 ==> rest[0] == '/',
    ensures
        named_port(c + rest) == named_port(rest),
    decreases c.len(),
{
    lemma_cut(c);
    reveal_strlit("udp");
    let k = head(c).len() as int;
    let s = c + rest;
    if rest.len() > 0 {
        lemma_cut_at(rest, 0);
        assert(rest.take(0) =~= Seq::empty());
        assert(rest.skip(1) =~= rest.drop_first());
    }
    assert forall|i: int| 0 <= i < k implies s[i] != '/' by {
        assert(s[i] == head(c)[i]);
    }
    match tail(c) {
        Some(t) => {
            assert(s[k] == c[k]);
            assert(c[k] == '/');
            lemma_cut_at(s, k);
            assert(s.take(k) =~= head(c));
            assert(s.skip(k + 1) =~= t + rest);
            lemma_skip_plain(t, rest);
        },
        None => {
            if rest.len() > 0 {
                assert(s[k] == rest[0]);
                lemma_cut_at(s, k);
                assert(s.take(k) =~= head(c));
                assert(s.skip(k + 1) =~= rest.skip(1));
            } else {
                assert(s =~= c);
            }
        },
    }
}

/// The port that the text of an address names is the port of the first
/// `/udp` component, where no other component reads as `udp`.
pub proof fn law_text_names_first_port(list: Seq<Part>)
    requires
        forall|i: int| 0 <= i < list.len() ==> plain(#[trigger] list[i]),
    ensures
        named_port(parts_text(list)) == (match first_udp(list) {
            Some(port) => Some(port as nat),
            None => None,
        }),
        list.len() > 0 ==> parts_text(list).len() > 0 && parts_text(list)[0] == '/',
    decreases list.len(),
{
    reveal_strlit("udp");
    reveal_strlit("/udp/");
    reveal_strlit("tcp");
    reveal_strlit("/tcp/");
    reveal_strlit("/quic-v1");
    if list.len() == 0 {
        assert(tail(parts_text(list)) is None);
    } else {
        let after = list.drop_first();
        assert forall|i: int| 0 <= i < after.len() implies plain(#[trigger] after[i]) by {
            assert(after[i] == list[i + 1]);
        }
        law_text_names_first_port(after);
        let rest = parts_text(after);
        if after.len() == 0 {
            assert(rest =~= Seq::empty());
        }
        let first = part_text(list[0]);
        let s = parts_text(list);
        assert(s == first + rest);
        assert(plain(list[0]));
        assert(s[0] == '/');
        lemma_cut_at(s, 0);
        assert(s.take(0) =~= Seq::empty());
        assert(s.skip(1) =~= first.drop_first() + rest);
        let body = s.skip(1);
        assert(named_port(s) == named_port(body));
        match list[0] {
            Part::Udp(port) => {
                let digits = text::decimal(port as nat);
                text::law_decimal_reads_back(port as nat, u16::MAX as nat);
                assert(body =~= "udp"@ + seq!['/'] + digits + rest);
                lemma_cut_at(body, 3);
                assert(body.take(3) =~= "udp"@);
                let t = body.skip(4);
                assert(t =~= digits + rest);
                lemma_cut_at(t, digits.len() as int);
                assert(t.take(digits.len() as int) =~= digits);
                assert(named_port(body) == Some(port as nat));
            },
            Part::Tcp(port) => {
                let digits = text::decimal(port as nat);
                text::law_decimal_reads_back(port as nat, u16::MAX as nat);
                let c = first.drop_first();
                assert(c =~= "tcp"@ + seq!['/'] + digits);
                lemma_cut_at(c, 3);
                assert(c.take(3) =~= "tcp"@);
                assert("tcp"@[0] == 't' && "udp"@[0] == 'u');
                assert(c.skip(4) =~= digits);
                lemma_cut_at(digits, digits.len() as int);
                assert(digits.take(digits.len() as int) =~= digits);
                assert(digits[0] != "udp"@[0]);
                assert(without_udp(digits));
                lemma_skip_plain(c, rest);
            },
            Part::QuicV1 => {
                let c = first.drop_first();
                lemma_cut_at(c, 7);
                assert(c.take(7) =~= c);
                assert(c.len() == 7 && "udp"@.len() == 3);
                lemma_skip_plain(c, rest);
            },
            Part::Other(encoding) => {
                lemma_skip_plain(first.drop_first(), rest);
            },
        }
    }
}

/// Forcing a port makes it the port of the address, where it has one.
pub proof fn law_forced_port_is_found(list: Seq<Part>, port: u16)
    ensures
        first_udp(with_ports(list, port)) == (if first_udp(list) is Some {
            Some(port)
        } else {
            None
        }),
    decreases list.len(),
{
    if list.len() > 0 {
        law_forced_port_is_found(list.drop_first(), port);
        assert(with_ports(list, port).drop_first() =~= with_ports(list.drop_first(), port));
    }
}

/// Forcing the port that every `/udp` component has already changes nothing.
pub proof fn law_forcing_own_port_keeps_address(list: Seq<Part>, port: u16)
    requires
        forall|i: int| 0 <= i < list.len() && list[i] is Udp ==> #[trigger] list[i] == Part::Udp(port),
    ensures
        with_ports(list, port) == list,
{
    assert(with_ports(list, port) =~= list);
}

/// The port of an address is that of its first `/udp` component, and none where
/// it has no such component.
pub proof fn law_first_port_is_of_the_first_udp(list: Seq<Part>, i: int, port: u16)
    ensures
        0 <= i < list.len() && list[i] == Part::Udp(port) && (forall|k: int|
            0 <= k < i ==> !((#[trigger] list[k]) is Udp)) ==> first_udp(list) == Some(port),
        (forall|k: int| 0 <= k < list.len() ==> !((#[trigger] list[k]) is Udp)) ==> first_udp(list)
            is None,
    decreases list.len(),
{
    if list.len() > 0 {
        let rest = list.drop_first();
        law_first_port_is_of_the_first_udp(rest, i - 1, port);
        if forall|k: int| 0 <= k < list.len() ==> !((#[trigger] list[k]) is Udp) {
            assert forall|k: int| 0 <= k < rest.len() implies !((#[trigger] rest[k]) is Udp) by {
                assert(!(list[k + 1] is Udp));
            }
        }
        if 0 <= i < list.len() && forall|k: int| 0 <= k < i ==> !((#[trigger] list[k]) is Udp) {
            assert forall|k: int| 0 <= k < i - 1 implies !((#[trigger] rest[k]) is Udp) by {
                assert(!(list[k + 1] is Udp));
            }
            if i > 0 {
                assert(!(list[0] is Udp));
                assert(rest[i - 1] == list[i]);
            }
        }
    }
}

/// Forcing a port changes the port of every `/udp` component, and nothing else.
pub proof fn law_forcing_changes_only_udp_ports(list: Seq<Part>, port: u16, i: int)
    requires
        0 <= i < list.len(),
    ensures
        with_ports(list, port).len() == list.len(),
        list[i] is Udp ==> with_ports(list, port)[i] == Part::Udp(port),
        !(list[i] is Udp) ==> with_ports(list, port)[i] == list[i],
{
}

/// An address with `/quic-v1` is a QUIC address, whatever else it holds; one
/// without it but with `/tcp` is a TCP address.
pub proof fn law_quic_comes_before_tcp(list: Seq<Part>, i: int)
    requires
        0 <= i < list.len(),
    ensures
        list[i] == Part::QuicV1 ==> transport_of(list) == Transport::Quic,
        list[i] is Tcp && !list.contains(Part::QuicV1) ==> transport_of(list) == Transport::Tcp,
        (forall|k: int|
            0 <= k < list.len() ==> (#[trigger] list[k]) is Udp || list[k] is Other) ==> transport_of(
            list,
        ) == Transport::Other,
{
    if forall|k: int| 0 <= k < list.len() ==> (#[trigger] list[k]) is Udp || list[k] is Other {
        if list.contains(Part::QuicV1) {
            let k = choose|k: int| 0 <= k < list.len() && list[k] == Part::QuicV1;
            assert(list[k] is Udp || list[k] is Other);
        }
    }
}

/// A listener is dialed under its own address with the peer id behind it, and
/// the first half of a mesh, rounded down, listens on TCP.
pub proof fn law_dial_text_ends_with_the_peer(listen: Seq<char>, peer_id: Seq<char>, idx: nat, nodes: nat)
    ensures
        dial_text(listen, peer_id) == listen + "/p2p/"@ + peer_id,
        2 * idx + 1 < nodes ==> mesh_listen(idx, nodes) == "/ip4/127.0.0.1/tcp/0"@,
        2 * idx + 1 >= nodes ==> mesh_listen(idx, nodes) == "/ip4/127.0.0.1/udp/0/quic-v1"@,
{
}

/// The text of an address is that of its components, one after another.
pub proof fn law_text_goes_component_by_component(a: Seq<Part>, b: Seq<Part>, port: u16)
    ensures
        parts_text(a + b) == parts_text(a) + parts_text(b),
        parts_text(seq![Part::Udp(port)]) == "/udp/"@ + text::decimal(port as nat),
        parts_text(seq![Part::Tcp(port)]) == "/tcp/"@ + text::decimal(port as nat),
        parts_text(seq![Part::QuicV1]) == "/quic-v1"@,
    decreases a.len(),
{
    reveal_with_fuel(parts_text, 2);
    assert(seq![Part::Udp(port)].drop_first() =~= Seq::empty());
    assert(seq![Part::Tcp(port)].drop_first() =~= Seq::empty());
    assert(seq![Part::QuicV1].drop_first() =~= Seq::empty());
    assert(parts_text(seq![Part::Udp(port)]) =~= "/udp/"@ + text::decimal(port as nat));
    assert(parts_text(seq![Part::Tcp(port)]) =~= "/tcp/"@ + text::decimal(port as nat));
    assert(parts_text(seq![Part::QuicV1]) =~= "/quic-v1"@);
    if a.len() == 0 {
        assert(a + b =~= b);
        assert(parts_text(a) + parts_text(b) =~= parts_text(b));
    } else {
        law_text_goes_component_by_component(a.drop_first(), b, port);
        assert((a + b).drop_first() =~= a.drop_first() + b);
        assert((a + b)[0] == a[0]);
        assert(parts_text(a + b) =~= parts_text(a) + parts_text(b));
    }
}

/// Between slashes, the number right behind the first `udp` is the port of a
/// text, where it is a port number; anything else in front of a slash is passed
/// over, and a text without a slash names no port.
pub proof fn law_port_stands_behind_udp(segment: Seq<char>, next: Seq<char>, more: Seq<char>)
    requires
        !segment.contains('/'),
        !next.contains('/'),
        more.len() > 0 ==> more[0] == '/',
    ensures
        named_port(segment) is None,
        segment == "udp"@ && text::unsigned_value(next, 65535) is Some ==> named_port(
            segment + seq!['/'] + next + more,
        ) == text::unsigned_value(next, 65535),
        segment != "udp"@ || text::unsigned_value(next, 65535) is None ==> named_port(
            segment + seq!['/'] + next + more,
        ) == named_port(next + more),
{
    let s = segment + seq!['/'] + next + more;
    let rest = next + more;
    let k = segment.len() as int;
    assert forall|i: int| 0 <= i < k implies segment[i] != '/' by {
        assert(segment.contains(segment[i]));
    }
    assert forall|i: int| 0 <= i < next.len() implies next[i] != '/' by {
        assert(next.contains(next[i]));
    }
    lemma_cut_at(segment, k);
    assert forall|i: int| 0 <= i < k implies s[i] != '/' by {
        assert(s[i] == segment[i]);
    }
    assert(s[k] == '/');
    lemma_cut_at(s, k);
    assert(s.take(k) =~= segment);
    assert(s.skip(k + 1) =~= rest);
    assert forall|i: int| 0 <= i < next.len() implies rest[i] != '/' by {
        assert(rest[i] == next[i]);
    }
    lemma_cut_at(rest, next.len() as int);
    assert(rest.take(next.len() as int) =~= next);
}

/// An address whose port was forced has that port, where it had one, and the
/// transport that it had.
pub proof fn law_forced_address_has_the_port(
    a: Multiaddr,
    port: u16,
    forced: Option<Multiaddr>,
    before: Option<u16>,
    after: Option<u16>,
)
    requires
        well_formed(a),
        call_ensures(force_quic_port, (&a, port), forced),
        call_ensures(quic_port, (&a,), before),
        forced is Some ==> call_ensures(quic_port, (&forced->0,), after),
    ensures
        forced is Some,
        before is Some ==> after == Some(port),
        before is None ==> after is None,
        transport_of(parts(forced->0)) == transport_of(parts(a)),
{
    let list = parts(a);
    let new = with_ports(list, port);
    law_forced_port_is_found(list, port);
    assert forall|i: int| 0 <= i < list.len() implies ((#[trigger] list[i]) is Tcp <==> new[i] is Tcp)
        && (list[i] == Part::QuicV1 <==> new[i] == Part::QuicV1) by {
        law_forcing_changes_only_udp_ports(list, port, i);
    }
    if list.contains(Part::QuicV1) {
        let i = choose|i: int| 0 <= i < list.len() && list[i] == Part::QuicV1;
        assert(new[i] == Part::QuicV1);
    }
    if new.contains(Part::QuicV1) {
        let i = choose|i: int| 0 <= i < new.len() && new[i] == Part::QuicV1;
        assert(list[i] == Part::QuicV1);
    }
    if exists|i: int| 0 <= i < list.len() && (#[trigger] list[i]) is Tcp {
        let i = choose|i: int| 0 <= i < list.len() && (#[trigger] list[i]) is Tcp;
        assert(new[i] is Tcp);
    }
    if exists|i: int| 0 <= i < new.len() && (#[trigger] new[i]) is Tcp {
        let i = choose|i: int| 0 <= i < new.len() && (#[trigger] new[i]) is Tcp;
        assert(list[i] is Tcp);
    }
}

} // verus!
