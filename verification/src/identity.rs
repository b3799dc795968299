//! The identity of a node: its secret key and its peer id.

use tentacle::secio::SecioKeyPair;
use vstd::prelude::*;
use vstd::utf8;

use crate::wire;

verus! {

#[verifier::external_type_specification]
#[verifier::external_body]
pub struct ExSecioKeyPair(tentacle::secio::SecioKeyPair);

#[verifier::external_type_specification]
#[verifier::external_body]
pub struct ExSecioError(tentacle::secio::error::SecioError);

/// Bytes in a seed.
pub const SEED_LEN: usize = 32;

/// The order of the curve secp256k1.
pub open spec fn curve_order() -> nat {
    0xFFFFFFFFFFFFFFFFFFFFFFFFFFFFFFFEBAAEDCE6AF48A03BBFD25E8CD0364141nat
}

/// Whether bytes, read most significant first, are a secret key: neither zero
/// nor as large as the order of the curve.
pub open spec fn valid_secret(bytes: Seq<u8>) -> bool {
    0 < wire::big_endian_value(bytes) < curve_order()
}

/// The secret key that a key pair holds.
pub uninterp spec fn secret(key: SecioKeyPair) -> Seq<u8>;

/// `SecioKeyPair::secp256k1_raw_key`: the key pair of the secret key, or an
/// error where the bytes are none.
#[verifier::external_body]
fn raw_key(seed: [u8; 32]) -> (r: Result<SecioKeyPair, tentacle::secio::error::SecioError>)
    ensures
        r is Ok <==> valid_secret(seed@),
        r matches Ok(key) ==> secret(key) == seed@,
{
    SecioKeyPair::secp256k1_raw_key(seed)
}

/// `SecioKeyPair::secp256k1_generated`: a key pair of some secret key, drawn
/// at random.
#[verifier::external_body]
fn generated() -> (r: SecioKeyPair)
    ensures
        valid_secret(secret(r)),
{
    SecioKeyPair::secp256k1_generated()
}

/// The base58 text of the peer id that belongs to a secret key.
pub uninterp spec fn peer_text(secret: Seq<u8>) -> Seq<char>;

/// `SecioKeyPair::peer_id` as `PeerId::to_base58` writes it.
#[verifier::external_body]
fn base58_peer_id(key: &SecioKeyPair) -> (r: String)
    ensures
        r@ == peer_text(secret(*key)),
{
    key.peer_id().to_base58()
}

/// The value of a hexadecimal digit.
pub open spec fn hex_value(c: u8) -> Option<nat> {
    if 48 <= c <= 57 {
        Some((c - 48) as nat)
    } else if 65 <= c <= 70 {
        Some((c - 55) as nat)
    } else if 97 <= c <= 102 {
        Some((c - 87) as nat)
    } else {
        None
    }
}

fn hex(c: u8) -> (r: Option<u8>)
    ensures
        r is Some <==> hex_value(c) is Some,
        r matches Some(v) ==> hex_value(c) == Some(v as nat) && v < 16,
{
    if 48 <= c && c <= 57 {
        Some(c - 48)
    } else if 65 <= c && c <= 70 {
        Some(c - 55)
    } else if 97 <= c && c <= 102 {
        Some(c - 87)
    } else {
        None
    }
}

/// The byte that two hexadecimal digits denote.
pub open spec fn pair_value(first: u8, second: u8) -> Option<nat> {
    match (hex_value(first), hex_value(second)) {
        (Some(a), Some(b)) => Some(a * 16 + b),
        _ => None,
    }
}

fn pair(first: u8, second: u8) -> (r: Option<u8>)
    ensures
        r is Some <==> pair_value(first, second) is Some,
        r matches Some(v) ==> pair_value(first, second) == Some(v as nat),
{
    match (hex(first), hex(second)) {
        (Some(a), Some(b)) => Some(a * 16 + b),
        _ => None,
    }
}

/// The value of the pair at a position.
pub open spec fn pair_at(bytes: Seq<u8>, i: int) -> Option<nat> {
    pair_value(bytes[2 * i], bytes[2 * i + 1])
}

/// The seed that the bytes of a text denote: two digits for each byte of it,
/// and nothing else.
pub open spec fn seed_of(bytes: Seq<u8>) -> Option<Seq<u8>> {
    if bytes.len() == 2 * SEED_LEN && forall|i: int|
        0 <= i < SEED_LEN ==> #[trigger] pair_at(bytes, i) is Some {
        Some(Seq::new(SEED_LEN as nat, |i: int| pair_at(bytes, i)->0 as u8))
    } else {
        None
    }
}

/// The seed that a text denotes, which is one of 64 hexadecimal digits.
pub fn parse_seed(s: &str) -> (r: Option<[u8; 32]>)
    ensures
        r is Some <==> seed_of(utf8::encode_utf8(s@)) is Some,
        r matches Some(seed) ==> seed_of(utf8::encode_utf8(s@)) == Some(seed@),
{
    let bytes: &[u8] = s.as_bytes();
    if bytes.len() != 2 * SEED_LEN {
        return None;
    }
    let mut out: [u8; 32] = [0u8;32];
    let mut i: usize = 0;
    while i < SEED_LEN
        invariant
            bytes@ == utf8::encode_utf8(s@),
            bytes@.len() == 2 * SEED_LEN,
            i <= SEED_LEN,
            forall|j: int| 0 <= j < i ==> #[trigger] pair_at(bytes@, j) == Some(out@[j] as nat),
        decreases SEED_LEN - i,
    {
        match pair(bytes[2 * i], bytes[2 * i + 1]) {
            Some(v) => {
                out[i] = v;
            },
            None => {
                proof {
                    assert(pair_at(bytes@, i as int) is None);
                }
                return None;
            },
        }
        i = i + 1;
    }
    proof {
        assert(out@ =~= seed_of(bytes@)->0);
    }
    Some(out)
}

/// A key pair and the text of its peer id.
pub struct Identity {
    pub key: SecioKeyPair,
    pub peer_id: String,
}

impl Identity {
    /// Whether the peer id is that of the key.
    pub open spec fn sound(self) -> bool {
        &&& valid_secret(secret(self.key))
        &&& self.peer_id@ == peer_text(secret(self.key))
    }

    /// An identity drawn at random.
    pub fn random() -> (r: Identity)
        ensures
            r.sound(),
    {
        let key: SecioKeyPair = generated();
        let peer_id: String = base58_peer_id(&key);
        Identity { key, peer_id }
    }

    /// The identity of a seed, where the seed is a secret key.
    pub fn from_seed(seed: [u8; 32]) -> (r: Option<Identity>)
        ensures
            r is Some <==> valid_secret(seed@),
            r matches Some(id) ==> id.sound() && secret(id.key) == seed@,
    {
        match raw_key(seed) {
            Ok(key) => {
                let peer_id: String = base58_peer_id(&key);
                Some(Identity { key, peer_id })
            },
            Err(_) => None,
        }
    }

    /// The identity that a text asks for: that of the seed that it denotes,
    /// or any where it denotes none. A seed that is no secret key gives none.
    pub fn asked(seed: Option<&str>) -> (r: Option<Identity>)
        ensures
            r matches Some(id) ==> id.sound(),
            match seed {
                Some(s) => match seed_of(utf8::encode_utf8(s@)) {
                    Some(bytes) => {
                        &&& r is Some <==> valid_secret(bytes)
                        &&& r matches Some(id) ==> secret(id.key) == bytes && id.peer_id@
                            == peer_text(bytes)
                    },
                    None => r is Some,
                },
                None => r is Some,
            },
    {
        match seed {
            Some(s) => match parse_seed(s) {
                Some(bytes) => Identity::from_seed(bytes),
                None => Some(Identity::random()),
            },
            None => Some(Identity::random()),
        }
    }
}

/// A text denotes a seed exactly where it is made of 64 hexadecimal digits,
/// and each byte of the seed is the value of two of them.
pub proof fn law_seeds_are_digits(bytes: Seq<u8>)
    ensures
        seed_of(bytes) is Some <==> bytes.len() == 2 * SEED_LEN && forall|k: int|
            0 <= k < bytes.len() ==> hex_value(#[trigger] bytes[k]) is Some,
        seed_of(bytes) matches Some(seed) ==> seed.len() == SEED_LEN && forall|i: int|
            0 <= i < SEED_LEN ==> #[trigger] seed[i] == hex_value(bytes[2 * i])->0 * 16 + hex_value(
                bytes[2 * i + 1],
            )->0,
{
    if seed_of(bytes) is Some {
        assert forall|k: int| 0 <= k < bytes.len() implies hex_value(#[trigger] bytes[k]) is Some by {
            assert(pair_at(bytes, k / 2) is Some);
            assert(k == 2 * (k / 2) || k == 2 * (k / 2) + 1);
        }
        let seed = seed_of(bytes)->0;
        assert forall|i: int| 0 <= i < SEED_LEN implies #[trigger] seed[i] == hex_value(
            bytes[2 * i],
        )->0 * 16 + hex_value(bytes[2 * i + 1])->0 by {
            assert(pair_at(bytes, i) is Some);
        }
    }
    if bytes.len() == 2 * SEED_LEN && forall|k: int|
        0 <= k < bytes.len() ==> hex_value(#[trigger] bytes[k]) is Some {
        assert forall|i: int| 0 <= i < SEED_LEN implies #[trigger] pair_at(bytes, i) is Some by {
            assert(hex_value(bytes[2 * i]) is Some);
            assert(hex_value(bytes[2 * i + 1]) is Some);
        }
    }
}

/// The secret keys are the numbers above zero and below the order of the curve.
pub proof fn law_secrets_are_below_the_order(bytes: Seq<u8>)
    ensures
        valid_secret(bytes) <==> 0 < wire::big_endian_value(bytes)
            < 115792089237316195423570985008687907852837564279074904382605163141518161494337nat,
{
}

/// A text is parsed as a seed exactly where it is made of 64 hexadecimal digits,
/// and a seed that is a secret key gives the identity of that key.
pub proof fn law_parsed_seed_is_the_digits(s: &str, r: Option<[u8; 32]>, id: Option<Identity>)
    requires
        call_ensures(parse_seed, (s,), r),
        r is Some ==> call_ensures(Identity::from_seed, (r->0,), id),
    ensures
        ({
            let bytes = utf8::encode_utf8(s@);
            &&& r is Some <==> bytes.len() == 64 && forall|k: int|
                0 <= k < bytes.len() ==> hex_value(#[trigger] bytes[k]) is Some
            &&& r matches Some(seed) ==> forall|i: int|
                0 <= i < 32 ==> #[trigger] seed@[i] == hex_value(bytes[2 * i])->0 * 16 + hex_value(
                    bytes[2 * i + 1],
                )->0
            &&& r matches Some(seed) ==> id matches Some(made) ==> secret(made.key) == seed@
                && made.peer_id@ == peer_text(seed@)
        }),
{
    law_seeds_are_digits(utf8::encode_utf8(s@));
}

} // verus!
