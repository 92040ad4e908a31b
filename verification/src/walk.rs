//! The deterministic walk function and the distinguished-point predicate.
//!
//! A step of the walk encodes a digest as a message (a fixed prefix followed
//! by the digest's lowercase hex encoding), hashes the message with SHA-256,
//! and truncates the result to the configured width.

use vstd::prelude::*;

use crate::config::SearchConfig;

verus! {

/// Byte length of a full (untruncated) SHA-256 digest.
pub const SHA256_LEN: usize = 32;

/// What SHA-256 returns on a given message. The algorithm itself is not
/// restated here; the trusted wrapper below ties this name to the outside
/// implementation, and every contract speaks through the name.
pub uninterp spec fn sha256_spec(msg: Seq<u8>) -> Seq<u8>;

/// The lowercase hex digit for a nibble.
pub open spec fn hex_digit(n: u8) -> u8 {
    if n < 10 {
        (48 + n) as u8
    } else {
        (87 + n) as u8
    }
}

/// Lowercase hex encoding of a byte sequence: two digits per byte, high
/// nibble first.
pub open spec fn hex_bytes(s: Seq<u8>) -> Seq<u8> {
    Seq::new(
        2 * s.len(),
        |i: int|
            if i % 2 == 0 {
                hex_digit(s[i / 2] >> 4)
            } else {
                hex_digit(s[i / 2] & 0x0f)
            },
    )
}

/// The fixed message prefix, the bytes of "hello ".
pub open spec fn msg_prefix() -> Seq<u8> {
    seq![104u8, 101u8, 108u8, 108u8, 111u8, 32u8]
}

/// The message a digest is encoded into before it is hashed.
pub open spec fn message_spec(d: Seq<u8>) -> Seq<u8> {
    msg_prefix() + hex_bytes(d)
}

/// One step of the pseudorandom walk: hash the digest's message encoding and
/// truncate to the configured width.
pub open spec fn walk_spec(cfg: SearchConfig, d: Seq<u8>) -> Seq<u8> {
    sha256_spec(message_spec(d)).subrange(0, cfg.width as int)
}

/// A digest is distinguished when its first `dp_bytes` bytes are zero.
pub open spec fn distinguished_spec(cfg: SearchConfig, d: Seq<u8>) -> bool {
    forall|i: int| 0 <= i < cfg.dp_bytes ==> d[i] == 0
}

/// Relies on sha2::Sha256::digest: the digest is a function of the input
/// bytes alone, and a SHA-256 digest is exactly 32 bytes long.
#[verifier::external_body]
fn sha256_bytes(msg: &Vec<u8>) -> (r: Vec<u8>)
    ensures
        r@ == sha256_spec(msg@),
        r@.len() == SHA256_LEN,
{
    <sha2::Sha256 as sha2::Digest>::digest(msg.as_slice()).to_vec()
}

/// Relies on hex::encode: lowercase hexadecimal, two digits per byte, high
/// nibble first.
#[verifier::external_body]
fn hex_encode_bytes(data: &Vec<u8>) -> (r: Vec<u8>)
    ensures
        r@ == hex_bytes(data@),
{
    hex::encode(data.as_slice()).into_bytes()
}

/// Encode a digest as the message that the walk hashes: the fixed prefix
/// followed by the digest's lowercase hex encoding.
pub fn hash_to_msg(d: &Vec<u8>) -> (r: Vec<u8>)
    ensures
        r@ == message_spec(d@),
{
    let mut msg: Vec<u8> = Vec::new();
    msg.push(104u8);
    msg.push(101u8);
    msg.push(108u8);
    msg.push(108u8);
    msg.push(111u8);
    msg.push(32u8);
    proof {
        assert(msg@ =~= msg_prefix());
    }
    let mut hx = hex_encode_bytes(d);
    msg.append(&mut hx);
    msg
}

/// Hash a message with SHA-256 and keep the first `cfg.width` bytes.
pub fn sha256_trunc(cfg: &SearchConfig, msg: &Vec<u8>) -> (r: Vec<u8>)
    requires
        cfg.wf(),
    ensures
        r@ == sha256_spec(msg@).subrange(0, cfg.width as int),
        r@.len() == cfg.width,
{
    let h = sha256_bytes(msg);
    let mut r: Vec<u8> = Vec::new();
    let mut i: usize = 0;
    while i < cfg.width
        invariant
            i <= cfg.width,
            cfg.wf(),
            h@ == sha256_spec(msg@),
            h@.len() == SHA256_LEN,
            r@ == h@.subrange(0, i as int),
        decreases cfg.width - i,
    {
        r.push(h[i]);
        proof {
            assert(h@.subrange(0, (i + 1) as int) =~= h@.subrange(0, i as int).push(h@[i as int]));
        }
        i += 1;
    }
    r
}

/// One executable step of the walk.
pub fn pollard_next(cfg: &SearchConfig, d: &Vec<u8>) -> (r: Vec<u8>)
    requires
        cfg.wf(),
    ensures
        r@ == walk_spec(*cfg, d@),
        r@.len() == cfg.width,
{
    let msg = hash_to_msg(d);
    sha256_trunc(cfg, &msg)
}

/// Test whether a digest is a distinguished point.
pub fn is_distinguished(cfg: &SearchConfig, d: &Vec<u8>) -> (r: bool)
    requires
        cfg.dp_bytes <= d@.len(),
    ensures
        r == distinguished_spec(*cfg, d@),
{
    let mut i: usize = 0;
    while i < cfg.dp_bytes
        invariant
            i <= cfg.dp_bytes,
            cfg.dp_bytes <= d@.len(),
            forall|j: int| 0 <= j < i ==> d@[j] == 0,
        decreases cfg.dp_bytes - i,
    {
        if d[i] != 0 {
            return false;
        }
        i += 1;
    }
    true
}

/// Law: the walk is deterministic. Any two results of the walk function on
/// the same digest are equal, since each is pinned to the same spec value.
pub proof fn lemma_walk_deterministic(cfg: SearchConfig, d: Seq<u8>, r1: Seq<u8>, r2: Seq<u8>)
    requires
        r1 == walk_spec(cfg, d),
        r2 == walk_spec(cfg, d),
    ensures
        r1 == r2,
{
}

} // verus!
