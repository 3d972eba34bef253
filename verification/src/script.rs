//! The script builder: byte-exact opcode sequences for the hash-lock
//! predicate, the single-push redeem data that satisfies it, and the
//! evaluation of one against the other.
//!
//! A script is its raw on-chain byte sequence. The display form produced by
//! `script_to_hex` is plain hex of those bytes, never a mnemonic rendering.

use vstd::prelude::*;

use crate::errors::Error;
use crate::hashes::{sha256, sha256_of};
use crate::hexstr::{bytes_to_hex, hex_to_bytes, spec_to_hex, spec_valid_hex, spec_hex_bytes};

verus! {

/// Opcode: pop a value and push its SHA-256 digest.
pub const OP_SHA256: u8 = 0xa8;

/// Opcode: pop two values and push whether they are byte-equal.
pub const OP_EQUAL: u8 = 0x87;

/// Opcode: the next byte gives the length of the data to push.
pub const OP_PUSHDATA1: u8 = 0x4c;

/// Opcode: the next two bytes, little endian, give the push length.
pub const OP_PUSHDATA2: u8 = 0x4d;

/// Length of the ledger's standard hash output, in bytes.
pub const DIGEST_LEN: usize = 32;

/// The consensus limit on a single pushed element, in bytes.
pub const MAX_PUSH_LEN: usize = 520;

/// The minimal single push of a data element, as the script encoding has
/// it: a direct-length opcode below 76, else a length-carrying opcode.
pub open spec fn spec_push(data: Seq<u8>) -> Seq<u8>
    recommends
        1 <= data.len() <= MAX_PUSH_LEN,
{
    if data.len() < 76 {
        seq![data.len() as u8] + data
    } else if data.len() <= 255 {
        seq![OP_PUSHDATA1, data.len() as u8] + data
    } else {
        seq![OP_PUSHDATA2, (data.len() % 256) as u8, (data.len() / 256) as u8] + data
    }
}

/// The hash-lock locking script: hash the witness, compare with the
/// embedded digest.
pub open spec fn spec_locking_script(digest: Seq<u8>) -> Seq<u8>
    recommends
        digest.len() == DIGEST_LEN,
{
    seq![OP_SHA256] + spec_push(digest) + seq![OP_EQUAL]
}

/// The payload of a script that is exactly one minimal, non-empty push;
/// `None` for every other byte sequence.
pub open spec fn spec_push_payload(w: Seq<u8>) -> Option<Seq<u8>> {
    if w.len() == 0 {
        None
    } else if 1 <= w[0] < 76 {
        if w.len() == 1 + w[0] {
            Some(w.subrange(1, w.len() as int))
        } else {
            None
        }
    } else if w[0] == OP_PUSHDATA1 {
        if w.len() >= 2 && w[1] >= 76 && w.len() == 2 + w[1] {
            Some(w.subrange(2, w.len() as int))
        } else {
            None
        }
    } else if w[0] == OP_PUSHDATA2 {
        if w.len() >= 3 && 255 < w[1] + 256 * w[2] <= MAX_PUSH_LEN && w.len() == 3 + w[1] + 256
            * w[2] {
            Some(w.subrange(3, w.len() as int))
        } else {
            None
        }
    } else {
        None
    }
}

/// The digest embedded in a well-formed hash-lock locking script; `None`
/// for every other byte sequence.
pub open spec fn spec_lock_digest(s: Seq<u8>) -> Option<Seq<u8>> {
    if s.len() == 35 && s[0] == OP_SHA256 && s[1] == DIGEST_LEN && s[34] == OP_EQUAL {
        Some(s.subrange(2, 34))
    } else {
        None
    }
}

/// What evaluating redeem data against a locking script yields: `None`
/// when either is malformed, else whether the payload hashes to the
/// embedded digest.
pub open spec fn spec_eval_hash_lock(witness: Seq<u8>, locking: Seq<u8>) -> Option<bool> {
    match (spec_push_payload(witness), spec_lock_digest(locking)) {
        (Some(p), Some(d)) => Some(sha256_of(p) == d),
        _ => None,
    }
}

/// Emits the minimal push of a non-empty data element.
fn push_data(data: &Vec<u8>) -> (r: Vec<u8>)
    requires
        1 <= data@.len() <= MAX_PUSH_LEN,
    ensures
        r@ == spec_push(data@),
{
    let mut out: Vec<u8> = Vec::new();
    let n: usize = data.len();
    if n < 76 {
        out.push(n as u8);
    } else if n <= 255 {
        out.push(OP_PUSHDATA1);
        out.push(n as u8);
    } else {
        out.push(OP_PUSHDATA2);
        out.push((n % 256) as u8);
        out.push((n / 256) as u8);
    }
    let mut d = vstd::slice::slice_to_vec(data.as_slice());
    out.append(&mut d);
    proof {
        assert(out@ =~= spec_push(data@));
    }
    out
}

/// Builds the locking script `OP_SHA256 <push digest> OP_EQUAL` around a
/// 32-byte digest; any other digest length is rejected.
pub fn build_locking_script(digest: &Vec<u8>) -> (r: Result<Vec<u8>, Error>)
    ensures
        r matches Ok(s) ==> digest@.len() == DIGEST_LEN && s@ == spec_locking_script(digest@),
        r matches Err(e) ==> digest@.len() != DIGEST_LEN && e == Error::InvalidDigestLength,
{
    if digest.len() != DIGEST_LEN {
        return Err(Error::InvalidDigestLength);
    }
    let mut out: Vec<u8> = Vec::new();
    out.push(OP_SHA256);
    let mut p = push_data(digest);
    out.append(&mut p);
    out.push(OP_EQUAL);
    proof {
        assert(out@ =~= spec_locking_script(digest@));
    }
    Ok(out)
}

/// Builds the redeem data for a hash lock: one minimal push carrying the
/// raw preimage. Empty preimages are rejected as policy, oversized ones by
/// the consensus push limit.
pub fn build_redeem_witness(preimage: &Vec<u8>) -> (r: Result<Vec<u8>, Error>)
    ensures
        r matches Ok(w) ==> 1 <= preimage@.len() <= MAX_PUSH_LEN && w@ == spec_push(preimage@),
        r matches Err(e) ==> (preimage@.len() == 0 && e == Error::EmptyPreimage) || (preimage@.len()
            > MAX_PUSH_LEN && e == Error::OversizedInput),
{
    if preimage.len() == 0 {
        return Err(Error::EmptyPreimage);
    }
    if preimage.len() > MAX_PUSH_LEN {
        return Err(Error::OversizedInput);
    }
    Ok(push_data(preimage))
}

/// Builds the hash-lock locking script straight from the secret: the
/// embedded digest is the preimage's hash. Empty preimages are rejected
/// as policy, and preimages over the consensus push limit at the
/// boundary, both matching the redeem side: every lock built here has a
/// constructible redeem witness.
pub fn generate_redeem_script(preimage: &Vec<u8>) -> (r: Result<Vec<u8>, Error>)
    ensures
        r matches Ok(s) ==> 1 <= preimage@.len() <= MAX_PUSH_LEN && s@ == spec_locking_script(
            sha256_of(preimage@),
        ),
        r matches Err(e) ==> (preimage@.len() == 0 && e == Error::EmptyPreimage) || (preimage@.len()
            > MAX_PUSH_LEN && e == Error::OversizedInput),
{
    if preimage.len() == 0 {
        return Err(Error::EmptyPreimage);
    }
    if preimage.len() > MAX_PUSH_LEN {
        return Err(Error::OversizedInput);
    }
    let digest = sha256(preimage);
    match build_locking_script(&digest) {
        Ok(s) => Ok(s),
        Err(e) => Err(e),
    }
}

/// The debug rendering of a hash-lock locking script:
/// `OP_SHA256 <hex digest> OP_EQUAL`. A human-facing form only — the
/// on-chain encoding is what `script_to_hex` shows.
pub fn locking_script_display(script: &Vec<u8>) -> (r: Result<String, Error>)
    ensures
        r matches Ok(s) ==> spec_lock_digest(script@) matches Some(d) && s@ == "OP_SHA256 "@
            + spec_to_hex(d) + " OP_EQUAL"@,
        r matches Err(e) ==> spec_lock_digest(script@) is None && e == Error::InvalidEncoding,
{
    let digest = match parse_lock_digest(script) {
        Some(d) => d,
        None => {
            return Err(Error::InvalidEncoding);
        },
    };
    let mut out = String::new();
    out.append("OP_SHA256 ");
    let hex = bytes_to_hex(&digest);
    out.append(hex.as_str());
    out.append(" OP_EQUAL");
    proof {
        assert(out@ =~= "OP_SHA256 "@ + spec_to_hex(digest@) + " OP_EQUAL"@);
    }
    Ok(out)
}

/// The deterministic byte encoding of a script: the script is already its
/// own on-chain byte sequence, so this is an exact copy.
pub fn serialize_script(script: &Vec<u8>) -> (r: Vec<u8>)
    ensures
        r@ == script@,
{
    vstd::slice::slice_to_vec(script.as_slice())
}

/// The lowercase hex rendering of a script's bytes.
pub fn script_to_hex(script: &Vec<u8>) -> (r: String)
    ensures
        r@ == spec_to_hex(script@),
{
    bytes_to_hex(script)
}

/// Decodes the hex rendering back to the identical script bytes.
pub fn script_from_hex(s: &str) -> (r: Result<Vec<u8>, Error>)
    ensures
        r matches Ok(v) ==> spec_valid_hex(s@) && v@ == spec_hex_bytes(s@),
        r matches Err(e) ==> !spec_valid_hex(s@) && e == Error::InvalidHexEncoding,
{
    hex_to_bytes(s)
}

/// Whether two byte strings are equal, position by position.
pub fn bytes_eq(a: &Vec<u8>, b: &Vec<u8>) -> (r: bool)
    ensures
        r <==> a@ =~= b@,
{
    if a.len() != b.len() {
        return false;
    }
    let mut i: usize = 0;
    while i < a.len()
        invariant
            i <= a@.len(),
            a@.len() == b@.len(),
            forall|j: int| 0 <= j < i ==> a@[j] == b@[j],
        decreases a@.len() - i,
    {
        if a[i] != b[i] {
            return false;
        }
        i = i + 1;
    }
    true
}

/// Evaluates redeem data against a hash-lock locking script: both must be
/// well-formed, and the result says whether the revealed preimage hashes
/// to the digest the script embeds.
pub fn evaluate_hash_lock(witness: &Vec<u8>, locking: &Vec<u8>) -> (r: Result<bool, Error>)
    ensures
        r matches Ok(b) ==> spec_eval_hash_lock(witness@, locking@) == Some(b),
        r matches Err(e) ==> spec_eval_hash_lock(witness@, locking@) is None && e
            == Error::InvalidEncoding,
{
    let payload = match parse_push(witness) {
        Some(p) => p,
        None => {
            return Err(Error::InvalidEncoding);
        },
    };
    let digest = match parse_lock_digest(locking) {
        Some(d) => d,
        None => {
            return Err(Error::InvalidEncoding);
        },
    };
    let h = sha256(&payload);
    Ok(bytes_eq(&h, &digest))
}

/// Parses a script that must be exactly one minimal, non-empty push and
/// hands back its payload.
fn parse_push(w: &Vec<u8>) -> (r: Option<Vec<u8>>)
    ensures
        r matches Some(p) ==> spec_push_payload(w@) == Some(p@),
        r is None ==> spec_push_payload(w@) is None,
{
    if w.len() == 0 {
        return None;
    }
    let op: u8 = w[0];
    if 1 <= op && op < 76 {
        if w.len() == 1 + op as usize {
            match crate::codec::read_bytes(w.as_slice(), 1, op as usize) {
                Ok(x) => Some(x.0),
                Err(_) => None,
            }
        } else {
            None
        }
    } else if op == OP_PUSHDATA1 {
        if w.len() >= 2 && w[1] >= 76 && w.len() == 2 + w[1] as usize {
            match crate::codec::read_bytes(w.as_slice(), 2, w.len() - 2) {
                Ok(x) => Some(x.0),
                Err(_) => None,
            }
        } else {
            None
        }
    } else if op == OP_PUSHDATA2 {
        if w.len() < 3 {
            return None;
        }
        let n: usize = w[1] as usize + 256 * w[2] as usize;
        if 255 < n && n <= MAX_PUSH_LEN && w.len() == 3 + n {
            match crate::codec::read_bytes(w.as_slice(), 3, n) {
                Ok(x) => Some(x.0),
                Err(_) => None,
            }
        } else {
            None
        }
    } else {
        None
    }
}

/// Parses a hash-lock locking script and hands back the embedded digest.
fn parse_lock_digest(s: &Vec<u8>) -> (r: Option<Vec<u8>>)
    ensures
        r matches Some(d) ==> spec_lock_digest(s@) == Some(d@),
        r is None ==> spec_lock_digest(s@) is None,
{
    if s.len() == 35 && s[0] == OP_SHA256 && s[1] == DIGEST_LEN as u8 && s[34] == OP_EQUAL {
        match crate::codec::read_bytes(s.as_slice(), 2, 32) {
            Ok(x) => Some(x.0),
            Err(_) => None,
        }
    } else {
        None
    }
}

/// Redeem data built from a preimage satisfies exactly the locking scripts
/// whose embedded digest is that preimage's hash: evaluation yields
/// `Some(true)` when `d` is the preimage's digest and `Some(false)` for
/// every other 32-byte digest.
pub proof fn lemma_witness_unlocks_lock(p: Seq<u8>, d: Seq<u8>)
    requires
        1 <= p.len() <= MAX_PUSH_LEN,
        d.len() == DIGEST_LEN,
    ensures
        spec_push_payload(spec_push(p)) == Some(p),
        spec_lock_digest(spec_locking_script(d)) == Some(d),
        spec_eval_hash_lock(spec_push(p), spec_locking_script(d)) == Some(sha256_of(p) == d),
{
    let w = spec_push(p);
    if p.len() < 76 {
        assert(w[0] == p.len() as u8);
        assert(w.subrange(1, w.len() as int) =~= p);
    } else if p.len() <= 255 {
        assert(w[0] == OP_PUSHDATA1 && w[1] == p.len() as u8);
        assert(w.subrange(2, w.len() as int) =~= p);
    } else {
        assert(w[0] == OP_PUSHDATA2);
        assert(w[1] == (p.len() % 256) as u8 && w[2] == (p.len() / 256) as u8);
        assert(w[1] + 256 * w[2] == p.len()) by {
            vstd::arithmetic::div_mod::lemma_fundamental_div_mod(p.len() as int, 256);
        }
        assert(w.subrange(3, w.len() as int) =~= p);
    }
    let l = spec_locking_script(d);
    assert(l.len() == 35);
    assert(l[0] == OP_SHA256 && l[1] == DIGEST_LEN && l[34] == OP_EQUAL);
    assert(l.subrange(2, 34) =~= d);
}

} // verus!
