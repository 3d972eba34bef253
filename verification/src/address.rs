//! The address deriver: a locking script's deposit identifier under a
//! network. The scheme is the witness-script one: the address carries the
//! script's 32-byte digest as a version-zero witness program, rendered in
//! the network's checksummed text encoding by the consensus library.

use vstd::prelude::*;

use crate::errors::Error;
use crate::hashes::{sha256, sha256_of};

verus! {

/// The consensus limit on a locking script's size, in bytes.
pub const MAX_SCRIPT_LEN: usize = 10000;

/// The ledger network an address belongs to.
#[derive(Clone, Copy, Debug, PartialEq, Eq, Structural)]
pub enum Network {
    /// The production network.
    Mainnet,
    /// The public test network.
    Testnet,
    /// A local regression-test network.
    Regtest,
}

/// An address: a version-zero witness program bound to a network. For a
/// script-hash address the program is the script's 32-byte digest; parsed
/// addresses may also carry a 20-byte key-hash program.
#[derive(Debug)]
pub struct Address {
    /// The network whose prefix and rules the text encoding follows.
    pub network: Network,
    /// The witness program: the hash the address commits to.
    pub program: Vec<u8>,
}

/// A well-formed address holds a program of one of the two defined widths.
pub open spec fn wf_address(a: Address) -> bool {
    a.program@.len() == 20 || a.program@.len() == 32
}

/// The human-readable prefix of a network's address encoding.
pub open spec fn spec_hrp(network: Network) -> Seq<char> {
    match network {
        Network::Mainnet => seq!['b', 'c'],
        Network::Testnet => seq!['t', 'b'],
        Network::Regtest => seq!['b', 'c', 'r', 't'],
    }
}

/// The checksummed text that the ledger's address encoding assigns to a
/// version-zero witness program under a prefix. A function of both alone.
pub uninterp spec fn segwit_v0_addr_of(hrp: Seq<char>, program: Seq<u8>) -> Seq<char>;

/// The address text a script derives to on a network: the encoding of the
/// script's digest as a version-zero witness program.
pub open spec fn spec_address_text(network: Network, script: Seq<u8>) -> Seq<char> {
    segwit_v0_addr_of(spec_hrp(network), sha256_of(script))
}

/// Relies on the `Display` impl of `bitcoin::util::address::Address`: the
/// checksummed bech32 text of a version-zero witness program, determined
/// by the network prefix and the program bytes alone.
#[verifier::external_body]
fn segwit_v0_address_text(network: Network, program: &Vec<u8>) -> (r: String)
    requires
        program@.len() == 20 || program@.len() == 32,
    ensures
        r@ == segwit_v0_addr_of(spec_hrp(network), program@),
{
    let net = match network {
        Network::Mainnet => bitcoin::network::constants::Network::Bitcoin,
        Network::Testnet => bitcoin::network::constants::Network::Testnet,
        Network::Regtest => bitcoin::network::constants::Network::Regtest,
    };
    let addr = bitcoin::util::address::Address {
        payload: bitcoin::util::address::Payload::WitnessProgram {
            version: bech32::u5::try_from_u8(0).expect("zero is a valid base32 value"),
            program: program.clone(),
        },
        network: net,
    };
    format!("{}", addr)
}

/// Whether a parse result inverts the address encoding: any network and
/// well-formed program whose text this is come back exactly, as a
/// version-zero witness program.
pub open spec fn parse_inverts(text: Seq<char>, r: Option<(Network, u8, Vec<u8>)>) -> bool {
    forall|n: Network, p: Seq<u8>|
        (p.len() == 20 || p.len() == 32) && text == #[trigger] segwit_v0_addr_of(spec_hrp(n), p)
            ==> (r matches Some(t) && t.0 == n && t.1 == 0 && t.2@ == p)
}

/// Relies on `bitcoin::util::address::Address::from_str`: checksum and
/// prefix validation of an address string. Hands back network, witness
/// version and program of a witness-program address; anything else is
/// `None`. The source rejects version-zero programs that are not 20 or 32
/// bytes long, and decodes exactly what the `Display` impl emits for the
/// three known prefixes, so on a text that is the encoding of a
/// version-zero program the parse succeeds and inverts it.
#[verifier::external_body]
fn parse_segwit_address(text: &str) -> (r: Option<(Network, u8, Vec<u8>)>)
    ensures
        r matches Some(t) ==> (t.1 == 0 ==> t.2@.len() == 20 || t.2@.len() == 32),
        parse_inverts(text@, r),
{
    let addr = <bitcoin::util::address::Address as core::str::FromStr>::from_str(text).ok()?;
    let net = match addr.network {
        bitcoin::network::constants::Network::Bitcoin => Network::Mainnet,
        bitcoin::network::constants::Network::Testnet => Network::Testnet,
        bitcoin::network::constants::Network::Signet => return None,
        bitcoin::network::constants::Network::Regtest => Network::Regtest,
    };
    match addr.payload {
        bitcoin::util::address::Payload::WitnessProgram { version, program } => {
            Some((net, version.to_u8(), program))
        },
        _ => None,
    }
}

/// Derives the deposit address of a locking script on a network: the
/// script's digest becomes the witness program. Empty scripts have no
/// defined encoding; oversized scripts are rejected at the boundary.
pub fn derive_address(script: &Vec<u8>, network: Network) -> (r: Result<Address, Error>)
    ensures
        r matches Ok(a) ==> {
            &&& 1 <= script@.len() <= MAX_SCRIPT_LEN
            &&& a.network == network
            &&& a.program@ == sha256_of(script@)
            &&& a.program@.len() == 32
            &&& wf_address(a)
        },
        r matches Err(e) ==> (script@.len() == 0 && e == Error::UnsupportedScript) || (script@.len()
            > MAX_SCRIPT_LEN && e == Error::OversizedInput),
{
    if script.len() == 0 {
        return Err(Error::UnsupportedScript);
    }
    if script.len() > MAX_SCRIPT_LEN {
        return Err(Error::OversizedInput);
    }
    let program = sha256(script);
    Ok(Address { network, program })
}

/// The checksummed text rendering of an address.
pub fn address_text(addr: &Address) -> (r: String)
    requires
        wf_address(*addr),
    ensures
        r@ == segwit_v0_addr_of(spec_hrp(addr.network), addr.program@),
{
    segwit_v0_address_text(addr.network, &addr.program)
}

/// Parses an address string back to its network and witness program:
/// the inverse of `address_text`. On the text encoding of any well-formed
/// program it succeeds and returns exactly that network and program, so a
/// derived address parses back to itself. Checksum failures, unknown
/// prefixes and non-witness or non-zero-version forms are all
/// `MalformedAddress`.
pub fn parse_address(text: &str) -> (r: Result<Address, Error>)
    ensures
        r matches Ok(a) ==> wf_address(a),
        r matches Err(e) ==> e == Error::MalformedAddress,
        forall|n: Network, p: Seq<u8>|
            (p.len() == 20 || p.len() == 32) && text@ == #[trigger] segwit_v0_addr_of(
                spec_hrp(n),
                p,
            ) ==> (r matches Ok(a) && a.network == n && a.program@ == p),
{
    match parse_segwit_address(text) {
        Some((network, version, program)) => {
            if version == 0 {
                Ok(Address { network, program })
            } else {
                Err(Error::MalformedAddress)
            }
        },
        None => Err(Error::MalformedAddress),
    }
}

/// The locking script an address commits its funds to: a version-zero
/// witness script, the version opcode followed by a direct push of the
/// program.
pub open spec fn spec_witness_script(program: Seq<u8>) -> Seq<u8>
    recommends
        program.len() == 20 || program.len() == 32,
{
    seq![0u8, program.len() as u8] + program
}

/// Emits the locking script that pays to an address.
pub fn witness_script_pubkey(addr: &Address) -> (r: Vec<u8>)
    requires
        wf_address(*addr),
    ensures
        r@ == spec_witness_script(addr.program@),
{
    let mut out: Vec<u8> = Vec::new();
    out.push(0u8);
    out.push(addr.program.len() as u8);
    let mut p = vstd::slice::slice_to_vec(addr.program.as_slice());
    out.append(&mut p);
    proof {
        assert(out@ =~= spec_witness_script(addr.program@));
    }
    out
}

/// Address derivation is deterministic: any two renderings of the address
/// of one script on one network are the same text.
pub proof fn lemma_address_deterministic(
    t1: Seq<char>,
    t2: Seq<char>,
    network: Network,
    script: Seq<u8>,
)
    requires
        t1 == spec_address_text(network, script),
        t2 == spec_address_text(network, script),
    ensures
        t1 == t2,
{
}

} // verus!
