//! Recognising the kinds of asset identifiers, and the contract address of
//! a classic asset's Stellar Asset Contract.

use sha2::{Digest, Sha256};
use stellar_xdr::{
    AccountId, AlphaNum12, AlphaNum4, Asset, AssetCode12, AssetCode4, ContractIdPreimage, HashIdPreimage,
    HashIdPreimageContractId, Limits, PublicKey, Uint256, WriteXdr,
};
use vstd::prelude::*;
use vstd::string::StringSliceAdditionalSpecFns;

use crate::text::{chars_of, str_eq};

verus! {

#[verifier::external_type_specification]
#[verifier::external_body]
pub struct ExStrkeyDecodeError(stellar_strkey::DecodeError);

#[verifier::external_type_specification]
#[verifier::external_body]
pub struct ExXdrError(stellar_xdr::Error);

/// The SHA-256 digest of a byte string.
pub uninterp spec fn sha256_of(data: Seq<u8>) -> Seq<u8>;

/// `Sha256::digest` (sha2): the 32-byte SHA-256 digest of `data`.
#[verifier::external_body]
pub(crate) fn sha256(data: &[u8]) -> (r: [u8; 32])
    ensures
        r@ == sha256_of(data@),
{
    Sha256::digest(data).into()
}

/// The 32 key bytes of a `G...` account strkey, or `None` when the text is
/// not one.
pub uninterp spec fn account_key_of(text: Seq<u8>) -> Option<Seq<u8>>;

/// `stellar_strkey::ed25519::PublicKey::from_slice`: decodes an account
/// strkey; `Ok` holds its key bytes, and an error comes exactly when the
/// text does not decode.
#[verifier::external_body]
pub(crate) fn decode_account_key(text: &[u8]) -> (r: Result<[u8; 32], stellar_strkey::DecodeError>)
    ensures
        match r {
            Ok(k) => account_key_of(text@) == Some(k@),
            Err(_) => account_key_of(text@) is None,
        },
{
    match stellar_strkey::ed25519::PublicKey::from_slice(text) {
        Ok(k) => Ok(k.0),
        Err(e) => Err(e),
    }
}

/// The 32-byte id of a `C...` contract strkey, or `None` when the text is
/// not one.
pub uninterp spec fn contract_id_of(text: Seq<char>) -> Option<Seq<u8>>;

/// `stellar_strkey::Contract::from_string`: decodes a contract strkey; `Ok`
/// holds its id, and an error comes exactly when the text does not decode.
#[verifier::external_body]
pub(crate) fn decode_contract_id(text: &str) -> (r: Result<[u8; 32], stellar_strkey::DecodeError>)
    ensures
        match r {
            Ok(k) => contract_id_of(text@) == Some(k@),
            Err(_) => contract_id_of(text@) is None,
        },
{
    match stellar_strkey::Contract::from_string(text) {
        Ok(c) => Ok(c.0),
        Err(e) => Err(e),
    }
}

/// A 4-byte big-endian XDR integer below 256.
pub open spec fn xdr_int(v: u8) -> Seq<u8> {
    seq![0u8, 0u8, 0u8, v]
}

/// The XDR encoding of an asset given by its padded code (empty for the
/// native asset) and issuer key: the asset type (native 0, 4-byte code 1,
/// 12-byte code 2), then the code and the issuer as an ed25519 public key
/// (key type 0).
pub open spec fn asset_xdr(code: Seq<u8>, issuer: Seq<u8>) -> Seq<u8> {
    if code.len() == 0 {
        xdr_int(0)
    } else {
        xdr_int(if code.len() == 4 { 1u8 } else { 2u8 }) + code + xdr_int(0) + issuer
    }
}

/// The XDR encoding of the contract-id preimage of an asset's contract on a
/// network: envelope type `ENVELOPE_TYPE_CONTRACT_ID` (8), the network id,
/// preimage type `FROM_ASSET` (1), and the asset.
pub open spec fn contract_preimage_xdr(network_id: Seq<u8>, code: Seq<u8>, issuer: Seq<u8>) -> Seq<u8> {
    xdr_int(8) + network_id + xdr_int(1) + asset_xdr(code, issuer)
}

/// `WriteXdr::to_xdr` (stellar-xdr) of `HashIdPreimage::ContractId` for a
/// Stellar Asset Contract, with `Limits::none`: it writes into an in-memory
/// buffer with no depth or length limit, so it succeeds, and the bytes are
/// the XDR layout above.
#[verifier::external_body]
fn encode_contract_preimage(network_id: [u8; 32], asset: &SacAsset) -> (r: Result<Vec<u8>, stellar_xdr::Error>)
    ensures
        r is Ok,
        r matches Ok(v) ==> v@ == contract_preimage_xdr(network_id@, asset.code_view(), asset.issuer_view()),
{
    let asset = match *asset {
        SacAsset::Native => Asset::Native,
        SacAsset::Alphanum4 { code, issuer } => Asset::CreditAlphanum4(AlphaNum4 {
            asset_code: AssetCode4(code),
            issuer: AccountId(PublicKey::PublicKeyTypeEd25519(Uint256(issuer))),
        }),
        SacAsset::Alphanum12 { code, issuer } => Asset::CreditAlphanum12(AlphaNum12 {
            asset_code: AssetCode12(code),
            issuer: AccountId(PublicKey::PublicKeyTypeEd25519(Uint256(issuer))),
        }),
    };
    let preimage = HashIdPreimageContractId { network_id: stellar_xdr::Hash(network_id), contract_id_preimage: ContractIdPreimage::Asset(asset) };
    HashIdPreimage::ContractId(preimage).to_xdr(Limits::none())
}

/// The `C...` strkey text of a 32-byte contract id.
pub uninterp spec fn contract_strkey_of(id: Seq<u8>) -> Seq<char>;

/// `stellar_strkey::Contract::to_string`: the strkey of a contract id, 56
/// characters (the crate's `ENCODED_LEN`) starting with `C` (its version
/// byte's prefix).
#[verifier::external_body]
fn contract_strkey(id: [u8; 32]) -> (r: String)
    ensures
        r@ == contract_strkey_of(id@),
        r@.len() == 56,
        r@[0] == 'C',
{
    stellar_strkey::Contract(id).to_string().as_str().to_owned()
}

/// A classic or native asset as its contract-id preimage holds it.
#[derive(Debug, Clone, Copy)]
pub enum SacAsset {
    Native,
    Alphanum4 { code: [u8; 4], issuer: [u8; 32] },
    Alphanum12 { code: [u8; 12], issuer: [u8; 32] },
}

impl SacAsset {
    /// The zero-padded asset code (empty for the native asset).
    pub open spec fn code_view(&self) -> Seq<u8> {
        match self {
            SacAsset::Native => Seq::empty(),
            SacAsset::Alphanum4 { code, .. } => code@,
            SacAsset::Alphanum12 { code, .. } => code@,
        }
    }

    /// The issuer's key bytes (empty for the native asset).
    pub open spec fn issuer_view(&self) -> Seq<u8> {
        match self {
            SacAsset::Native => Seq::empty(),
            SacAsset::Alphanum4 { issuer, .. } => issuer@,
            SacAsset::Alphanum12 { issuer, .. } => issuer@,
        }
    }
}

/// Why an asset has no contract address.
#[derive(Debug, Clone, Copy, PartialEq, Eq, Structural)]
pub enum SacError {
    /// Neither `native` nor `CODE:ISSUER`.
    InvalidFormat,
    /// The issuer is not an account strkey.
    InvalidIssuer,
    /// The code is not 1 to 12 bytes.
    InvalidCodeLength,
}

/// Index of the first `:` byte.
pub open spec fn first_colon(b: Seq<u8>) -> Option<int>
    decreases b.len(),
{
    if b.len() == 0 {
        None
    } else {
        match first_colon(b.drop_last()) {
            Some(i) => Some(i),
            None => if b.last() == 58 { Some(b.len() - 1) } else { None },
        }
    }
}

/// `code` followed by zeros up to `n` bytes.
pub open spec fn zero_padded(code: Seq<u8>, n: nat) -> Seq<u8> {
    code + Seq::new((n - code.len()) as nat, |i: int| 0u8)
}

/// The padded code and issuer key of an asset given as `native` or
/// `CODE:ISSUER` (the issuer is decoded before the code is checked).
pub open spec fn sac_asset_parts(asset: &str) -> Result<(Seq<u8>, Seq<u8>), SacError> {
    if asset@ == "native"@ {
        Ok((Seq::empty(), Seq::empty()))
    } else {
        let b = asset.spec_bytes();
        match first_colon(b) {
            None => Err(SacError::InvalidFormat),
            Some(i) => match account_key_of(b.skip(i + 1)) {
                None => Err(SacError::InvalidIssuer),
                Some(k) => {
                    let code = b.take(i);
                    if 1 <= code.len() <= 4 {
                        Ok((zero_padded(code, 4), k))
                    } else if 5 <= code.len() <= 12 {
                        Ok((zero_padded(code, 12), k))
                    } else {
                        Err(SacError::InvalidCodeLength)
                    }
                },
            },
        }
    }
}

/// The kind of an asset identifier.
#[derive(Debug, Clone, Copy, PartialEq, Eq, Structural)]
pub enum AssetType {
    Native,
    Classic,
    Contract,
    Unknown,
}

/// A Soroban contract address: starts with `C` and is 56 bytes long.
pub open spec fn contract_address_text(s: Seq<char>) -> bool {
    s.len() > 0 && s[0] == 'C' && vstd::utf8::encode_utf8(s).len() == 56
}

/// A Soroban contract address: starts with `C` and is 56 bytes long.
pub open spec fn contract_address(s: &str) -> bool {
    contract_address_text(s@)
}

/// Check if a string looks like a Soroban contract address (C..., 56 chars).
pub fn is_contract_address(s: &str) -> (r: bool)
    ensures
        r == contract_address(s),
{
    let c = chars_of(s);
    c.len() > 0 && c[0] == 'C' && s.as_bytes().len() == 56
}

/// `native`, a classic `CODE:ISSUER` asset, a contract, or unknown.
pub open spec fn asset_type_value(asset: &str) -> AssetType {
    if asset@ == "native"@ {
        AssetType::Native
    } else if asset@.contains(':') {
        AssetType::Classic
    } else if contract_address(asset) {
        AssetType::Contract
    } else {
        AssetType::Unknown
    }
}

/// Parse asset string to determine if it's native, classic, or contract.
pub fn parse_asset_type(asset: &str) -> (r: AssetType)
    ensures
        r == asset_type_value(asset),
{
    if str_eq(asset, "native") {
        return AssetType::Native;
    }
    let c = chars_of(asset);
    let mut i: usize = 0;
    while i < c.len()
        invariant
            c@ == asset@,
            asset@ != "native"@,
            i <= c@.len(),
            forall|j: int| 0 <= j < i ==> c@[j] != ':',
        decreases c.len() - i,
    {
        if c[i] == ':' {
            proof {
                assert(asset@[i as int] == ':');
                assert(asset@.contains(':'));
            }
            return AssetType::Classic;
        }
        i = i + 1;
    }
    if is_contract_address(asset) {
        AssetType::Contract
    } else {
        AssetType::Unknown
    }
}

/// Index of the first `:` byte of `b`.
fn find_colon(b: &[u8]) -> (r: Option<usize>)
    ensures
        match r {
            Some(i) => i < b@.len() && first_colon(b@) == Some(i as int),
            None => first_colon(b@) is None,
        },
{
    let mut i: usize = 0;
    while i < b.len()
        invariant
            i <= b@.len(),
            first_colon(b@.take(i as int)) is None,
        decreases b.len() - i,
    {
        proof {
            assert(b@.take(i + 1).drop_last() =~= b@.take(i as int));
        }
        if b[i] == 58 {
            proof {
                lemma_first_colon_prefix(b@, (i + 1) as nat);
            }
            return Some(i);
        }
        i = i + 1;
    }
    proof {
        assert(b@.take(i as int) =~= b@);
    }
    None
}

/// A colon found in a prefix is the first colon of the whole.
proof fn lemma_first_colon_prefix(b: Seq<u8>, n: nat)
    requires
        n <= b.len(),
        first_colon(b.take(n as int)) is Some,
    ensures
        first_colon(b) == first_colon(b.take(n as int)),
    decreases b.len() - n,
{
    if n < b.len() {
        assert(b.take((n + 1) as int).drop_last() =~= b.take(n as int));
        lemma_first_colon_prefix(b, n + 1);
    } else {
        assert(b.take(n as int) =~= b);
    }
}

/// The first `n` bytes of `code`, zero-padded, as an array of `N` bytes.
fn pad_code<const N: usize>(code: &[u8]) -> (r: [u8; N])
    requires
        code@.len() <= N,
    ensures
        r@ == zero_padded(code@, N as nat),
{
    let mut out = [0u8; N];
    let mut j: usize = 0;
    while j < code.len()
        invariant
            code@.len() <= N,
            j <= code@.len(),
            out@.len() == N,
            forall|k: int| 0 <= k < j ==> out@[k] == code@[k],
            forall|k: int| j <= k < N ==> out@[k] == 0u8,
        decreases code.len() - j,
    {
        out[j] = code[j];
        j = j + 1;
    }
    proof {
        assert(out@ =~= zero_padded(code@, N as nat));
    }
    out
}

/// The asset of a `native` or `CODE:ISSUER` identifier.
fn sac_asset(asset: &str) -> (r: Result<SacAsset, SacError>)
    ensures
        match sac_asset_parts(asset) {
            Ok((code, issuer)) => r matches Ok(a) && a.code_view() == code && a.issuer_view() == issuer,
            Err(e) => r == Err::<SacAsset, SacError>(e),
        },
{
    if str_eq(asset, "native") {
        return Ok(SacAsset::Native);
    }
    let b = asset.as_bytes();
    let i = match find_colon(b) {
        Some(i) => i,
        None => return Err(SacError::InvalidFormat),
    };
    let len = b.len();
    assert(i < len);
    let code = vstd::slice::slice_subrange(b, 0, i);
    let issuer_text = vstd::slice::slice_subrange(b, i + 1, len);
    proof {
        assert(code@ =~= b@.take(i as int));
        assert(issuer_text@ =~= b@.skip(i + 1));
    }
    let issuer = match decode_account_key(issuer_text) {
        Ok(k) => k,
        Err(_) => return Err(SacError::InvalidIssuer),
    };
    if code.len() >= 1 && code.len() <= 4 {
        Ok(SacAsset::Alphanum4 { code: pad_code::<4>(code), issuer })
    } else if code.len() >= 5 && code.len() <= 12 {
        Ok(SacAsset::Alphanum12 { code: pad_code::<12>(code), issuer })
    } else {
        Err(SacError::InvalidCodeLength)
    }
}

/// Compute the Stellar Asset Contract (SAC) address for a classic asset.
///
/// SAC contract IDs include the network ID, so the same asset has different
/// addresses on mainnet and testnet.
pub fn compute_sac_contract_id(asset: &str, network_passphrase: &str) -> (r: Result<String, SacError>)
    ensures
        match sac_asset_parts(asset) {
            Err(e) => r == Err::<String, SacError>(e),
            Ok((code, issuer)) => r matches Ok(id) && id@ == contract_strkey_of(
                sha256_of(contract_preimage_xdr(sha256_of(network_passphrase.spec_bytes()), code, issuer)),
            ) && id@.len() == 56 && id@[0] == 'C',
        },
{
    let asset = match sac_asset(asset) {
        Ok(a) => a,
        Err(e) => return Err(e),
    };
    let network_id = sha256(network_passphrase.as_bytes());
    let preimage = encode_contract_preimage(network_id, &asset).unwrap();
    Ok(contract_strkey(sha256(preimage.as_slice())))
}

} // verus!
