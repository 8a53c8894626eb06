//! The transaction/batch builder and its signing context. A logical payload
//! becomes a signed, replay-resistant unit of work: a transaction header is
//! built and signed over its exact serialized bytes, wrapped in a
//! transaction, listed in a batch header that names the transaction ids in
//! order, signed again, and assembled into a batch list ready to submit.
//!
//! The wire form of the headers is the length-delimited message format the
//! surrounding ledger network reads: each field is a single-byte tag
//! followed by a varint byte count and the bytes themselves, fields in tag
//! order, empty singular fields omitted.

use vstd::prelude::*;

use sha2::Digest;

use crate::address::{get_twit_prefix, sha512_digest, spec_sha512, spec_twit_prefix};
use crate::errors::TwitError;
use crate::hexstr::{from_hex, lemma_spec_hex_len, spec_hex, to_hex_string};

verus! {

// ---------------------------------------------------------------------------
// The wire form of the header messages.
// ---------------------------------------------------------------------------

/// A base-128 varint, least significant group first.
pub open spec fn spec_varint(n: nat) -> Seq<u8>
    decreases n,
{
    if n < 0x80 {
        seq![n as u8]
    } else {
        seq![((n % 0x80) + 0x80) as u8] + spec_varint(n / 0x80)
    }
}

/// One length-delimited field: tag, byte count, bytes.
pub open spec fn spec_len_field(field: u8, data: Seq<u8>) -> Seq<u8> {
    seq![(field * 8 + 2) as u8] + spec_varint(data.len()) + data
}

/// One text field, carried as UTF-8.
pub open spec fn spec_str_field(field: u8, s: Seq<char>) -> Seq<u8> {
    spec_len_field(field, vstd::utf8::encode_utf8(s))
}

/// One singular text field, omitted when empty.
pub open spec fn spec_opt_str_field(field: u8, s: Seq<char>) -> Seq<u8> {
    if s.len() == 0 {
        Seq::empty()
    } else {
        spec_str_field(field, s)
    }
}

/// One singular bytes field, omitted when empty.
pub open spec fn spec_opt_bytes_field(field: u8, data: Seq<u8>) -> Seq<u8> {
    if data.len() == 0 {
        Seq::empty()
    } else {
        spec_len_field(field, data)
    }
}

/// A repeated text field: one tagged entry per element, in order.
pub open spec fn spec_rep_str_field(field: u8, ss: Seq<Seq<char>>) -> Seq<u8>
    decreases ss.len(),
{
    if ss.len() == 0 {
        Seq::empty()
    } else {
        spec_str_field(field, ss.first()) + spec_rep_str_field(field, ss.drop_first())
    }
}

/// The wire form of a transaction header with the given field values.
pub open spec fn spec_txn_header_wire(
    batcher_public_key: Seq<char>,
    dependencies: Seq<Seq<char>>,
    family_name: Seq<char>,
    family_version: Seq<char>,
    inputs: Seq<Seq<char>>,
    nonce: Seq<char>,
    outputs: Seq<Seq<char>>,
    payload_sha512: Seq<char>,
    signer_public_key: Seq<char>,
) -> Seq<u8> {
    spec_opt_str_field(1, batcher_public_key) + spec_rep_str_field(2, dependencies)
        + spec_opt_str_field(3, family_name) + spec_opt_str_field(4, family_version)
        + spec_rep_str_field(5, inputs) + spec_opt_str_field(6, nonce) + spec_rep_str_field(
        7,
        outputs,
    ) + spec_opt_str_field(9, payload_sha512) + spec_opt_str_field(10, signer_public_key)
}

/// The wire form of a batch header with the given field values.
pub open spec fn spec_batch_header_wire(
    signer_public_key: Seq<char>,
    transaction_ids: Seq<Seq<char>>,
) -> Seq<u8> {
    spec_opt_str_field(1, signer_public_key) + spec_rep_str_field(2, transaction_ids)
}

/// A transaction header under construction: the family routing data, a
/// fresh nonce, the declared input and output addresses, the two public
/// keys, and the payload digest.
pub struct TransactionHeader {
    pub batcher_public_key: String,
    pub dependencies: Vec<String>,
    pub family_name: String,
    pub family_version: String,
    pub inputs: Vec<String>,
    pub nonce: String,
    pub outputs: Vec<String>,
    pub payload_sha512: String,
    pub signer_public_key: String,
}

/// A signed transaction: the exact serialized header bytes, the signature
/// over them, and the raw payload.
pub struct Transaction {
    pub header: Vec<u8>,
    pub header_signature: String,
    pub payload: Vec<u8>,
}

/// A batch header: the batcher's public key and the transaction ids — the
/// header signatures of the batch's transactions, in order.
pub struct BatchHeader {
    pub signer_public_key: String,
    pub transaction_ids: Vec<String>,
}

/// A signed batch: the exact serialized header bytes, the signature over
/// them, and the transactions in the order the header names them.
pub struct Batch {
    pub header: Vec<u8>,
    pub header_signature: String,
    pub transactions: Vec<Transaction>,
    pub trace: bool,
}

/// An ordered list of batches, ready for submission.
pub struct BatchList {
    pub batches: Vec<Batch>,
}

// ---------------------------------------------------------------------------
// Serialization: verified encoders for the wire form above.
// ---------------------------------------------------------------------------

fn push_varint(out: &mut Vec<u8>, n: u64)
    ensures
        final(out)@ == old(out)@ + spec_varint(n as nat),
    decreases n,
{
    if n < 0x80 {
        out.push(n as u8);
        proof {
            assert(out@ =~= old(out)@ + spec_varint(n as nat));
        }
    } else {
        out.push(((n % 0x80) + 0x80) as u8);
        push_varint(out, n / 0x80);
        proof {
            assert((n / 0x80) as nat == (n as nat) / 0x80);
            assert(out@ =~= old(out)@ + spec_varint(n as nat));
        }
    }
}

fn push_len_field(out: &mut Vec<u8>, field: u8, data: &Vec<u8>)
    requires
        field < 16,
    ensures
        final(out)@ == old(out)@ + spec_len_field(field, data@),
{
    out.push(field * 8 + 2);
    push_varint(out, data.len() as u64);
    crate::codec::push_bytes(out, data);
    proof {
        assert(out@ =~= old(out)@ + spec_len_field(field, data@));
    }
}

fn push_str_field(out: &mut Vec<u8>, field: u8, s: &String)
    requires
        field < 16,
    ensures
        final(out)@ == old(out)@ + spec_str_field(field, s@),
{
    let data = s.as_str().as_bytes_vec();
    push_len_field(out, field, &data);
}

fn push_opt_str_field(out: &mut Vec<u8>, field: u8, s: &String)
    requires
        field < 16,
    ensures
        final(out)@ == old(out)@ + spec_opt_str_field(field, s@),
{
    if s.as_str().is_empty() {
        proof {
            assert(out@ =~= old(out)@ + spec_opt_str_field(field, s@));
        }
    } else {
        push_str_field(out, field, s);
    }
}

fn push_opt_bytes_field(out: &mut Vec<u8>, field: u8, data: &Vec<u8>)
    requires
        field < 16,
    ensures
        final(out)@ == old(out)@ + spec_opt_bytes_field(field, data@),
{
    if data.len() == 0 {
        proof {
            assert(out@ =~= old(out)@ + spec_opt_bytes_field(field, data@));
        }
    } else {
        push_len_field(out, field, data);
    }
}

proof fn lemma_rep_str_push(field: u8, ss: Seq<Seq<char>>, s: Seq<char>)
    ensures
        spec_rep_str_field(field, ss.push(s)) == spec_rep_str_field(field, ss) + spec_str_field(
            field,
            s,
        ),
    decreases ss.len(),
{
    if ss.len() == 0 {
        assert(ss.push(s).first() == s);
        assert(ss.push(s).drop_first() =~= Seq::<Seq<char>>::empty());
        assert(spec_rep_str_field(field, Seq::<Seq<char>>::empty()) =~= Seq::<u8>::empty());
        assert(spec_rep_str_field(field, ss.push(s)) =~= spec_rep_str_field(field, ss)
            + spec_str_field(field, s));
    } else {
        assert(ss.push(s).first() == ss.first());
        assert(ss.push(s).drop_first() =~= ss.drop_first().push(s));
        lemma_rep_str_push(field, ss.drop_first(), s);
        assert(spec_rep_str_field(field, ss.push(s)) =~= spec_rep_str_field(field, ss)
            + spec_str_field(field, s));
    }
}

fn push_rep_str_field(out: &mut Vec<u8>, field: u8, ss: &Vec<String>)
    requires
        field < 16,
    ensures
        final(out)@ == old(out)@ + spec_rep_str_field(field, ss.deep_view()),
{
    let n = ss.len();
    let mut i: usize = 0;
    proof {
        assert(ss.deep_view().take(0) =~= Seq::<Seq<char>>::empty());
        assert(spec_rep_str_field(field, ss.deep_view().take(0)) =~= Seq::<u8>::empty());
        assert(out@ =~= old(out)@ + spec_rep_str_field(field, ss.deep_view().take(0)));
    }
    while i < n
        invariant
            field < 16,
            n == ss@.len(),
            i <= n,
            out@ =~= old(out)@ + spec_rep_str_field(field, ss.deep_view().take(i as int)),
        decreases n - i,
    {
        push_str_field(out, field, &ss[i]);
        proof {
            assert(ss.deep_view()[i as int] == ss@[i as int]@);
            lemma_rep_str_push(field, ss.deep_view().take(i as int), ss.deep_view()[i as int]);
            assert(ss.deep_view().take(i as int).push(ss.deep_view()[i as int]) =~= ss.deep_view()
                .take(i + 1));
        }
        i = i + 1;
    }
    proof {
        assert(ss.deep_view().take(n as int) =~= ss.deep_view());
    }
}

/// Serializes a transaction header into the exact bytes that are signed.
pub fn serialize_txn_header(h: &TransactionHeader) -> (r: Vec<u8>)
    ensures
        r@ == spec_txn_header_wire(
            h.batcher_public_key@,
            h.dependencies.deep_view(),
            h.family_name@,
            h.family_version@,
            h.inputs.deep_view(),
            h.nonce@,
            h.outputs.deep_view(),
            h.payload_sha512@,
            h.signer_public_key@,
        ),
{
    let mut out: Vec<u8> = Vec::new();
    push_opt_str_field(&mut out, 1, &h.batcher_public_key);
    push_rep_str_field(&mut out, 2, &h.dependencies);
    push_opt_str_field(&mut out, 3, &h.family_name);
    push_opt_str_field(&mut out, 4, &h.family_version);
    push_rep_str_field(&mut out, 5, &h.inputs);
    push_opt_str_field(&mut out, 6, &h.nonce);
    push_rep_str_field(&mut out, 7, &h.outputs);
    push_opt_str_field(&mut out, 9, &h.payload_sha512);
    push_opt_str_field(&mut out, 10, &h.signer_public_key);
    proof {
        assert(out@ =~= spec_txn_header_wire(
            h.batcher_public_key@,
            h.dependencies.deep_view(),
            h.family_name@,
            h.family_version@,
            h.inputs.deep_view(),
            h.nonce@,
            h.outputs.deep_view(),
            h.payload_sha512@,
            h.signer_public_key@,
        ));
    }
    out
}

/// Serializes a batch header into the exact bytes that are signed.
pub fn serialize_batch_header(h: &BatchHeader) -> (r: Vec<u8>)
    ensures
        r@ == spec_batch_header_wire(h.signer_public_key@, h.transaction_ids.deep_view()),
{
    let mut out: Vec<u8> = Vec::new();
    push_opt_str_field(&mut out, 1, &h.signer_public_key);
    push_rep_str_field(&mut out, 2, &h.transaction_ids);
    proof {
        assert(out@ =~= spec_batch_header_wire(
            h.signer_public_key@,
            h.transaction_ids.deep_view(),
        ));
    }
    out
}

/// The wire form of one transaction.
pub open spec fn spec_txn_wire(t: Transaction) -> Seq<u8> {
    spec_opt_bytes_field(1, t.header@) + spec_opt_str_field(2, t.header_signature@)
        + spec_opt_bytes_field(3, t.payload@)
}

/// The wire form of a transaction list, one tagged entry per transaction.
pub open spec fn spec_rep_txn_field(field: u8, ts: Seq<Transaction>) -> Seq<u8>
    decreases ts.len(),
{
    if ts.len() == 0 {
        Seq::empty()
    } else {
        spec_len_field(field, spec_txn_wire(ts.first())) + spec_rep_txn_field(
            field,
            ts.drop_first(),
        )
    }
}

/// The wire form of one batch.
pub open spec fn spec_batch_wire(b: Batch) -> Seq<u8> {
    spec_opt_bytes_field(1, b.header@) + spec_opt_str_field(2, b.header_signature@)
        + spec_rep_txn_field(3, b.transactions@) + (if b.trace {
        seq![32u8, 1u8]
    } else {
        Seq::<u8>::empty()
    })
}

/// The wire form of a batch list, one tagged entry per batch.
pub open spec fn spec_rep_batch_field(field: u8, bs: Seq<Batch>) -> Seq<u8>
    decreases bs.len(),
{
    if bs.len() == 0 {
        Seq::empty()
    } else {
        spec_len_field(field, spec_batch_wire(bs.first())) + spec_rep_batch_field(
            field,
            bs.drop_first(),
        )
    }
}

/// The wire form of a whole batch list: the opaque body handed to the
/// submission transport.
pub open spec fn spec_batch_list_wire(bl: BatchList) -> Seq<u8> {
    spec_rep_batch_field(1, bl.batches@)
}

/// Serializes one transaction.
pub fn serialize_transaction(t: &Transaction) -> (r: Vec<u8>)
    ensures
        r@ == spec_txn_wire(*t),
{
    let mut out: Vec<u8> = Vec::new();
    push_opt_bytes_field(&mut out, 1, &t.header);
    push_opt_str_field(&mut out, 2, &t.header_signature);
    push_opt_bytes_field(&mut out, 3, &t.payload);
    proof {
        assert(out@ =~= spec_txn_wire(*t));
    }
    out
}

proof fn lemma_rep_txn_push(field: u8, ts: Seq<Transaction>, t: Transaction)
    ensures
        spec_rep_txn_field(field, ts.push(t)) == spec_rep_txn_field(field, ts) + spec_len_field(
            field,
            spec_txn_wire(t),
        ),
    decreases ts.len(),
{
    if ts.len() == 0 {
        assert(ts.push(t).first() == t);
        assert(ts.push(t).drop_first() =~= Seq::<Transaction>::empty());
        assert(spec_rep_txn_field(field, Seq::<Transaction>::empty()) =~= Seq::<u8>::empty());
        assert(spec_rep_txn_field(field, ts.push(t)) =~= spec_rep_txn_field(field, ts)
            + spec_len_field(field, spec_txn_wire(t)));
    } else {
        assert(ts.push(t).first() == ts.first());
        assert(ts.push(t).drop_first() =~= ts.drop_first().push(t));
        lemma_rep_txn_push(field, ts.drop_first(), t);
        assert(spec_rep_txn_field(field, ts.push(t)) =~= spec_rep_txn_field(field, ts)
            + spec_len_field(field, spec_txn_wire(t)));
    }
}

/// Serializes one batch.
pub fn serialize_batch(b: &Batch) -> (r: Vec<u8>)
    ensures
        r@ == spec_batch_wire(*b),
{
    let mut out: Vec<u8> = Vec::new();
    push_opt_bytes_field(&mut out, 1, &b.header);
    push_opt_str_field(&mut out, 2, &b.header_signature);
    let n = b.transactions.len();
    let mut i: usize = 0;
    let ghost pre = out@;
    proof {
        assert(b.transactions@.take(0) =~= Seq::<Transaction>::empty());
        assert(spec_rep_txn_field(3, b.transactions@.take(0)) =~= Seq::<u8>::empty());
        assert(out@ =~= pre + spec_rep_txn_field(3, b.transactions@.take(0)));
    }
    while i < n
        invariant
            n == b.transactions@.len(),
            i <= n,
            out@ =~= pre + spec_rep_txn_field(3, b.transactions@.take(i as int)),
        decreases n - i,
    {
        let tb = serialize_transaction(&b.transactions[i]);
        push_len_field(&mut out, 3, &tb);
        proof {
            lemma_rep_txn_push(3, b.transactions@.take(i as int), b.transactions@[i as int]);
            assert(b.transactions@.take(i as int).push(b.transactions@[i as int])
                =~= b.transactions@.take(i + 1));
        }
        i = i + 1;
    }
    proof {
        assert(b.transactions@.take(n as int) =~= b.transactions@);
    }
    if b.trace {
        out.push(32);
        out.push(1);
    }
    proof {
        assert(out@ =~= spec_batch_wire(*b));
    }
    out
}

proof fn lemma_rep_batch_push(field: u8, bs: Seq<Batch>, b: Batch)
    ensures
        spec_rep_batch_field(field, bs.push(b)) == spec_rep_batch_field(field, bs)
            + spec_len_field(field, spec_batch_wire(b)),
    decreases bs.len(),
{
    if bs.len() == 0 {
        assert(bs.push(b).first() == b);
        assert(bs.push(b).drop_first() =~= Seq::<Batch>::empty());
        assert(spec_rep_batch_field(field, Seq::<Batch>::empty()) =~= Seq::<u8>::empty());
        assert(spec_rep_batch_field(field, bs.push(b)) =~= spec_rep_batch_field(field, bs)
            + spec_len_field(field, spec_batch_wire(b)));
    } else {
        assert(bs.push(b).first() == bs.first());
        assert(bs.push(b).drop_first() =~= bs.drop_first().push(b));
        lemma_rep_batch_push(field, bs.drop_first(), b);
        assert(spec_rep_batch_field(field, bs.push(b)) =~= spec_rep_batch_field(field, bs)
            + spec_len_field(field, spec_batch_wire(b)));
    }
}

/// Serializes a whole batch list into the opaque wire body that is handed
/// to the submission transport.
pub fn serialize_batch_list(bl: &BatchList) -> (r: Vec<u8>)
    ensures
        r@ == spec_batch_list_wire(*bl),
{
    let mut out: Vec<u8> = Vec::new();
    let n = bl.batches.len();
    let mut i: usize = 0;
    proof {
        assert(bl.batches@.take(0) =~= Seq::<Batch>::empty());
        assert(spec_rep_batch_field(1, bl.batches@.take(0)) =~= Seq::<u8>::empty());
        assert(out@ =~= spec_rep_batch_field(1, bl.batches@.take(0)));
    }
    while i < n
        invariant
            n == bl.batches@.len(),
            i <= n,
            out@ =~= spec_rep_batch_field(1, bl.batches@.take(i as int)),
        decreases n - i,
    {
        let bb = serialize_batch(&bl.batches[i]);
        push_len_field(&mut out, 1, &bb);
        proof {
            lemma_rep_batch_push(1, bl.batches@.take(i as int), bl.batches@[i as int]);
            assert(bl.batches@.take(i as int).push(bl.batches@[i as int]) =~= bl.batches@.take(
                i + 1,
            ));
        }
        i = i + 1;
    }
    proof {
        assert(bl.batches@.take(n as int) =~= bl.batches@);
    }
    out
}

// ---------------------------------------------------------------------------
// The signing context: a key pair and the signing algorithm, used only by
// the builder.
// ---------------------------------------------------------------------------

/// The 32-byte digest the signing algorithm is applied to.
pub uninterp spec fn spec_sha256(data: Seq<u8>) -> Seq<u8>;

/// Relies on sha2's Sha256: the digest is 32 bytes long and is a function of
/// the input bytes alone.
#[verifier::external_body]
fn sha256_digest(data: &[u8]) -> (r: Vec<u8>)
    ensures
        r@ == spec_sha256(data@),
        r@.len() == 32,
{
    sha2::Sha256::digest(data).to_vec()
}

/// Whether 32 bytes are a valid secret key — a nonzero scalar below the
/// curve order, as secp256k1's SecretKey::from_secret_bytes checks it; a
/// function of the bytes alone.
pub uninterp spec fn spec_seckey_ok(key: Seq<u8>) -> bool;

/// The compact 64-byte signature of a digest under a secret key.
pub uninterp spec fn spec_ecdsa_sign(key: Seq<u8>, digest: Seq<u8>) -> Seq<u8>;

/// Relies on secp256k1's ecdsa::sign: a deterministic signature — a function
/// of the key and the 32-byte digest alone — serialized in its compact
/// 64-byte form. Signing itself cannot fail for a valid key and message, so
/// the call succeeds exactly when the key is 32 valid bytes and the digest
/// is 32 bytes.
#[verifier::external_body]
fn ecdsa_sign_compact(key: &[u8], digest: &[u8]) -> (r: Option<Vec<u8>>)
    ensures
        r is Some <==> (key@.len() == 32 && spec_seckey_ok(key@) && digest@.len() == 32),
        r matches Some(v) ==> v@ == spec_ecdsa_sign(key@, digest@) && v@.len() == 64,
{
    let key_arr: [u8; 32] = key.try_into().ok()?;
    let sk = secp256k1::SecretKey::from_secret_bytes(key_arr).ok()?;
    let digest_arr: [u8; 32] = digest.try_into().ok()?;
    let msg = secp256k1::Message::from_digest(digest_arr);
    Some(secp256k1::ecdsa::sign(msg, &sk).serialize_compact().to_vec())
}

/// Whether bytes parse as a public key — a 33- or 65-byte encoding of a
/// point on the curve, as secp256k1's PublicKey::from_slice checks it; a
/// function of the bytes alone.
pub uninterp spec fn spec_pubkey_parses(pubkey: Seq<u8>) -> bool;

/// Whether 64 bytes parse as a compact signature, as secp256k1's
/// Signature::from_compact checks it; a function of the bytes alone.
pub uninterp spec fn spec_sig_parses(sig: Seq<u8>) -> bool;

/// Whether a compact signature verifies against a digest and a public key.
pub uninterp spec fn spec_ecdsa_verify(pubkey: Seq<u8>, digest: Seq<u8>, sig: Seq<u8>) -> bool;

/// Relies on secp256k1's ecdsa::verify: acceptance is a function of the
/// public key, the 32-byte digest and the compact signature alone, and its
/// only error is an incorrect signature — so the call answers exactly when
/// the key and signature parse and the digest is 32 bytes.
#[verifier::external_body]
fn ecdsa_verify_compact(pubkey: &[u8], digest: &[u8], sig: &[u8]) -> (r: Option<bool>)
    ensures
        r is Some <==> (spec_pubkey_parses(pubkey@) && digest@.len() == 32 && spec_sig_parses(
            sig@,
        )),
        r matches Some(v) ==> v == spec_ecdsa_verify(pubkey@, digest@, sig@),
{
    let pk = secp256k1::PublicKey::from_slice(pubkey).ok()?;
    let digest_arr: [u8; 32] = digest.try_into().ok()?;
    let msg = secp256k1::Message::from_digest(digest_arr);
    let s = secp256k1::ecdsa::Signature::from_compact(sig).ok()?;
    match secp256k1::ecdsa::verify(&s, msg, &pk) {
        Ok(()) => Some(true),
        Err(_) => Some(false),
    }
}

/// The compressed 33-byte public key of a secret key.
pub uninterp spec fn spec_pubkey_of(key: Seq<u8>) -> Seq<u8>;

/// Relies on secp256k1's PublicKey::from_secret_key: the compressed 33-byte
/// form, a function of the secret key alone. Key derivation itself cannot
/// fail, so the call succeeds exactly when the key is 32 valid bytes.
#[verifier::external_body]
fn public_key_compressed(key: &[u8]) -> (r: Option<Vec<u8>>)
    ensures
        r is Some <==> (key@.len() == 32 && spec_seckey_ok(key@)),
        r matches Some(v) ==> v@ == spec_pubkey_of(key@) && v@.len() == 33,
{
    let key_arr: [u8; 32] = key.try_into().ok()?;
    let sk = secp256k1::SecretKey::from_secret_bytes(key_arr).ok()?;
    Some(secp256k1::PublicKey::from_secret_key(&sk).serialize().to_vec())
}

/// Relies on rand's fill over the thread generator: `n` bytes of entropy.
/// Nothing is promised of the values, only the count; two calls may and
/// should differ.
#[verifier::external_body]
fn random_bytes(n: usize) -> (r: Vec<u8>)
    ensures
        r@.len() == n,
{
    let mut buf = vec![0u8; n];
    rand::fill(&mut buf[..]);
    buf
}

/// A signing context: a secret key and the hex form of its compressed
/// public key. An externally provisioned identity is passed in by key;
/// an ephemeral one is minted from fresh randomness.
pub struct Signer {
    pub private_key: Vec<u8>,
    pub public_key_hex: String,
}

impl Signer {
    /// The public key hex is the rendering of this secret key's compressed
    /// public key.
    pub open spec fn wf(&self) -> bool {
        self.public_key_hex@ == spec_hex(spec_pubkey_of(self.private_key@))
    }

    /// Wraps an externally supplied secret key. Succeeds exactly when the
    /// bytes are a valid 32-byte key.
    pub fn from_private_key(key: Vec<u8>) -> (r: Option<Signer>)
        ensures
            r is Some <==> (key@.len() == 32 && spec_seckey_ok(key@)),
            r matches Some(s) ==> s.wf() && s.private_key@ == key@,
    {
        match public_key_compressed(key.as_slice()) {
            Some(pk) => {
                let hex = to_hex_string(&pk);
                Some(Signer { private_key: key, public_key_hex: hex })
            },
            None => None,
        }
    }

    /// Mints an ephemeral signing identity from 32 bytes of fresh
    /// randomness; `None` in the negligible case that they are not a valid
    /// key.
    pub fn new_random() -> (r: Option<Signer>)
        ensures
            r matches Some(s) ==> s.wf(),
    {
        Signer::from_private_key(random_bytes(32))
    }

    /// The hex form of the compressed public key.
    pub fn get_public_key(&self) -> (r: String)
        ensures
            r@ == self.public_key_hex@,
    {
        self.public_key_hex.clone()
    }

    /// Signs a message: its 32-byte digest is signed deterministically and
    /// the compact signature rendered as lowercase hex. Succeeds exactly
    /// when the held key is a valid 32-byte key; otherwise the submission
    /// attempt is abandoned.
    pub fn sign(&self, message: &[u8]) -> (r: Option<String>)
        ensures
            r is Some <==> (self.private_key@.len() == 32 && spec_seckey_ok(self.private_key@)),
            r matches Some(s) ==> s@ == spec_hex(
                spec_ecdsa_sign(self.private_key@, spec_sha256(message@)),
            ) && s@.len() == 128,
    {
        let digest = sha256_digest(message);
        match ecdsa_sign_compact(self.private_key.as_slice(), digest.as_slice()) {
            Some(sig) => {
                proof {
                    lemma_spec_hex_len(sig@);
                }
                Some(to_hex_string(&sig))
            },
            None => None,
        }
    }
}

/// What signature checking accepts: some byte strings rendering to the two
/// hex strings, parsing as a public key and a compact signature, under
/// which the message's digest verifies. The hex rendering is injective, so
/// the byte strings are unique when they exist.
pub open spec fn spec_verify_outcome(
    signature: Seq<char>,
    message: Seq<u8>,
    public_key: Seq<char>,
) -> bool {
    exists|kb: Seq<u8>, sb: Seq<u8>|
        #![trigger spec_hex(kb), spec_hex(sb)]
        spec_hex(kb) == public_key && spec_hex(sb) == signature && spec_pubkey_parses(kb)
            && spec_sig_parses(sb) && spec_ecdsa_verify(kb, spec_sha256(message), sb)
}

/// Verifies a compact-hex signature over a message against a compressed
/// public key in hex, exactly as the signing context produces them. Returns
/// true exactly when both hex strings parse, the bytes parse as a key and a
/// signature, and the signature verifies against the message's digest.
pub fn verify_signature(signature: &str, message: &[u8], public_key: &str) -> (r: bool)
    ensures
        r == spec_verify_outcome(signature@, message@, public_key@),
{
    let sig = match from_hex(signature) {
        Some(v) => v,
        None => {
            proof {
                if spec_verify_outcome(signature@, message@, public_key@) {
                    let (kb, sb) = choose|kb: Seq<u8>, sb: Seq<u8>|
                        #![trigger spec_hex(kb), spec_hex(sb)]
                        spec_hex(kb) == public_key@ && spec_hex(sb) == signature@
                            && spec_pubkey_parses(kb) && spec_sig_parses(sb) && spec_ecdsa_verify(
                            kb,
                            spec_sha256(message@),
                            sb,
                        );
                    crate::hexstr::lemma_spec_hex_is_hex_str(sb);
                }
            }
            return false;
        },
    };
    let key = match from_hex(public_key) {
        Some(v) => v,
        None => {
            proof {
                if spec_verify_outcome(signature@, message@, public_key@) {
                    let (kb, sb) = choose|kb: Seq<u8>, sb: Seq<u8>|
                        #![trigger spec_hex(kb), spec_hex(sb)]
                        spec_hex(kb) == public_key@ && spec_hex(sb) == signature@
                            && spec_pubkey_parses(kb) && spec_sig_parses(sb) && spec_ecdsa_verify(
                            kb,
                            spec_sha256(message@),
                            sb,
                        );
                    crate::hexstr::lemma_spec_hex_is_hex_str(kb);
                }
            }
            return false;
        },
    };
    let digest = sha256_digest(message);
    let r = match ecdsa_verify_compact(key.as_slice(), digest.as_slice(), sig.as_slice()) {
        Some(v) => v,
        None => false,
    };
    proof {
        if r {
            assert(spec_hex(key@) == public_key@ && spec_hex(sig@) == signature@
                && spec_pubkey_parses(key@) && spec_sig_parses(sig@) && spec_ecdsa_verify(
                key@,
                spec_sha256(message@),
                sig@,
            ));
        } else {
            if spec_verify_outcome(signature@, message@, public_key@) {
                let (kb, sb) = choose|kb: Seq<u8>, sb: Seq<u8>|
                    #![trigger spec_hex(kb), spec_hex(sb)]
                    spec_hex(kb) == public_key@ && spec_hex(sb) == signature@
                        && spec_pubkey_parses(kb) && spec_sig_parses(sb) && spec_ecdsa_verify(
                        kb,
                        spec_sha256(message@),
                        sb,
                    );
                crate::hexstr::lemma_spec_hex_injective(kb, key@);
                crate::hexstr::lemma_spec_hex_injective(sb, sig@);
                assert(false);
            }
        }
    }
    r
}

// ---------------------------------------------------------------------------
// The builder.
// ---------------------------------------------------------------------------

/// The shape a fresh nonce has: the lowercase-hex rendering of sixteen
/// bytes of entropy. Freshness itself is randomness and is checked by
/// tests, not stated.
pub open spec fn spec_nonce_ok(nonce: Seq<char>) -> bool {
    exists|rb: Seq<u8>| rb.len() == 16 && nonce == #[trigger] spec_hex(rb)
}

/// Builds a transaction header for this family: the fixed family name and
/// version, a fresh 16-byte nonce rendered as hex, the namespace prefix as
/// both declared input and output, and the signer's key as both signer and
/// batcher. The payload digest is filled in at assembly time.
pub fn create_txn_header(signer: &Signer) -> (r: TransactionHeader)
    ensures
        r.family_name@ == "twit"@,
        r.family_version@ == "2.0"@,
        r.nonce@.len() == 32,
        spec_nonce_ok(r.nonce@),
        r.dependencies.deep_view() == Seq::<Seq<char>>::empty(),
        r.inputs.deep_view() == seq![spec_twit_prefix()],
        r.outputs.deep_view() == seq![spec_twit_prefix()],
        r.signer_public_key@ == signer.public_key_hex@,
        r.batcher_public_key@ == signer.public_key_hex@,
        r.payload_sha512@ == Seq::<char>::empty(),
{
    let nonce_bytes = random_bytes(16);
    let nonce = to_hex_string(&nonce_bytes);
    proof {
        lemma_spec_hex_len(nonce_bytes@);
        assert(nonce_bytes@.len() == 16 && nonce@ == spec_hex(nonce_bytes@));
    }
    let mut inputs: Vec<String> = Vec::new();
    inputs.push(get_twit_prefix());
    let mut outputs: Vec<String> = Vec::new();
    outputs.push(get_twit_prefix());
    let r = TransactionHeader {
        batcher_public_key: signer.get_public_key(),
        dependencies: Vec::new(),
        family_name: String::from_str("twit"),
        family_version: String::from_str("2.0"),
        inputs,
        nonce,
        outputs,
        payload_sha512: String::new(),
        signer_public_key: signer.get_public_key(),
    };
    proof {
        assert(r.dependencies.deep_view() =~= Seq::<Seq<char>>::empty());
        assert(r.inputs.deep_view() =~= seq![spec_twit_prefix()]);
        assert(r.outputs.deep_view() =~= seq![spec_twit_prefix()]);
    }
    r
}

/// Builds a batch header over the given transactions: the transaction id
/// list equals the transactions' header signatures, in the same order.
pub fn create_batch_header(signer: &Signer, txns: &Vec<Transaction>) -> (r: BatchHeader)
    ensures
        r.signer_public_key@ == signer.public_key_hex@,
        r.transaction_ids.deep_view() == Seq::new(
            txns@.len(),
            |i: int| txns@[i].header_signature@,
        ),
{
    let n = txns.len();
    let mut transaction_ids: Vec<String> = Vec::new();
    let mut i: usize = 0;
    while i < n
        invariant
            n == txns@.len(),
            i <= n,
            transaction_ids@.len() == i,
            forall|t: int|
                0 <= t < i ==> #[trigger] transaction_ids@[t]@ == txns@[t].header_signature@,
        decreases n - i,
    {
        transaction_ids.push(txns[i].header_signature.clone());
        i = i + 1;
    }
    proof {
        assert(transaction_ids.deep_view() =~= Seq::new(
            txns@.len(),
            |t: int| txns@[t].header_signature@,
        ));
    }
    BatchHeader { signer_public_key: signer.get_public_key(), transaction_ids }
}

/// Assembles the given batches into a batch list, in order.
pub fn create_batch_list_from_batches(batches: Vec<Batch>) -> (r: BatchList)
    ensures
        r.batches@ == batches@,
{
    BatchList { batches }
}

/// Builds, signs and assembles a whole single-transaction batch list for a
/// payload under the given signing identity. On success: the transaction
/// carries the payload and its correct digest, each header signature is the
/// deterministic signature of the exact serialized header bytes, and the
/// batch header's id list is exactly the transaction's signature. A signing
/// failure abandons the attempt with nothing emitted; the caller rebuilds
/// from scratch with fresh randomness.
pub fn create_batch_list_with_signer(signer: &Signer, payload_bytes: Vec<u8>) -> (r: Result<
    BatchList,
    TwitError,
>)
    ensures
        r matches Ok(bl) ==> {
            &&& bl.batches@.len() == 1
            &&& bl.batches@[0].transactions@.len() == 1
            &&& {
                let tx = bl.batches@[0].transactions@[0];
                let batch = bl.batches@[0];
                &&& tx.payload@ == payload_bytes@
                &&& (exists|nonce: Seq<char>|
                    spec_nonce_ok(nonce) && nonce.len() == 32 && tx.header@
                        == #[trigger] spec_txn_header_wire(
                        signer.public_key_hex@,
                        Seq::empty(),
                        "twit"@,
                        "2.0"@,
                        seq![spec_twit_prefix()],
                        nonce,
                        seq![spec_twit_prefix()],
                        spec_hex(spec_sha512(payload_bytes@)),
                        signer.public_key_hex@,
                    ))
                &&& tx.header_signature@ == spec_hex(
                    spec_ecdsa_sign(signer.private_key@, spec_sha256(tx.header@)),
                )
                &&& batch.header@ == spec_batch_header_wire(
                    signer.public_key_hex@,
                    seq![tx.header_signature@],
                )
                &&& batch.header_signature@ == spec_hex(
                    spec_ecdsa_sign(signer.private_key@, spec_sha256(batch.header@)),
                )
                &&& batch.trace == false
            }
        },
        r matches Err(e) ==> e is SigningError,
        (signer.private_key@.len() == 32 && spec_seckey_ok(signer.private_key@)) ==> r is Ok,
{
    let mut txn_header = create_txn_header(signer);
    let digest = sha512_digest(payload_bytes.as_slice());
    txn_header.payload_sha512 = to_hex_string(&digest);
    let txn_header_bytes = serialize_txn_header(&txn_header);
    let signature = match signer.sign(txn_header_bytes.as_slice()) {
        Some(s) => s,
        None => {
            return Err(
                TwitError::SigningError(
                    String::from_str("could not sign the transaction header"),
                ),
            );
        },
    };
    let txn = Transaction {
        header: txn_header_bytes,
        header_signature: signature,
        payload: payload_bytes,
    };
    let mut txns: Vec<Transaction> = Vec::new();
    txns.push(txn);
    let batch_header = create_batch_header(signer, &txns);
    let batch_header_bytes = serialize_batch_header(&batch_header);
    let batch_signature = match signer.sign(batch_header_bytes.as_slice()) {
        Some(s) => s,
        None => {
            return Err(
                TwitError::SigningError(String::from_str("could not sign the batch header")),
            );
        },
    };
    let batch = Batch {
        header: batch_header_bytes,
        header_signature: batch_signature,
        transactions: txns,
        trace: false,
    };
    let mut batches: Vec<Batch> = Vec::new();
    batches.push(batch);
    let bl = create_batch_list_from_batches(batches);
    proof {
        let tx = bl.batches@[0].transactions@[0];
        assert(tx.header@ == spec_txn_header_wire(
            signer.public_key_hex@,
            Seq::empty(),
            "twit"@,
            "2.0"@,
            seq![spec_twit_prefix()],
            txn_header.nonce@,
            seq![spec_twit_prefix()],
            spec_hex(spec_sha512(payload_bytes@)),
            signer.public_key_hex@,
        ));
        assert(batch_header.transaction_ids.deep_view() =~= seq![tx.header_signature@]);
        assert(bl.batches@[0].header@ == spec_batch_header_wire(
            signer.public_key_hex@,
            seq![tx.header_signature@],
        ));
    }
    Ok(bl)
}

/// Builds a single-transaction batch list under a freshly minted ephemeral
/// signing identity, as a submission attempt self-contained in one call.
/// Everything promised of `create_batch_list_with_signer` holds for some
/// well-formed signer: the payload is carried verbatim, the transaction
/// header is the exact serialized header with the family routing data, the
/// fresh nonce, and the payload's digest, the batch header names the
/// transaction's signature, and both signatures cover their exact header
/// bytes.
pub fn create_batch_list(payload_bytes: Vec<u8>) -> (r: Result<BatchList, TwitError>)
    ensures
        r matches Ok(bl) ==> exists|s: Signer|
            {
                &&& #[trigger] s.wf()
                &&& bl.batches@.len() == 1
                &&& bl.batches@[0].transactions@.len() == 1
                &&& bl.batches@[0].transactions@[0].payload@ == payload_bytes@
                &&& (exists|nonce: Seq<char>|
                    spec_nonce_ok(nonce) && nonce.len() == 32
                        && bl.batches@[0].transactions@[0].header@
                        == #[trigger] spec_txn_header_wire(
                        s.public_key_hex@,
                        Seq::empty(),
                        "twit"@,
                        "2.0"@,
                        seq![spec_twit_prefix()],
                        nonce,
                        seq![spec_twit_prefix()],
                        spec_hex(spec_sha512(payload_bytes@)),
                        s.public_key_hex@,
                    ))
                &&& bl.batches@[0].transactions@[0].header_signature@ == spec_hex(
                    spec_ecdsa_sign(
                        s.private_key@,
                        spec_sha256(bl.batches@[0].transactions@[0].header@),
                    ),
                )
                &&& bl.batches@[0].header@ == spec_batch_header_wire(
                    s.public_key_hex@,
                    seq![bl.batches@[0].transactions@[0].header_signature@],
                )
                &&& bl.batches@[0].header_signature@ == spec_hex(
                    spec_ecdsa_sign(s.private_key@, spec_sha256(bl.batches@[0].header@)),
                )
            },
        r matches Err(e) ==> e is SigningError || e is BuildError,
{
    let signer = match Signer::new_random() {
        Some(s) => s,
        None => {
            return Err(
                TwitError::BuildError(
                    String::from_str("could not mint an ephemeral signing key"),
                ),
            );
        },
    };
    let r = create_batch_list_with_signer(&signer, payload_bytes);
    match r {
        Ok(bl) => {
            proof {
                assert(signer.wf());
            }
            Ok(bl)
        },
        Err(e) => Err(e),
    }
}

} // verus!
