//! The address codec: a record name is mapped to a fixed-length storage
//! address — a six-character namespace prefix derived from the family's
//! domain constant, followed by the last sixty-four hexadecimal characters
//! of the name's digest.

use vstd::prelude::*;

use sha2::Digest;

use crate::hexstr::{lemma_spec_hex_injective, lemma_spec_hex_len, spec_hex, to_hex_string};

verus! {

/// The digest that the address scheme is built on.
pub uninterp spec fn spec_sha512(data: Seq<u8>) -> Seq<u8>;

/// Relies on sha2's Sha512: the digest is 64 bytes long and is a function of
/// the input bytes alone.
#[verifier::external_body]
pub(crate) fn sha512_digest(data: &[u8]) -> (r: Vec<u8>)
    ensures
        r@ == spec_sha512(data@),
        r@.len() == 64,
{
    sha2::Sha512::digest(data).to_vec()
}

/// The domain constant of this transaction family, as bytes.
pub open spec fn spec_domain() -> Seq<u8> {
    vstd::utf8::encode_utf8("twit"@)
}

/// The namespace prefix derived from a domain constant: the first six
/// hexadecimal characters — three bytes — of its digest.
pub open spec fn spec_namespace_prefix(domain: Seq<u8>) -> Seq<char> {
    spec_hex(spec_sha512(domain).take(3))
}

/// This family's namespace prefix.
pub open spec fn spec_twit_prefix() -> Seq<char> {
    spec_namespace_prefix(spec_domain())
}

/// The storage address of a record name: the namespace prefix followed by
/// the trailing sixty-four hexadecimal characters — the last thirty-two
/// bytes — of the name's digest.
pub open spec fn spec_address_of(name: Seq<char>) -> Seq<char> {
    spec_twit_prefix() + spec_hex(spec_sha512(vstd::utf8::encode_utf8(name)).skip(32))
}

/// The six-character namespace prefix registered for this family.
pub fn get_twit_prefix() -> (r: String)
    ensures
        r@ == spec_twit_prefix(),
        r@.len() == 6,
{
    let domain = "twit";
    let digest = sha512_digest(domain.as_bytes());
    let lead = vstd::slice::slice_to_vec(vstd::slice::slice_subrange(digest.as_slice(), 0, 3));
    let r = to_hex_string(&lead);
    proof {
        assert(lead@ =~= spec_sha512(spec_domain()).take(3));
        lemma_spec_hex_len(lead@);
    }
    r
}

/// The storage address of a record name. Pure and total: the address is a
/// function of the name alone, and is always seventy characters long.
pub fn calculate_address(name: &str) -> (r: String)
    ensures
        r@ == spec_address_of(name@),
        r@.len() == 70,
{
    let digest = sha512_digest(name.as_bytes());
    let tail = vstd::slice::slice_to_vec(vstd::slice::slice_subrange(digest.as_slice(), 32, 64));
    let suffix = to_hex_string(&tail);
    let prefix = get_twit_prefix();
    let r = prefix.concat(suffix.as_str());
    proof {
        assert(tail@ =~= spec_sha512(vstd::utf8::encode_utf8(name@)).skip(32));
        lemma_spec_hex_len(tail@);
    }
    r
}

/// Address derivation is a pure function of the record name: equal names
/// always yield equal addresses — there is no hidden input and no error
/// case.
pub proof fn lemma_address_pure(name_a: Seq<char>, name_b: Seq<char>)
    requires
        name_a == name_b,
    ensures
        spec_address_of(name_a) == spec_address_of(name_b),
{
}

/// Distinct namespaces do not collide unless their domains' digests agree on
/// the leading three bytes: the hexadecimal rendering itself never conflates
/// two prefixes.
pub proof fn lemma_distinct_prefixes(domain_a: Seq<u8>, domain_b: Seq<u8>)
    requires
        spec_sha512(domain_a).take(3) != spec_sha512(domain_b).take(3),
    ensures
        spec_namespace_prefix(domain_a) != spec_namespace_prefix(domain_b),
{
    if spec_namespace_prefix(domain_a) == spec_namespace_prefix(domain_b) {
        lemma_spec_hex_injective(
            spec_sha512(domain_a).take(3),
            spec_sha512(domain_b).take(3),
        );
    }
}

} // verus!
