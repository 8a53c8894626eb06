//! The apply state machine: each invocation validates the inbound payload
//! and dispatches its verb — create under a write-once rule, delete as an
//! idempotent removal, read without mutation — against the ledger state
//! accessor. Registration metadata names the family for the surrounding
//! processor runtime.

use vstd::prelude::*;

use crate::address::{get_twit_prefix, spec_address_of, spec_twit_prefix};
use crate::codec::{spec_enc_container, spec_find, spec_remove_entry, spec_upsert};
use crate::errors::TwitError;
use crate::payload::{spec_payload_of, TwitPayload, TwitPayloadView, Verb};
use crate::state::{spec_fields, spec_record_at, spec_stored_at, StoredView, TwitState};

verus! {

/// How one apply transition ended.
pub enum ApplyOutcome {
    /// The verb was carried out; for read and for delete-of-absent this
    /// changes nothing.
    Applied,
    /// The payload was rejected; nothing changed.
    Invalid,
    /// A create hit an existing record; nothing changed.
    Duplicate,
    /// The stored bytes at the record's address do not decode; nothing
    /// changed.
    Corrupt,
}

/// One deterministic apply transition: the outcome, and the ledger after it.
/// Every rejection leaves the ledger exactly as it was.
pub open spec fn spec_apply_transition(l: Map<Seq<char>, Seq<u8>>, payload: Seq<u8>) -> (
    ApplyOutcome,
    Map<Seq<char>, Seq<u8>>,
) {
    match spec_payload_of(payload) {
        None => (ApplyOutcome::Invalid, l),
        Some(p) => {
            let name = p.tweet_id;
            let fields = spec_fields(p.tweet_id, p.author_id, p.author_name, p.tweet_text);
            match p.verb {
                Verb::Create => match spec_stored_at(l, name) {
                    StoredView::Corrupt => (ApplyOutcome::Corrupt, l),
                    StoredView::Missing => (
                        ApplyOutcome::Applied,
                        l.insert(
                            spec_address_of(name),
                            spec_enc_container(
                                spec_upsert(
                                    Seq::empty(),
                                    vstd::utf8::encode_utf8(name),
                                    fields,
                                ),
                            ),
                        ),
                    ),
                    StoredView::Stored(c) => match spec_find(
                        c,
                        vstd::utf8::encode_utf8(name),
                    ) {
                        Some(_) => (ApplyOutcome::Duplicate, l),
                        None => (
                            ApplyOutcome::Applied,
                            l.insert(
                                spec_address_of(name),
                                spec_enc_container(
                                    spec_upsert(c, vstd::utf8::encode_utf8(name), fields),
                                ),
                            ),
                        ),
                    },
                },
                Verb::Delete => match spec_stored_at(l, name) {
                    StoredView::Corrupt => (ApplyOutcome::Corrupt, l),
                    StoredView::Missing => (ApplyOutcome::Applied, l),
                    StoredView::Stored(c) => if spec_find(
                        c,
                        vstd::utf8::encode_utf8(name),
                    ) is None {
                        (ApplyOutcome::Applied, l)
                    } else {
                        (
                            ApplyOutcome::Applied,
                            l.insert(
                                spec_address_of(name),
                                spec_enc_container(
                                    spec_remove_entry(c, vstd::utf8::encode_utf8(name)),
                                ),
                            ),
                        )
                    },
                },
                Verb::Read => match spec_stored_at(l, name) {
                    StoredView::Corrupt => (ApplyOutcome::Corrupt, l),
                    _ => (ApplyOutcome::Applied, l),
                },
            }
        },
    }
}

/// The handler registered with the processor runtime: the family's name, its
/// supported versions, and the namespace prefix it owns.
pub struct TwitTransactionHandler {
    pub family_name: String,
    pub family_versions: Vec<String>,
    pub namespaces: Vec<String>,
}

impl Default for TwitTransactionHandler {
    fn default() -> (r: Self)
        ensures
            r.family_name@ == "twit"@,
            r.family_versions@.len() == 1,
            r.family_versions@[0]@ == "2.0"@,
            r.namespaces@.len() == 1,
            r.namespaces@[0]@ == spec_twit_prefix(),
    {
        let mut family_versions: Vec<String> = Vec::new();
        family_versions.push(String::from_str("2.0"));
        let mut namespaces: Vec<String> = Vec::new();
        namespaces.push(get_twit_prefix());
        TwitTransactionHandler {
            family_name: String::from_str("twit"),
            family_versions,
            namespaces,
        }
    }
}

impl TwitTransactionHandler {
    /// The registration value for this family.
    pub fn new() -> (r: TwitTransactionHandler)
        ensures
            r.family_name@ == "twit"@,
            r.family_versions@.len() == 1,
            r.family_versions@[0]@ == "2.0"@,
            r.namespaces@.len() == 1,
            r.namespaces@[0]@ == spec_twit_prefix(),
    {
        Self::default()
    }

    /// The family name under which transactions are routed here.
    pub fn family_name(&self) -> (r: String)
        ensures
            r@ == self.family_name@,
    {
        self.family_name.clone()
    }

    /// The family versions this handler accepts.
    pub fn family_versions(&self) -> (r: Vec<String>)
        ensures
            r.deep_view() == self.family_versions.deep_view(),
    {
        clone_strings(&self.family_versions)
    }

    /// The namespace prefixes this handler owns.
    pub fn namespaces(&self) -> (r: Vec<String>)
        ensures
            r.deep_view() == self.namespaces.deep_view(),
    {
        clone_strings(&self.namespaces)
    }

    /// One apply invocation: validates the payload and carries out its verb
    /// against the accessor, whose cache is cleared first. The result and
    /// the ledger afterwards are exactly what `spec_apply_transition` says.
    pub fn apply(&self, payload_data: &[u8], state: &mut TwitState) -> (r: Result<(), TwitError>)
        requires
            old(state).wf(),
        ensures
            final(state).wf(),
            final(state).context@ == spec_apply_transition(
                old(state).context@,
                payload_data@,
            ).1,
            match spec_apply_transition(old(state).context@, payload_data@).0 {
                ApplyOutcome::Applied => r is Ok,
                ApplyOutcome::Invalid => r matches Err(e) && e is InvalidPayload,
                ApplyOutcome::Duplicate => r matches Err(e) && e is DuplicateRecord,
                ApplyOutcome::Corrupt => r matches Err(e) && e is StorageError,
            },
    {
        state.clear_cache();
        let payload = match TwitPayload::new(payload_data) {
            Err(e) => {
                return Err(e);
            },
            Ok(payload) => payload,
        };
        let payload = match payload {
            Some(x) => x,
            None => {
                return Err(
                    TwitError::InvalidPayload(
                        String::from_str("request must contain a payload"),
                    ),
                );
            },
        };
        match payload.get_verb() {
            Verb::Create => {
                match state.get(payload.get_tweet_id().as_str()) {
                    Ok(Some(_)) => {
                        return Err(
                            TwitError::DuplicateRecord(
                                payload.get_tweet_id().clone().concat(" already set"),
                            ),
                        );
                    },
                    Ok(None) => (),
                    Err(err) => {
                        return Err(err);
                    },
                };
                state.set(
                    payload.get_tweet_id().as_str(),
                    payload.get_tweet_id().clone(),
                    payload.get_author_id().clone(),
                    payload.get_author_name().clone(),
                    payload.get_tweet_text().clone(),
                )
            },
            Verb::Delete => state.del(payload.get_tweet_id().as_str()),
            Verb::Read => match state.get(payload.get_tweet_id().as_str()) {
                Ok(_) => Ok(()),
                Err(e) => Err(e),
            },
        }
    }
}

/// A create that is applied stores exactly the payload's four fields under
/// the payload's name, whatever else the container at that address held.
pub proof fn lemma_create_stores(l: Map<Seq<char>, Seq<u8>>, b: Seq<u8>, p: TwitPayloadView)
    requires
        spec_payload_of(b) == Some(p),
        p.verb == Verb::Create,
        spec_apply_transition(l, b).0 is Applied,
        match spec_stored_at(l, p.tweet_id) {
            StoredView::Stored(c) => c.len() + 1 < 0x1_0000_0000_0000_0000,
            _ => true,
        },
    ensures
        spec_record_at(spec_apply_transition(l, b).1, p.tweet_id) == Some(
            spec_fields(p.tweet_id, p.author_id, p.author_name, p.tweet_text),
        ),
{
    let name = p.tweet_id;
    let nb = vstd::utf8::encode_utf8(name);
    let fields = spec_fields(p.tweet_id, p.author_id, p.author_name, p.tweet_text);
    let addr = spec_address_of(name);
    let l2 = spec_apply_transition(l, b).1;
    crate::payload::lemma_payload_field_bounds(b, p);
    match spec_stored_at(l, name) {
        StoredView::Missing => {
            let u = spec_upsert(Seq::empty(), nb, fields);
            assert(u =~= seq![(nb, fields)]);
            crate::codec::lemma_single_record_round_trip(nb, fields);
            assert(l2 == l.insert(addr, spec_enc_container(u)));
        },
        StoredView::Stored(c) => {
            crate::codec::lemma_dec_wf(l[addr]);
            let u = spec_upsert(c, nb, fields);
            crate::codec::lemma_upsert_wf(c, nb, fields);
            assert(crate::codec::spec_wf_container(u));
            crate::codec::lemma_decode_encode(u);
            crate::codec::lemma_find_upsert_same(c, nb, fields);
            assert(l2 == l.insert(addr, spec_enc_container(u)));
        },
        StoredView::Corrupt => {
            assert(false);
        },
    }
}

/// Write-once: once a create for a name has been applied, a second create
/// for the same name is rejected as a duplicate, the ledger is unchanged by
/// it, and the stored record still holds the first create's fields.
pub proof fn lemma_write_once(
    l: Map<Seq<char>, Seq<u8>>,
    b1: Seq<u8>,
    b2: Seq<u8>,
    p1: TwitPayloadView,
    p2: TwitPayloadView,
)
    requires
        spec_payload_of(b1) == Some(p1),
        p1.verb == Verb::Create,
        spec_payload_of(b2) == Some(p2),
        p2.verb == Verb::Create,
        p2.tweet_id == p1.tweet_id,
        spec_apply_transition(l, b1).0 is Applied,
        match spec_stored_at(l, p1.tweet_id) {
            StoredView::Stored(c) => c.len() + 1 < 0x1_0000_0000_0000_0000,
            _ => true,
        },
    ensures
        spec_apply_transition(spec_apply_transition(l, b1).1, b2).0 is Duplicate,
        spec_apply_transition(spec_apply_transition(l, b1).1, b2).1 == spec_apply_transition(
            l,
            b1,
        ).1,
        spec_record_at(spec_apply_transition(spec_apply_transition(l, b1).1, b2).1, p1.tweet_id)
            == Some(spec_fields(p1.tweet_id, p1.author_id, p1.author_name, p1.tweet_text)),
{
    lemma_create_stores(l, b1, p1);
}

/// Delete then create: after a delete for a name is applied, a create for
/// the same name is applied too, and stores the new fields.
pub proof fn lemma_delete_then_create(
    l: Map<Seq<char>, Seq<u8>>,
    b1: Seq<u8>,
    b2: Seq<u8>,
    p1: TwitPayloadView,
    p2: TwitPayloadView,
)
    requires
        spec_payload_of(b1) == Some(p1),
        p1.verb == Verb::Delete,
        spec_payload_of(b2) == Some(p2),
        p2.verb == Verb::Create,
        p2.tweet_id == p1.tweet_id,
        !(spec_stored_at(l, p1.tweet_id) is Corrupt),
        match spec_stored_at(l, p1.tweet_id) {
            StoredView::Stored(c) => c.len() + 1 < 0x1_0000_0000_0000_0000,
            _ => true,
        },
    ensures
        spec_apply_transition(l, b1).0 is Applied,
        spec_apply_transition(spec_apply_transition(l, b1).1, b2).0 is Applied,
        spec_record_at(spec_apply_transition(spec_apply_transition(l, b1).1, b2).1, p2.tweet_id)
            == Some(spec_fields(p2.tweet_id, p2.author_id, p2.author_name, p2.tweet_text)),
{
    let name = p1.tweet_id;
    let nb = vstd::utf8::encode_utf8(name);
    let addr = spec_address_of(name);
    let l1 = spec_apply_transition(l, b1).1;
    match spec_stored_at(l, name) {
        StoredView::Missing => {
            assert(l1 == l);
            lemma_create_stores(l1, b2, p2);
        },
        StoredView::Stored(c) => {
            if spec_find(c, nb) is None {
                assert(l1 == l);
                lemma_create_stores(l1, b2, p2);
            } else {
                crate::codec::lemma_dec_wf(l[addr]);
                let c2 = spec_remove_entry(c, nb);
                crate::codec::lemma_remove_wf(c, nb);
                crate::codec::lemma_decode_encode(c2);
                crate::codec::lemma_find_remove(c, nb);
                assert(l1 == l.insert(addr, spec_enc_container(c2)));
                assert(spec_stored_at(l1, name) == StoredView::Stored(c2));
                lemma_create_stores(l1, b2, p2);
            }
        },
        StoredView::Corrupt => {
            assert(false);
        },
    }
}

/// Deleting a name that holds no record succeeds and changes nothing: the
/// delete verb is idempotent on absent names.
pub proof fn lemma_delete_absent(l: Map<Seq<char>, Seq<u8>>, b: Seq<u8>, p: TwitPayloadView)
    requires
        spec_payload_of(b) == Some(p),
        p.verb == Verb::Delete,
        !(spec_stored_at(l, p.tweet_id) is Corrupt),
        spec_record_at(l, p.tweet_id) is None,
    ensures
        spec_apply_transition(l, b) == (ApplyOutcome::Applied, l),
{
}

/// A payload that fails validation — missing or unrecognized verb, missing
/// or non-text field, or a malformed map — is rejected with no state change.
pub proof fn lemma_invalid_payload_rejected(l: Map<Seq<char>, Seq<u8>>, b: Seq<u8>)
    requires
        spec_payload_of(b) is None,
    ensures
        spec_apply_transition(l, b) == (ApplyOutcome::Invalid, l),
{
}

/// An element-wise copy of a list of strings.
fn clone_strings(v: &Vec<String>) -> (r: Vec<String>)
    ensures
        r.deep_view() == v.deep_view(),
{
    let n = v.len();
    let mut r: Vec<String> = Vec::new();
    let mut i: usize = 0;
    while i < n
        invariant
            n == v@.len(),
            i <= n,
            r.deep_view() =~= v.deep_view().take(i as int),
        decreases n - i,
    {
        r.push(v[i].clone());
        proof {
            assert(r.deep_view() =~= v.deep_view().take(i as int).push(v@[i as int]@));
            assert(v.deep_view().take(i as int).push(v.deep_view()[i as int]) =~= v.deep_view()
                .take(i + 1));
            assert(v.deep_view()[i as int] == v@[i as int]@);
        }
        i = i + 1;
    }
    proof {
        assert(v.deep_view().take(n as int) =~= v.deep_view());
    }
    r
}

} // verus!
