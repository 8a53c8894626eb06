//! The payload validator: inbound transaction bytes are parsed into a typed,
//! verb-tagged record. The wire form is the same map-of-text format as the
//! state containers; the canonical keys are `Verb`, `TweetId`, `AuthorId`,
//! `AuthorName` and `TweetText`, all text.

use vstd::prelude::*;

use crate::codec::{
    bytes_eq, clone_bytes, decode_pairs, encode_pairs, spec_dec_pairs, spec_enc_pairs,
    spec_key_author_name, spec_key_tweet_text, spec_pairs_view, spec_wf_pairs,
};
use crate::errors::TwitError;

verus! {

/// The operation a payload requests.
#[derive(Clone, Copy, PartialEq, Eq, Structural, Debug)]
pub enum Verb {
    Create,
    Delete,
    Read,
}

/// The payload key "Verb", in ASCII.
pub open spec fn spec_key_verb() -> Seq<u8> {
    seq![86u8, 101, 114, 98]
}

/// The payload key "TweetId", in ASCII. Unlike the stored key "TweetID", the
/// inbound key ends in a lowercase letter.
pub open spec fn spec_key_p_tweet_id() -> Seq<u8> {
    seq![84u8, 119, 101, 101, 116, 73, 100]
}

/// The payload key "AuthorId", in ASCII. Unlike the stored key "AuthorID",
/// the inbound key ends in a lowercase letter.
pub open spec fn spec_key_p_author_id() -> Seq<u8> {
    seq![65u8, 117, 116, 104, 111, 114, 73, 100]
}

/// The verb string "set", in ASCII.
pub open spec fn spec_verb_set() -> Seq<u8> {
    seq![115u8, 101, 116]
}

/// The verb string "del", in ASCII.
pub open spec fn spec_verb_del() -> Seq<u8> {
    seq![100u8, 101, 108]
}

/// The verb string "get", in ASCII.
pub open spec fn spec_verb_get() -> Seq<u8> {
    seq![103u8, 101, 116]
}

/// The verb recognized from its wire text, if any.
pub open spec fn spec_verb_of(s: Seq<u8>) -> Option<Verb> {
    if s == spec_verb_set() {
        Some(Verb::Create)
    } else if s == spec_verb_del() {
        Some(Verb::Delete)
    } else if s == spec_verb_get() {
        Some(Verb::Read)
    } else {
        None
    }
}

/// The value under the first occurrence of `key`, if any.
pub open spec fn spec_lookup(ps: Seq<(Seq<u8>, Seq<u8>)>, key: Seq<u8>) -> Option<Seq<u8>>
    decreases ps.len(),
{
    if ps.len() == 0 {
        None
    } else if ps.first().0 == key {
        Some(ps.first().1)
    } else {
        spec_lookup(ps.drop_first(), key)
    }
}

/// The text under `key`: present and valid UTF-8, decoded to characters.
pub open spec fn spec_field_str(ps: Seq<(Seq<u8>, Seq<u8>)>, key: Seq<u8>) -> Option<Seq<char>> {
    match spec_lookup(ps, key) {
        Some(v) => if vstd::utf8::valid_utf8(v) {
            Some(vstd::utf8::decode_utf8(v))
        } else {
            None
        },
        None => None,
    }
}

/// The mathematical value of a validated payload.
pub struct TwitPayloadView {
    pub verb: Verb,
    pub tweet_id: Seq<char>,
    pub author_id: Seq<char>,
    pub author_name: Seq<char>,
    pub tweet_text: Seq<char>,
}

/// The payload validated from its key-value pairs: a recognized verb and the
/// four required text fields.
pub open spec fn spec_payload_of_pairs(ps: Seq<(Seq<u8>, Seq<u8>)>) -> Option<TwitPayloadView> {
    match spec_lookup(ps, spec_key_verb()) {
        Some(vs) => match spec_verb_of(vs) {
            Some(verb) => match (
                spec_field_str(ps, spec_key_p_tweet_id()),
                spec_field_str(ps, spec_key_p_author_id()),
                spec_field_str(ps, spec_key_author_name()),
                spec_field_str(ps, spec_key_tweet_text()),
            ) {
                (Some(tweet_id), Some(author_id), Some(author_name), Some(tweet_text)) => Some(
                    TwitPayloadView { verb, tweet_id, author_id, author_name, tweet_text },
                ),
                _ => None,
            },
            None => None,
        },
        None => None,
    }
}

/// The payload validated from raw bytes, or `None` when the bytes are
/// rejected: not a well-formed map, a missing or unrecognized verb, or a
/// missing or non-text required field.
pub open spec fn spec_payload_of(b: Seq<u8>) -> Option<TwitPayloadView> {
    match spec_dec_pairs(b) {
        Some(ps) => spec_payload_of_pairs(ps),
        None => None,
    }
}

/// A validated inbound record: the requested verb and the four text fields.
pub struct TwitPayload {
    pub verb: Verb,
    pub tweet_id: String,
    pub author_id: String,
    pub author_name: String,
    pub tweet_text: String,
}

impl View for TwitPayload {
    type V = TwitPayloadView;

    open spec fn view(&self) -> TwitPayloadView {
        TwitPayloadView {
            verb: self.verb,
            tweet_id: self.tweet_id@,
            author_id: self.author_id@,
            author_name: self.author_name@,
            tweet_text: self.tweet_text@,
        }
    }
}

proof fn lemma_lookup_at(ps: Seq<(Seq<u8>, Seq<u8>)>, key: Seq<u8>, i: int)
    requires
        0 <= i < ps.len(),
        ps[i].0 == key,
        forall|j: int| 0 <= j < i ==> ps[j].0 != key,
    ensures
        spec_lookup(ps, key) == Some(ps[i].1),
    decreases i,
{
    if i == 0 {
        assert(ps.first() == ps[0]);
    } else {
        assert(ps.first() == ps[0]);
        assert(ps.drop_first()[i - 1] == ps[i]);
        assert(forall|j: int| 0 <= j < i - 1 ==> #[trigger] ps.drop_first()[j] == ps[j + 1]);
        lemma_lookup_at(ps.drop_first(), key, i - 1);
    }
}

proof fn lemma_lookup_absent(ps: Seq<(Seq<u8>, Seq<u8>)>, key: Seq<u8>)
    requires
        forall|j: int| 0 <= j < ps.len() ==> ps[j].0 != key,
    ensures
        spec_lookup(ps, key) is None,
    decreases ps.len(),
{
    if ps.len() > 0 {
        assert(ps.first() == ps[0]);
        assert(forall|j: int| 0 <= j < ps.drop_first().len() ==> #[trigger] ps.drop_first()[j]
            == ps[j + 1]);
        lemma_lookup_absent(ps.drop_first(), key);
    }
}

/// The value under the first occurrence of `key`, copied out.
fn lookup_pair(pairs: &Vec<(Vec<u8>, Vec<u8>)>, key: &Vec<u8>) -> (r: Option<Vec<u8>>)
    ensures
        match r {
            Some(v) => spec_lookup(spec_pairs_view(pairs@), key@) == Some(v@),
            None => spec_lookup(spec_pairs_view(pairs@), key@) is None,
        },
{
    let ghost pv = spec_pairs_view(pairs@);
    let n = pairs.len();
    let mut i: usize = 0;
    while i < n
        invariant
            n == pairs@.len(),
            pv == spec_pairs_view(pairs@),
            i <= n,
            forall|j: int| 0 <= j < i ==> pv[j].0 != key@,
        decreases n - i,
    {
        if bytes_eq(&pairs[i].0, key) {
            proof {
                assert(pv[i as int].0 == key@);
                lemma_lookup_at(pv, key@, i as int);
            }
            return Some(clone_bytes(&pairs[i].1));
        }
        proof {
            assert(pv[i as int].0 == pairs@[i as int].0@);
        }
        i = i + 1;
    }
    proof {
        lemma_lookup_absent(pv, key@);
    }
    None
}

/// Relies on String::from_utf8: it succeeds exactly on valid UTF-8 input and
/// yields the characters that the bytes encode.
#[verifier::external_body]
fn string_from_utf8(v: Vec<u8>) -> (r: Option<String>)
    ensures
        match r {
            Some(s) => vstd::utf8::valid_utf8(v@) && s@ == vstd::utf8::decode_utf8(v@),
            None => !vstd::utf8::valid_utf8(v@),
        },
{
    String::from_utf8(v).ok()
}

/// The payload key "Verb" as a byte string.
fn key_verb() -> (r: Vec<u8>)
    ensures
        r@ == spec_key_verb(),
{
    let r: Vec<u8> = vec![86u8, 101, 114, 98];
    proof {
        assert(r@ =~= spec_key_verb());
    }
    r
}

/// The payload key "TweetId" as a byte string.
fn key_p_tweet_id() -> (r: Vec<u8>)
    ensures
        r@ == spec_key_p_tweet_id(),
{
    let r: Vec<u8> = vec![84u8, 119, 101, 101, 116, 73, 100];
    proof {
        assert(r@ =~= spec_key_p_tweet_id());
    }
    r
}

/// The payload key "AuthorId" as a byte string.
fn key_p_author_id() -> (r: Vec<u8>)
    ensures
        r@ == spec_key_p_author_id(),
{
    let r: Vec<u8> = vec![65u8, 117, 116, 104, 111, 114, 73, 100];
    proof {
        assert(r@ =~= spec_key_p_author_id());
    }
    r
}

/// The payload key "AuthorName" as a byte string.
fn key_p_author_name() -> (r: Vec<u8>)
    ensures
        r@ == spec_key_author_name(),
{
    let r: Vec<u8> = vec![65u8, 117, 116, 104, 111, 114, 78, 97, 109, 101];
    proof {
        assert(r@ =~= spec_key_author_name());
    }
    r
}

/// The payload key "TweetText" as a byte string.
fn key_p_tweet_text() -> (r: Vec<u8>)
    ensures
        r@ == spec_key_tweet_text(),
{
    let r: Vec<u8> = vec![84u8, 119, 101, 101, 116, 84, 101, 120, 116];
    proof {
        assert(r@ =~= spec_key_tweet_text());
    }
    r
}

/// The verb string "set" as a byte string.
fn verb_set() -> (r: Vec<u8>)
    ensures
        r@ == spec_verb_set(),
{
    let r: Vec<u8> = vec![115u8, 101, 116];
    proof {
        assert(r@ =~= spec_verb_set());
    }
    r
}

/// The verb string "del" as a byte string.
fn verb_del() -> (r: Vec<u8>)
    ensures
        r@ == spec_verb_del(),
{
    let r: Vec<u8> = vec![100u8, 101, 108];
    proof {
        assert(r@ =~= spec_verb_del());
    }
    r
}

/// The verb string "get" as a byte string.
fn verb_get() -> (r: Vec<u8>)
    ensures
        r@ == spec_verb_get(),
{
    let r: Vec<u8> = vec![103u8, 101, 116];
    proof {
        assert(r@ =~= spec_verb_get());
    }
    r
}

/// One required text field: present under `key` and valid UTF-8.
fn field_string(pairs: &Vec<(Vec<u8>, Vec<u8>)>, key: &Vec<u8>) -> (r: Option<String>)
    ensures
        match r {
            Some(s) => spec_field_str(spec_pairs_view(pairs@), key@) == Some(s@),
            None => spec_field_str(spec_pairs_view(pairs@), key@) is None,
        },
{
    match lookup_pair(pairs, key) {
        Some(v) => string_from_utf8(v),
        None => None,
    }
}

impl TwitPayload {
    /// Validates inbound payload bytes into a typed record. Succeeds exactly
    /// when the bytes are a well-formed map whose `Verb` is one of `set`,
    /// `del` or `get` and whose four required fields are present as text;
    /// every rejection is an `InvalidPayload`.
    pub fn new(payload_data: &[u8]) -> (r: Result<Option<TwitPayload>, TwitError>)
        ensures
            r matches Ok(op) ==> op matches Some(p) && spec_payload_of(payload_data@) == Some(
                p@,
            ),
            r matches Err(e) ==> spec_payload_of(payload_data@) is None && e is InvalidPayload,
    {
        let pairs = match decode_pairs(payload_data) {
            Some(ps) => ps,
            None => {
                return Err(
                    TwitError::InvalidPayload(
                        String::from_str("payload is not a well-formed map"),
                    ),
                );
            },
        };
        let verb_bytes = match lookup_pair(&pairs, &key_verb()) {
            Some(v) => v,
            None => {
                return Err(
                    TwitError::InvalidPayload(
                        String::from_str("Verb must be 'set', 'del', or 'get'"),
                    ),
                );
            },
        };
        let verb = if bytes_eq(&verb_bytes, &verb_set()) {
            Verb::Create
        } else if bytes_eq(&verb_bytes, &verb_del()) {
            Verb::Delete
        } else if bytes_eq(&verb_bytes, &verb_get()) {
            Verb::Read
        } else {
            return Err(
                TwitError::InvalidPayload(String::from_str("Verb must be 'set', 'del' or 'get'")),
            );
        };
        let tweet_id = match field_string(&pairs, &key_p_tweet_id()) {
            Some(s) => s,
            None => {
                return Err(
                    TwitError::InvalidPayload(String::from_str("TweetId must be a string")),
                );
            },
        };
        let author_id = match field_string(&pairs, &key_p_author_id()) {
            Some(s) => s,
            None => {
                return Err(
                    TwitError::InvalidPayload(String::from_str("AuthorId must be a string")),
                );
            },
        };
        let author_name = match field_string(&pairs, &key_p_author_name()) {
            Some(s) => s,
            None => {
                return Err(
                    TwitError::InvalidPayload(String::from_str("AuthorName must be a string")),
                );
            },
        };
        let tweet_text = match field_string(&pairs, &key_p_tweet_text()) {
            Some(s) => s,
            None => {
                return Err(
                    TwitError::InvalidPayload(String::from_str("TweetText must be a string")),
                );
            },
        };
        Ok(Some(TwitPayload { verb, tweet_id, author_id, author_name, tweet_text }))
    }

    /// The verb the payload requests.
    pub fn get_verb(&self) -> (r: Verb)
        ensures
            r == self@.verb,
    {
        self.verb
    }

    /// The record name this payload addresses: the tweet id is the key under
    /// which the record is stored.
    pub fn get_name(&self) -> (r: &String)
        ensures
            r@ == self@.tweet_id,
    {
        &self.tweet_id
    }

    /// The tweet id field.
    pub fn get_tweet_id(&self) -> (r: &String)
        ensures
            r@ == self@.tweet_id,
    {
        &self.tweet_id
    }

    /// The author id field.
    pub fn get_author_id(&self) -> (r: &String)
        ensures
            r@ == self@.author_id,
    {
        &self.author_id
    }

    /// The author name field.
    pub fn get_author_name(&self) -> (r: &String)
        ensures
            r@ == self@.author_name,
    {
        &self.author_name
    }

    /// The tweet text field.
    pub fn get_tweet_text(&self) -> (r: &String)
        ensures
            r@ == self@.tweet_text,
    {
        &self.tweet_text
    }
}

proof fn lemma_lookup_in(ps: Seq<(Seq<u8>, Seq<u8>)>, key: Seq<u8>)
    ensures
        spec_lookup(ps, key) matches Some(v) ==> exists|i: int|
            0 <= i < ps.len() && ps[i].1 == v,
    decreases ps.len(),
{
    if ps.len() > 0 {
        if ps.first().0 == key {
            assert(ps[0] == ps.first());
        } else {
            lemma_lookup_in(ps.drop_first(), key);
            match spec_lookup(ps.drop_first(), key) {
                Some(v) => {
                    let i0 = choose|i: int|
                        0 <= i < ps.drop_first().len() && ps.drop_first()[i].1 == v;
                    assert(ps[i0 + 1].1 == v);
                },
                None => {},
            }
        }
    }
}

/// Every text field of a validated payload re-encodes to the byte string it
/// was parsed from, so its UTF-8 form fits the wire format's largest count.
pub proof fn lemma_payload_field_bounds(b: Seq<u8>, p: TwitPayloadView)
    requires
        spec_payload_of(b) == Some(p),
    ensures
        vstd::utf8::encode_utf8(p.tweet_id).len() < 0x1_0000_0000_0000_0000,
        vstd::utf8::encode_utf8(p.author_id).len() < 0x1_0000_0000_0000_0000,
        vstd::utf8::encode_utf8(p.author_name).len() < 0x1_0000_0000_0000_0000,
        vstd::utf8::encode_utf8(p.tweet_text).len() < 0x1_0000_0000_0000_0000,
{
    broadcast use vstd::utf8::decode_utf8_encode_utf8;

    crate::codec::lemma_dec_pairs_wf(b);
    match spec_dec_pairs(b) {
        Some(ps) => {
            lemma_lookup_in(ps, spec_key_p_tweet_id());
            lemma_lookup_in(ps, spec_key_p_author_id());
            lemma_lookup_in(ps, spec_key_author_name());
            lemma_lookup_in(ps, spec_key_tweet_text());
            match spec_lookup(ps, spec_key_p_tweet_id()) {
                Some(v) => {
                    assert(vstd::utf8::encode_utf8(p.tweet_id) == v);
                    let i0 = choose|i: int| 0 <= i < ps.len() && ps[i].1 == v;
                    assert(ps[i0].0.len() < 0x1_0000_0000_0000_0000);
                },
                None => {},
            }
            match spec_lookup(ps, spec_key_p_author_id()) {
                Some(v) => {
                    assert(vstd::utf8::encode_utf8(p.author_id) == v);
                    let i0 = choose|i: int| 0 <= i < ps.len() && ps[i].1 == v;
                    assert(ps[i0].0.len() < 0x1_0000_0000_0000_0000);
                },
                None => {},
            }
            match spec_lookup(ps, spec_key_author_name()) {
                Some(v) => {
                    assert(vstd::utf8::encode_utf8(p.author_name) == v);
                    let i0 = choose|i: int| 0 <= i < ps.len() && ps[i].1 == v;
                    assert(ps[i0].0.len() < 0x1_0000_0000_0000_0000);
                },
                None => {},
            }
            match spec_lookup(ps, spec_key_tweet_text()) {
                Some(v) => {
                    assert(vstd::utf8::encode_utf8(p.tweet_text) == v);
                    let i0 = choose|i: int| 0 <= i < ps.len() && ps[i].1 == v;
                    assert(ps[i0].0.len() < 0x1_0000_0000_0000_0000);
                },
                None => {},
            }
        },
        None => {},
    }
}

/// The five payload pairs for the given field texts, in their canonical
/// order.
pub open spec fn spec_payload_pairs(
    verb: Seq<char>,
    tweet_id: Seq<char>,
    author_id: Seq<char>,
    author_name: Seq<char>,
    tweet_text: Seq<char>,
) -> Seq<(Seq<u8>, Seq<u8>)> {
    seq![
        (spec_key_verb(), vstd::utf8::encode_utf8(verb)),
        (spec_key_p_tweet_id(), vstd::utf8::encode_utf8(tweet_id)),
        (spec_key_p_author_id(), vstd::utf8::encode_utf8(author_id)),
        (spec_key_author_name(), vstd::utf8::encode_utf8(author_name)),
        (spec_key_tweet_text(), vstd::utf8::encode_utf8(tweet_text)),
    ]
}

/// Round-trip law for the payload form: a payload built from field texts
/// and a recognized verb string is accepted by the validator, and validates
/// to exactly those fields. The length bounds are machine limits: every
/// field held in a vector satisfies them.
#[verifier::rlimit(100)]
#[verifier::spinoff_prover]
pub proof fn lemma_encode_payload_validates(
    verb: Seq<char>,
    tweet_id: Seq<char>,
    author_id: Seq<char>,
    author_name: Seq<char>,
    tweet_text: Seq<char>,
    v: Verb,
)
    requires
        spec_verb_of(vstd::utf8::encode_utf8(verb)) == Some(v),
        vstd::utf8::encode_utf8(verb).len() < 0x1_0000_0000_0000_0000,
        vstd::utf8::encode_utf8(tweet_id).len() < 0x1_0000_0000_0000_0000,
        vstd::utf8::encode_utf8(author_id).len() < 0x1_0000_0000_0000_0000,
        vstd::utf8::encode_utf8(author_name).len() < 0x1_0000_0000_0000_0000,
        vstd::utf8::encode_utf8(tweet_text).len() < 0x1_0000_0000_0000_0000,
    ensures
        spec_payload_of(
            spec_enc_pairs(
                spec_payload_pairs(verb, tweet_id, author_id, author_name, tweet_text),
            ),
        ) == Some(TwitPayloadView { verb: v, tweet_id, author_id, author_name, tweet_text }),
{
    vstd::utf8::encode_utf8_valid_utf8(tweet_id);
    vstd::utf8::encode_utf8_valid_utf8(author_id);
    vstd::utf8::encode_utf8_valid_utf8(author_name);
    vstd::utf8::encode_utf8_valid_utf8(tweet_text);
    vstd::utf8::encode_utf8_decode_utf8(tweet_id);
    vstd::utf8::encode_utf8_decode_utf8(author_id);
    vstd::utf8::encode_utf8_decode_utf8(author_name);
    vstd::utf8::encode_utf8_decode_utf8(tweet_text);
    let ps = spec_payload_pairs(verb, tweet_id, author_id, author_name, tweet_text);
    assert(spec_wf_pairs(ps)) by {
        assert(ps[0] == (spec_key_verb(), vstd::utf8::encode_utf8(verb)));
        assert(ps[1] == (spec_key_p_tweet_id(), vstd::utf8::encode_utf8(tweet_id)));
        assert(ps[2] == (spec_key_p_author_id(), vstd::utf8::encode_utf8(author_id)));
        assert(ps[3] == (spec_key_author_name(), vstd::utf8::encode_utf8(author_name)));
        assert(ps[4] == (spec_key_tweet_text(), vstd::utf8::encode_utf8(tweet_text)));
    }
    crate::codec::lemma_decode_encode_pairs(ps);
    let r1 = ps.drop_first();
    let r2 = r1.drop_first();
    let r3 = r2.drop_first();
    let r4 = r3.drop_first();
    let r5 = r4.drop_first();
    assert(r1 =~= seq![
        (spec_key_p_tweet_id(), vstd::utf8::encode_utf8(tweet_id)),
        (spec_key_p_author_id(), vstd::utf8::encode_utf8(author_id)),
        (spec_key_author_name(), vstd::utf8::encode_utf8(author_name)),
        (spec_key_tweet_text(), vstd::utf8::encode_utf8(tweet_text)),
    ]);
    assert(r2 =~= seq![
        (spec_key_p_author_id(), vstd::utf8::encode_utf8(author_id)),
        (spec_key_author_name(), vstd::utf8::encode_utf8(author_name)),
        (spec_key_tweet_text(), vstd::utf8::encode_utf8(tweet_text)),
    ]);
    assert(r3 =~= seq![
        (spec_key_author_name(), vstd::utf8::encode_utf8(author_name)),
        (spec_key_tweet_text(), vstd::utf8::encode_utf8(tweet_text)),
    ]);
    assert(r4 =~= seq![(spec_key_tweet_text(), vstd::utf8::encode_utf8(tweet_text))]);
    assert(r5 =~= Seq::<(Seq<u8>, Seq<u8>)>::empty());
    assert(spec_key_verb().len() == 4);
    assert(spec_key_p_tweet_id().len() == 7);
    assert(spec_key_p_author_id().len() == 8);
    assert(spec_key_tweet_text().len() == 9);
    assert(spec_key_author_name().len() == 10);
    assert(spec_lookup(ps, spec_key_verb()) == Some(vstd::utf8::encode_utf8(verb)));
    assert(spec_lookup(r1, spec_key_p_tweet_id()) == Some(vstd::utf8::encode_utf8(tweet_id)));
    assert(spec_lookup(ps, spec_key_p_tweet_id()) == spec_lookup(r1, spec_key_p_tweet_id()));
    assert(spec_lookup(r2, spec_key_p_author_id()) == Some(vstd::utf8::encode_utf8(author_id)));
    assert(spec_lookup(r1, spec_key_p_author_id()) == spec_lookup(r2, spec_key_p_author_id()));
    assert(spec_lookup(ps, spec_key_p_author_id()) == spec_lookup(r1, spec_key_p_author_id()));
    assert(spec_lookup(r3, spec_key_author_name()) == Some(
        vstd::utf8::encode_utf8(author_name),
    ));
    assert(spec_lookup(r2, spec_key_author_name()) == spec_lookup(r3, spec_key_author_name()));
    assert(spec_lookup(r1, spec_key_author_name()) == spec_lookup(r2, spec_key_author_name()));
    assert(spec_lookup(ps, spec_key_author_name()) == spec_lookup(r1, spec_key_author_name()));
    assert(spec_lookup(r4, spec_key_tweet_text()) == Some(vstd::utf8::encode_utf8(tweet_text)));
    assert(spec_lookup(r3, spec_key_tweet_text()) == spec_lookup(r4, spec_key_tweet_text()));
    assert(spec_lookup(r2, spec_key_tweet_text()) == spec_lookup(r3, spec_key_tweet_text()));
    assert(spec_lookup(r1, spec_key_tweet_text()) == spec_lookup(r2, spec_key_tweet_text()));
    assert(spec_lookup(ps, spec_key_tweet_text()) == spec_lookup(r1, spec_key_tweet_text()));
}

/// Builds the wire bytes of a payload: the canonical five-entry map of text
/// keys to text values, in the fixed field order.
pub fn encode_payload(
    verb: &str,
    tweet_id: &str,
    author_id: &str,
    author_name: &str,
    tweet_text: &str,
) -> (r: Vec<u8>)
    ensures
        r@ == spec_enc_pairs(
            spec_payload_pairs(verb@, tweet_id@, author_id@, author_name@, tweet_text@),
        ),
{
    let mut pairs: Vec<(Vec<u8>, Vec<u8>)> = Vec::new();
    pairs.push((key_verb(), verb.as_bytes_vec()));
    pairs.push((key_p_tweet_id(), tweet_id.as_bytes_vec()));
    pairs.push((key_p_author_id(), author_id.as_bytes_vec()));
    pairs.push((key_p_author_name(), author_name.as_bytes_vec()));
    pairs.push((key_p_tweet_text(), tweet_text.as_bytes_vec()));
    proof {
        assert(spec_pairs_view(pairs@) =~= spec_payload_pairs(
            verb@,
            tweet_id@,
            author_id@,
            author_name@,
            tweet_text@,
        ));
    }
    encode_pairs(&pairs)
}

} // verus!
