//! The ledger state accessor: reads and writes records through an in-memory
//! model of the ledger's key-value context, using the address codec and the
//! state value codec. A request-scoped cache holds the container decoded
//! during one apply invocation, so the same bytes are not decoded twice.
//!
//! The surrounding runtime fetches the one entry an apply invocation may
//! touch into the `Ledger` model before the call and pushes the model's
//! entries back out afterwards; nothing here opens its own storage.

use vstd::map::*;
use vstd::prelude::*;

use crate::address::{calculate_address, spec_address_of};
use crate::codec::{
    decode, encode, lemma_decode_encode, lemma_upsert_wf, lemma_remove_wf, spec_dec_container,
    spec_enc_container, spec_find, spec_remove_entry, spec_upsert, spec_wf_container, Container,
    ContainerView, FieldSet, FieldSetView,
};
use crate::errors::TwitError;

verus! {

/// The ledger's key-value store, modeled in memory: each entry maps one
/// storage address to the bytes stored there. Addresses are unique.
pub struct Ledger {
    pub entries: Vec<(String, Vec<u8>)>,
}

/// The mathematical value of the store: a map from address to bytes. Later
/// entries would win; well-formed ledgers hold each address once.
pub open spec fn spec_ledger_map(es: Seq<(String, Vec<u8>)>) -> Map<Seq<char>, Seq<u8>>
    decreases es.len(),
{
    if es.len() == 0 {
        Map::empty()
    } else {
        spec_ledger_map(es.drop_last()).insert(es.last().0@, es.last().1@)
    }
}

impl View for Ledger {
    type V = Map<Seq<char>, Seq<u8>>;

    open spec fn view(&self) -> Map<Seq<char>, Seq<u8>> {
        spec_ledger_map(self.entries@)
    }
}

proof fn lemma_ledger_map_props(es: Seq<(String, Vec<u8>)>)
    requires
        forall|i: int, j: int| 0 <= i < j < es.len() ==> es[i].0@ != es[j].0@,
    ensures
        forall|a: Seq<char>|
            #[trigger] spec_ledger_map(es).contains_key(a) <==> exists|i: int|
                0 <= i < es.len() && es[i].0@ == a,
        forall|i: int|
            0 <= i < es.len() ==> spec_ledger_map(es)[#[trigger] es[i].0@] == es[i].1@,
    decreases es.len(),
{
    if es.len() > 0 {
        let es2 = es.drop_last();
        assert(forall|i: int| 0 <= i < es2.len() ==> #[trigger] es2[i] == es[i]);
        lemma_ledger_map_props(es2);
        let m2 = spec_ledger_map(es2);
        let k = es.last().0@;
        assert(es.last() == es[es.len() - 1]);
        assert forall|a: Seq<char>| #[trigger]
            spec_ledger_map(es).contains_key(a) <==> exists|i: int|
            0 <= i < es.len() && es[i].0@ == a by {
            if a == k {
                assert(es[es.len() - 1].0@ == a);
            } else {
                if m2.contains_key(a) {
                    let i0 = choose|i: int| 0 <= i < es2.len() && es2[i].0@ == a;
                    assert(es[i0].0@ == a);
                }
                if exists|i: int| 0 <= i < es.len() && es[i].0@ == a {
                    let i0 = choose|i: int| 0 <= i < es.len() && es[i].0@ == a;
                    assert(i0 < es.len() - 1);
                    assert(es2[i0].0@ == a);
                }
            }
        }
        assert forall|i: int|
            0 <= i < es.len() implies spec_ledger_map(es)[#[trigger] es[i].0@] == es[i].1@ by {
            if i < es.len() - 1 {
                assert(es[i].0@ != k);
                assert(es2[i].0@ == es[i].0@ && es2[i].1@ == es[i].1@);
            }
        }
    }
}

impl Ledger {
    /// Each address is held by at most one entry.
    pub open spec fn wf(&self) -> bool {
        forall|i: int, j: int|
            0 <= i < j < self.entries@.len() ==> self.entries@[i].0@ != self.entries@[j].0@
    }

    /// An empty store.
    pub fn new() -> (r: Ledger)
        ensures
            r@ == Map::<Seq<char>, Seq<u8>>::empty(),
            r.wf(),
    {
        let r = Ledger { entries: Vec::new() };
        proof {
            assert(r@ =~= Map::<Seq<char>, Seq<u8>>::empty());
        }
        r
    }

    fn index_of(&self, address: &String) -> (r: Option<usize>)
        ensures
            match r {
                Some(i) => i < self.entries@.len() && self.entries@[i as int].0@ == address@,
                None => forall|j: int|
                    0 <= j < self.entries@.len() ==> self.entries@[j].0@ != address@,
            },
    {
        let n = self.entries.len();
        let mut i: usize = 0;
        while i < n
            invariant
                n == self.entries@.len(),
                i <= n,
                forall|j: int| 0 <= j < i ==> self.entries@[j].0@ != address@,
            decreases n - i,
        {
            if self.entries[i].0.eq(address) {
                return Some(i);
            }
            i = i + 1;
        }
        None
    }

    /// The bytes stored at `address`, if any, copied out.
    pub fn get_state_entry(&self, address: &str) -> (r: Option<Vec<u8>>)
        requires
            self.wf(),
        ensures
            match r {
                Some(d) => self@.contains_key(address@) && self@[address@] == d@,
                None => !self@.contains_key(address@),
            },
    {
        proof {
            lemma_ledger_map_props(self.entries@);
        }
        let owned = address.to_owned();
        match self.index_of(&owned) {
            Some(i) => Some(crate::codec::clone_bytes(&self.entries[i].1)),
            None => {
                proof {
                    if self@.contains_key(address@) {
                        let i0 = choose|i: int|
                            0 <= i < self.entries@.len() && self.entries@[i].0@ == address@;
                    }
                }
                None
            },
        }
    }

    /// Stores `data` at `address`, replacing whatever was there.
    pub fn set_state_entry(&mut self, address: String, data: Vec<u8>)
        requires
            old(self).wf(),
        ensures
            final(self).wf(),
            final(self)@ == old(self)@.insert(address@, data@),
    {
        let ghost old_es = self.entries@;
        let ghost addr_v = address@;
        let ghost data_v = data@;
        match self.index_of(&address) {
            Some(i) => {
                self.entries.remove(i);
                self.entries.insert(i, (address, data));
                proof {
                    let es = self.entries@;
                    let mid = old_es.remove(i as int);
                    old_es.remove_ensures(i as int);
                    assert forall|t: int|
                        0 <= t < es.len() && t != i implies es[t] == old_es[t] by {
                        if t < i {
                            assert(es[t] == mid[t]);
                        } else {
                            assert(es[t] == mid[t - 1]);
                            assert(mid[t - 1] == old_es[t]);
                        }
                    }
                    assert(es[i as int].0@ == addr_v && es[i as int].1@ == data_v);
                    assert(es.len() == old_es.len());
                    assert forall|x: int, y: int|
                        0 <= x < y < es.len() implies es[x].0@ != es[y].0@ by {
                        assert(es[x].0@ == old_es[x].0@ && es[y].0@ == old_es[y].0@);
                    }
                    lemma_ledger_map_props(old_es);
                    lemma_ledger_map_props(es);
                    assert_maps_equal!(spec_ledger_map(es), spec_ledger_map(old_es).insert(addr_v, data_v), x => {
                        if x == addr_v {
                            assert(es[i as int].0@ == x);
                            assert(spec_ledger_map(es)[es[i as int].0@] == es[i as int].1@);
                        } else {
                            if spec_ledger_map(es).contains_key(x) {
                                let t0 = choose|t: int| 0 <= t < es.len() && es[t].0@ == x;
                                assert(t0 != i);
                                assert(old_es[t0].0@ == x);
                                assert(spec_ledger_map(old_es)[old_es[t0].0@] == old_es[t0].1@);
                                assert(spec_ledger_map(es)[es[t0].0@] == es[t0].1@);
                            }
                            if spec_ledger_map(old_es).contains_key(x) {
                                let t0 = choose|t: int| 0 <= t < old_es.len() && old_es[t].0@ == x;
                                assert(t0 != i);
                                assert(es[t0].0@ == x);
                            }
                        }
                    });
                }
            },
            None => {
                self.entries.push((address, data));
                proof {
                    let es = self.entries@;
                    assert(forall|t: int|
                        0 <= t < old_es.len() ==> #[trigger] es[t] == old_es[t]);
                    assert(es[es.len() - 1].0@ == addr_v && es[es.len() - 1].1@ == data_v);
                    assert forall|x: int, y: int|
                        0 <= x < y < es.len() implies es[x].0@ != es[y].0@ by {
                        if y < es.len() - 1 {
                            assert(es[x].0@ == old_es[x].0@ && es[y].0@ == old_es[y].0@);
                        } else {
                            assert(es[x].0@ == old_es[x].0@);
                            assert(old_es[x].0@ != addr_v);
                        }
                    }
                    lemma_ledger_map_props(old_es);
                    lemma_ledger_map_props(es);
                    assert_maps_equal!(spec_ledger_map(es), spec_ledger_map(old_es).insert(addr_v, data_v), x => {
                        if x == addr_v {
                            assert(es[es.len() - 1].0@ == x);
                            assert(spec_ledger_map(es)[es[es.len() - 1].0@] == es[es.len() - 1].1@);
                        } else {
                            if spec_ledger_map(es).contains_key(x) {
                                let t0 = choose|t: int| 0 <= t < es.len() && es[t].0@ == x;
                                assert(t0 != es.len() - 1);
                                assert(old_es[t0].0@ == x);
                                assert(spec_ledger_map(old_es)[old_es[t0].0@] == old_es[t0].1@);
                                assert(spec_ledger_map(es)[es[t0].0@] == es[t0].1@);
                            }
                            if spec_ledger_map(old_es).contains_key(x) {
                                let t0 = choose|t: int| 0 <= t < old_es.len() && old_es[t].0@ == x;
                                assert(es[t0].0@ == x);
                            }
                        }
                    });
                }
            },
        }
    }

    /// Removes the entry at `address`, if any.
    pub fn delete_state_entry(&mut self, address: &str)
        requires
            old(self).wf(),
        ensures
            final(self).wf(),
            final(self)@ == old(self)@.remove(address@),
    {
        let ghost old_es = self.entries@;
        let ghost addr_v = address@;
        let owned = address.to_owned();
        match self.index_of(&owned) {
            Some(i) => {
                self.entries.remove(i);
                proof {
                    let es = self.entries@;
                    old_es.remove_ensures(i as int);
                    assert(es.len() == old_es.len() - 1);
                    assert(forall|t: int| 0 <= t < i ==> #[trigger] es[t] == old_es[t]);
                    assert(forall|t: int|
                        i <= t < es.len() ==> #[trigger] es[t] == old_es[t + 1]);
                    assert forall|x: int, y: int|
                        0 <= x < y < es.len() implies es[x].0@ != es[y].0@ by {
                        if x < i && y < i {
                        } else if x < i {
                            assert(es[y] == old_es[y + 1]);
                        } else {
                            assert(es[x] == old_es[x + 1] && es[y] == old_es[y + 1]);
                        }
                    }
                    lemma_ledger_map_props(old_es);
                    lemma_ledger_map_props(es);
                    assert_maps_equal!(spec_ledger_map(es), spec_ledger_map(old_es).remove(addr_v), x => {
                        if spec_ledger_map(es).contains_key(x) {
                            let t0 = choose|t: int| 0 <= t < es.len() && es[t].0@ == x;
                            let s0: int = if t0 < i { t0 } else { t0 + 1 };
                            assert(old_es[s0].0@ == x);
                            assert(s0 != i);
                            assert(x != addr_v);
                            assert(spec_ledger_map(old_es)[old_es[s0].0@] == old_es[s0].1@);
                            assert(spec_ledger_map(es)[es[t0].0@] == es[t0].1@);
                        }
                        if spec_ledger_map(old_es).contains_key(x) && x != addr_v {
                            let s0 = choose|t: int| 0 <= t < old_es.len() && old_es[t].0@ == x;
                            assert(s0 != i);
                            if s0 < i {
                                assert(es[s0].0@ == x);
                            } else {
                                assert(es[s0 - 1] == old_es[s0]);
                            }
                        }
                    });
                }
            },
            None => {
                proof {
                    lemma_ledger_map_props(old_es);
                    if old(self)@.contains_key(addr_v) {
                        let t0 = choose|t: int| 0 <= t < old_es.len() && old_es[t].0@ == addr_v;
                        assert(false);
                    }
                    assert(final(self)@ =~= old(self)@.remove(addr_v));
                }
            },
        }
    }
}

/// The four stored field values for the given payload texts, as the byte
/// strings of their UTF-8 forms.
pub open spec fn spec_fields(
    tweet_id: Seq<char>,
    author_id: Seq<char>,
    author_name: Seq<char>,
    tweet_text: Seq<char>,
) -> FieldSetView {
    FieldSetView {
        tweet_id: vstd::utf8::encode_utf8(tweet_id),
        author_id: vstd::utf8::encode_utf8(author_id),
        author_name: vstd::utf8::encode_utf8(author_name),
        tweet_text: vstd::utf8::encode_utf8(tweet_text),
    }
}

/// What the ledger holds at a record name's address.
pub enum StoredView {
    /// No bytes are stored at the address.
    Missing,
    /// Bytes are stored but do not decode as a container.
    Corrupt,
    /// The decoded container.
    Stored(ContainerView),
}

/// What is stored at `name`'s address, decoded.
pub open spec fn spec_stored_at(l: Map<Seq<char>, Seq<u8>>, name: Seq<char>) -> StoredView {
    if !l.contains_key(spec_address_of(name)) {
        StoredView::Missing
    } else {
        match spec_dec_container(l[spec_address_of(name)]) {
            Some(c) => StoredView::Stored(c),
            None => StoredView::Corrupt,
        }
    }
}

/// The record stored under `name`, when its container decodes cleanly.
pub open spec fn spec_record_at(l: Map<Seq<char>, Seq<u8>>, name: Seq<char>) -> Option<
    FieldSetView,
> {
    match spec_stored_at(l, name) {
        StoredView::Stored(c) => spec_find(c, vstd::utf8::encode_utf8(name)),
        _ => None,
    }
}

/// The request-scoped accessor: the ledger context, and a cache holding the
/// container decoded during this apply invocation. Each apply invocation
/// touches exactly one record name — one address — so the cache holds at
/// most one container.
pub struct TwitState {
    pub context: Ledger,
    pub get_cache: Option<(String, Container)>,
}

impl TwitState {
    /// The cached container, when present, is exactly what its address
    /// stores now.
    pub open spec fn wf(&self) -> bool {
        &&& self.context.wf()
        &&& match self.get_cache {
            Some((a, c)) => self.context@.contains_key(a@) && spec_dec_container(
                self.context@[a@],
            ) == Some(c@) && spec_wf_container(c@),
            None => true,
        }
    }

    /// A fresh accessor over the given context, with an empty cache.
    pub fn new(context: Ledger) -> (r: TwitState)
        requires
            context.wf(),
        ensures
            r.context@ == context@,
            r.get_cache is None,
            r.wf(),
    {
        TwitState { context, get_cache: None }
    }

    /// Discards anything cached. Called at the start of each apply
    /// invocation: the cache is request-scoped and never outlives one apply.
    pub fn clear_cache(&mut self)
        requires
            old(self).wf(),
        ensures
            final(self).wf(),
            final(self).context@ == old(self).context@,
            final(self).get_cache is None,
    {
        self.get_cache = None;
    }

    /// The current container stored at `address`: from the cache when the
    /// address matches, else fetched from the context, decoded, and cached.
    fn load(&mut self, address: String) -> (r: Result<Option<Container>, TwitError>)
        requires
            old(self).wf(),
        ensures
            final(self).wf(),
            final(self).context@ == old(self).context@,
            match r {
                Ok(Some(c)) => old(self).context@.contains_key(address@) && spec_dec_container(
                    old(self).context@[address@],
                ) == Some(c@) && spec_wf_container(c@),
                Ok(None) => !old(self).context@.contains_key(address@),
                Err(e) => old(self).context@.contains_key(address@) && spec_dec_container(
                    old(self).context@[address@],
                ) is None && e is StorageError,
            },
    {
        let cached: Option<Container> = match &self.get_cache {
            Some((a, c)) => {
                if a.eq(&address) {
                    Some(c.duplicate())
                } else {
                    None
                }
            },
            None => None,
        };
        if let Some(c) = cached {
            return Ok(Some(c));
        }
        match self.context.get_state_entry(address.as_str()) {
            Some(bytes) => match decode(bytes.as_slice()) {
                Ok(c) => {
                    let dup = c.duplicate();
                    self.get_cache = Some((address, c));
                    Ok(Some(dup))
                },
                Err(_) => Err(
                    TwitError::StorageError(
                        String::from_str("stored bytes do not decode as a container"),
                    ),
                ),
            },
            None => Ok(None),
        }
    }

    /// The record's field set under `name`, if present. Never writes the
    /// context; fails with `StorageError` exactly when the stored bytes at
    /// the name's address do not decode.
    pub fn get(&mut self, name: &str) -> (r: Result<Option<FieldSet>, TwitError>)
        requires
            old(self).wf(),
        ensures
            final(self).wf(),
            final(self).context@ == old(self).context@,
            match spec_stored_at(old(self).context@, name@) {
                StoredView::Missing => r matches Ok(o) && o is None,
                StoredView::Corrupt => r matches Err(e) && e is StorageError,
                StoredView::Stored(c) => r matches Ok(o) && (match spec_find(
                    c,
                    vstd::utf8::encode_utf8(name@),
                ) {
                    Some(f) => o matches Some(fs) && fs@ == f,
                    None => o is None,
                }),
            },
    {
        let address = calculate_address(name);
        match self.load(address) {
            Ok(Some(c)) => {
                let key = name.as_bytes_vec();
                match c.find(&key) {
                    Some(f) => Ok(Some(f.duplicate())),
                    None => Ok(None),
                }
            },
            Ok(None) => Ok(None),
            Err(e) => Err(e),
        }
    }

    /// Stores the four fields under `name`: the whole container at the
    /// name's address is re-encoded and written back, with this record
    /// inserted or replaced. Fails with `StorageError` exactly when the
    /// currently stored bytes do not decode; the context is then unchanged.
    pub fn set(
        &mut self,
        name: &str,
        tweet_id: String,
        author_id: String,
        author_name: String,
        tweet_text: String,
    ) -> (r: Result<(), TwitError>)
        requires
            old(self).wf(),
        ensures
            final(self).wf(),
            match spec_stored_at(old(self).context@, name@) {
                StoredView::Corrupt => r matches Err(e) && e is StorageError && final(self).context@ == old(self).context@,
                StoredView::Missing => r is Ok && final(self).context@ == old(self).context@.insert(
                    spec_address_of(name@),
                    spec_enc_container(
                        spec_upsert(
                            Seq::empty(),
                            vstd::utf8::encode_utf8(name@),
                            spec_fields(tweet_id@, author_id@, author_name@, tweet_text@),
                        ),
                    ),
                ),
                StoredView::Stored(c) => r is Ok && final(self).context@ == old(self).context@.insert(
                    spec_address_of(name@),
                    spec_enc_container(
                        spec_upsert(
                            c,
                            vstd::utf8::encode_utf8(name@),
                            spec_fields(tweet_id@, author_id@, author_name@, tweet_text@),
                        ),
                    ),
                ),
            },
    {
        let address = calculate_address(name);
        let mut container = match self.load(address.clone()) {
            Ok(Some(c)) => c,
            Ok(None) => Container::new(),
            Err(e) => {
                return Err(e);
            },
        };
        let ghost pre = container@;
        let fields = FieldSet {
            tweet_id: tweet_id.as_str().as_bytes_vec(),
            author_id: author_id.as_str().as_bytes_vec(),
            author_name: author_name.as_str().as_bytes_vec(),
            tweet_text: tweet_text.as_str().as_bytes_vec(),
        };
        let ghost fields_v = fields@;
        let key = name.as_bytes_vec();
        proof {
            assert(key.len() == key@.len());
            assert(fields.tweet_id.len() == fields@.tweet_id.len());
            assert(fields.author_id.len() == fields@.author_id.len());
            assert(fields.author_name.len() == fields@.author_name.len());
            assert(fields.tweet_text.len() == fields@.tweet_text.len());
            assert(spec_wf_container(pre));
            lemma_upsert_wf(pre, key@, fields_v);
        }
        container.upsert(key, fields);
        proof {
            assert(container.entries.len() == container@.len());
            assert(spec_wf_container(container@));
            lemma_decode_encode(container@);
        }
        let packed = encode(&container);
        self.context.set_state_entry(address.clone(), packed);
        self.get_cache = Some((address, container));
        Ok(())
    }

    /// Removes the record under `name`: the container at the name's address
    /// is read, the entry removed if present, and the whole container
    /// re-encoded and written back. Removing an absent record succeeds and
    /// leaves the context untouched — the canonical encoding makes the
    /// write-back byte-identical, and no entry appears at a missing
    /// address. Fails with `StorageError` exactly when the currently stored
    /// bytes do not decode.
    pub fn del(&mut self, name: &str) -> (r: Result<(), TwitError>)
        requires
            old(self).wf(),
        ensures
            final(self).wf(),
            match spec_stored_at(old(self).context@, name@) {
                StoredView::Corrupt => r matches Err(e) && e is StorageError && final(self).context@ == old(self).context@,
                StoredView::Missing => r is Ok && final(self).context@ == old(self).context@,
                StoredView::Stored(c) => r is Ok && (if spec_find(
                    c,
                    vstd::utf8::encode_utf8(name@),
                ) is None {
                    final(self).context@ == old(self).context@
                } else {
                    final(self).context@ == old(self).context@.insert(
                        spec_address_of(name@),
                        spec_enc_container(
                            spec_remove_entry(c, vstd::utf8::encode_utf8(name@)),
                        ),
                    )
                }),
            },
    {
        let address = calculate_address(name);
        let mut container = match self.load(address.clone()) {
            Ok(Some(c)) => c,
            Ok(None) => {
                return Ok(());
            },
            Err(e) => {
                return Err(e);
            },
        };
        let ghost pre = container@;
        let key = name.as_bytes_vec();
        proof {
            lemma_remove_wf(pre, key@);
        }
        container.remove(&key);
        proof {
            assert(spec_wf_container(container@));
            lemma_decode_encode(container@);
            if spec_find(pre, vstd::utf8::encode_utf8(name@)) is None {
                crate::codec::lemma_remove_absent(pre, vstd::utf8::encode_utf8(name@));
                crate::codec::lemma_dec_canonical(
                    old(self).context@[spec_address_of(name@)],
                );
                assert(spec_enc_container(container@) == old(self).context@[spec_address_of(
                    name@,
                )]);
                assert(old(self).context@.insert(
                    spec_address_of(name@),
                    spec_enc_container(container@),
                ) =~= old(self).context@);
            }
        }
        let packed = encode(&container);
        self.context.set_state_entry(address.clone(), packed);
        self.get_cache = Some((address, container));
        Ok(())
    }
}

} // verus!
