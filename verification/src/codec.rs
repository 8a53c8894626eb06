//! The state value codec: a record's field set, and the container of named
//! records stored at one ledger address, are carried in a self-describing
//! binary form — a map of text keys to text values or nested maps, with
//! canonical minimal-length headers. `encode` and `decode` are exact
//! inverses on well-formed containers.

use vstd::prelude::*;

use crate::errors::TwitError;

verus! {

/// One record's field set, as stored inside a container. Field values are
/// byte strings holding the UTF-8 text of the corresponding payload fields.
pub struct FieldSet {
    pub tweet_id: Vec<u8>,
    pub author_id: Vec<u8>,
    pub author_name: Vec<u8>,
    pub tweet_text: Vec<u8>,
}

/// The mathematical value of a `FieldSet`.
pub struct FieldSetView {
    pub tweet_id: Seq<u8>,
    pub author_id: Seq<u8>,
    pub author_name: Seq<u8>,
    pub tweet_text: Seq<u8>,
}

impl View for FieldSet {
    type V = FieldSetView;

    open spec fn view(&self) -> FieldSetView {
        FieldSetView {
            tweet_id: self.tweet_id@,
            author_id: self.author_id@,
            author_name: self.author_name@,
            tweet_text: self.tweet_text@,
        }
    }
}

impl FieldSet {
    /// An independent copy with the same mathematical value.
    pub fn duplicate(&self) -> (r: FieldSet)
        ensures
            r@ == self@,
    {
        let r = FieldSet {
            tweet_id: clone_bytes(&self.tweet_id),
            author_id: clone_bytes(&self.author_id),
            author_name: clone_bytes(&self.author_name),
            tweet_text: clone_bytes(&self.tweet_text),
        };
        assert(r@ == self@);
        r
    }
}

/// The mathematical value of a container: the stored records in order, each
/// a record name with its field set.
pub type ContainerView = Seq<(Seq<u8>, FieldSetView)>;

/// The decoded value stored at one ledger address: a mapping from record
/// name to that record's field set. Several records may share an address
/// (a hash bucket); names within one container are unique.
pub struct Container {
    pub entries: Vec<(Vec<u8>, FieldSet)>,
}

/// The mathematical value of a list of owned entries.
pub open spec fn spec_entries_view(es: Seq<(Vec<u8>, FieldSet)>) -> ContainerView {
    Seq::new(es.len(), |i: int| (es[i].0@, es[i].1@))
}

impl View for Container {
    type V = ContainerView;

    open spec fn view(&self) -> ContainerView {
        spec_entries_view(self.entries@)
    }
}

/// No two entries of the container share a name.
pub open spec fn spec_unique_keys(c: ContainerView) -> bool {
    forall|i: int, j: int| 0 <= i < j < c.len() ==> c[i].0 != c[j].0
}

/// The field set stored under `name`, if any.
pub open spec fn spec_find(c: ContainerView, name: Seq<u8>) -> Option<FieldSetView>
    decreases c.len(),
{
    if c.len() == 0 {
        None
    } else if c.first().0 == name {
        Some(c.first().1)
    } else {
        spec_find(c.drop_first(), name)
    }
}

/// The container after storing `fields` under `name`: an existing entry is
/// replaced in place, a new name is appended at the end.
pub open spec fn spec_upsert(c: ContainerView, name: Seq<u8>, fields: FieldSetView) -> ContainerView
    decreases c.len(),
{
    if c.len() == 0 {
        seq![(name, fields)]
    } else if c.first().0 == name {
        seq![(name, fields)] + c.drop_first()
    } else {
        seq![c.first()] + spec_upsert(c.drop_first(), name, fields)
    }
}

/// The container after removing every entry stored under `name`.
pub open spec fn spec_remove_entry(c: ContainerView, name: Seq<u8>) -> ContainerView
    decreases c.len(),
{
    if c.len() == 0 {
        c
    } else if c.first().0 == name {
        spec_remove_entry(c.drop_first(), name)
    } else {
        seq![c.first()] + spec_remove_entry(c.drop_first(), name)
    }
}

impl Container {
    /// The empty container.
    pub fn new() -> (r: Container)
        ensures
            r@ == Seq::<(Seq<u8>, FieldSetView)>::empty(),
    {
        let r = Container { entries: Vec::new() };
        proof {
            assert(r@ =~= Seq::<(Seq<u8>, FieldSetView)>::empty());
        }
        r
    }

    /// The index of the entry holding `name`, scanning from the front.
    fn index_of(&self, name: &Vec<u8>) -> (r: Option<usize>)
        ensures
            match r {
                Some(i) => i < self@.len() && self@[i as int].0 == name@ && (forall|j: int|
                    0 <= j < i ==> self@[j].0 != name@),
                None => forall|j: int| 0 <= j < self@.len() ==> self@[j].0 != name@,
            },
    {
        let n = self.entries.len();
        let mut i: usize = 0;
        while i < n
            invariant
                n == self.entries@.len(),
                i <= n,
                forall|j: int| 0 <= j < i ==> self@[j].0 != name@,
            decreases n - i,
        {
            if bytes_eq(&self.entries[i].0, name) {
                proof {
                    assert(self@[i as int].0 == name@);
                }
                return Some(i);
            }
            proof {
                assert(self@[i as int].0 == self.entries@[i as int].0@);
            }
            i = i + 1;
        }
        None
    }

    /// An independent copy with the same mathematical value.
    pub fn duplicate(&self) -> (r: Container)
        ensures
            r@ == self@,
    {
        let n = self.entries.len();
        let mut entries: Vec<(Vec<u8>, FieldSet)> = Vec::new();
        let mut i: usize = 0;
        proof {
            assert(spec_entries_view(entries@) =~= self@.take(0));
        }
        while i < n
            invariant
                n == self.entries@.len(),
                i <= n,
                spec_entries_view(entries@) =~= self@.take(i as int),
            decreases n - i,
        {
            let e = &self.entries[i];
            entries.push((clone_bytes(&e.0), e.1.duplicate()));
            proof {
                assert(spec_entries_view(entries@) =~= self@.take(i as int).push(
                    self@[i as int],
                ));
                assert(self@.take(i as int).push(self@[i as int]) =~= self@.take(i + 1));
            }
            i = i + 1;
        }
        proof {
            assert(self@.take(n as int) =~= self@);
        }
        let r = Container { entries };
        proof {
            assert(r@ =~= self@);
        }
        r
    }

    /// The field set stored under `name`, if any.
    pub fn find(&self, name: &Vec<u8>) -> (r: Option<&FieldSet>)
        ensures
            match r {
                Some(f) => spec_find(self@, name@) == Some(f@),
                None => spec_find(self@, name@) is None,
            },
    {
        match self.index_of(name) {
            Some(i) => {
                proof {
                    lemma_find_at(self@, name@, i as int);
                }
                Some(&self.entries[i].1)
            },
            None => {
                proof {
                    lemma_find_absent(self@, name@);
                }
                None
            },
        }
    }

    /// Stores `fields` under `name`: replaces an existing entry in place, or
    /// appends a new one.
    pub fn upsert(&mut self, name: Vec<u8>, fields: FieldSet)
        ensures
            final(self)@ == spec_upsert(old(self)@, name@, fields@),
    {
        let ghost name_v = name@;
        let ghost fields_v = fields@;
        match self.index_of(&name) {
            Some(i) => {
                self.entries.remove(i);
                self.entries.insert(i, (name, fields));
                proof {
                    lemma_upsert_at(old(self)@, name_v, fields_v, i as int);
                    assert(self@ =~= old(self)@.update(i as int, (name_v, fields_v)));
                }
            },
            None => {
                self.entries.push((name, fields));
                proof {
                    lemma_upsert_absent(old(self)@, name_v, fields_v);
                    assert(self@ =~= old(self)@.push((name_v, fields_v)));
                }
            },
        }
    }

    /// Removes the entry stored under `name`; absent names are left alone.
    pub fn remove(&mut self, name: &Vec<u8>)
        ensures
            final(self)@ == spec_remove_entry(old(self)@, name@),
    {
        let k = self.entries.len();
        let mut out: Vec<(Vec<u8>, FieldSet)> = Vec::new();
        let mut i: usize = 0;
        proof {
            assert(old(self)@.take(0) =~= Seq::<(Seq<u8>, FieldSetView)>::empty());
            assert(spec_remove_entry(old(self)@.take(0), name@) =~= Seq::<(
                Seq<u8>,
                FieldSetView,
            )>::empty());
            assert(spec_entries_view(out@) =~= Seq::<(Seq<u8>, FieldSetView)>::empty());
        }
        while i < k
            invariant
                k == self.entries@.len(),
                i <= k,
                self@ == old(self)@,
                spec_entries_view(out@) =~= spec_remove_entry(self@.take(i as int), name@),
            decreases k - i,
        {
            proof {
                lemma_remove_take_step(self@, name@, i as int);
            }
            if !bytes_eq(&self.entries[i].0, name) {
                let e = &self.entries[i];
                let copy = (clone_bytes(&e.0), e.1.duplicate());
                let ghost out_old = out@;
                out.push(copy);
                proof {
                    assert(spec_entries_view(out@) =~= spec_entries_view(out_old).push(
                        (self@[i as int].0, self@[i as int].1),
                    ));
                }
            }
            i = i + 1;
        }
        proof {
            assert(self@.take(k as int) =~= self@);
        }
        self.entries = out;
    }
}

/// Removing from one more element appends that element's fate at the end.
proof fn lemma_remove_take_step(c: ContainerView, name: Seq<u8>, i: int)
    requires
        0 <= i < c.len(),
    ensures
        spec_remove_entry(c.take(i + 1), name) == if c[i].0 == name {
            spec_remove_entry(c.take(i), name)
        } else {
            spec_remove_entry(c.take(i), name).push(c[i])
        },
    decreases i,
{
    if i == 0 {
        assert(c.take(1).first() == c[0]);
        assert(c.take(1).drop_first() =~= Seq::<(Seq<u8>, FieldSetView)>::empty());
        assert(c.take(0) =~= Seq::<(Seq<u8>, FieldSetView)>::empty());
        assert(spec_remove_entry(Seq::<(Seq<u8>, FieldSetView)>::empty(), name)
            =~= Seq::<(Seq<u8>, FieldSetView)>::empty());
        if c[0].0 != name {
            assert(seq![c[0]] + Seq::<(Seq<u8>, FieldSetView)>::empty() =~= Seq::<(
                Seq<u8>,
                FieldSetView,
            )>::empty().push(c[0]));
        }
    } else {
        assert(c.take(i + 1).first() == c[0]);
        assert(c.take(i).first() == c[0]);
        assert(c.take(i + 1).drop_first() =~= c.drop_first().take(i));
        assert(c.take(i).drop_first() =~= c.drop_first().take(i - 1));
        assert(c.drop_first()[i - 1] == c[i]);
        lemma_remove_take_step(c.drop_first(), name, i - 1);
        if c[0].0 == name {
        } else {
            if c[i].0 == name {
                assert(seq![c[0]] + spec_remove_entry(c.drop_first().take(i), name) =~= seq![c[0]]
                    + spec_remove_entry(c.drop_first().take(i - 1), name));
            } else {
                assert(seq![c[0]] + spec_remove_entry(c.drop_first().take(i - 1), name).push(c[i])
                    =~= (seq![c[0]] + spec_remove_entry(c.drop_first().take(i - 1), name)).push(
                    c[i],
                ));
            }
        }
    }
}

/// An upsert that hits an existing entry updates it in place.
proof fn lemma_upsert_at(c: ContainerView, name: Seq<u8>, f: FieldSetView, i: int)
    requires
        0 <= i < c.len(),
        c[i].0 == name,
        forall|j: int| 0 <= j < i ==> c[j].0 != name,
    ensures
        spec_upsert(c, name, f) == c.update(i, (name, f)),
    decreases i,
{
    if i == 0 {
        assert(c.first() == c[0]);
        assert(seq![(name, f)] + c.drop_first() =~= c.update(0, (name, f)));
    } else {
        assert(c.first() == c[0]);
        assert(c.drop_first()[i - 1] == c[i]);
        assert(forall|j: int| 0 <= j < i - 1 ==> #[trigger] c.drop_first()[j] == c[j + 1]);
        lemma_upsert_at(c.drop_first(), name, f, i - 1);
        assert(seq![c.first()] + c.drop_first().update(i - 1, (name, f)) =~= c.update(
            i,
            (name, f),
        ));
    }
}

/// An upsert of an absent name appends at the end.
proof fn lemma_upsert_absent(c: ContainerView, name: Seq<u8>, f: FieldSetView)
    requires
        forall|j: int| 0 <= j < c.len() ==> c[j].0 != name,
    ensures
        spec_upsert(c, name, f) == c.push((name, f)),
    decreases c.len(),
{
    if c.len() == 0 {
        assert(seq![(name, f)] =~= c.push((name, f)));
    } else {
        assert(c.first() == c[0]);
        assert(forall|j: int| 0 <= j < c.drop_first().len() ==> #[trigger] c.drop_first()[j] == c[
            j + 1
        ]);
        lemma_upsert_absent(c.drop_first(), name, f);
        assert(seq![c.first()] + c.drop_first().push((name, f)) =~= c.push((name, f)));
    }
}

// ---------------------------------------------------------------------------
// How find, upsert and remove relate: the laws of the container model.
// ---------------------------------------------------------------------------

/// `spec_find` returns the entry at the first index holding the name.
pub proof fn lemma_find_at(c: ContainerView, name: Seq<u8>, i: int)
    requires
        0 <= i < c.len(),
        c[i].0 == name,
        forall|j: int| 0 <= j < i ==> c[j].0 != name,
    ensures
        spec_find(c, name) == Some(c[i].1),
    decreases i,
{
    if i == 0 {
        assert(c.first() == c[0]);
    } else {
        assert(c.first() == c[0]);
        assert(c.drop_first()[i - 1] == c[i]);
        assert(forall|j: int| 0 <= j < i - 1 ==> #[trigger] c.drop_first()[j] == c[j + 1]);
        lemma_find_at(c.drop_first(), name, i - 1);
    }
}

/// A name held by no entry is not found.
pub proof fn lemma_find_absent(c: ContainerView, name: Seq<u8>)
    requires
        forall|j: int| 0 <= j < c.len() ==> c[j].0 != name,
    ensures
        spec_find(c, name) is None,
    decreases c.len(),
{
    if c.len() > 0 {
        assert(c.first() == c[0]);
        assert(forall|j: int| 0 <= j < c.drop_first().len() ==> #[trigger] c.drop_first()[j] == c[
            j + 1
        ]);
        lemma_find_absent(c.drop_first(), name);
    }
}

/// After an upsert, the name maps to the new field set.
pub proof fn lemma_find_upsert_same(c: ContainerView, name: Seq<u8>, f: FieldSetView)
    ensures
        spec_find(spec_upsert(c, name, f), name) == Some(f),
    decreases c.len(),
{
    let u = spec_upsert(c, name, f);
    if c.len() == 0 {
        assert(u.first() == (name, f));
    } else if c.first().0 == name {
        assert(u.first() == (name, f));
    } else {
        lemma_find_upsert_same(c.drop_first(), name, f);
        assert(u.first() == c.first());
        assert(u.drop_first() =~= spec_upsert(c.drop_first(), name, f));
    }
}

/// An upsert leaves every other name's entry unchanged.
pub proof fn lemma_find_upsert_other(c: ContainerView, name: Seq<u8>, f: FieldSetView, other: Seq<u8>)
    requires
        other != name,
    ensures
        spec_find(spec_upsert(c, name, f), other) == spec_find(c, other),
    decreases c.len(),
{
    let u = spec_upsert(c, name, f);
    if c.len() == 0 {
        assert(u.first() == (name, f));
        assert(u.drop_first() =~= Seq::<(Seq<u8>, FieldSetView)>::empty());
        assert(spec_find(Seq::<(Seq<u8>, FieldSetView)>::empty(), other) is None);
        assert(spec_find(c, other) is None);
    } else if c.first().0 == name {
        assert(u.first() == (name, f));
        assert(u.drop_first() =~= c.drop_first());
    } else {
        lemma_find_upsert_other(c.drop_first(), name, f, other);
        assert(u.first() == c.first());
        assert(u.drop_first() =~= spec_upsert(c.drop_first(), name, f));
    }
}

/// After removing a name, it is no longer found.
pub proof fn lemma_find_remove(c: ContainerView, name: Seq<u8>)
    ensures
        spec_find(spec_remove_entry(c, name), name) is None,
    decreases c.len(),
{
    if c.len() > 0 {
        lemma_find_remove(c.drop_first(), name);
        if c.first().0 != name {
            let r = spec_remove_entry(c, name);
            assert(r.first() == c.first());
            assert(r.drop_first() =~= spec_remove_entry(c.drop_first(), name));
        }
    }
}

/// Removing one name leaves every other name's entry unchanged.
pub proof fn lemma_find_remove_other(c: ContainerView, name: Seq<u8>, other: Seq<u8>)
    requires
        other != name,
    ensures
        spec_find(spec_remove_entry(c, name), other) == spec_find(c, other),
    decreases c.len(),
{
    if c.len() > 0 {
        lemma_find_remove_other(c.drop_first(), name, other);
        if c.first().0 != name {
            let r = spec_remove_entry(c, name);
            assert(r.first() == c.first());
            assert(r.drop_first() =~= spec_remove_entry(c.drop_first(), name));
        }
    }
}

/// Removing a name that is not stored is a no-op on the container.
pub proof fn lemma_remove_absent(c: ContainerView, name: Seq<u8>)
    requires
        spec_find(c, name) is None,
    ensures
        spec_remove_entry(c, name) == c,
    decreases c.len(),
{
    if c.len() > 0 {
        lemma_remove_absent(c.drop_first(), name);
        assert(seq![c.first()] + c.drop_first() =~= c);
    }
}

proof fn lemma_upsert_len(c: ContainerView, name: Seq<u8>, f: FieldSetView)
    ensures
        spec_upsert(c, name, f).len() <= c.len() + 1,
        forall|t: int|
            0 <= t < spec_upsert(c, name, f).len() ==> (#[trigger] spec_upsert(c, name, f)[t]
                == (name, f) || exists|s: int| 0 <= s < c.len() && spec_upsert(c, name, f)[t] == c[s]),
    decreases c.len(),
{
    let u = spec_upsert(c, name, f);
    if c.len() == 0 {
    } else if c.first().0 == name {
        assert(forall|t: int| 1 <= t < u.len() ==> u[t] == c.drop_first()[t - 1]);
        assert(forall|t: int| 0 <= t < c.drop_first().len() ==> #[trigger] c.drop_first()[t] == c[
            t + 1
        ]);
        assert forall|t: int| 0 <= t < u.len() implies (u[t] == (name, f) || exists|s: int|
            0 <= s < c.len() && u[t] == c[s]) by {
            if t >= 1 {
                assert(u[t] == c[t]);
            }
        }
    } else {
        lemma_upsert_len(c.drop_first(), name, f);
        let u2 = spec_upsert(c.drop_first(), name, f);
        assert(u =~= seq![c.first()] + u2);
        assert(forall|t: int| 0 <= t < c.drop_first().len() ==> #[trigger] c.drop_first()[t] == c[
            t + 1
        ]);
        assert forall|t: int| 0 <= t < u.len() implies (u[t] == (name, f) || exists|s: int|
            0 <= s < c.len() && u[t] == c[s]) by {
            if t == 0 {
                assert(u[t] == c[0]);
            } else {
                assert(u[t] == u2[t - 1]);
                if u2[t - 1] != (name, f) {
                    let s0 = choose|s: int|
                        0 <= s < c.drop_first().len() && u2[t - 1] == c.drop_first()[s];
                    assert(u[t] == c[s0 + 1]);
                }
            }
        }
    }
}

/// An upsert keeps names unique and keeps every entry well-formed, as long
/// as the new name and field set fit the wire form. The total length of the
/// result is bounded by the machine vector that holds it, at the call site.
pub proof fn lemma_upsert_wf(c: ContainerView, name: Seq<u8>, f: FieldSetView)
    requires
        spec_wf_container(c),
        name.len() < 0x1_0000_0000_0000_0000,
        spec_wf_fieldset(f),
    ensures
        spec_unique_keys(spec_upsert(c, name, f)),
        spec_upsert(c, name, f).len() <= c.len() + 1,
        forall|t: int|
            0 <= t < spec_upsert(c, name, f).len() ==> (#[trigger] spec_upsert(c, name, f)[t]).0.len()
                < 0x1_0000_0000_0000_0000 && spec_wf_fieldset(spec_upsert(c, name, f)[t].1),
    decreases c.len(),
{
    let u = spec_upsert(c, name, f);
    lemma_upsert_len(c, name, f);
    assert forall|t: int|
        0 <= t < u.len() implies (#[trigger] u[t]).0.len() < 0x1_0000_0000_0000_0000
        && spec_wf_fieldset(u[t].1) by {
        if u[t] != (name, f) {
            let s0 = choose|s: int| 0 <= s < c.len() && u[t] == c[s];
        }
    }
    lemma_upsert_unique(c, name, f);
}

pub proof fn lemma_upsert_unique(c: ContainerView, name: Seq<u8>, f: FieldSetView)
    requires
        spec_unique_keys(c),
    ensures
        spec_unique_keys(spec_upsert(c, name, f)),
    decreases c.len(),
{
    let u = spec_upsert(c, name, f);
    if c.len() == 0 {
    } else if c.first().0 == name {
        assert(forall|t: int| 1 <= t < u.len() ==> u[t] == c[t]);
        assert(u[0] == (name, f));
        assert(forall|t: int| 1 <= t < c.len() ==> c[0].0 != #[trigger] c[t].0);
        assert forall|x: int, y: int| 0 <= x < y < u.len() implies u[x].0 != u[y].0 by {
            if x == 0 {
                assert(u[y].0 == c[y].0 && c[0].0 == name);
            } else {
                assert(u[x].0 == c[x].0 && u[y].0 == c[y].0);
            }
        }
    } else {
        assert(forall|t: int| 0 <= t < c.drop_first().len() ==> #[trigger] c.drop_first()[t] == c[
            t + 1
        ]);
        lemma_upsert_unique(c.drop_first(), name, f);
        let u2 = spec_upsert(c.drop_first(), name, f);
        assert(u =~= seq![c.first()] + u2);
        lemma_upsert_len(c.drop_first(), name, f);
        assert forall|x: int, y: int| 0 <= x < y < u.len() implies u[x].0 != u[y].0 by {
            if x == 0 {
                assert(u[y] == u2[y - 1]);
                if u2[y - 1] == (name, f) {
                    assert(u[0].0 == c.first().0 && c.first().0 != name);
                } else {
                    let s0 = choose|s: int|
                        0 <= s < c.drop_first().len() && u2[y - 1] == c.drop_first()[s];
                    assert(u[y] == c[s0 + 1]);
                    assert(c[0].0 != c[s0 + 1].0);
                }
            } else {
                assert(u[x] == u2[x - 1] && u[y] == u2[y - 1]);
            }
        }
    }
}

proof fn lemma_remove_len(c: ContainerView, name: Seq<u8>)
    ensures
        spec_remove_entry(c, name).len() <= c.len(),
        forall|t: int|
            0 <= t < spec_remove_entry(c, name).len() ==> exists|s: int|
                0 <= s < c.len() && #[trigger] spec_remove_entry(c, name)[t] == c[s],
    decreases c.len(),
{
    if c.len() > 0 {
        lemma_remove_len(c.drop_first(), name);
        let r = spec_remove_entry(c, name);
        let r2 = spec_remove_entry(c.drop_first(), name);
        assert(forall|t: int| 0 <= t < c.drop_first().len() ==> #[trigger] c.drop_first()[t] == c[
            t + 1
        ]);
        if c.first().0 == name {
            assert forall|t: int| 0 <= t < r.len() implies exists|s: int|
                0 <= s < c.len() && #[trigger] r[t] == c[s] by {
                let s0 = choose|s: int| 0 <= s < c.drop_first().len() && r2[t] == c.drop_first()[s];
                assert(r[t] == c[s0 + 1]);
            }
        } else {
            assert(r =~= seq![c.first()] + r2);
            assert forall|t: int| 0 <= t < r.len() implies exists|s: int|
                0 <= s < c.len() && #[trigger] r[t] == c[s] by {
                if t == 0 {
                    assert(r[t] == c[0]);
                } else {
                    assert(r[t] == r2[t - 1]);
                    let s0 = choose|s: int|
                        0 <= s < c.drop_first().len() && r2[t - 1] == c.drop_first()[s];
                    assert(r[t] == c[s0 + 1]);
                }
            }
        }
    }
}

/// Removing a name keeps the container well-formed. Uniqueness is kept too;
/// the proof goes through `spec_find`, so it asks only that the source was
/// well-formed.
pub proof fn lemma_remove_wf(c: ContainerView, name: Seq<u8>)
    requires
        spec_wf_container(c),
    ensures
        spec_wf_container(spec_remove_entry(c, name)),
        spec_remove_entry(c, name).len() <= c.len(),
    decreases c.len(),
{
    lemma_remove_len(c, name);
    if c.len() > 0 {
        assert(forall|t: int| 0 <= t < c.drop_first().len() ==> #[trigger] c.drop_first()[t] == c[
            t + 1
        ]);
        assert(spec_wf_container(c.drop_first()));
        lemma_remove_wf(c.drop_first(), name);
        lemma_remove_len(c.drop_first(), name);
        let r = spec_remove_entry(c, name);
        let r2 = spec_remove_entry(c.drop_first(), name);
        if c.first().0 != name {
            assert(r =~= seq![c.first()] + r2);
            assert forall|x: int, y: int| 0 <= x < y < r.len() implies r[x].0 != r[y].0 by {
                if x == 0 {
                    assert(r[y] == r2[y - 1]);
                    let s0 = choose|s: int|
                        0 <= s < c.drop_first().len() && r2[y - 1] == c.drop_first()[s];
                    assert(r[y] == c[s0 + 1]);
                    assert(c[0].0 != c[s0 + 1].0);
                } else {
                    assert(r[x] == r2[x - 1] && r[y] == r2[y - 1]);
                }
            }
            assert forall|t: int|
                0 <= t < r.len() implies r[t].0.len() < 0x1_0000_0000_0000_0000
                && spec_wf_fieldset(r[t].1) by {
                if t == 0 {
                    assert(r[t] == c[0]);
                } else {
                    assert(r[t] == r2[t - 1]);
                }
            }
        }
    }
}

// ---------------------------------------------------------------------------
// The wire form.
// ---------------------------------------------------------------------------

/// `k` bytes of `n`, big-endian.
pub open spec fn spec_be_bytes(n: nat, k: nat) -> Seq<u8>
    decreases k,
{
    if k == 0 {
        Seq::empty()
    } else {
        spec_be_bytes(n / 256, (k - 1) as nat) + seq![(n % 256) as u8]
    }
}

/// The value read back from big-endian bytes.
pub open spec fn spec_be_val(b: Seq<u8>) -> nat
    decreases b.len(),
{
    if b.len() == 0 {
        0
    } else {
        spec_be_val(b.drop_last()) * 256 + b.last() as nat
    }
}

/// The canonical header of one item: three bits of major type, then the
/// shortest form of the count `n` (inline below 24, else 1, 2, 4 or 8
/// big-endian bytes).
pub open spec fn spec_head(major: u8, n: nat) -> Seq<u8> {
    if n < 24 {
        seq![(major * 32 + n) as u8]
    } else if n < 256 {
        seq![(major * 32 + 24) as u8] + spec_be_bytes(n, 1)
    } else if n < 65536 {
        seq![(major * 32 + 25) as u8] + spec_be_bytes(n, 2)
    } else if n < 0x1_0000_0000 {
        seq![(major * 32 + 26) as u8] + spec_be_bytes(n, 4)
    } else {
        seq![(major * 32 + 27) as u8] + spec_be_bytes(n, 8)
    }
}

/// A text item: header with major type 3, then the bytes themselves.
pub open spec fn spec_text(s: Seq<u8>) -> Seq<u8> {
    spec_head(3, s.len()) + s
}

/// The stored key "TweetID", in ASCII.
pub open spec fn spec_key_tweet_id() -> Seq<u8> {
    seq![84u8, 119, 101, 101, 116, 73, 68]
}

/// The stored key "AuthorID", in ASCII.
pub open spec fn spec_key_author_id() -> Seq<u8> {
    seq![65u8, 117, 116, 104, 111, 114, 73, 68]
}

/// The stored key "AuthorName", in ASCII.
pub open spec fn spec_key_author_name() -> Seq<u8> {
    seq![65u8, 117, 116, 104, 111, 114, 78, 97, 109, 101]
}

/// The stored key "TweetText", in ASCII.
pub open spec fn spec_key_tweet_text() -> Seq<u8> {
    seq![84u8, 119, 101, 101, 116, 84, 101, 120, 116]
}

/// The wire form of one field set: a four-entry map of text keys to text
/// values, keys in their fixed sorted order.
pub open spec fn spec_enc_fieldset(f: FieldSetView) -> Seq<u8> {
    spec_head(5, 4) + spec_text(spec_key_author_id()) + spec_text(f.author_id) + spec_text(
        spec_key_author_name(),
    ) + spec_text(f.author_name) + spec_text(spec_key_tweet_id()) + spec_text(f.tweet_id)
        + spec_text(spec_key_tweet_text()) + spec_text(f.tweet_text)
}

/// The wire form of the container's entries, in order.
pub open spec fn spec_enc_entries(c: ContainerView) -> Seq<u8>
    decreases c.len(),
{
    if c.len() == 0 {
        Seq::empty()
    } else {
        spec_text(c.first().0) + spec_enc_fieldset(c.first().1) + spec_enc_entries(c.drop_first())
    }
}

/// The wire form of a whole container: a map header, then the entries.
pub open spec fn spec_enc_container(c: ContainerView) -> Seq<u8> {
    spec_head(5, c.len()) + spec_enc_entries(c)
}

// ---------------------------------------------------------------------------
// The wire form, read back: a strict parser accepting canonical headers only.
// ---------------------------------------------------------------------------

/// Reads one item header at offset `i`: the major type, the count, and the
/// offset after the header. Only the canonical minimal-length form of the
/// count is accepted.
pub open spec fn spec_parse_head(b: Seq<u8>, i: int) -> Option<(u8, nat, int)> {
    if 0 <= i < b.len() {
        let major = b[i] / 32;
        let info = b[i] % 32;
        if info < 24 {
            Some((major, info as nat, i + 1))
        } else if info == 24 {
            if i + 2 <= b.len() && b[i + 1] >= 24 {
                Some((major, b[i + 1] as nat, i + 2))
            } else {
                None
            }
        } else if info == 25 {
            if i + 3 <= b.len() && spec_be_val(b.subrange(i + 1, i + 3)) >= 256 {
                Some((major, spec_be_val(b.subrange(i + 1, i + 3)), i + 3))
            } else {
                None
            }
        } else if info == 26 {
            if i + 5 <= b.len() && spec_be_val(b.subrange(i + 1, i + 5)) >= 65536 {
                Some((major, spec_be_val(b.subrange(i + 1, i + 5)), i + 5))
            } else {
                None
            }
        } else if info == 27 {
            if i + 9 <= b.len() && spec_be_val(b.subrange(i + 1, i + 9)) >= 0x1_0000_0000 {
                Some((major, spec_be_val(b.subrange(i + 1, i + 9)), i + 9))
            } else {
                None
            }
        } else {
            None
        }
    } else {
        None
    }
}

/// Reads one text item at offset `i`: its bytes and the offset after them.
pub open spec fn spec_parse_text(b: Seq<u8>, i: int) -> Option<(Seq<u8>, int)> {
    match spec_parse_head(b, i) {
        Some((major, n, j)) => if major == 3 && j + n <= b.len() {
            Some((b.subrange(j, j + n), j + n))
        } else {
            None
        },
        None => None,
    }
}

/// Reads one text item that must equal the expected key; yields the offset
/// after it.
pub open spec fn spec_parse_key(b: Seq<u8>, i: int, key: Seq<u8>) -> Option<int> {
    match spec_parse_text(b, i) {
        Some((k, j)) => if k == key {
            Some(j)
        } else {
            None
        },
        None => None,
    }
}

/// Reads one key and its text value.
pub open spec fn spec_parse_field(b: Seq<u8>, i: int, key: Seq<u8>) -> Option<(Seq<u8>, int)> {
    match spec_parse_key(b, i, key) {
        Some(j) => spec_parse_text(b, j),
        None => None,
    }
}

/// Reads one field set: a four-entry map of the fixed keys, in order.
pub open spec fn spec_parse_fieldset(b: Seq<u8>, i: int) -> Option<(FieldSetView, int)> {
    match spec_parse_head(b, i) {
        Some((m, n, j0)) => if m == 5 && n == 4 {
            match spec_parse_field(b, j0, spec_key_author_id()) {
                Some((author_id, j1)) => match spec_parse_field(b, j1, spec_key_author_name()) {
                    Some((author_name, j2)) => match spec_parse_field(b, j2, spec_key_tweet_id()) {
                        Some((tweet_id, j3)) => match spec_parse_field(
                            b,
                            j3,
                            spec_key_tweet_text(),
                        ) {
                            Some((tweet_text, j4)) => Some(
                                (
                                    FieldSetView { tweet_id, author_id, author_name, tweet_text },
                                    j4,
                                ),
                            ),
                            None => None,
                        },
                        None => None,
                    },
                    None => None,
                },
                None => None,
            }
        } else {
            None
        },
        None => None,
    }
}

/// Reads `n` container entries starting at offset `i`.
pub open spec fn spec_parse_entries(b: Seq<u8>, i: int, n: nat) -> Option<(ContainerView, int)>
    decreases n,
{
    if n == 0 {
        Some((Seq::empty(), i))
    } else {
        match spec_parse_text(b, i) {
            Some((name, j)) => match spec_parse_fieldset(b, j) {
                Some((f, j2)) => match spec_parse_entries(b, j2, (n - 1) as nat) {
                    Some((rest, j3)) => Some((seq![(name, f)] + rest, j3)),
                    None => None,
                },
                None => None,
            },
            None => None,
        }
    }
}

/// The container read back from a complete byte string, or `None` when the
/// bytes are not the canonical wire form of a container with unique names.
pub open spec fn spec_dec_container(b: Seq<u8>) -> Option<ContainerView> {
    match spec_parse_head(b, 0) {
        Some((m, n, j)) => if m == 5 {
            match spec_parse_entries(b, j, n) {
                Some((c, end)) => if end == b.len() && spec_unique_keys(c) {
                    Some(c)
                } else {
                    None
                },
                None => None,
            }
        } else {
            None
        },
        None => None,
    }
}

/// Reads `n` text-to-text pairs starting at offset `i` (the payload form).
pub open spec fn spec_parse_pairs(b: Seq<u8>, i: int, n: nat) -> Option<
    (Seq<(Seq<u8>, Seq<u8>)>, int),
>
    decreases n,
{
    if n == 0 {
        Some((Seq::empty(), i))
    } else {
        match spec_parse_text(b, i) {
            Some((k, j)) => match spec_parse_text(b, j) {
                Some((v, j2)) => match spec_parse_pairs(b, j2, (n - 1) as nat) {
                    Some((rest, j3)) => Some((seq![(k, v)] + rest, j3)),
                    None => None,
                },
                None => None,
            },
            None => None,
        }
    }
}

/// The key-value pairs read back from a complete byte string holding a map
/// of text keys to text values, in wire order.
pub open spec fn spec_dec_pairs(b: Seq<u8>) -> Option<Seq<(Seq<u8>, Seq<u8>)>> {
    match spec_parse_head(b, 0) {
        Some((m, n, j)) => if m == 5 {
            match spec_parse_pairs(b, j, n) {
                Some((ps, end)) => if end == b.len() {
                    Some(ps)
                } else {
                    None
                },
                None => None,
            }
        } else {
            None
        },
        None => None,
    }
}

// ---------------------------------------------------------------------------
// Well-formedness: what every container built from machine values satisfies.
// ---------------------------------------------------------------------------

/// Every field's byte length fits the wire form's largest count.
pub open spec fn spec_wf_fieldset(f: FieldSetView) -> bool {
    &&& f.tweet_id.len() < 0x1_0000_0000_0000_0000
    &&& f.author_id.len() < 0x1_0000_0000_0000_0000
    &&& f.author_name.len() < 0x1_0000_0000_0000_0000
    &&& f.tweet_text.len() < 0x1_0000_0000_0000_0000
}

/// Names are unique, and every count that the wire form carries fits its
/// largest representable value.
pub open spec fn spec_wf_container(c: ContainerView) -> bool {
    &&& spec_unique_keys(c)
    &&& c.len() < 0x1_0000_0000_0000_0000
    &&& forall|i: int|
        0 <= i < c.len() ==> c[i].0.len() < 0x1_0000_0000_0000_0000 && spec_wf_fieldset(c[i].1)
}

// ---------------------------------------------------------------------------
// Encoding.
// ---------------------------------------------------------------------------

/// A byte-for-byte copy of a byte string.
pub fn clone_bytes(v: &Vec<u8>) -> (r: Vec<u8>)
    ensures
        r@ == v@,
{
    let mut r: Vec<u8> = Vec::new();
    let n = v.len();
    let mut i: usize = 0;
    while i < n
        invariant
            n == v@.len(),
            i <= n,
            r@ =~= v@.take(i as int),
        decreases n - i,
    {
        r.push(v[i]);
        proof {
            assert(v@.take(i as int).push(v@[i as int]) =~= v@.take(i + 1));
        }
        i = i + 1;
    }
    proof {
        assert(v@.take(n as int) =~= v@);
    }
    r
}

/// Appends the bytes of `s` at the end of `out`.
pub(crate) fn push_bytes(out: &mut Vec<u8>, s: &Vec<u8>)
    ensures
        final(out)@ == old(out)@ + s@,
{
    let n = s.len();
    let mut i: usize = 0;
    proof {
        assert(out@ + s@.take(0) =~= out@);
    }
    while i < n
        invariant
            n == s@.len(),
            i <= n,
            out@ =~= old(out)@ + s@.take(i as int),
        decreases n - i,
    {
        out.push(s[i]);
        proof {
            assert((old(out)@ + s@.take(i as int)).push(s@[i as int]) =~= old(out)@ + s@.take(
                i + 1,
            ));
        }
        i = i + 1;
    }
    proof {
        assert(s@.take(n as int) =~= s@);
    }
}

/// Appends `k` big-endian bytes of `n` at the end of `out`.
fn push_be_bytes(out: &mut Vec<u8>, n: u64, k: u8)
    ensures
        final(out)@ == old(out)@ + spec_be_bytes(n as nat, k as nat),
    decreases k,
{
    if k == 0 {
        proof {
            assert(out@ + spec_be_bytes(n as nat, 0) =~= out@);
        }
    } else {
        push_be_bytes(out, n / 256, k - 1);
        out.push((n % 256) as u8);
        proof {
            assert((n / 256) as nat == (n as nat) / 256);
            assert((n % 256) as u8 == ((n as nat) % 256) as u8);
            assert(out@ =~= old(out)@ + spec_be_bytes(n as nat, k as nat));
        }
    }
}

/// Appends the canonical header for `n` items of the given major type.
fn push_head(out: &mut Vec<u8>, major: u8, n: usize)
    requires
        major < 8,
    ensures
        final(out)@ == old(out)@ + spec_head(major, n as nat),
{
    if n < 24 {
        out.push(major * 32 + (n as u8));
        proof {
            assert(out@ =~= old(out)@ + spec_head(major, n as nat));
        }
    } else if n < 256 {
        out.push(major * 32 + 24);
        push_be_bytes(out, n as u64, 1);
        proof {
            assert(out@ =~= old(out)@ + spec_head(major, n as nat));
        }
    } else if n < 65536 {
        out.push(major * 32 + 25);
        push_be_bytes(out, n as u64, 2);
        proof {
            assert(out@ =~= old(out)@ + spec_head(major, n as nat));
        }
    } else if (n as u64) < 0x1_0000_0000 {
        out.push(major * 32 + 26);
        push_be_bytes(out, n as u64, 4);
        proof {
            assert(out@ =~= old(out)@ + spec_head(major, n as nat));
        }
    } else {
        out.push(major * 32 + 27);
        push_be_bytes(out, n as u64, 8);
        proof {
            assert(out@ =~= old(out)@ + spec_head(major, n as nat));
        }
    }
}

/// Appends the wire form of one text item.
fn push_text(out: &mut Vec<u8>, s: &Vec<u8>)
    ensures
        final(out)@ == old(out)@ + spec_text(s@),
{
    push_head(out, 3, s.len());
    push_bytes(out, s);
    proof {
        assert(out@ =~= old(out)@ + spec_text(s@));
    }
}

/// The stored key "TweetID" as a byte string.
fn key_tweet_id() -> (r: Vec<u8>)
    ensures
        r@ == spec_key_tweet_id(),
{
    let r: Vec<u8> = vec![84u8, 119, 101, 101, 116, 73, 68];
    proof {
        assert(r@ =~= spec_key_tweet_id());
    }
    r
}

/// The stored key "AuthorID" as a byte string.
fn key_author_id() -> (r: Vec<u8>)
    ensures
        r@ == spec_key_author_id(),
{
    let r: Vec<u8> = vec![65u8, 117, 116, 104, 111, 114, 73, 68];
    proof {
        assert(r@ =~= spec_key_author_id());
    }
    r
}

/// The stored key "AuthorName" as a byte string.
fn key_author_name() -> (r: Vec<u8>)
    ensures
        r@ == spec_key_author_name(),
{
    let r: Vec<u8> = vec![65u8, 117, 116, 104, 111, 114, 78, 97, 109, 101];
    proof {
        assert(r@ =~= spec_key_author_name());
    }
    r
}

/// The stored key "TweetText" as a byte string.
fn key_tweet_text() -> (r: Vec<u8>)
    ensures
        r@ == spec_key_tweet_text(),
{
    let r: Vec<u8> = vec![84u8, 119, 101, 101, 116, 84, 101, 120, 116];
    proof {
        assert(r@ =~= spec_key_tweet_text());
    }
    r
}

/// Appends the wire form of one field set.
fn push_fieldset(out: &mut Vec<u8>, f: &FieldSet)
    ensures
        final(out)@ == old(out)@ + spec_enc_fieldset(f@),
{
    push_head(out, 5, 4);
    push_text(out, &key_author_id());
    push_text(out, &f.author_id);
    push_text(out, &key_author_name());
    push_text(out, &f.author_name);
    push_text(out, &key_tweet_id());
    push_text(out, &f.tweet_id);
    push_text(out, &key_tweet_text());
    push_text(out, &f.tweet_text);
    proof {
        assert(out@ =~= old(out)@ + spec_enc_fieldset(f@));
    }
}

proof fn lemma_enc_entries_push(c: ContainerView, e: (Seq<u8>, FieldSetView))
    ensures
        spec_enc_entries(c.push(e)) == spec_enc_entries(c) + spec_text(e.0) + spec_enc_fieldset(
            e.1,
        ),
    decreases c.len(),
{
    if c.len() == 0 {
        assert(c.push(e).first() == e);
        assert(c.push(e).drop_first() =~= Seq::<(Seq<u8>, FieldSetView)>::empty());
        assert(spec_enc_entries(Seq::<(Seq<u8>, FieldSetView)>::empty()) =~= Seq::<u8>::empty());
        assert(spec_enc_entries(c.push(e)) =~= spec_enc_entries(c) + spec_text(e.0)
            + spec_enc_fieldset(e.1));
    } else {
        assert(c.push(e).first() == c.first());
        assert(c.push(e).drop_first() =~= c.drop_first().push(e));
        lemma_enc_entries_push(c.drop_first(), e);
        assert(spec_enc_entries(c.push(e)) =~= spec_enc_entries(c) + spec_text(e.0)
            + spec_enc_fieldset(e.1));
    }
}

/// Serializes a container into its canonical wire form. Total: every
/// container has an encoding.
pub fn encode(container: &Container) -> (r: Vec<u8>)
    ensures
        r@ == spec_enc_container(container@),
{
    let mut out: Vec<u8> = Vec::new();
    let n = container.entries.len();
    push_head(&mut out, 5, n);
    let mut i: usize = 0;
    proof {
        assert(container@.take(0) =~= Seq::<(Seq<u8>, FieldSetView)>::empty());
        assert(spec_enc_entries(container@.take(0)) =~= Seq::<u8>::empty());
        assert(out@ =~= spec_head(5, container@.len()) + spec_enc_entries(container@.take(0)));
    }
    while i < n
        invariant
            n == container.entries@.len(),
            n == container@.len(),
            i <= n,
            out@ =~= spec_head(5, container@.len()) + spec_enc_entries(container@.take(i as int)),
        decreases n - i,
    {
        let entry = &container.entries[i];
        push_text(&mut out, &entry.0);
        push_fieldset(&mut out, &entry.1);
        proof {
            assert(container@[i as int] == (container.entries@[i as int].0@,
            container.entries@[i as int].1@));
            lemma_enc_entries_push(container@.take(i as int), container@[i as int]);
            assert(container@.take(i as int).push(container@[i as int]) =~= container@.take(i + 1));
        }
        i = i + 1;
    }
    proof {
        assert(container@.take(n as int) =~= container@);
    }
    out
}

// ---------------------------------------------------------------------------
// The wire form is unambiguous: parsing recovers exactly what was encoded.
// ---------------------------------------------------------------------------

/// 256 raised to the power `k`.
pub open spec fn spec_pow256(k: nat) -> nat
    decreases k,
{
    if k == 0 {
        1
    } else {
        256 * spec_pow256((k - 1) as nat)
    }
}

proof fn lemma_be_bytes_len(n: nat, k: nat)
    ensures
        spec_be_bytes(n, k).len() == k,
    decreases k,
{
    if k > 0 {
        lemma_be_bytes_len(n / 256, (k - 1) as nat);
    }
}

proof fn lemma_be_roundtrip(n: nat, k: nat)
    requires
        n < spec_pow256(k),
    ensures
        spec_be_bytes(n, k).len() == k,
        spec_be_val(spec_be_bytes(n, k)) == n,
    decreases k,
{
    lemma_be_bytes_len(n, k);
    if k == 0 {
        assert(spec_be_val(Seq::<u8>::empty()) == 0);
    } else {
        let q = n / 256;
        let r = n % 256;
        assert(n == q * 256 + r && r < 256) by (nonlinear_arith)
            requires
                q == n / 256,
                r == n % 256,
        ;
        assert(q < spec_pow256((k - 1) as nat)) by (nonlinear_arith)
            requires
                n == q * 256 + r,
                0 <= r,
                n < 256 * spec_pow256((k - 1) as nat),
                0 <= q,
        ;
        lemma_be_roundtrip(q, (k - 1) as nat);
        let pre = spec_be_bytes(q, (k - 1) as nat);
        let whole = spec_be_bytes(n, k);
        assert(whole == pre + seq![r as u8]);
        assert(whole.drop_last() =~= pre);
        assert(whole.last() == r as u8);
        assert(spec_be_val(whole) == spec_be_val(pre) * 256 + r);
    }
}

proof fn lemma_split_match(b: Seq<u8>, i: int, x: Seq<u8>, y: Seq<u8>)
    requires
        0 <= i,
        i + x.len() + y.len() <= b.len(),
        b.subrange(i, i + x.len() + y.len()) == x + y,
    ensures
        b.subrange(i, i + x.len()) == x,
        b.subrange(i + x.len(), i + x.len() + y.len()) == y,
{
    assert forall|t: int| 0 <= t < x.len() implies b.subrange(i, i + x.len())[t] == x[t] by {
        assert(b.subrange(i, i + x.len() + y.len())[t] == (x + y)[t]);
    }
    assert(b.subrange(i, i + x.len()) =~= x);
    let xl = x.len() as int;
    let yl = y.len() as int;
    assert forall|t: int| 0 <= t < yl implies b.subrange(i + xl, i + xl + yl)[t] == y[t] by {
        assert(b.subrange(i, i + xl + yl)[xl + t] == (x + y)[xl + t]);
        assert((x + y)[xl + t] == y[t]);
        assert(b.subrange(i, i + xl + yl)[xl + t] == b[i + xl + t]);
        assert(b.subrange(i + xl, i + xl + yl)[t] == b[i + xl + t]);
    }
    assert(b.subrange(i + x.len(), i + x.len() + y.len()) =~= y);
}

proof fn lemma_head_byte(major: u8, c: u8)
    requires
        major < 8,
        c < 32,
    ensures
        major * 32 + c < 256,
        ((major * 32 + c) as u8) / 32 == major,
        ((major * 32 + c) as u8) % 32 == c,
{
    assert(major * 32 + c < 256) by (nonlinear_arith)
        requires
            major < 8,
            c < 32,
    ;
    let x = (major * 32 + c) as u8;
    assert(x == major * 32 + c);
    assert(x / 32 == major && x % 32 == c) by (nonlinear_arith)
        requires
            x == major * 32 + c,
            0 <= major,
            0 <= c < 32,
    ;
}

proof fn lemma_parse_head_enc(b: Seq<u8>, i: int, major: u8, n: nat)
    requires
        major < 8,
        n < 0x1_0000_0000_0000_0000,
        0 <= i,
        i + spec_head(major, n).len() <= b.len(),
        b.subrange(i, i + spec_head(major, n).len()) == spec_head(major, n),
    ensures
        spec_parse_head(b, i) == Some((major, n, i + spec_head(major, n).len())),
{
    let h = spec_head(major, n);
    assert(spec_pow256(0) == 1);
    assert(spec_pow256(1) == 256);
    assert(spec_pow256(2) == 65536);
    assert(spec_pow256(3) == 0x100_0000);
    assert(spec_pow256(4) == 0x1_0000_0000);
    assert(spec_pow256(5) == 0x100_0000_0000);
    assert(spec_pow256(6) == 0x1_0000_0000_0000);
    assert(spec_pow256(7) == 0x100_0000_0000_0000);
    assert(spec_pow256(8) == 0x1_0000_0000_0000_0000);
    if n < 24 {
        lemma_head_byte(major, n as u8);
        assert(h.len() == 1);
        assert(b.subrange(i, i + 1)[0] == b[i]);
        assert(b[i] == (major * 32 + n) as u8);
    } else if n < 256 {
        lemma_head_byte(major, 24);
        lemma_be_roundtrip(n, 1);
        lemma_split_match(b, i, seq![(major * 32 + 24) as u8], spec_be_bytes(n, 1));
        assert(b.subrange(i, i + 1)[0] == b[i]);
        assert(b[i] == (major * 32 + 24) as u8);
        assert(spec_be_bytes(n, 1) == spec_be_bytes(n / 256, 0) + seq![(n % 256) as u8]);
        assert(spec_be_bytes(n, 1) =~= seq![(n % 256) as u8]);
        assert(b.subrange(i + 1, i + 2)[0] == b[i + 1]);
        assert(b[i + 1] == (n % 256) as u8);
        assert(n % 256 == n) by (nonlinear_arith)
            requires
                0 <= n < 256,
        ;
    } else if n < 65536 {
        lemma_head_byte(major, 25);
        lemma_be_roundtrip(n, 2);
        lemma_split_match(b, i, seq![(major * 32 + 25) as u8], spec_be_bytes(n, 2));
        assert(b.subrange(i, i + 1)[0] == b[i]);
        assert(b[i] == (major * 32 + 25) as u8);
        assert(b.subrange(i + 1, i + 3) =~= spec_be_bytes(n, 2));
    } else if n < 0x1_0000_0000 {
        lemma_head_byte(major, 26);
        lemma_be_roundtrip(n, 4);
        lemma_split_match(b, i, seq![(major * 32 + 26) as u8], spec_be_bytes(n, 4));
        assert(b.subrange(i, i + 1)[0] == b[i]);
        assert(b[i] == (major * 32 + 26) as u8);
        assert(b.subrange(i + 1, i + 5) =~= spec_be_bytes(n, 4));
    } else {
        lemma_head_byte(major, 27);
        lemma_be_roundtrip(n, 8);
        lemma_split_match(b, i, seq![(major * 32 + 27) as u8], spec_be_bytes(n, 8));
        assert(b.subrange(i, i + 1)[0] == b[i]);
        assert(b[i] == (major * 32 + 27) as u8);
        assert(b.subrange(i + 1, i + 9) =~= spec_be_bytes(n, 8));
    }
}

proof fn lemma_parse_text_enc(b: Seq<u8>, i: int, s: Seq<u8>)
    requires
        0 <= i,
        s.len() < 0x1_0000_0000_0000_0000,
        i + spec_text(s).len() <= b.len(),
        b.subrange(i, i + spec_text(s).len()) == spec_text(s),
    ensures
        spec_parse_text(b, i) == Some((s, i + spec_text(s).len())),
{
    let h = spec_head(3, s.len());
    lemma_split_match(b, i, h, s);
    lemma_parse_head_enc(b, i, 3, s.len());
    assert(b.subrange(i + h.len(), i + h.len() + s.len()) == s);
}

proof fn lemma_parse_field_enc(b: Seq<u8>, i: int, key: Seq<u8>, v: Seq<u8>)
    requires
        0 <= i,
        key.len() < 0x1_0000_0000_0000_0000,
        v.len() < 0x1_0000_0000_0000_0000,
        i + spec_text(key).len() + spec_text(v).len() <= b.len(),
        b.subrange(i, i + spec_text(key).len() + spec_text(v).len()) == spec_text(key) + spec_text(
            v,
        ),
    ensures
        spec_parse_field(b, i, key) == Some(
            (v, i + spec_text(key).len() + spec_text(v).len()),
        ),
{
    lemma_split_match(b, i, spec_text(key), spec_text(v));
    lemma_parse_text_enc(b, i, key);
    lemma_parse_text_enc(b, i + spec_text(key).len(), v);
}

#[verifier::rlimit(100)]
#[verifier::spinoff_prover]
proof fn lemma_parse_fieldset_enc(b: Seq<u8>, i: int, f: FieldSetView)
    requires
        0 <= i,
        spec_wf_fieldset(f),
        i + spec_enc_fieldset(f).len() <= b.len(),
        b.subrange(i, i + spec_enc_fieldset(f).len()) == spec_enc_fieldset(f),
    ensures
        spec_parse_fieldset(b, i) == Some((f, i + spec_enc_fieldset(f).len())),
{
    let h = spec_head(5, 4);
    let p1 = spec_text(spec_key_author_id()) + spec_text(f.author_id);
    let p2 = spec_text(spec_key_author_name()) + spec_text(f.author_name);
    let p3 = spec_text(spec_key_tweet_id()) + spec_text(f.tweet_id);
    let p4 = spec_text(spec_key_tweet_text()) + spec_text(f.tweet_text);
    assert(spec_enc_fieldset(f) =~= h + (p1 + (p2 + (p3 + p4))));
    lemma_split_match(b, i, h, p1 + (p2 + (p3 + p4)));
    let i0 = i + h.len();
    lemma_split_match(b, i0, p1, p2 + (p3 + p4));
    let i1 = i0 + p1.len();
    lemma_split_match(b, i1, p2, p3 + p4);
    let i2 = i1 + p2.len();
    lemma_split_match(b, i2, p3, p4);
    let i3 = i2 + p3.len();
    lemma_parse_head_enc(b, i, 5, 4);
    lemma_parse_field_enc(b, i0, spec_key_author_id(), f.author_id);
    lemma_parse_field_enc(b, i1, spec_key_author_name(), f.author_name);
    lemma_parse_field_enc(b, i2, spec_key_tweet_id(), f.tweet_id);
    lemma_parse_field_enc(b, i3, spec_key_tweet_text(), f.tweet_text);
}

#[verifier::rlimit(100)]
#[verifier::spinoff_prover]
proof fn lemma_parse_entries_enc(b: Seq<u8>, i: int, c: ContainerView)
    requires
        0 <= i,
        c.len() < 0x1_0000_0000_0000_0000,
        forall|t: int|
            0 <= t < c.len() ==> c[t].0.len() < 0x1_0000_0000_0000_0000 && spec_wf_fieldset(
                c[t].1,
            ),
        i + spec_enc_entries(c).len() <= b.len(),
        b.subrange(i, i + spec_enc_entries(c).len()) == spec_enc_entries(c),
    ensures
        spec_parse_entries(b, i, c.len()) == Some((c, i + spec_enc_entries(c).len())),
    decreases c.len(),
{
    if c.len() == 0 {
        assert(c =~= Seq::<(Seq<u8>, FieldSetView)>::empty());
    } else {
        let name = c.first().0;
        let f = c.first().1;
        let tn = spec_text(name);
        let ef = spec_enc_fieldset(f);
        let rest = spec_enc_entries(c.drop_first());
        assert(c[0] == c.first());
        assert(spec_enc_entries(c) =~= tn + (ef + rest));
        lemma_split_match(b, i, tn, ef + rest);
        let i1 = i + tn.len();
        lemma_split_match(b, i1, ef, rest);
        let i2 = i1 + ef.len();
        lemma_parse_text_enc(b, i, name);
        lemma_parse_fieldset_enc(b, i1, f);
        assert(forall|t: int|
            0 <= t < c.drop_first().len() ==> #[trigger] c.drop_first()[t] == c[t + 1]);
        lemma_parse_entries_enc(b, i2, c.drop_first());
        assert(seq![(name, f)] + c.drop_first() =~= c);
    }
}

// ---------------------------------------------------------------------------
// Decoding.
// ---------------------------------------------------------------------------

proof fn lemma_be_val_bound(s: Seq<u8>)
    ensures
        spec_be_val(s) < spec_pow256(s.len()),
    decreases s.len(),
{
    if s.len() == 0 {
    } else {
        lemma_be_val_bound(s.drop_last());
        let v = spec_be_val(s.drop_last());
        let p = spec_pow256((s.len() - 1) as nat);
        assert(v * 256 + s.last() < 256 * p) by (nonlinear_arith)
            requires
                v < p,
                0 <= s.last() < 256,
        ;
    }
}

/// Reads `k` big-endian bytes starting at `i`.
fn read_be(b: &[u8], i: usize, k: usize) -> (r: u64)
    requires
        k <= 8,
        i + k <= b@.len(),
    ensures
        r as nat == spec_be_val(b@.subrange(i as int, i + k)),
{
    proof {
        assert(spec_pow256(0) == 1);
        assert(spec_pow256(1) == 256);
        assert(spec_pow256(2) == 65536);
        assert(spec_pow256(3) == 0x100_0000);
        assert(spec_pow256(4) == 0x1_0000_0000);
        assert(spec_pow256(5) == 0x100_0000_0000);
        assert(spec_pow256(6) == 0x1_0000_0000_0000);
        assert(spec_pow256(7) == 0x100_0000_0000_0000);
        assert(spec_pow256(8) == 0x1_0000_0000_0000_0000);
    }
    let blen = b.len();
    let mut r: u64 = 0;
    let mut m: usize = 0;
    proof {
        assert(b@.subrange(i as int, i as int) =~= Seq::<u8>::empty());
    }
    while m < k
        invariant
            k <= 8,
            blen == b@.len(),
            i + k <= b@.len(),
            m <= k,
            r as nat == spec_be_val(b@.subrange(i as int, i + m)),
            (r as nat) < spec_pow256(m as nat),
            spec_pow256(8) == 0x1_0000_0000_0000_0000,
            spec_pow256(7) == 0x100_0000_0000_0000,
        decreases k - m,
    {
        let d = b[i + m];
        proof {
            let s = b@.subrange(i as int, i + m);
            let s2 = b@.subrange(i as int, i + m + 1);
            assert(s2.drop_last() =~= s);
            assert(s2.last() == b@[i + m]);
            let p = spec_pow256(m as nat);
            assert((r as nat) * 256 + d < 256 * p) by (nonlinear_arith)
                requires
                    (r as nat) < p,
                    0 <= d < 256,
            ;
            assert(256 * spec_pow256(m as nat) == spec_pow256(m as nat + 1));
            lemma_pow256_le((m + 1) as nat, 8);
        }
        r = r * 256 + (d as u64);
        m = m + 1;
    }
    r
}

proof fn lemma_pow256_le(a: nat, b: nat)
    requires
        a <= b,
    ensures
        spec_pow256(a) <= spec_pow256(b),
    decreases b,
{
    if a < b {
        lemma_pow256_le(a, (b - 1) as nat);
        lemma_pow256_pos((b - 1) as nat);
        let p = spec_pow256((b - 1) as nat);
        assert(p <= 256 * p) by (nonlinear_arith)
            requires
                p >= 1,
        ;
    }
}

proof fn lemma_pow256_pos(k: nat)
    ensures
        spec_pow256(k) >= 1,
    decreases k,
{
    if k > 0 {
        lemma_pow256_pos((k - 1) as nat);
        let p = spec_pow256((k - 1) as nat);
        assert(256 * p >= 1) by (nonlinear_arith)
            requires
                p >= 1,
        ;
    }
}

/// Reads one item header at offset `i`, accepting only the canonical form.
fn parse_head(b: &[u8], i: usize) -> (r: Option<(u8, u64, usize)>)
    ensures
        match r {
            Some((m, n, j)) => spec_parse_head(b@, i as int) == Some((m, n as nat, j as int)) && i
                < j <= b@.len(),
            None => spec_parse_head(b@, i as int) is None,
        },
{
    if i >= b.len() {
        return None;
    }
    let ib = b[i];
    let major = ib / 32;
    let info = ib % 32;
    let rem = b.len() - i;
    if info < 24 {
        Some((major, info as u64, i + 1))
    } else if info == 24 {
        if rem >= 2 {
            let n = read_be(b, i + 1, 1);
            proof {
                let s = b@.subrange(i + 1, i + 2);
                assert(s.drop_last() =~= Seq::<u8>::empty());
                assert(s.last() == b@[i + 1]);
                assert(spec_be_val(Seq::<u8>::empty()) == 0);
            }
            if n >= 24 {
                Some((major, n, i + 2))
            } else {
                None
            }
        } else {
            None
        }
    } else if info == 25 {
        if rem >= 3 {
            let n = read_be(b, i + 1, 2);
            if n >= 256 {
                Some((major, n, i + 3))
            } else {
                None
            }
        } else {
            None
        }
    } else if info == 26 {
        if rem >= 5 {
            let n = read_be(b, i + 1, 4);
            if n >= 65536 {
                Some((major, n, i + 5))
            } else {
                None
            }
        } else {
            None
        }
    } else if info == 27 {
        if rem >= 9 {
            let n = read_be(b, i + 1, 8);
            if n >= 0x1_0000_0000 {
                Some((major, n, i + 9))
            } else {
                None
            }
        } else {
            None
        }
    } else {
        None
    }
}

/// Reads one text item at offset `i` and copies its bytes out.
fn parse_text(b: &[u8], i: usize) -> (r: Option<(Vec<u8>, usize)>)
    ensures
        match r {
            Some((s, j)) => spec_parse_text(b@, i as int) == Some((s@, j as int)) && i < j
                <= b@.len(),
            None => spec_parse_text(b@, i as int) is None,
        },
{
    match parse_head(b, i) {
        Some((major, n, j)) => {
            if major != 3 {
                return None;
            }
            let remaining = b.len() - j;
            if n > remaining as u64 {
                return None;
            }
            let n_us = n as usize;
            let s = vstd::slice::slice_to_vec(vstd::slice::slice_subrange(b, j, j + n_us));
            Some((s, j + n_us))
        },
        None => None,
    }
}

/// True exactly when the two byte strings are equal.
pub fn bytes_eq(a: &Vec<u8>, b: &Vec<u8>) -> (r: bool)
    ensures
        r <==> a@ == b@,
{
    if a.len() != b.len() {
        return false;
    }
    let n = a.len();
    let mut i: usize = 0;
    while i < n
        invariant
            n == a@.len(),
            n == b@.len(),
            i <= n,
            forall|j: int| 0 <= j < i ==> a@[j] == b@[j],
        decreases n - i,
    {
        if a[i] != b[i] {
            return false;
        }
        i = i + 1;
    }
    proof {
        assert(a@ =~= b@);
    }
    true
}

/// Reads one field set at offset `i`: a four-entry map of the fixed keys.
fn parse_fieldset(b: &[u8], i: usize) -> (r: Option<(FieldSet, usize)>)
    ensures
        match r {
            Some((f, j)) => spec_parse_fieldset(b@, i as int) == Some((f@, j as int)) && i < j
                <= b@.len(),
            None => spec_parse_fieldset(b@, i as int) is None,
        },
{
    let (m, n, j0) = match parse_head(b, i) {
        Some(x) => x,
        None => {
            return None;
        },
    };
    if m != 5 || n != 4 {
        return None;
    }
    let (k1, p1) = match parse_text(b, j0) {
        Some(x) => x,
        None => {
            return None;
        },
    };
    if !bytes_eq(&k1, &key_author_id()) {
        return None;
    }
    let (author_id, p2) = match parse_text(b, p1) {
        Some(x) => x,
        None => {
            return None;
        },
    };
    let (k2, p3) = match parse_text(b, p2) {
        Some(x) => x,
        None => {
            return None;
        },
    };
    if !bytes_eq(&k2, &key_author_name()) {
        return None;
    }
    let (author_name, p4) = match parse_text(b, p3) {
        Some(x) => x,
        None => {
            return None;
        },
    };
    let (k3, p5) = match parse_text(b, p4) {
        Some(x) => x,
        None => {
            return None;
        },
    };
    if !bytes_eq(&k3, &key_tweet_id()) {
        return None;
    }
    let (tweet_id, p6) = match parse_text(b, p5) {
        Some(x) => x,
        None => {
            return None;
        },
    };
    let (k4, p7) = match parse_text(b, p6) {
        Some(x) => x,
        None => {
            return None;
        },
    };
    if !bytes_eq(&k4, &key_tweet_text()) {
        return None;
    }
    let (tweet_text, p8) = match parse_text(b, p7) {
        Some(x) => x,
        None => {
            return None;
        },
    };
    Some((FieldSet { tweet_id, author_id, author_name, tweet_text }, p8))
}

/// Reads `n` container entries starting at offset `i`.
fn parse_entries(b: &[u8], i: usize, n: u64) -> (r: Option<(Vec<(Vec<u8>, FieldSet)>, usize)>)
    ensures
        match r {
            Some((es, j)) => spec_parse_entries(b@, i as int, n as nat) == Some(
                (spec_entries_view(es@), j as int),
            ) && i <= j,
            None => spec_parse_entries(b@, i as int, n as nat) is None,
        },
    decreases n,
{
    if n == 0 {
        let es: Vec<(Vec<u8>, FieldSet)> = Vec::new();
        proof {
            assert(spec_entries_view(es@) =~= Seq::<(Seq<u8>, FieldSetView)>::empty());
        }
        return Some((es, i));
    }
    let (name, j) = match parse_text(b, i) {
        Some(x) => x,
        None => {
            return None;
        },
    };
    let (f, j2) = match parse_fieldset(b, j) {
        Some(x) => x,
        None => {
            return None;
        },
    };
    let (mut rest, j3) = match parse_entries(b, j2, n - 1) {
        Some(x) => x,
        None => {
            return None;
        },
    };
    let ghost name_v = name@;
    let ghost f_v = f@;
    let ghost rest_v = rest@;
    let mut es: Vec<(Vec<u8>, FieldSet)> = Vec::new();
    es.push((name, f));
    es.append(&mut rest);
    proof {
        assert(es@ =~= seq![(es@[0].0, es@[0].1)] + rest_v);
        assert(spec_entries_view(es@) =~= seq![(name_v, f_v)] + spec_entries_view(rest_v));
    }
    Some((es, j3))
}

/// Deserializes a byte string into the container it canonically encodes.
/// Fails with `DecodeError` exactly when the bytes are not such an encoding.
#[verifier::loop_isolation(false)]
pub fn decode(bytes: &[u8]) -> (r: Result<Container, TwitError>)
    ensures
        match r {
            Ok(c) => spec_dec_container(bytes@) == Some(c@) && spec_wf_container(c@),
            Err(e) => spec_dec_container(bytes@) is None && e is DecodeError,
        },
{
    let (m, n, j) = match parse_head(bytes, 0) {
        Some(x) => x,
        None => {
            return Err(TwitError::DecodeError(String::from_str("not a well-formed container")));
        },
    };
    if m != 5 {
        return Err(TwitError::DecodeError(String::from_str("top-level value is not a mapping")));
    }
    let (es, end) = match parse_entries(bytes, j, n) {
        Some(x) => x,
        None => {
            return Err(
                TwitError::DecodeError(String::from_str("container entry has the wrong shape")),
            );
        },
    };
    if end != bytes.len() {
        return Err(TwitError::DecodeError(String::from_str("trailing bytes after container")));
    }
    let k = es.len();
    let mut a: usize = 0;
    while a < k
        invariant
            k == es@.len(),
            a <= k,
            forall|x: int, y: int|
                0 <= x < y < k && x < a ==> spec_entries_view(es@)[x].0 != spec_entries_view(
                    es@,
                )[y].0,
        decreases k - a,
    {
        let mut c: usize = a + 1;
        while c < k
            invariant
                k == es@.len(),
                a < k,
                a < c <= k,
                forall|y: int| a < y < c ==> spec_entries_view(es@)[a as int].0 != spec_entries_view(es@)[y].0,
            decreases k - c,
        {
            if bytes_eq(&es[a].0, &es[c].0) {
                proof {
                    let cv = spec_entries_view(es@);
                    assert(es@[a as int].0@ == es@[c as int].0@);
                    assert(cv[a as int].0 == cv[c as int].0);
                    assert(0 <= a < c < cv.len());
                    assert(!spec_unique_keys(cv));
                    assert(spec_dec_container(bytes@) is None);
                }
                return Err(
                    TwitError::DecodeError(
                        String::from_str("container holds one name twice"),
                    ),
                );
            }
            c = c + 1;
        }
        a = a + 1;
    }
    proof {
        let cv = spec_entries_view(es@);
        assert(spec_unique_keys(cv));
        assert(cv.len() == es@.len() && es@.len() == k);
        assert forall|t: int|
            0 <= t < cv.len() implies (#[trigger] cv[t]).0.len() < 0x1_0000_0000_0000_0000
            && spec_wf_fieldset(cv[t].1) by {
            assert(es@[t].0.len() == es@[t].0@.len());
            assert(es@[t].1.tweet_id.len() == es@[t].1.tweet_id@.len());
            assert(es@[t].1.author_id.len() == es@[t].1.author_id@.len());
            assert(es@[t].1.author_name.len() == es@[t].1.author_name@.len());
            assert(es@[t].1.tweet_text.len() == es@[t].1.tweet_text@.len());
        }
        assert(spec_wf_container(cv));
    }
    Ok(Container { entries: es })
}

// ---------------------------------------------------------------------------
// The payload form: a flat map of text keys to text values, carried in the
// same wire format as the state containers.
// ---------------------------------------------------------------------------

/// The mathematical value of a list of owned key-value pairs.
pub open spec fn spec_pairs_view(ps: Seq<(Vec<u8>, Vec<u8>)>) -> Seq<(Seq<u8>, Seq<u8>)> {
    Seq::new(ps.len(), |i: int| (ps[i].0@, ps[i].1@))
}

/// The wire form of the pairs themselves, in order.
pub open spec fn spec_enc_pair_items(ps: Seq<(Seq<u8>, Seq<u8>)>) -> Seq<u8>
    decreases ps.len(),
{
    if ps.len() == 0 {
        Seq::empty()
    } else {
        spec_text(ps.first().0) + spec_text(ps.first().1) + spec_enc_pair_items(ps.drop_first())
    }
}

/// The wire form of a whole map of text keys to text values.
pub open spec fn spec_enc_pairs(ps: Seq<(Seq<u8>, Seq<u8>)>) -> Seq<u8> {
    spec_head(5, ps.len()) + spec_enc_pair_items(ps)
}

/// Every key and value fits the wire form's largest count.
pub open spec fn spec_wf_pairs(ps: Seq<(Seq<u8>, Seq<u8>)>) -> bool {
    &&& ps.len() < 0x1_0000_0000_0000_0000
    &&& forall|i: int|
        0 <= i < ps.len() ==> #[trigger] ps[i].0.len() < 0x1_0000_0000_0000_0000 && ps[i].1.len()
            < 0x1_0000_0000_0000_0000
}

proof fn lemma_enc_pair_items_push(ps: Seq<(Seq<u8>, Seq<u8>)>, e: (Seq<u8>, Seq<u8>))
    ensures
        spec_enc_pair_items(ps.push(e)) == spec_enc_pair_items(ps) + spec_text(e.0) + spec_text(
            e.1,
        ),
    decreases ps.len(),
{
    if ps.len() == 0 {
        assert(ps.push(e).first() == e);
        assert(ps.push(e).drop_first() =~= Seq::<(Seq<u8>, Seq<u8>)>::empty());
        assert(spec_enc_pair_items(Seq::<(Seq<u8>, Seq<u8>)>::empty()) =~= Seq::<u8>::empty());
        assert(spec_enc_pair_items(ps.push(e)) =~= spec_enc_pair_items(ps) + spec_text(e.0)
            + spec_text(e.1));
    } else {
        assert(ps.push(e).first() == ps.first());
        assert(ps.push(e).drop_first() =~= ps.drop_first().push(e));
        lemma_enc_pair_items_push(ps.drop_first(), e);
        assert(spec_enc_pair_items(ps.push(e)) =~= spec_enc_pair_items(ps) + spec_text(e.0)
            + spec_text(e.1));
    }
}

/// Serializes a map of text keys to text values into its canonical wire form.
pub fn encode_pairs(pairs: &Vec<(Vec<u8>, Vec<u8>)>) -> (r: Vec<u8>)
    ensures
        r@ == spec_enc_pairs(spec_pairs_view(pairs@)),
{
    let ghost pv = spec_pairs_view(pairs@);
    let mut out: Vec<u8> = Vec::new();
    let n = pairs.len();
    push_head(&mut out, 5, n);
    let mut i: usize = 0;
    proof {
        assert(pv.take(0) =~= Seq::<(Seq<u8>, Seq<u8>)>::empty());
        assert(spec_enc_pair_items(pv.take(0)) =~= Seq::<u8>::empty());
        assert(out@ =~= spec_head(5, pv.len()) + spec_enc_pair_items(pv.take(0)));
    }
    while i < n
        invariant
            n == pairs@.len(),
            pv == spec_pairs_view(pairs@),
            n == pv.len(),
            i <= n,
            out@ =~= spec_head(5, pv.len()) + spec_enc_pair_items(pv.take(i as int)),
        decreases n - i,
    {
        let pair = &pairs[i];
        push_text(&mut out, &pair.0);
        push_text(&mut out, &pair.1);
        proof {
            assert(pv[i as int] == (pairs@[i as int].0@, pairs@[i as int].1@));
            lemma_enc_pair_items_push(pv.take(i as int), pv[i as int]);
            assert(pv.take(i as int).push(pv[i as int]) =~= pv.take(i + 1));
        }
        i = i + 1;
    }
    proof {
        assert(pv.take(n as int) =~= pv);
    }
    out
}

/// Reads `n` text-to-text pairs starting at offset `i`.
fn parse_pairs(b: &[u8], i: usize, n: u64) -> (r: Option<(Vec<(Vec<u8>, Vec<u8>)>, usize)>)
    ensures
        match r {
            Some((ps, j)) => spec_parse_pairs(b@, i as int, n as nat) == Some(
                (spec_pairs_view(ps@), j as int),
            ) && i <= j,
            None => spec_parse_pairs(b@, i as int, n as nat) is None,
        },
    decreases n,
{
    if n == 0 {
        let ps: Vec<(Vec<u8>, Vec<u8>)> = Vec::new();
        proof {
            assert(spec_pairs_view(ps@) =~= Seq::<(Seq<u8>, Seq<u8>)>::empty());
        }
        return Some((ps, i));
    }
    let (k, j) = match parse_text(b, i) {
        Some(x) => x,
        None => {
            return None;
        },
    };
    let (v, j2) = match parse_text(b, j) {
        Some(x) => x,
        None => {
            return None;
        },
    };
    let (mut rest, j3) = match parse_pairs(b, j2, n - 1) {
        Some(x) => x,
        None => {
            return None;
        },
    };
    let ghost k_v = k@;
    let ghost v_v = v@;
    let ghost rest_v = rest@;
    let mut ps: Vec<(Vec<u8>, Vec<u8>)> = Vec::new();
    ps.push((k, v));
    ps.append(&mut rest);
    proof {
        assert(spec_pairs_view(ps@) =~= seq![(k_v, v_v)] + spec_pairs_view(rest_v));
    }
    Some((ps, j3))
}

/// Deserializes a byte string into the map of text keys to text values it
/// canonically encodes, keeping the wire order; `None` exactly when the
/// bytes are not such an encoding.
pub fn decode_pairs(bytes: &[u8]) -> (r: Option<Vec<(Vec<u8>, Vec<u8>)>>)
    ensures
        match r {
            Some(ps) => spec_dec_pairs(bytes@) == Some(spec_pairs_view(ps@)),
            None => spec_dec_pairs(bytes@) is None,
        },
{
    let (m, n, j) = match parse_head(bytes, 0) {
        Some(x) => x,
        None => {
            return None;
        },
    };
    if m != 5 {
        return None;
    }
    let (ps, end) = match parse_pairs(bytes, j, n) {
        Some(x) => x,
        None => {
            return None;
        },
    };
    if end != bytes.len() {
        return None;
    }
    Some(ps)
}

proof fn lemma_parse_pairs_enc(b: Seq<u8>, i: int, ps: Seq<(Seq<u8>, Seq<u8>)>)
    requires
        0 <= i,
        spec_wf_pairs(ps),
        i + spec_enc_pair_items(ps).len() <= b.len(),
        b.subrange(i, i + spec_enc_pair_items(ps).len()) == spec_enc_pair_items(ps),
    ensures
        spec_parse_pairs(b, i, ps.len()) == Some((ps, i + spec_enc_pair_items(ps).len())),
    decreases ps.len(),
{
    if ps.len() == 0 {
        assert(ps =~= Seq::<(Seq<u8>, Seq<u8>)>::empty());
    } else {
        let k = ps.first().0;
        let v = ps.first().1;
        let tk = spec_text(k);
        let tv = spec_text(v);
        let rest = spec_enc_pair_items(ps.drop_first());
        assert(ps[0] == ps.first());
        assert(spec_enc_pair_items(ps) =~= tk + (tv + rest));
        lemma_split_match(b, i, tk, tv + rest);
        let i1 = i + tk.len();
        lemma_split_match(b, i1, tv, rest);
        let i2 = i1 + tv.len();
        lemma_parse_text_enc(b, i, k);
        lemma_parse_text_enc(b, i1, v);
        assert(forall|t: int|
            0 <= t < ps.drop_first().len() ==> #[trigger] ps.drop_first()[t] == ps[t + 1]);
        lemma_parse_pairs_enc(b, i2, ps.drop_first());
        assert(seq![(k, v)] + ps.drop_first() =~= ps);
    }
}

/// The payload form round-trips: a well-formed map of text keys to text
/// values is read back unchanged, in order, from its wire form.
pub proof fn lemma_decode_encode_pairs(ps: Seq<(Seq<u8>, Seq<u8>)>)
    requires
        spec_wf_pairs(ps),
    ensures
        spec_dec_pairs(spec_enc_pairs(ps)) == Some(ps),
{
    let b = spec_enc_pairs(ps);
    let h = spec_head(5, ps.len());
    let e = spec_enc_pair_items(ps);
    assert(b.subrange(0, b.len() as int) =~= b);
    lemma_split_match(b, 0, h, e);
    lemma_parse_head_enc(b, 0, 5, ps.len());
    lemma_parse_pairs_enc(b, h.len() as int, ps);
}

// ---------------------------------------------------------------------------
// The wire form is canonical: any byte string the parser accepts is exactly
// the encoding of what it parses to. Together with the round-trip lemmas,
// encoding is a bijection between well-formed containers and accepted byte
// strings.
// ---------------------------------------------------------------------------

proof fn lemma_be_bytes_val(x: Seq<u8>)
    ensures
        spec_be_bytes(spec_be_val(x), x.len()) == x,
    decreases x.len(),
{
    if x.len() == 0 {
        assert(spec_be_bytes(0, 0) =~= x);
    } else {
        let y = x.drop_last();
        let d = x.last();
        let v = spec_be_val(x);
        assert(v == spec_be_val(y) * 256 + d);
        assert(v % 256 == d && v / 256 == spec_be_val(y)) by (nonlinear_arith)
            requires
                v == spec_be_val(y) * 256 + d,
                0 <= d < 256,
                0 <= spec_be_val(y),
        ;
        lemma_be_bytes_val(y);
        assert(spec_be_bytes(v, x.len()) == spec_be_bytes(spec_be_val(y), (x.len() - 1) as nat)
            + seq![(v % 256) as u8]);
        assert(spec_be_bytes(v, x.len()) =~= x);
    }
}

proof fn lemma_parse_head_canon(b: Seq<u8>, i: int)
    ensures
        spec_parse_head(b, i) matches Some((m, n, j)) ==> i < j <= b.len() && b.subrange(i, j)
            == spec_head(m, n),
{
    lemma_head_div_mod(b, i);
    assert(spec_pow256(0) == 1);
    assert(spec_pow256(1) == 256);
    assert(spec_pow256(2) == 65536);
    assert(spec_pow256(3) == 0x100_0000);
    assert(spec_pow256(4) == 0x1_0000_0000);
    assert(spec_pow256(5) == 0x100_0000_0000);
    assert(spec_pow256(6) == 0x1_0000_0000_0000);
    assert(spec_pow256(7) == 0x100_0000_0000_0000);
    assert(spec_pow256(8) == 0x1_0000_0000_0000_0000);
    match spec_parse_head(b, i) {
        Some((m, n, j)) => {
            let info = b[i] % 32;
            if info < 24 {
                assert(b[i] == (m * 32 + n) as u8);
                assert(b.subrange(i, i + 1) =~= spec_head(m, n));
            } else if info == 24 {
                assert(b[i] == (m * 32 + 24) as u8);
                assert(spec_be_bytes(n, 1) == spec_be_bytes(n / 256, 0) + seq![(n % 256) as u8]);
                assert(n % 256 == n && n / 256 == 0) by (nonlinear_arith)
                    requires
                        0 <= n < 256,
                ;
                assert(spec_be_bytes(n, 1) =~= seq![n as u8]);
                assert(b.subrange(i, i + 2) =~= spec_head(m, n));
            } else if info == 25 {
                let x = b.subrange(i + 1, i + 3);
                lemma_be_bytes_val(x);
                lemma_be_val_bound(x);
                assert(spec_pow256(2) == 65536);
                assert(b[i] == (m * 32 + 25) as u8);
                assert(b.subrange(i, i + 3) =~= seq![b[i]] + x);
                assert(spec_head(m, n) == seq![(m * 32 + 25) as u8] + spec_be_bytes(n, 2));
            } else if info == 26 {
                let x = b.subrange(i + 1, i + 5);
                lemma_be_bytes_val(x);
                lemma_be_val_bound(x);
                assert(spec_pow256(2) == 65536);
                assert(spec_pow256(3) == 0x100_0000);
                assert(spec_pow256(4) == 0x1_0000_0000);
                assert(b[i] == (m * 32 + 26) as u8);
                assert(b.subrange(i, i + 5) =~= seq![b[i]] + x);
                assert(spec_head(m, n) == seq![(m * 32 + 26) as u8] + spec_be_bytes(n, 4));
            } else {
                let x = b.subrange(i + 1, i + 9);
                lemma_be_bytes_val(x);
                lemma_be_val_bound(x);
                assert(spec_pow256(2) == 65536);
                assert(spec_pow256(3) == 0x100_0000);
                assert(spec_pow256(4) == 0x1_0000_0000);
                assert(spec_pow256(5) == 0x100_0000_0000);
                assert(spec_pow256(6) == 0x1_0000_0000_0000);
                assert(spec_pow256(7) == 0x100_0000_0000_0000);
                assert(spec_pow256(8) == 0x1_0000_0000_0000_0000);
                assert(b[i] == (m * 32 + 27) as u8);
                assert(b.subrange(i, i + 9) =~= seq![b[i]] + x);
                assert(spec_head(m, n) == seq![(m * 32 + 27) as u8] + spec_be_bytes(n, 8));
            }
        },
        None => {},
    }
}

proof fn lemma_head_div_mod(b: Seq<u8>, i: int)
    ensures
        spec_parse_head(b, i) matches Some((m, n, j)) ==> {
            let info = b[i] % 32;
            m < 8 && info < 28 && b[i] == m * 32 + info
        },
{
    if 0 <= i < b.len() {
        let m = b[i] / 32;
        let info = b[i] % 32;
        assert(m < 8 && info < 32 && b[i] == m * 32 + info) by (nonlinear_arith)
            requires
                m == b[i] / 32,
                info == b[i] % 32,
                0 <= b[i] < 256,
        ;
    }
}

proof fn lemma_parse_text_canon(b: Seq<u8>, i: int)
    ensures
        spec_parse_text(b, i) matches Some((s, j)) ==> i < j <= b.len() && b.subrange(i, j)
            == spec_text(s),
{
    lemma_parse_head_canon(b, i);
    match spec_parse_head(b, i) {
        Some((m, n, jh)) => {
            if m == 3 && jh + n <= b.len() {
                let s = b.subrange(jh, jh + n);
                assert(b.subrange(i, jh + n) =~= b.subrange(i, jh) + s);
            }
        },
        None => {},
    }
}

#[verifier::rlimit(100)]
#[verifier::spinoff_prover]
proof fn lemma_parse_fieldset_canon(b: Seq<u8>, i: int)
    ensures
        spec_parse_fieldset(b, i) matches Some((f, j)) ==> i < j <= b.len() && b.subrange(i, j)
            == spec_enc_fieldset(f),
{
    lemma_parse_head_canon(b, i);
    match spec_parse_head(b, i) {
        Some((m, n, j0)) => {
            if m == 5 && n == 4 {
                lemma_parse_text_canon(b, j0);
                match spec_parse_text(b, j0) {
                    Some((k1, p1)) => {
                        lemma_parse_text_canon(b, p1);
                        match spec_parse_text(b, p1) {
                            Some((v1, p2)) => {
                                lemma_parse_text_canon(b, p2);
                                match spec_parse_text(b, p2) {
                                    Some((k2, p3)) => {
                                        lemma_parse_text_canon(b, p3);
                                        match spec_parse_text(b, p3) {
                                            Some((v2, p4)) => {
                                                lemma_parse_text_canon(b, p4);
                                                match spec_parse_text(b, p4) {
                                                    Some((k3, p5)) => {
                                                        lemma_parse_text_canon(b, p5);
                                                        match spec_parse_text(b, p5) {
                                                            Some((v3, p6)) => {
                                                                lemma_parse_text_canon(b, p6);
                                                                match spec_parse_text(b, p6) {
                                                                    Some((k4, p7)) => {
                                                                        lemma_parse_text_canon(
                                                                            b,
                                                                            p7,
                                                                        );
                                                                        match spec_parse_text(
                                                                            b,
                                                                            p7,
                                                                        ) {
                                                                            Some((v4, p8)) => {
                                                                                assert(b.subrange(
                                                                                    i,
                                                                                    p8,
                                                                                ) =~= b.subrange(
                                                                                    i,
                                                                                    j0,
                                                                                ) + b.subrange(
                                                                                    j0,
                                                                                    p1,
                                                                                ) + b.subrange(
                                                                                    p1,
                                                                                    p2,
                                                                                ) + b.subrange(
                                                                                    p2,
                                                                                    p3,
                                                                                ) + b.subrange(
                                                                                    p3,
                                                                                    p4,
                                                                                ) + b.subrange(
                                                                                    p4,
                                                                                    p5,
                                                                                ) + b.subrange(
                                                                                    p5,
                                                                                    p6,
                                                                                ) + b.subrange(
                                                                                    p6,
                                                                                    p7,
                                                                                ) + b.subrange(
                                                                                    p7,
                                                                                    p8,
                                                                                ));
                                                                            },
                                                                            None => {},
                                                                        }
                                                                    },
                                                                    None => {},
                                                                }
                                                            },
                                                            None => {},
                                                        }
                                                    },
                                                    None => {},
                                                }
                                            },
                                            None => {},
                                        }
                                    },
                                    None => {},
                                }
                            },
                            None => {},
                        }
                    },
                    None => {},
                }
            }
        },
        None => {},
    }
}

#[verifier::rlimit(100)]
#[verifier::spinoff_prover]
proof fn lemma_parse_entries_canon(b: Seq<u8>, i: int, n: nat)
    requires
        0 <= i <= b.len(),
    ensures
        spec_parse_entries(b, i, n) matches Some((c, j)) ==> i <= j <= b.len() && b.subrange(i, j)
            == spec_enc_entries(c),
    decreases n,
{
    if n == 0 {
        match spec_parse_entries(b, i, n) {
            Some((c, j)) => {
                assert(c =~= Seq::<(Seq<u8>, FieldSetView)>::empty());
                assert(spec_enc_entries(c) =~= Seq::<u8>::empty());
                if 0 <= i <= b.len() {
                    assert(b.subrange(i, i) =~= Seq::<u8>::empty());
                }
            },
            None => {},
        }
    } else {
        match spec_parse_text(b, i) {
            Some((name, j)) => {
                lemma_parse_text_canon(b, i);
                match spec_parse_fieldset(b, j) {
                    Some((f, j2)) => {
                        lemma_parse_fieldset_canon(b, j);
                        lemma_parse_entries_canon(b, j2, (n - 1) as nat);
                        match spec_parse_entries(b, j2, (n - 1) as nat) {
                            Some((rest, j3)) => {
                                lemma_entries_canon_step(b, i, j, j2, j3, name, f, rest);
                            },
                            None => {},
                        }
                    },
                    None => {},
                }
            },
            None => {},
        }
    }
}

proof fn lemma_entries_canon_step(
    b: Seq<u8>,
    i: int,
    j: int,
    j2: int,
    j3: int,
    name: Seq<u8>,
    f: FieldSetView,
    rest: ContainerView,
)
    requires
        0 <= i <= j <= j2 <= j3 <= b.len(),
        b.subrange(i, j) == spec_text(name),
        b.subrange(j, j2) == spec_enc_fieldset(f),
        b.subrange(j2, j3) == spec_enc_entries(rest),
    ensures
        b.subrange(i, j3) == spec_enc_entries(seq![(name, f)] + rest),
{
    let c = seq![(name, f)] + rest;
    assert(c.first() == (name, f));
    assert(c.drop_first() =~= rest);
    assert(spec_enc_entries(c) == spec_text(name) + spec_enc_fieldset(f) + spec_enc_entries(
        rest,
    ));
    assert(b.subrange(i, j2) =~= b.subrange(i, j) + b.subrange(j, j2));
    assert(b.subrange(i, j3) =~= b.subrange(i, j2) + b.subrange(j2, j3));
}

/// Canonicity: any byte string the decoder accepts is exactly the encoding
/// of the container it decodes to. With the round-trip law, encoding is a
/// bijection between well-formed containers and accepted byte strings.
pub proof fn lemma_dec_canonical(b: Seq<u8>)
    ensures
        spec_dec_container(b) matches Some(c) ==> spec_enc_container(c) == b,
{
    lemma_parse_head_canon(b, 0);
    match spec_parse_head(b, 0) {
        Some((m, n, j)) => {
            if m == 5 {
                lemma_parse_entries_canon(b, j, n);
                match spec_parse_entries(b, j, n) {
                    Some((c, end)) => {
                        if end == b.len() && spec_unique_keys(c) {
                            lemma_parse_entries_wf(b, j, n);
                            assert(b.subrange(0, b.len() as int) =~= b);
                            assert(b =~= b.subrange(0, j) + b.subrange(j, end));
                        }
                    },
                    None => {},
                }
            }
        },
        None => {},
    }
}

// ---------------------------------------------------------------------------
// Whatever parses is well-formed: every count read from a canonical header
// fits eight bytes, so decoded containers can always be re-encoded.
// ---------------------------------------------------------------------------

proof fn lemma_parse_head_bound(b: Seq<u8>, i: int)
    ensures
        spec_parse_head(b, i) matches Some((m, n, j)) ==> n < 0x1_0000_0000_0000_0000 && i < j
            <= b.len(),
{
    assert(spec_pow256(0) == 1);
    assert(spec_pow256(1) == 256);
    assert(spec_pow256(2) == 65536);
    assert(spec_pow256(3) == 0x100_0000);
    assert(spec_pow256(4) == 0x1_0000_0000);
    assert(spec_pow256(5) == 0x100_0000_0000);
    assert(spec_pow256(6) == 0x1_0000_0000_0000);
    assert(spec_pow256(7) == 0x100_0000_0000_0000);
    assert(spec_pow256(8) == 0x1_0000_0000_0000_0000);
    if spec_parse_head(b, i) is Some {
        let info = b[i] % 32;
        if info == 25 {
            lemma_be_val_bound(b.subrange(i + 1, i + 3));
            lemma_pow256_le(2, 8);
        } else if info == 26 {
            lemma_be_val_bound(b.subrange(i + 1, i + 5));
            lemma_pow256_le(4, 8);
        } else if info == 27 {
            lemma_be_val_bound(b.subrange(i + 1, i + 9));
        }
    }
}

proof fn lemma_parse_text_bound(b: Seq<u8>, i: int)
    ensures
        spec_parse_text(b, i) matches Some((s, j)) ==> s.len() < 0x1_0000_0000_0000_0000 && i < j
            <= b.len(),
{
    lemma_parse_head_bound(b, i);
}

proof fn lemma_parse_fieldset_wf(b: Seq<u8>, i: int)
    ensures
        spec_parse_fieldset(b, i) matches Some((f, j)) ==> spec_wf_fieldset(f) && i < j
            <= b.len(),
{
    lemma_parse_head_bound(b, i);
    match spec_parse_head(b, i) {
        Some((m, n, j0)) => {
            lemma_parse_text_bound(b, j0);
            match spec_parse_text(b, j0) {
                Some((k1, p1)) => {
                    lemma_parse_text_bound(b, p1);
                    match spec_parse_text(b, p1) {
                        Some((v1, p2)) => {
                            lemma_parse_text_bound(b, p2);
                            match spec_parse_text(b, p2) {
                                Some((k2, p3)) => {
                                    lemma_parse_text_bound(b, p3);
                                    match spec_parse_text(b, p3) {
                                        Some((v2, p4)) => {
                                            lemma_parse_text_bound(b, p4);
                                            match spec_parse_text(b, p4) {
                                                Some((k3, p5)) => {
                                                    lemma_parse_text_bound(b, p5);
                                                    match spec_parse_text(b, p5) {
                                                        Some((v3, p6)) => {
                                                            lemma_parse_text_bound(b, p6);
                                                            match spec_parse_text(b, p6) {
                                                                Some((k4, p7)) => {
                                                                    lemma_parse_text_bound(b, p7);
                                                                },
                                                                None => {},
                                                            }
                                                        },
                                                        None => {},
                                                    }
                                                },
                                                None => {},
                                            }
                                        },
                                        None => {},
                                    }
                                },
                                None => {},
                            }
                        },
                        None => {},
                    }
                },
                None => {},
            }
        },
        None => {},
    }
}

proof fn lemma_parse_entries_wf(b: Seq<u8>, i: int, n: nat)
    ensures
        spec_parse_entries(b, i, n) matches Some((c, j)) ==> c.len() == n && i <= j && (forall|
            t: int,
        |
            0 <= t < c.len() ==> (#[trigger] c[t]).0.len() < 0x1_0000_0000_0000_0000
                && spec_wf_fieldset(c[t].1)),
    decreases n,
{
    if n == 0 {
    } else {
        match spec_parse_text(b, i) {
            Some((name, j)) => {
                lemma_parse_text_bound(b, i);
                match spec_parse_fieldset(b, j) {
                    Some((f, j2)) => {
                        lemma_parse_fieldset_wf(b, j);
                        lemma_parse_entries_wf(b, j2, (n - 1) as nat);
                        match spec_parse_entries(b, j2, (n - 1) as nat) {
                            Some((rest, j3)) => {
                                let c = seq![(name, f)] + rest;
                                assert(c[0] == (name, f));
                                assert(forall|t: int|
                                    1 <= t < c.len() ==> #[trigger] c[t] == rest[t - 1]);
                            },
                            None => {},
                        }
                    },
                    None => {},
                }
            },
            None => {},
        }
    }
}

/// Whatever `spec_dec_container` accepts is a well-formed container: its
/// names are unique and every count fits the wire form, so it can be
/// re-encoded.
pub proof fn lemma_dec_wf(b: Seq<u8>)
    ensures
        spec_dec_container(b) matches Some(c) ==> spec_wf_container(c),
{
    lemma_parse_head_bound(b, 0);
    match spec_parse_head(b, 0) {
        Some((m, n, j)) => {
            lemma_parse_entries_wf(b, j, n);
        },
        None => {},
    }
}

proof fn lemma_parse_pairs_wf(b: Seq<u8>, i: int, n: nat)
    ensures
        spec_parse_pairs(b, i, n) matches Some((ps, j)) ==> ps.len() == n && (forall|t: int|
            0 <= t < ps.len() ==> (#[trigger] ps[t]).0.len() < 0x1_0000_0000_0000_0000 && ps[
                t
            ].1.len() < 0x1_0000_0000_0000_0000),
    decreases n,
{
    if n == 0 {
    } else {
        match spec_parse_text(b, i) {
            Some((k, j)) => {
                lemma_parse_text_bound(b, i);
                match spec_parse_text(b, j) {
                    Some((v, j2)) => {
                        lemma_parse_text_bound(b, j);
                        lemma_parse_pairs_wf(b, j2, (n - 1) as nat);
                        match spec_parse_pairs(b, j2, (n - 1) as nat) {
                            Some((rest, j3)) => {
                                let ps = seq![(k, v)] + rest;
                                assert(ps[0] == (k, v));
                                assert(forall|t: int|
                                    1 <= t < ps.len() ==> #[trigger] ps[t] == rest[t - 1]);
                            },
                            None => {},
                        }
                    },
                    None => {},
                }
            },
            None => {},
        }
    }
}

/// Whatever `spec_dec_pairs` accepts is a well-formed map of pairs: every
/// key and value fits the wire form.
pub proof fn lemma_dec_pairs_wf(b: Seq<u8>)
    ensures
        spec_dec_pairs(b) matches Some(ps) ==> spec_wf_pairs(ps),
{
    lemma_parse_head_bound(b, 0);
    match spec_parse_head(b, 0) {
        Some((m, n, j)) => {
            lemma_parse_pairs_wf(b, j, n);
        },
        None => {},
    }
}

/// Decoding is the exact inverse of encoding: every well-formed container is
/// read back unchanged from its wire form.
pub proof fn lemma_decode_encode(c: ContainerView)
    requires
        spec_wf_container(c),
    ensures
        spec_dec_container(spec_enc_container(c)) == Some(c),
{
    let b = spec_enc_container(c);
    let h = spec_head(5, c.len());
    let e = spec_enc_entries(c);
    assert(b.subrange(0, b.len() as int) =~= b);
    lemma_split_match(b, 0, h, e);
    lemma_parse_head_enc(b, 0, 5, c.len());
    lemma_parse_entries_enc(b, h.len() as int, c);
}

/// Round-trip law for one stored record: decoding the encoding of a
/// container that stores `fields` under `name` yields a container in which
/// `name` still maps to exactly `fields`.
pub proof fn lemma_single_record_round_trip(name: Seq<u8>, fields: FieldSetView)
    requires
        name.len() < 0x1_0000_0000_0000_0000,
        spec_wf_fieldset(fields),
    ensures
        spec_dec_container(spec_enc_container(seq![(name, fields)])) == Some(
            seq![(name, fields)],
        ),
        spec_find(seq![(name, fields)], name) == Some(fields),
{
    let c: ContainerView = seq![(name, fields)];
    assert(spec_wf_container(c));
    lemma_decode_encode(c);
    assert(c.first() == (name, fields));
}

} // verus!
