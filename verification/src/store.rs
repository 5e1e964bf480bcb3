//! The in-memory secret store: an ordered mapping from non-empty entry
//! names to entry texts, with dirty tracking and sorted listing.
use vstd::prelude::*;
use crate::PwmanError;
use crate::codec::all_encodable;
use crate::codec::encode_records;
use crate::codec::encode_recs;
use crate::codec::lemma_parse_encode;
use crate::codec::parse_records;
use crate::codec::parse_recs;
use crate::envelope::NONCE_LEN;
use crate::envelope::SALT_LEN;
use crate::envelope::env_parse;
use crate::envelope::lemma_env_round_trip;
use crate::envelope::open;
use crate::envelope::seal;
use crate::envelope::seal_spec;
use crate::envelope::sealed_wf;
use crate::crypto::GCM_P_MAX;
use crate::crypto::gcm_seal_bytes;
use crate::kdf::derived_key;
use vstd::utf8::encode_utf8;
use crate::kdf::KdfId;
use crate::strorder::StrOrd;
use crate::strorder::lemma_lex_transitive;
use crate::strorder::lemma_lex_trichotomy;
use crate::strorder::lex_lt;
use crate::strorder::str_cmp;

verus! {

/// One named entry: a name and its secret text.
#[derive(Debug)]
pub struct KvEntry {
    pub key: String,
    pub value: String,
}

impl View for KvEntry {
    type V = (Seq<char>, Seq<char>);

    open spec fn view(&self) -> (Seq<char>, Seq<char>) {
        (self.key@, self.value@)
    }
}

impl KvEntry {
    /// A fresh entry holding copies of the given name and text.
    pub fn new(k: &String, v: &String) -> (e: KvEntry)
        ensures
            e@ == (k@, v@),
    {
        KvEntry { key: k.clone(), value: v.clone() }
    }
}

/// The mapping a record sequence describes; a later record with the same
/// name overrides an earlier one.
pub open spec fn map_of(s: Seq<(Seq<char>, Seq<char>)>) -> Map<Seq<char>, Seq<char>>
    decreases s.len(),
{
    if s.len() == 0 {
        Map::empty()
    } else {
        map_of(s.drop_last()).insert(s.last().0, s.last().1)
    }
}

/// No two records of `s` share a name.
pub open spec fn unique_keys(s: Seq<(Seq<char>, Seq<char>)>) -> bool {
    forall|i: int, j: int| 0 <= i < j < s.len() ==> (#[trigger] s[i]).0 != (#[trigger] s[j]).0
}

/// `map_of(s)` holds a name exactly when some record of `s` carries it.
pub proof fn lemma_map_of_contains(s: Seq<(Seq<char>, Seq<char>)>, k: Seq<char>)
    ensures
        map_of(s).contains_key(k) <==> exists|i: int| 0 <= i < s.len() && (#[trigger] s[i]).0 == k,
    decreases s.len(),
{
    if s.len() == 0 {
    } else {
        lemma_map_of_contains(s.drop_last(), k);
        if s.last().0 == k {
            assert((s[s.len() - 1]).0 == k);
        } else {
            assert forall|i: int| 0 <= i < s.len() && (#[trigger] s[i]).0 == k implies map_of(
                s,
            ).contains_key(k) by {
                assert(i < s.len() - 1);
                assert(s.drop_last()[i] == s[i]);
            }
            if map_of(s).contains_key(k) {
                let i = choose|i: int| 0 <= i < s.drop_last().len() && (#[trigger] s.drop_last()[i]).0 == k;
                assert((s[i]).0 == k);
            }
        }
    }
}

/// The domain of `map_of(s)` is finite.
pub proof fn lemma_map_of_finite(s: Seq<(Seq<char>, Seq<char>)>)
    ensures
        map_of(s).dom().finite(),
    decreases s.len(),
{
    if s.len() == 0 {
    } else {
        lemma_map_of_finite(s.drop_last());
    }
}

/// With pairwise distinct names the mapping has one key per record.
pub proof fn lemma_map_of_len(s: Seq<(Seq<char>, Seq<char>)>)
    requires
        unique_keys(s),
    ensures
        map_of(s).dom().finite(),
        map_of(s).len() == s.len(),
    decreases s.len(),
{
    lemma_map_of_finite(s);
    if s.len() == 0 {
    } else {
        assert(unique_keys(s.drop_last())) by {
            assert forall|i: int, j: int|
                0 <= i < j < s.drop_last().len() implies (#[trigger] s.drop_last()[i]).0 != (
            #[trigger] s.drop_last()[j]).0 by {
                assert(s.drop_last()[i] == s[i]);
                assert(s.drop_last()[j] == s[j]);
            }
        }
        lemma_map_of_len(s.drop_last());
        lemma_map_of_contains(s.drop_last(), s.last().0);
        assert(!map_of(s.drop_last()).contains_key(s.last().0)) by {
            if exists|i: int|
                0 <= i < s.drop_last().len() && (#[trigger] s.drop_last()[i]).0 == s.last().0 {
                let i = choose|i: int|
                    0 <= i < s.drop_last().len() && (#[trigger] s.drop_last()[i]).0 == s.last().0;
                assert((s[i]).0 == (s[s.len() - 1]).0);
            }
        }
    }
}

/// With pairwise distinct names, record `i` gives the value of its name.
pub proof fn lemma_map_of_index(s: Seq<(Seq<char>, Seq<char>)>, i: int)
    requires
        unique_keys(s),
        0 <= i < s.len(),
    ensures
        map_of(s).contains_key(s[i].0),
        map_of(s)[s[i].0] == s[i].1,
    decreases s.len(),
{
    if i == s.len() - 1 {
    } else {
        assert(unique_keys(s.drop_last())) by {
            assert forall|x: int, y: int|
                0 <= x < y < s.drop_last().len() implies (#[trigger] s.drop_last()[x]).0 != (
            #[trigger] s.drop_last()[y]).0 by {
                assert(s.drop_last()[x] == s[x]);
                assert(s.drop_last()[y] == s[y]);
            }
        }
        assert(s.drop_last()[i] == s[i]);
        lemma_map_of_index(s.drop_last(), i);
        assert((s[i]).0 != (s[s.len() - 1]).0);
    }
}

/// Replacing the text of record `i` updates exactly that name's value.
pub proof fn lemma_map_of_update(s: Seq<(Seq<char>, Seq<char>)>, i: int, v: Seq<char>)
    requires
        unique_keys(s),
        0 <= i < s.len(),
    ensures
        map_of(s.update(i, (s[i].0, v))) == map_of(s).insert(s[i].0, v),
    decreases s.len(),
{
    let s2 = s.update(i, (s[i].0, v));
    if i == s.len() - 1 {
        assert(s2.drop_last() =~= s.drop_last());
        assert(map_of(s2) =~= map_of(s).insert(s[i].0, v));
    } else {
        assert(unique_keys(s.drop_last())) by {
            assert forall|x: int, y: int|
                0 <= x < y < s.drop_last().len() implies (#[trigger] s.drop_last()[x]).0 != (
            #[trigger] s.drop_last()[y]).0 by {
                assert(s.drop_last()[x] == s[x]);
                assert(s.drop_last()[y] == s[y]);
            }
        }
        assert(s.drop_last()[i] == s[i]);
        lemma_map_of_update(s.drop_last(), i, v);
        assert(s2.drop_last() =~= s.drop_last().update(i, (s[i].0, v)));
        assert(s2.last() == s.last());
        assert((s[i]).0 != (s[s.len() - 1]).0);
        assert(map_of(s2) =~= map_of(s).insert(s[i].0, v));
    }
}

/// Inserting a record with a fresh name at any position adds exactly
/// that name to the mapping.
pub proof fn lemma_map_of_insert_at(
    s: Seq<(Seq<char>, Seq<char>)>,
    i: int,
    k: Seq<char>,
    v: Seq<char>,
)
    requires
        0 <= i <= s.len(),
        forall|m: int| 0 <= m < s.len() ==> (#[trigger] s[m]).0 != k,
    ensures
        map_of(s.insert(i, (k, v))) == map_of(s).insert(k, v),
    decreases s.len(),
{
    let s2 = s.insert(i, (k, v));
    if i == s.len() {
        assert(s2.drop_last() =~= s);
        assert(s2.last() == (k, v));
    } else {
        assert(s2.last() == s.last());
        assert(s2.drop_last() =~= s.drop_last().insert(i, (k, v)));
        assert(forall|m: int|
            0 <= m < s.drop_last().len() ==> (#[trigger] s.drop_last()[m]).0 != k) by {
            assert(forall|m: int|
                0 <= m < s.drop_last().len() ==> s.drop_last()[m] == (#[trigger] s[m]));
        }
        lemma_map_of_insert_at(s.drop_last(), i, k, v);
        assert((s[s.len() - 1]).0 != k);
        assert(map_of(s2) =~= map_of(s).insert(k, v));
    }
}

/// Removing record `i` removes exactly its name from the mapping.
pub proof fn lemma_map_of_remove_at(s: Seq<(Seq<char>, Seq<char>)>, i: int)
    requires
        unique_keys(s),
        0 <= i < s.len(),
    ensures
        map_of(s.remove(i)) == map_of(s).remove(s[i].0),
    decreases s.len(),
{
    let s2 = s.remove(i);
    if i == s.len() - 1 {
        assert(s2 =~= s.drop_last());
        lemma_map_of_contains(s.drop_last(), s[i].0);
        assert(!map_of(s.drop_last()).contains_key(s[i].0)) by {
            if exists|m: int|
                0 <= m < s.drop_last().len() && (#[trigger] s.drop_last()[m]).0 == s[i].0 {
                let m = choose|m: int|
                    0 <= m < s.drop_last().len() && (#[trigger] s.drop_last()[m]).0 == s[i].0;
                assert((s[m]).0 == (s[i]).0);
            }
        }
        assert(map_of(s2) =~= map_of(s).remove(s[i].0));
    } else {
        assert(unique_keys(s.drop_last())) by {
            assert forall|x: int, y: int|
                0 <= x < y < s.drop_last().len() implies (#[trigger] s.drop_last()[x]).0 != (
            #[trigger] s.drop_last()[y]).0 by {
                assert(s.drop_last()[x] == s[x]);
                assert(s.drop_last()[y] == s[y]);
            }
        }
        assert(s.drop_last()[i] == s[i]);
        lemma_map_of_remove_at(s.drop_last(), i);
        assert(s2.drop_last() =~= s.drop_last().remove(i));
        assert(s2.last() == s.last());
        assert((s[i]).0 != (s[s.len() - 1]).0);
        assert(map_of(s2) =~= map_of(s).remove(s[i].0));
    }
}

/// A store's view is exactly the mapping its stored records describe.
pub proof fn lemma_view_is_map_of_rec_seq(j: Jots)
    ensures
        j@ == map_of(j.rec_seq()),
{
}

/// The secret store: entries held in ascending name order, a dirty flag,
/// and the key-derivation algorithm bound to this store's persistence.
pub struct Jots {
    entries: Vec<KvEntry>,
    /// The algorithm used when this store is next sealed.
    pub kdf_id: KdfId,
    dirty: bool,
}

impl View for Jots {
    type V = Map<Seq<char>, Seq<char>>;

    closed spec fn view(&self) -> Map<Seq<char>, Seq<char>> {
        map_of(self.rec_seq())
    }
}

impl Jots {
    /// The records as stored, in listing order.
    pub closed spec fn rec_seq(self) -> Seq<(Seq<char>, Seq<char>)> {
        self.entries@.map_values(|e: KvEntry| e@)
    }

    /// The entry names, in listing order.
    pub open spec fn names(self) -> Seq<Seq<char>> {
        self.rec_seq().map_values(|r: (Seq<char>, Seq<char>)| r.0)
    }

    /// The dirty flag: whether the store has unsaved mutations.
    pub closed spec fn spec_dirty(self) -> bool {
        self.dirty
    }

    /// The derivation algorithm bound to this store's persistence.
    pub closed spec fn spec_kdf_id(self) -> KdfId {
        self.kdf_id
    }

    /// Well-formed: names strictly ascending (hence unique) and non-empty.
    pub closed spec fn wf(self) -> bool {
        &&& forall|i: int, j: int|
            0 <= i < j < self.rec_seq().len() ==> lex_lt(
                (#[trigger] self.rec_seq()[i]).0,
                (#[trigger] self.rec_seq()[j]).0,
            )
        &&& forall|i: int| 0 <= i < self.rec_seq().len() ==> (#[trigger] self.rec_seq()[i]).0.len() > 0
    }

    proof fn lemma_wf_unique(self)
        requires
            self.wf(),
        ensures
            unique_keys(self.rec_seq()),
    {
        assert forall|i: int, j: int|
            0 <= i < j < self.rec_seq().len() implies (#[trigger] self.rec_seq()[i]).0 != (
        #[trigger] self.rec_seq()[j]).0 by {
            lemma_lex_trichotomy(self.rec_seq()[i].0, self.rec_seq()[j].0);
        }
    }

    /// An empty, clean store bound to the given derivation algorithm.
    pub fn new(kdf_id: KdfId) -> (r: Jots)
        ensures
            r.wf(),
            r@ == Map::<Seq<char>, Seq<char>>::empty(),
            !r.spec_dirty(),
            r.spec_kdf_id() == kdf_id,
            r.rec_seq() == Seq::<(Seq<char>, Seq<char>)>::empty(),
    {
        let r = Jots { entries: Vec::new(), kdf_id, dirty: false };
        proof {
            assert(r.rec_seq() =~= Seq::<(Seq<char>, Seq<char>)>::empty());
        }
        r
    }

    /// An empty, clean store bound to the given derivation algorithm.
    pub fn new_id(kdf_id: KdfId) -> (r: Jots)
        ensures
            r.wf(),
            r@ == Map::<Seq<char>, Seq<char>>::empty(),
            !r.spec_dirty(),
            r.spec_kdf_id() == kdf_id,
    {
        Jots::new(kdf_id)
    }

    /// Whether the store has mutations not yet confirmed as persisted.
    pub fn is_dirty(&self) -> (r: bool)
        ensures
            r == self.spec_dirty(),
    {
        self.dirty
    }

    /// Clears the dirty flag; to be called only by the persistence layer
    /// after a confirmed successful read or write.
    pub fn mark_as_clean(&mut self)
        ensures
            !final (self).spec_dirty(),
            final (self)@ == old(self)@,
            final (self).rec_seq() == old(self).rec_seq(),
            final (self).spec_kdf_id() == old(self).spec_kdf_id(),
            final (self).wf() == old(self).wf(),
    {
        self.dirty = false;
    }

    /// The number of entries.
    pub fn len(&self) -> (r: usize)
        requires
            self.wf(),
        ensures
            r == self@.len(),
    {
        proof {
            self.lemma_wf_unique();
            lemma_map_of_len(self.rec_seq());
        }
        self.entries.len()
    }

    /// Finds the position for name `k`: the index of the first entry whose
    /// name is not below `k`, and whether that entry carries `k` itself.
    #[verifier::loop_isolation(false)]
    fn find_slot(&self, k: &str) -> (r: (usize, bool))
        requires
            self.wf(),
        ensures
            r.0 <= self.rec_seq().len(),
            forall|j: int| 0 <= j < r.0 ==> lex_lt((#[trigger] self.rec_seq()[j]).0, k@),
            r.1 <==> (r.0 < self.rec_seq().len() && self.rec_seq()[r.0 as int].0 == k@),
            !r.1 && r.0 < self.rec_seq().len() ==> lex_lt(k@, self.rec_seq()[r.0 as int].0),
    {
        let n = self.entries.len();
        let mut i: usize = 0;
        loop
            invariant
                i <= n,
                forall|j: int| 0 <= j < i ==> lex_lt((#[trigger] self.rec_seq()[j]).0, k@),
            decreases n - i,
        {
            if i == n {
                return (i, false);
            }
            match str_cmp(self.entries[i].key.as_str(), k) {
                StrOrd::Less => {
                    i = i + 1;
                },
                StrOrd::Equal => {
                    return (i, true);
                },
                StrOrd::Greater => {
                    return (i, false);
                },
            }
        }
    }

    /// Every name below position `i` differs from `k`, every name at or
    /// above it likewise: `k` is absent.
    proof fn lemma_absent(self, k: Seq<char>, i: int)
        requires
            self.wf(),
            0 <= i <= self.rec_seq().len(),
            forall|j: int| 0 <= j < i ==> lex_lt((#[trigger] self.rec_seq()[j]).0, k),
            i < self.rec_seq().len() ==> lex_lt(k, self.rec_seq()[i].0),
        ensures
            !self@.contains_key(k),
            forall|m: int| 0 <= m < self.rec_seq().len() ==> (#[trigger] self.rec_seq()[m]).0 != k,
    {
        assert forall|m: int|
            0 <= m < self.rec_seq().len() implies (#[trigger] self.rec_seq()[m]).0 != k by {
            if m < i {
                lemma_lex_trichotomy(self.rec_seq()[m].0, k);
            } else {
                if m > i {
                    lemma_lex_transitive(k, self.rec_seq()[i].0, self.rec_seq()[m].0);
                }
                lemma_lex_trichotomy(k, self.rec_seq()[m].0);
            }
        }
        lemma_map_of_contains(self.rec_seq(), k);
    }

    /// The text stored under `k`, if any; no mutation, no dirty effect.
    pub fn get(&self, k: &String) -> (r: Option<String>)
        requires
            self.wf(),
        ensures
            r is Some <==> self@.contains_key(k@),
            r is Some ==> r->0@ == self@[k@],
    {
        let (i, found) = self.find_slot(k.as_str());
        if found {
            proof {
                self.lemma_wf_unique();
                lemma_map_of_index(self.rec_seq(), i as int);
            }
            Some(self.entries[i].value.clone())
        } else {
            proof {
                self.lemma_absent(k@, i as int);
            }
            None
        }
    }

    /// Whether an entry named `k` exists.
    pub fn entry_exists(&self, k: &String) -> (r: bool)
        requires
            self.wf(),
        ensures
            r == self@.contains_key(k@),
    {
        match self.get(k) {
            None => false,
            Some(_) => true,
        }
    }

    /// Unconditional create-or-overwrite; marks the store dirty. This is
    /// the raw primitive underneath `add` and `rename`.
    pub fn insert(&mut self, k: &String, v: &String)
        requires
            old(self).wf(),
            k@.len() > 0,
        ensures
            final (self).wf(),
            final (self)@ == old(self)@.insert(k@, v@),
            final (self).spec_dirty(),
            final (self).spec_kdf_id() == old(self).spec_kdf_id(),
    {
        let (i, found) = self.find_slot(k.as_str());
        let ghost s = self.rec_seq();
        proof {
            self.lemma_wf_unique();
        }
        let e = KvEntry::new(k, v);
        if found {
            let _ = self.entries.remove(i);
            self.entries.insert(i, e);
            proof {
                assert(self.rec_seq() =~= s.update(i as int, (k@, v@)));
                assert((k@, v@) == ((s[i as int]).0, v@));
                lemma_map_of_update(s, i as int, v@);
                assert forall|x: int, y: int|
                    0 <= x < y < self.rec_seq().len() implies lex_lt(
                    (#[trigger] self.rec_seq()[x]).0,
                    (#[trigger] self.rec_seq()[y]).0,
                ) by {
                    assert(self.rec_seq()[x].0 == s[x].0);
                    assert(self.rec_seq()[y].0 == s[y].0);
                }
            }
        } else {
            self.entries.insert(i, e);
            proof {
                assert(self.rec_seq() =~= s.insert(i as int, (k@, v@)));
                let old_self = *old(self);
                old_self.lemma_absent(k@, i as int);
                lemma_map_of_insert_at(s, i as int, k@, v@);
                assert forall|x: int, y: int|
                    0 <= x < y < self.rec_seq().len() implies lex_lt(
                    (#[trigger] self.rec_seq()[x]).0,
                    (#[trigger] self.rec_seq()[y]).0,
                ) by {
                    let sx = self.rec_seq()[x].0;
                    let sy = self.rec_seq()[y].0;
                    if y < i {
                        assert(sx == s[x].0 && sy == s[y].0);
                    } else if y == i {
                        assert(sx == s[x].0 && sy == k@);
                    } else if x == i {
                        assert(sx == k@ && sy == s[y - 1].0);
                        if y - 1 > i {
                            lemma_lex_transitive(k@, s[i as int].0, s[y - 1].0);
                        }
                    } else if x < i {
                        assert(sx == s[x].0 && sy == s[y - 1].0);
                    } else {
                        assert(sx == s[x - 1].0 && sy == s[y - 1].0);
                    }
                }
            }
        }
        self.dirty = true;
    }

    /// Deletes the entry named `k` if present (no-op otherwise); marks the
    /// store dirty either way.
    pub fn remove(&mut self, k: &String)
        requires
            old(self).wf(),
        ensures
            final (self).wf(),
            final (self)@ == old(self)@.remove(k@),
            final (self).spec_dirty(),
            final (self).spec_kdf_id() == old(self).spec_kdf_id(),
    {
        let (i, found) = self.find_slot(k.as_str());
        let ghost s = self.rec_seq();
        proof {
            self.lemma_wf_unique();
        }
        if found {
            let _ = self.entries.remove(i);
            proof {
                assert(self.rec_seq() =~= s.remove(i as int));
                lemma_map_of_remove_at(s, i as int);
                assert forall|x: int, y: int|
                    0 <= x < y < self.rec_seq().len() implies lex_lt(
                    (#[trigger] self.rec_seq()[x]).0,
                    (#[trigger] self.rec_seq()[y]).0,
                ) by {
                    let sx = if x < i { s[x].0 } else { s[x + 1].0 };
                    assert(self.rec_seq()[x].0 == sx);
                    let sy = if y < i { s[y].0 } else { s[y + 1].0 };
                    assert(self.rec_seq()[y].0 == sy);
                }
            }
        } else {
            proof {
                let old_self = *old(self);
                old_self.lemma_absent(k@, i as int);
                assert(self@ =~= old(self)@.remove(k@));
            }
        }
        self.dirty = true;
    }

    /// Creates the entry only if no entry named `k` exists and the name is
    /// acceptable; returns false, with the store unchanged (dirty flag
    /// included), when `k` is already present or empty.
    pub fn add(&mut self, k: &String, v: &String) -> (r: bool)
        requires
            old(self).wf(),
        ensures
            final (self).wf(),
            r == (k@.len() > 0 && !old(self)@.contains_key(k@)),
            r ==> final (self)@ == old(self)@.insert(k@, v@) && final (self).spec_dirty(),
            !r ==> *final (self) == *old(self),
            final (self).spec_kdf_id() == old(self).spec_kdf_id(),
    {
        if k.as_str().unicode_len() == 0 {
            return false;
        }
        match self.get(k) {
            None => {
                self.insert(k, v);
                true
            },
            _ => false,
        }
    }

    /// Moves the text of `k_old` to the name `k_new`, keeping the text
    /// unchanged. Fails, leaving the store untouched, unless `k_old`
    /// exists, `k_new` does not, and `k_new` is acceptable.
    pub fn rename(&mut self, k_old: &String, k_new: &String) -> (r: bool)
        requires
            old(self).wf(),
        ensures
            final (self).wf(),
            r == (old(self)@.contains_key(k_old@) && !old(self)@.contains_key(k_new@)
                && k_new@.len() > 0),
            r ==> final (self)@ == old(self)@.remove(k_old@).insert(k_new@, old(self)@[k_old@])
                && final (self).spec_dirty(),
            !r ==> *final (self) == *old(self),
            final (self).spec_kdf_id() == old(self).spec_kdf_id(),
    {
        let contents = match self.get(k_old) {
            None => {
                return false;
            },
            Some(c) => c,
        };
        if k_new.as_str().unicode_len() == 0 {
            return false;
        }
        match self.get(k_new) {
            None => {
                self.remove(k_old);
                self.insert(k_new, &contents);
                true
            },
            _ => false,
        }
    }
}

impl Jots {
    /// Serializes the entries, in listing order, into the canonical
    /// record framing: the plaintext that gets sealed.
    pub fn to_bytes(&self) -> (r: Result<Vec<u8>, PwmanError>)
        requires
            self.wf(),
        ensures
            r is Ok <==> all_encodable(self.rec_seq()),
            r is Ok ==> r->Ok_0@ == encode_recs(self.rec_seq()),
            r is Ok ==> map_of(self.rec_seq()) == self@,
            r is Err ==> r->Err_0 == PwmanError::TooLarge,
    {
        proof {
            assert forall|i: int|
                0 <= i < self.entries@.len() implies (#[trigger] self.entries@[i])@.0.len()
                > 0 by {
                assert(self.rec_seq()[i] == self.entries@[i]@);
            }
            assert(self.rec_seq() == self.entries@.map_values(|e: KvEntry| e@));
        }
        encode_records(&self.entries)
    }

    /// Replaces the whole contents from a record stream, parsed in full
    /// before anything is replaced: a malformed stream leaves contents
    /// and dirty flag untouched. The dirty flag is never changed here;
    /// the persistence layer confirms a load with `mark_as_clean`.
    pub fn from_bytes(&mut self, data: &[u8]) -> (r: Result<(), PwmanError>)
        requires
            old(self).wf(),
        ensures
            final (self).wf(),
            final (self).spec_kdf_id() == old(self).spec_kdf_id(),
            match parse_recs(data@) {
                Some(recs) => r is Ok && final (self)@ == map_of(recs) && final (
                self).spec_dirty() == old(self).spec_dirty(),
                None => r is Err && r->Err_0 == PwmanError::Format && *final (self) == *old(self),
            },
    {
        let recs = match parse_records(data) {
            Err(e) => {
                return Err(e);
            },
            Ok(v) => v,
        };
        let mut tmp = Jots::new(self.kdf_id);
        let ghost recsv = recs@.map_values(|e: KvEntry| e@);
        let n = recs.len();
        let mut i: usize = 0;
        proof {
            assert(recsv.take(0) =~= Seq::<(Seq<char>, Seq<char>)>::empty());
        }
        while i < n
            invariant
                i <= n,
                n == recs@.len(),
                recsv == recs@.map_values(|e: KvEntry| e@),
                forall|m: int| 0 <= m < recs@.len() ==> (#[trigger] recs@[m])@.0.len() > 0,
                tmp.wf(),
                tmp@ == map_of(recsv.take(i as int)),
            decreases n - i,
        {
            let e = &recs[i];
            proof {
                assert(recs@[i as int]@.0.len() > 0);
            }
            tmp.insert(&e.key, &e.value);
            proof {
                assert(recsv.take(i as int + 1).drop_last() =~= recsv.take(i as int));
                assert(recsv.take(i as int + 1).last() == recsv[i as int]);
                assert(recsv[i as int] == recs@[i as int]@);
            }
            i = i + 1;
        }
        proof {
            assert(recsv.take(n as int) =~= recsv);
        }
        self.entries = tmp.entries;
        proof {
            assert(self.rec_seq() == tmp.rec_seq());
        }
        Ok(())
    }

    /// Loads the store from a sealed container: opens it with the
    /// password alone, parses the plaintext records, replaces the
    /// contents and marks the store clean. Any failure leaves the store
    /// exactly as it was; whatever this library sealed under the same
    /// password is recovered entry for entry.
    pub fn from_enc_file(&mut self, data: &[u8], password: &str) -> (r: Result<(), PwmanError>)
        requires
            old(self).wf(),
        ensures
            final (self).wf(),
            final (self).spec_kdf_id() == old(self).spec_kdf_id(),
            r is Err ==> *final (self) == *old(self) && (r->Err_0 == PwmanError::CannotOpen
                || r->Err_0 == PwmanError::Format),
            r is Ok ==> !final (self).spec_dirty(),
            forall|id: KdfId, salt: Seq<u8>, nonce: Seq<u8>, pt: Seq<u8>|
                sealed_wf(id, password@, salt, nonce, pt) && data@ == seal_spec(
                    id,
                    password@,
                    salt,
                    nonce,
                    pt,
                ) && parse_recs(pt) is Some ==> r is Ok && final (self)@ == map_of(
                    parse_recs(pt)->0,
                ),
    {
        let pt = match open(password, data) {
            Err(_) => {
                return Err(PwmanError::CannotOpen);
            },
            Ok(p) => p,
        };
        match self.from_bytes(pt.as_slice()) {
            Err(_) => Err(PwmanError::Format),
            Ok(()) => {
                self.mark_as_clean();
                Ok(())
            },
        }
    }

    /// Serializes and seals the store under the password, with this
    /// store's bound algorithm and a fresh random salt and nonce,
    /// yielding the container bytes. Writing them to durable storage is
    /// the caller's step; the caller confirms a successful write with
    /// `mark_as_clean`.
    pub fn to_enc_file(&self, password: &str) -> (r: Result<Vec<u8>, PwmanError>)
        requires
            self.wf(),
        ensures
            r is Ok ==> all_encodable(self.rec_seq()) && parse_recs(encode_recs(self.rec_seq()))
                == Some(self.rec_seq()) && map_of(self.rec_seq()) == self@,
            r is Ok ==> exists|salt: Seq<u8>, nonce: Seq<u8>|
                sealed_wf(self.spec_kdf_id(), password@, salt, nonce, encode_recs(self.rec_seq()))
                    && r->Ok_0@ == seal_spec(
                    self.spec_kdf_id(),
                    password@,
                    salt,
                    nonce,
                    encode_recs(self.rec_seq()),
                ),
            r is Err ==> r->Err_0 == PwmanError::TooLarge || r->Err_0 == PwmanError::Backend,
            r is Err && r->Err_0 == PwmanError::TooLarge ==> !all_encodable(self.rec_seq())
                || encode_recs(self.rec_seq()).len() > GCM_P_MAX || encode_utf8(password@).len()
                > 0xffff_ffff,
            !all_encodable(self.rec_seq()) ==> r is Err && r->Err_0 == PwmanError::TooLarge,
            (all_encodable(self.rec_seq()) && encode_recs(self.rec_seq()).len() <= GCM_P_MAX
                && encode_utf8(password@).len() <= 0xffff_ffff) ==> (r is Ok || r->Err_0
                == PwmanError::Backend),
    {
        let pt = match self.to_bytes() {
            Err(e) => {
                return Err(e);
            },
            Ok(p) => p,
        };
        let r = seal(password, self.kdf_id, pt.as_slice());
        proof {
            if r is Ok {
                lemma_parse_encode(self.rec_seq());
            }
        }
        r
    }
}


/// Round trip of persistence, as one law: for any records a store can
/// serialize (non-empty names, fields within the length prefix), under
/// any supported algorithm, password, salt and nonce of the framed
/// sizes, the sealed container parses back to exactly its fields, and
/// the serialized plaintext parses back to exactly those records. The
/// one premise about the cipher — that sealing adds a 16-byte tag — is
/// what its wrapper guarantees of every call.
pub proof fn lemma_seal_open_round_trip(
    recs: Seq<(Seq<char>, Seq<char>)>,
    id: KdfId,
    password: Seq<char>,
    salt: Seq<u8>,
    nonce: Seq<u8>,
)
    requires
        all_encodable(recs),
        salt.len() == SALT_LEN,
        nonce.len() == NONCE_LEN,
        gcm_seal_bytes(derived_key(id, encode_utf8(password), salt), nonce, encode_recs(recs)).len()
            == encode_recs(recs).len() + 16,
    ensures
        parse_recs(encode_recs(recs)) == Some(recs),
        env_parse(seal_spec(id, password, salt, nonce, encode_recs(recs))) == Some(
            (
                id,
                salt,
                nonce,
                gcm_seal_bytes(derived_key(id, encode_utf8(password), salt), nonce, encode_recs(recs)),
            ),
        ),
{
    lemma_parse_encode(recs);
    lemma_env_round_trip(
        id,
        salt,
        nonce,
        gcm_seal_bytes(derived_key(id, encode_utf8(password), salt), nonce, encode_recs(recs)),
    );
}


/// Names strictly ascending in listing order.
spec fn sorted_keys(s: Seq<(Seq<char>, Seq<char>)>) -> bool {
    forall|i: int, j: int|
        0 <= i < j < s.len() ==> lex_lt((#[trigger] s[i]).0, (#[trigger] s[j]).0)
}

proof fn lemma_sorted_implies_unique(s: Seq<(Seq<char>, Seq<char>)>)
    requires
        sorted_keys(s),
    ensures
        unique_keys(s),
{
    assert forall|i: int, j: int|
        0 <= i < j < s.len() implies (#[trigger] s[i]).0 != (#[trigger] s[j]).0 by {
        lemma_lex_trichotomy(s[i].0, s[j].0);
    }
}

/// A strictly sorted record sequence is determined by its mapping.
proof fn lemma_sorted_canonical(s1: Seq<(Seq<char>, Seq<char>)>, s2: Seq<(Seq<char>, Seq<char>)>)
    requires
        sorted_keys(s1),
        sorted_keys(s2),
        map_of(s1) == map_of(s2),
    ensures
        s1 == s2,
    decreases s1.len(),
{
    lemma_sorted_implies_unique(s1);
    lemma_sorted_implies_unique(s2);
    lemma_map_of_len(s1);
    lemma_map_of_len(s2);
    if s1.len() == 0 {
        assert(s1 =~= s2);
    } else {
        let n = s1.len() as int;
        let k1 = s1.last().0;
        let k2 = s2.last().0;
        lemma_map_of_index(s1, n - 1);
        lemma_map_of_index(s2, n - 1);
        lemma_map_of_contains(s2, k1);
        let i = choose|i: int| 0 <= i < s2.len() && (#[trigger] s2[i]).0 == k1;
        lemma_map_of_contains(s1, k2);
        let m = choose|m: int| 0 <= m < s1.len() && (#[trigger] s1[m]).0 == k2;
        assert(k1 == k2) by {
            if i < n - 1 {
                assert(lex_lt(s2[i].0, k2));
                if m < n - 1 {
                    assert(lex_lt(s1[m].0, k1));
                }
                lemma_lex_trichotomy(k1, k2);
            }
        }
        assert(s1.last().1 == s2.last().1) by {
            assert(map_of(s1)[k1] == s1.last().1);
            assert(map_of(s2)[k2] == s2.last().1);
        }
        lemma_map_of_remove_at(s1, n - 1);
        lemma_map_of_remove_at(s2, n - 1);
        assert(s1.remove(n - 1) =~= s1.drop_last());
        assert(s2.remove(n - 1) =~= s2.drop_last());
        assert(sorted_keys(s1.drop_last())) by {
            assert forall|x: int, y: int|
                0 <= x < y < s1.drop_last().len() implies lex_lt(
                (#[trigger] s1.drop_last()[x]).0,
                (#[trigger] s1.drop_last()[y]).0,
            ) by {
                assert(s1.drop_last()[x] == s1[x]);
                assert(s1.drop_last()[y] == s1[y]);
            }
        }
        assert(sorted_keys(s2.drop_last())) by {
            assert forall|x: int, y: int|
                0 <= x < y < s2.drop_last().len() implies lex_lt(
                (#[trigger] s2.drop_last()[x]).0,
                (#[trigger] s2.drop_last()[y]).0,
            ) by {
                assert(s2.drop_last()[x] == s2[x]);
                assert(s2.drop_last()[y] == s2[y]);
            }
        }
        lemma_sorted_canonical(s1.drop_last(), s2.drop_last());
        assert forall|x: int| 0 <= x < n implies s1[x] == (#[trigger] s2[x]) by {
            if x < n - 1 {
                assert(s1.drop_last()[x] == s1[x]);
                assert(s2.drop_last()[x] == s2[x]);
            } else {
                assert(s1[x] == s1.last());
                assert(s2[x] == s2.last());
            }
        }
        assert(s1 =~= s2);
    }
}

/// The listing is determined by the mapping alone: two well-formed
/// stores that hold the same entries list the same names in the same
/// order, whatever insertions and removals built each of them.
pub proof fn lemma_listing_canonical(j1: Jots, j2: Jots)
    requires
        j1.wf(),
        j2.wf(),
        j1@ == j2@,
    ensures
        j1.rec_seq() == j2.rec_seq(),
        j1.names() == j2.names(),
{
    lemma_sorted_canonical(j1.rec_seq(), j2.rec_seq());
    assert(j1.names() =~= j2.names());
}

/// A listing of a store's entry names in ascending lexicographic order,
/// recomputed fresh from the store when created.
pub struct JotsIter {
    keys: Vec<String>,
    pos: usize,
}

impl JotsIter {
    /// All names this listing walks.
    pub closed spec fn spec_keys(self) -> Seq<Seq<char>> {
        self.keys@.map_values(|s: String| s@)
    }

    /// How many names have been yielded already.
    pub closed spec fn spec_pos(self) -> int {
        self.pos as int
    }

    /// A fresh listing of the store's entry names: exactly the stored
    /// names, in ascending lexicographic order.
    pub fn new(j: &Jots) -> (it: JotsIter)
        requires
            j.wf(),
        ensures
            it.spec_keys() == j.names(),
            it.spec_pos() == 0,
            forall|x: int, y: int|
                0 <= x < y < it.spec_keys().len() ==> lex_lt(
                    #[trigger] it.spec_keys()[x],
                    #[trigger] it.spec_keys()[y],
                ),
    {
        let n = j.entries.len();
        let mut keys: Vec<String> = Vec::new();
        let mut i: usize = 0;
        proof {
            assert(keys@.map_values(|s: String| s@) =~= j.names().take(0));
        }
        while i < n
            invariant
                i <= n,
                n == j.entries@.len(),
                j.wf(),
                keys@.map_values(|s: String| s@) =~= j.names().take(i as int),
            decreases n - i,
        {
            let ghost keys0 = keys@;
            keys.push(j.entries[i].key.clone());
            proof {
                assert(keys0.len() == i as int) by {
                    assert(keys0.map_values(|s: String| s@).len() == keys0.len());
                    assert(j.names().take(i as int).len() == i as int);
                }
                assert(keys@ =~= keys0.push(j.entries@[i as int].key));
                assert forall|m: int| 0 <= m < i + 1 implies (#[trigger] keys@[m])@ == j.names().take(
                    i as int + 1,
                )[m] by {
                    if m < i {
                        assert(keys@[m] == keys0[m]);
                        assert(keys0.map_values(|s: String| s@)[m] == j.names().take(i as int)[m]);
                    } else {
                        assert(keys@[m] == j.entries@[i as int].key);
                        assert(j.names()[i as int] == j.rec_seq()[i as int].0);
                    }
                }
                assert(keys@.map_values(|s: String| s@) =~= j.names().take(i as int + 1));
            }
            i = i + 1;
        }
        let it = JotsIter { keys, pos: 0 };
        proof {
            assert(j.names().take(n as int) =~= j.names());
            assert forall|x: int, y: int|
                0 <= x < y < it.spec_keys().len() implies lex_lt(
                #[trigger] it.spec_keys()[x],
                #[trigger] it.spec_keys()[y],
            ) by {
                assert(it.spec_keys()[x] == j.rec_seq()[x].0);
                assert(it.spec_keys()[y] == j.rec_seq()[y].0);
            }
        }
        it
    }

    /// The next name in ascending order, or `None` once all names have
    /// been yielded.
    pub fn next(&mut self) -> (r: Option<String>)
        ensures
            final (self).spec_keys() == old(self).spec_keys(),
            old(self).spec_pos() < old(self).spec_keys().len() ==> r is Some && r->0@ == old(
                self,
            ).spec_keys()[old(self).spec_pos()] && final (self).spec_pos() == old(self).spec_pos()
                + 1,
            old(self).spec_pos() >= old(self).spec_keys().len() ==> r is None && final (
            self).spec_pos() == old(self).spec_pos(),
    {
        if self.pos < self.keys.len() {
            let t = Some(self.keys[self.pos].clone());
            self.pos = self.pos + 1;
            t
        } else {
            None
        }
    }
}

/// The listing and the mapping agree: a name is yielded by the listing
/// exactly when the store holds an entry under it.
pub proof fn lemma_names_are_keys(j: Jots)
    requires
        j.wf(),
    ensures
        forall|k: Seq<char>| #[trigger] j@.contains_key(k) <==> j.names().contains(k),
{
    assert forall|k: Seq<char>| #[trigger] j@.contains_key(k) <==> j.names().contains(k) by {
        lemma_map_of_contains(j.rec_seq(), k);
        if exists|i: int| 0 <= i < j.rec_seq().len() && (#[trigger] j.rec_seq()[i]).0 == k {
            let i = choose|i: int| 0 <= i < j.rec_seq().len() && (#[trigger] j.rec_seq()[i]).0 == k;
            assert(j.names()[i] == k);
        }
        if j.names().contains(k) {
            let i = choose|i: int| 0 <= i < j.names().len() && j.names()[i] == k;
            assert((j.rec_seq()[i]).0 == k);
        }
    }
}

} // verus!
