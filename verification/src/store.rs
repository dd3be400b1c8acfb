//! The message store model.
//!
//! A store's observable content is its committed set: messages ordered by the
//! lexicographic order of their identifiers. The order is recomputed every
//! time a store is opened and is the basis for user-facing numeric indices.
//! A move between stores commits at the destination and only then gives up
//! the source copy, so a message is never lost: a plain move keeps the
//! identifier and refuses a destination collision, while a draft-flagged
//! move commits under an identifier of the destination's own.

use vstd::prelude::*;
use crate::errors::EngineError;
use crate::order::lex_lt;
use crate::order::bytes_lt;
use crate::order::bytes_eq;
use crate::order::lemma_lex_irrefl;
use crate::order::lemma_lex_total;
use crate::order::lemma_lex_trans;

verus! {

broadcast use vstd::seq_lib::group_to_multiset_ensures, vstd::multiset::group_multiset_axioms;

/// One committed message: identifier, raw bytes, and the draft flag that a
/// revive sets at its destination.
#[derive(Debug)]
pub struct MsgEntry {
    pub id: Vec<u8>,
    pub data: Vec<u8>,
    pub draft: bool,
}

/// Mathematical image of a message entry.
#[verifier::ext_equal]
pub ghost struct MsgView {
    pub id: Seq<u8>,
    pub data: Seq<u8>,
    pub draft: bool,
}

impl View for MsgEntry {
    type V = MsgView;

    open spec fn view(&self) -> MsgView {
        MsgView { id: self.id@, data: self.data@, draft: self.draft }
    }
}

/// The images of a sequence of entries.
pub open spec fn views_of(s: Seq<MsgEntry>) -> Seq<MsgView> {
    s.map_values(|e: MsgEntry| e@)
}

/// The identifiers of a committed set, in order.
pub open spec fn ids_of(s: Seq<MsgView>) -> Seq<Seq<u8>> {
    s.map_values(|m: MsgView| m.id)
}

/// A committed set is well formed when its identifiers are strictly
/// ascending in lexicographic order.
pub open spec fn sorted_ids(s: Seq<MsgView>) -> bool {
    forall|i: int, j: int|
        0 <= i < j < s.len() ==> lex_lt(#[trigger] s[i].id, #[trigger] s[j].id)
}

/// A message store: the committed set, sorted by identifier.
#[derive(Debug)]
pub struct Store {
    entries: Vec<MsgEntry>,
}

impl View for Store {
    type V = Seq<MsgView>;

    closed spec fn view(&self) -> Seq<MsgView> {
        views_of(self.entries@)
    }
}

/// Copies a byte string.
pub fn copy_bytes(v: &Vec<u8>) -> (r: Vec<u8>)
    ensures
        r@ == v@,
{
    let mut r: Vec<u8> = Vec::new();
    let mut i: usize = 0;
    while i < v.len()
        invariant
            0 <= i <= v@.len(),
            r@ == v@.subrange(0, i as int),
        decreases v@.len() - i,
    {
        r.push(v[i]);
        proof {
            assert(r@ =~= v@.subrange(0, i + 1 as int));
        }
        i = i + 1;
    }
    proof {
        assert(r@ =~= v@);
    }
    r
}

/// Indexing facts for inserting into a sequence.
pub proof fn lemma_insert_index<A>(s: Seq<A>, k: int, a: A)
    requires
        0 <= k <= s.len(),
    ensures
        s.insert(k, a).len() == s.len() + 1,
        forall|i: int| 0 <= i < k ==> #[trigger] s.insert(k, a)[i] == s[i],
        forall|i: int| k < i < s.len() + 1 ==> #[trigger] s.insert(k, a)[i] == s[i - 1],
        s.insert(k, a)[k] == a,
{
    s.insert_ensures(k, a);
    assert forall|i: int| k < i < s.len() + 1 implies #[trigger] s.insert(k, a)[i] == s[i - 1] by {
        assert(s.insert(k, a)[i - 1 + 1] == s[i - 1]);
    }
}

/// Indexing facts for removing from a sequence.
pub proof fn lemma_remove_index<A>(s: Seq<A>, k: int)
    requires
        0 <= k < s.len(),
    ensures
        s.remove(k).len() == s.len() - 1,
        forall|i: int| 0 <= i < k ==> #[trigger] s.remove(k)[i] == s[i],
        forall|i: int| k <= i < s.len() - 1 ==> #[trigger] s.remove(k)[i] == s[i + 1],
{
    s.remove_ensures(k);
}

/// Taking views commutes with inserting an entry.
proof fn lemma_views_insert(s: Seq<MsgEntry>, k: int, e: MsgEntry)
    requires
        0 <= k <= s.len(),
    ensures
        views_of(s.insert(k, e)) =~= views_of(s).insert(k, e@),
{
    lemma_insert_index(s, k, e);
    lemma_insert_index(views_of(s), k, e@);
}

/// Taking views commutes with removing an entry.
proof fn lemma_views_remove(s: Seq<MsgEntry>, k: int)
    requires
        0 <= k < s.len(),
    ensures
        views_of(s.remove(k)) =~= views_of(s).remove(k),
{
    lemma_remove_index(s, k);
    lemma_remove_index(views_of(s), k);
}

/// Identifiers commute with inserting into a committed set.
proof fn lemma_ids_insert(s: Seq<MsgView>, k: int, mv: MsgView)
    requires
        0 <= k <= s.len(),
    ensures
        ids_of(s.insert(k, mv)) =~= ids_of(s).insert(k, mv.id),
{
    lemma_insert_index(s, k, mv);
    lemma_insert_index(ids_of(s), k, mv.id);
}

/// Identifiers commute with removing from a committed set.
proof fn lemma_ids_remove(s: Seq<MsgView>, k: int)
    requires
        0 <= k < s.len(),
    ensures
        ids_of(s.remove(k)) =~= ids_of(s).remove(k),
{
    lemma_remove_index(s, k);
    lemma_remove_index(ids_of(s), k);
}

/// A sorted committed set stays sorted when an entry is inserted at its
/// ordered position.
proof fn lemma_sorted_insert(s: Seq<MsgView>, k: int, mv: MsgView)
    requires
        sorted_ids(s),
        0 <= k <= s.len(),
        forall|m: int| 0 <= m < k ==> lex_lt(#[trigger] s[m].id, mv.id),
        forall|m: int| k <= m < s.len() ==> lex_lt(mv.id, #[trigger] s[m].id),
    ensures
        sorted_ids(s.insert(k, mv)),
{
    lemma_insert_index(s, k, mv);
    let t = s.insert(k, mv);
    assert forall|i: int, j: int|
        0 <= i < j < t.len() implies lex_lt(#[trigger] t[i].id, #[trigger] t[j].id) by {
        if j < k {
            assert(t[i] == s[i] && t[j] == s[j]);
        } else if j == k {
            assert(t[i] == s[i]);
        } else if i < k {
            assert(t[i] == s[i] && t[j] == s[j - 1]);
        } else if i == k {
            assert(t[j] == s[j - 1]);
        } else {
            assert(t[i] == s[i - 1] && t[j] == s[j - 1]);
        }
    }
}

/// A sorted committed set stays sorted when an entry is removed.
proof fn lemma_sorted_remove(s: Seq<MsgView>, k: int)
    requires
        sorted_ids(s),
        0 <= k < s.len(),
    ensures
        sorted_ids(s.remove(k)),
{
    lemma_remove_index(s, k);
    let t = s.remove(k);
    assert forall|i: int, j: int|
        0 <= i < j < t.len() implies lex_lt(#[trigger] t[i].id, #[trigger] t[j].id) by {
        if j < k {
            assert(t[i] == s[i] && t[j] == s[j]);
        } else if i < k {
            assert(t[i] == s[i] && t[j] == s[j + 1]);
        } else {
            assert(t[i] == s[i + 1] && t[j] == s[j + 1]);
        }
    }
}

/// In a sorted committed set all identifiers are distinct.
pub proof fn lemma_sorted_distinct(s: Seq<MsgView>)
    requires
        sorted_ids(s),
    ensures
        forall|i: int, j: int|
            0 <= i < j < s.len() ==> (#[trigger] s[i].id) != (#[trigger] s[j].id),
{
    assert forall|i: int, j: int|
        0 <= i < j < s.len() implies (#[trigger] s[i].id) != (#[trigger] s[j].id) by {
        if s[i].id == s[j].id {
            lemma_lex_irrefl(s[i].id);
        }
    }
}

impl Store {
    /// The identifiers of the committed set, in index order.
    pub open spec fn ids(self) -> Seq<Seq<u8>> {
        ids_of(self@)
    }

    /// The committed set is sorted strictly by identifier.
    pub open spec fn wf(self) -> bool {
        sorted_ids(self@)
    }

    /// Orders a freshly enumerated directory into a committed set. Fails
    /// when two entries carry the same identifier, which a usable store
    /// directory never yields.
    pub fn open(raw: Vec<MsgEntry>) -> (r: Result<Store, EngineError>)
        ensures
            match r {
                Ok(s) => s.wf() && s@.to_multiset() == views_of(raw@).to_multiset(),
                Err(e) => e == EngineError::StoreError && exists|i: int, j: int|
                    #![trigger raw@[i].id@, raw@[j].id@]
                    0 <= i < j < raw@.len() && raw@[i].id@ == raw@[j].id@,
            },
    {
        let mut s = Store { entries: Vec::new() };
        proof {
            assert(s@ =~= Seq::<MsgView>::empty());
            assert(views_of(raw@.take(0)) =~= Seq::<MsgView>::empty());
            assert(s@.to_multiset() =~= views_of(raw@.take(0)).to_multiset());
        }
        let mut idx: usize = 0;
        while idx < raw.len()
            invariant
                0 <= idx <= raw@.len(),
                s.wf(),
                s@.to_multiset() == views_of(raw@.take(idx as int)).to_multiset(),
            decreases raw@.len() - idx,
        {
            let er = &raw[idx];
            let e = MsgEntry {
                id: copy_bytes(&er.id),
                data: copy_bytes(&er.data),
                draft: er.draft,
            };
            proof {
                assert(e@ =~= raw@[idx as int]@);
            }
            let ghost spre = s@;
            match s.insert_entry(e) {
                Ok(_) => {},
                Err(_) => {
                    proof {
                        let mv = choose|mv: MsgView|
                            spre.contains(mv) && mv.id == raw@[idx as int]@.id;
                        assert(spre.to_multiset().count(mv) > 0);
                        assert(views_of(raw@.take(idx as int)).to_multiset().count(mv) > 0);
                        assert(views_of(raw@.take(idx as int)).contains(mv));
                        let i = choose|i: int|
                            0 <= i < views_of(raw@.take(idx as int)).len() && views_of(
                                raw@.take(idx as int),
                            )[i] == mv;
                        assert(raw@.take(idx as int)[i] == raw@[i]);
                        assert(raw@[i].id@ == raw@[idx as int].id@);
                        assert(0 <= i && i < idx as int && (idx as int) < raw@.len());
                    }
                    return Err(EngineError::StoreError);
                },
            }
            proof {
                let k = choose|k: int|
                    0 <= k <= spre.len() && s@ == spre.insert(k, raw@[idx as int]@);
                assert(s@.to_multiset() == spre.to_multiset().insert(raw@[idx as int]@));
                assert(views_of(raw@.take(idx as int + 1)) =~= views_of(
                    raw@.take(idx as int),
                ).push(raw@[idx as int]@));
                assert(views_of(raw@.take(idx as int + 1)).to_multiset() =~= views_of(
                    raw@.take(idx as int),
                ).to_multiset().insert(raw@[idx as int]@));
            }
            idx = idx + 1;
        }
        proof {
            assert(raw@.take(idx as int) =~= raw@);
        }
        Ok(s)
    }

    /// The ordered position for an identifier: every entry before it is
    /// strictly smaller, the entry at it (if any) is not smaller.
    fn find_pos(&self, idv: &Vec<u8>) -> (j: usize)
        requires
            self.wf(),
        ensures
            j <= self@.len(),
            forall|m: int| 0 <= m < j ==> lex_lt(#[trigger] self@[m].id, idv@),
            j < self@.len() ==> !lex_lt(self@[j as int].id, idv@),
    {
        let mut j: usize = 0;
        loop
            invariant
                self.wf(),
                0 <= j <= self@.len(),
                forall|m: int| 0 <= m < j ==> lex_lt(#[trigger] self@[m].id, idv@),
            decreases self@.len() - j,
        {
            if j == self.entries.len() {
                return j;
            }
            if !bytes_lt(&self.entries[j].id, idv) {
                return j;
            }
            j = j + 1;
        }
    }

    /// Inserts an entry at its ordered position; refuses an identifier
    /// already present, changing nothing.
    fn insert_entry(&mut self, e: MsgEntry) -> (r: Result<(), ()>)
        requires
            old(self).wf(),
        ensures
            final(self).wf(),
            r is Ok <==> !old(self).ids().contains(e.id@),
            r is Ok ==> exists|k: int|
                0 <= k <= old(self)@.len() && final(self)@ == old(self)@.insert(k, e@),
            r is Err ==> final(self)@ == old(self)@ && exists|mv: MsgView|
                old(self)@.contains(mv) && mv.id == e.id@,
    {
        let j = self.find_pos(&e.id);
        if j < self.entries.len() {
            if bytes_eq(&self.entries[j].id, &e.id) {
                proof {
                    assert(self@.contains(self@[j as int]));
                    assert(self.ids()[j as int] == e.id@);
                    assert(self.ids().contains(e.id@));
                }
                return Err(());
            }
        }
        proof {
            if j < self@.len() {
                lemma_lex_total(self@[j as int].id, e.id@);
                assert(lex_lt(e.id@, self@[j as int].id));
            }
            assert forall|m: int| j <= m < self@.len() implies lex_lt(
                e.id@,
                #[trigger] self@[m].id,
            ) by {
                if m > j {
                    lemma_lex_trans(e.id@, self@[j as int].id, self@[m].id);
                }
            }
            assert forall|m: int|
                0 <= m < self@.len() implies (#[trigger] self.ids()[m]) != e.id@ by {
                lemma_lex_irrefl(e.id@);
                if self@[m].id == e.id@ {
                    assert(lex_lt(e.id@, e.id@));
                }
            }
            lemma_sorted_insert(self@, j as int, e@);
            lemma_views_insert(self.entries@, j as int, e);
        }
        let ghost pre = self@;
        let ghost kpos = j as int;
        self.entries.insert(j, e);
        proof {
            assert(self@ == pre.insert(kpos, MsgView { id: e.id@, data: e.data@, draft: e.draft }));
        }
        Ok(())
    }

    /// The number of committed messages.
    pub fn count(&self) -> (r: usize)
        ensures
            r == self@.len(),
    {
        self.entries.len()
    }

    /// The committed identifiers, in index order.
    pub fn list(&self) -> (r: Vec<Vec<u8>>)
        ensures
            r@.len() == self@.len(),
            forall|i: int| 0 <= i < r@.len() ==> (#[trigger] r@[i]@) == self@[i].id,
    {
        let mut r: Vec<Vec<u8>> = Vec::new();
        let mut i: usize = 0;
        while i < self.entries.len()
            invariant
                0 <= i <= self@.len(),
                r@.len() == i,
                forall|m: int| 0 <= m < i ==> (#[trigger] r@[m]@) == self@[m].id,
            decreases self@.len() - i,
        {
            r.push(copy_bytes(&self.entries[i].id));
            i = i + 1;
        }
        r
    }

    /// Resolves an identifier to its index in the committed set.
    pub fn locate(&self, id: &Vec<u8>) -> (r: Option<usize>)
        ensures
            match r {
                Some(i) => i < self@.len() && self@[i as int].id == id@,
                None => !self.ids().contains(id@),
            },
    {
        let mut i: usize = 0;
        while i < self.entries.len()
            invariant
                0 <= i <= self@.len(),
                forall|m: int| 0 <= m < i ==> (#[trigger] self@[m].id) != id@,
            decreases self@.len() - i,
        {
            if bytes_eq(&self.entries[i].id, id) {
                return Some(i);
            }
            i = i + 1;
        }
        proof {
            assert forall|m: int|
                0 <= m < self.ids().len() implies (#[trigger] self.ids()[m]) != id@ by {
                assert(self.ids()[m] == self@[m].id);
            }
        }
        None
    }

    /// A read handle on the message at an index.
    pub fn entry_at(&self, i: usize) -> (r: &MsgEntry)
        requires
            i < self@.len(),
        ensures
            r@ == self@[i as int],
    {
        &self.entries[i]
    }

    /// Commits a message under a fresh identifier; an identifier already
    /// present refuses the write and changes nothing.
    pub fn enqueue(&mut self, id: Vec<u8>, data: Vec<u8>) -> (r: Result<(), EngineError>)
        requires
            old(self).wf(),
        ensures
            final(self).wf(),
            r is Ok <==> !old(self).ids().contains(id@),
            r is Ok ==> exists|k: int|
                0 <= k <= old(self)@.len() && final(self)@ == old(self)@.insert(
                    k,
                    (MsgView { id: id@, data: data@, draft: false }),
                ),
            r is Err ==> r == Err::<(), EngineError>(EngineError::IoError) && final(self)@ == old(
                self,
            )@,
    {
        match self.insert_entry(MsgEntry { id, data, draft: false }) {
            Ok(_) => Ok(()),
            Err(_) => Err(EngineError::IoError),
        }
    }

    /// Permanently removes the message with the given identifier.
    pub fn delete(&mut self, id: &Vec<u8>) -> (r: Result<(), EngineError>)
        requires
            old(self).wf(),
        ensures
            final(self).wf(),
            r is Ok <==> old(self).ids().contains(id@),
            r is Ok ==> exists|k: int|
                0 <= k < old(self)@.len() && old(self)@[k].id == id@ && final(self)@ == old(
                    self,
                )@.remove(k),
            r is Err ==> r == Err::<(), EngineError>(EngineError::StoreError) && final(self)@
                == old(self)@,
    {
        match self.locate(id) {
            Some(i) => {
                proof {
                    lemma_sorted_remove(self@, i as int);
                    lemma_views_remove(self.entries@, i as int);
                    assert(self.ids()[i as int] == id@);
                    assert(self.ids().contains(id@));
                }
                self.entries.remove(i);
                Ok(())
            },
            None => Err(EngineError::StoreError),
        }
    }

    /// Removes and returns the message at an index.
    pub fn remove_at(&mut self, i: usize) -> (r: MsgEntry)
        requires
            old(self).wf(),
            i < old(self)@.len(),
        ensures
            final(self).wf(),
            r@ == old(self)@[i as int],
            final(self)@ == old(self)@.remove(i as int),
    {
        proof {
            lemma_sorted_remove(self@, i as int);
            lemma_views_remove(self.entries@, i as int);
        }
        self.entries.remove(i)
    }

    /// Moves a message into another store. The transition succeeds only
    /// when the destination can commit it: an identifier already committed
    /// there refuses the write and leaves both stores unchanged, as does an
    /// identifier absent from this store.
    pub fn move_to(&mut self, id: &Vec<u8>, dst: &mut Store) -> (r: Result<(), EngineError>)
        requires
            old(self).wf(),
            old(dst).wf(),
        ensures
            final(self).wf(),
            final(dst).wf(),
            r is Ok <==> old(self).ids().contains(id@) && !old(dst).ids().contains(id@),
            r is Ok ==> exists|j: int, k: int|
                0 <= j < old(self)@.len() && 0 <= k <= old(dst)@.len() && old(self)@[j].id == id@
                    && final(self)@ == old(self)@.remove(j) && final(dst)@ == old(dst)@.insert(
                    k,
                    old(self)@[j],
                ),
            r is Err ==> final(self)@ == old(self)@ && final(dst)@ == old(dst)@,
            !old(self).ids().contains(id@) ==> r == Err::<(), EngineError>(EngineError::StoreError),
            old(self).ids().contains(id@) && old(dst).ids().contains(id@) ==> r == Err::<
                (),
                EngineError,
            >(EngineError::IoError),
    {
        let j = match self.locate(id) {
            Some(j) => j,
            None => {
                return Err(EngineError::StoreError);
            },
        };
        proof {
            assert(self.ids()[j as int] == id@);
            assert(self.ids().contains(id@));
        }
        match dst.locate(id) {
            Some(m) => {
                proof {
                    assert(dst.ids()[m as int] == id@);
                    assert(dst.ids().contains(id@));
                }
                return Err(EngineError::IoError);
            },
            None => {},
        }
        let e = self.remove_at(j);
        match dst.insert_entry(e) {
            Ok(_) => Ok(()),
            Err(_) => {
                proof {
                    assert(false);
                }
                Err(EngineError::IoError)
            },
        }
    }

    /// An identifier this store does not hold: the seed itself when it is
    /// free, otherwise the seed padded until it is longer than every
    /// committed identifier.
    #[verifier::loop_isolation(false)]
    fn fresh_id(&self, seed: &Vec<u8>) -> (r: Vec<u8>)
        ensures
            !ids_of(self@).contains(r@),
    {
        match self.locate(seed) {
            None => {
                return copy_bytes(seed);
            },
            Some(_) => {},
        }
        let mut maxlen: usize = 0;
        let mut i: usize = 0;
        while i < self.entries.len()
            invariant
                0 <= i <= self@.len(),
                forall|m: int| 0 <= m < i ==> (#[trigger] self@[m].id).len() <= maxlen,
            decreases self@.len() - i,
        {
            if self.entry_at(i).id.len() > maxlen {
                maxlen = self.entries[i].id.len();
            }
            i = i + 1;
        }
        let mut r = copy_bytes(seed);
        while r.len() <= maxlen
            invariant
                forall|m: int| 0 <= m < self@.len() ==> (#[trigger] self@[m].id).len() <= maxlen,
            decreases maxlen + 1 - r@.len(),
        {
            r.push(48u8);
        }
        proof {
            if ids_of(self@).contains(r@) {
                let m = choose|m: int| 0 <= m < ids_of(self@).len() && ids_of(self@)[m] == r@;
                assert(ids_of(self@)[m] == self@[m].id);
                assert(self@[m].id.len() <= maxlen);
                assert(false);
            }
        }
        r
    }

    /// Moves a message into another store, where it commits as a draft
    /// under an identifier of the destination's own (fresh there, as a
    /// destination commit assigns it); the source copy is given up only
    /// for that commit. Returns the moved source identifier.
    pub fn move_to_with_flag(&mut self, id: &Vec<u8>, dst: &mut Store) -> (r: Result<
        Vec<u8>,
        EngineError,
    >)
        requires
            old(self).wf(),
            old(dst).wf(),
        ensures
            final(self).wf(),
            final(dst).wf(),
            r is Ok <==> old(self).ids().contains(id@),
            r matches Ok(rid) ==> rid@ == id@ && exists|j: int, k: int, nid: Seq<u8>|
                0 <= j < old(self)@.len() && 0 <= k <= old(dst)@.len() && old(self)@[j].id == id@
                    && !ids_of(old(dst)@).contains(nid) && final(self)@ == old(self)@.remove(j)
                    && final(dst)@ == old(dst)@.insert(
                    k,
                    (MsgView { id: nid, data: old(self)@[j].data, draft: true }),
                ),
            r is Err ==> r == Err::<Vec<u8>, EngineError>(EngineError::StoreError) && final(self)@
                == old(self)@ && final(dst)@ == old(dst)@,
    {
        let j = match self.locate(id) {
            Some(j) => j,
            None => {
                return Err(EngineError::StoreError);
            },
        };
        proof {
            assert(self.ids()[j as int] == id@);
            assert(self.ids().contains(id@));
        }
        let e = self.remove_at(j);
        let rid = copy_bytes(&e.id);
        let nid = dst.fresh_id(&e.id);
        let ghost nidv = nid@;
        let flagged = MsgEntry { id: nid, data: e.data, draft: true };
        let ghost fv = flagged@;
        let ghost dpre = dst@;
        match dst.insert_entry(flagged) {
            Ok(_) => {
                proof {
                    let k = choose|k: int| 0 <= k <= dpre.len() && dst@ == dpre.insert(k, fv);
                    assert(fv =~= (MsgView {
                        id: nidv,
                        data: old(self)@[j as int].data,
                        draft: true,
                    }));
                    assert(dst@ == dpre.insert(
                        k,
                        (MsgView { id: nidv, data: old(self)@[j as int].data, draft: true }),
                    ));
                }
                Ok(rid)
            },
            Err(_) => {
                proof {
                    assert(false);
                }
                Err(EngineError::StoreError)
            },
        }
    }
}

/// Law: committing a message under a fresh identifier adds exactly that
/// identifier to the committed set: the count grows by one, the new
/// identifier is present, and every other identifier's presence is
/// unchanged.
pub proof fn lemma_enqueue_adds_exactly_one(pre: Seq<MsgView>, mv: MsgView, k: int)
    requires
        sorted_ids(pre),
        !ids_of(pre).contains(mv.id),
        0 <= k <= pre.len(),
    ensures
        pre.insert(k, mv).len() == pre.len() + 1,
        ids_of(pre.insert(k, mv)).contains(mv.id),
        forall|x: Seq<u8>|
            x != mv.id ==> (ids_of(pre.insert(k, mv)).contains(x) <==> ids_of(pre).contains(x)),
{
    lemma_ids_insert(pre, k, mv);
    let post_ids = ids_of(pre.insert(k, mv));
    let pre_ids = ids_of(pre);
    lemma_insert_index(pre_ids, k, mv.id);
    assert(post_ids[k] == mv.id);
    assert(post_ids.contains(mv.id));
    assert forall|x: Seq<u8>| x != mv.id implies (post_ids.contains(x) <==> pre_ids.contains(
        x,
    )) by {
        if post_ids.contains(x) {
            let i = choose|i: int| 0 <= i < post_ids.len() && post_ids[i] == x;
            if i < k {
                assert(pre_ids[i] == x);
            } else if i > k {
                assert(pre_ids[i - 1] == x);
            }
            assert(pre_ids.contains(x));
        }
        if pre_ids.contains(x) {
            let i = choose|i: int| 0 <= i < pre_ids.len() && pre_ids[i] == x;
            if i < k {
                assert(post_ids[i] == x);
            } else {
                assert(post_ids[i + 1] == x);
            }
            assert(post_ids.contains(x));
        }
    }
}

/// Law: a fault-free move leaves the message absent from the source and
/// present in the destination exactly once, and does not change which
/// other identifiers either store holds.
pub proof fn lemma_move_no_loss_no_dup(a: Seq<MsgView>, b: Seq<MsgView>, j: int, k: int)
    requires
        sorted_ids(a),
        sorted_ids(b),
        0 <= j < a.len(),
        0 <= k <= b.len(),
        !ids_of(b).contains(a[j].id),
    ensures
        !ids_of(a.remove(j)).contains(a[j].id),
        ids_of(b.insert(k, a[j])).to_multiset().count(a[j].id) == 1,
        forall|x: Seq<u8>|
            x != a[j].id ==> (ids_of(a.remove(j)).contains(x) <==> ids_of(a).contains(x)),
        forall|x: Seq<u8>|
            x != a[j].id ==> (ids_of(b.insert(k, a[j])).contains(x) <==> ids_of(b).contains(x)),
{
    let id = a[j].id;
    lemma_ids_remove(a, j);
    lemma_ids_insert(b, k, a[j]);
    let a_ids = ids_of(a);
    let b_ids = ids_of(b);
    let a_post = ids_of(a.remove(j));
    let b_post = ids_of(b.insert(k, a[j]));
    lemma_remove_index(a_ids, j);
    lemma_insert_index(b_ids, k, id);
    lemma_sorted_distinct(a);

    // absent from the source
    assert forall|i: int| 0 <= i < a_post.len() implies a_post[i] != id by {
        if i < j {
            assert(a_post[i] == a_ids[i]);
            assert(a[i].id != a[j].id);
        } else {
            assert(a_post[i] == a_ids[i + 1]);
            assert(a[j].id != a[i + 1].id);
        }
    }
    if a_post.contains(id) {
        let i = choose|i: int| 0 <= i < a_post.len() && a_post[i] == id;
    }

    // present in the destination exactly once
    assert(b_post =~= b_ids.insert(k, id));
    assert(b_post.to_multiset() == b_ids.to_multiset().insert(id));
    assert(!b_ids.contains(id));
    assert(b_ids.to_multiset().count(id) == 0) by {
        if b_ids.to_multiset().count(id) > 0 {
            assert(b_ids.contains(id));
        }
    }
    assert(b_post.to_multiset().count(id) == 1);

    // other identifiers unchanged
    assert forall|x: Seq<u8>| x != id implies (a_post.contains(x) <==> a_ids.contains(x)) by {
        if a_post.contains(x) {
            let i = choose|i: int| 0 <= i < a_post.len() && a_post[i] == x;
            if i < j {
                assert(a_ids[i] == x);
            } else {
                assert(a_ids[i + 1] == x);
            }
        }
        if a_ids.contains(x) {
            let i = choose|i: int| 0 <= i < a_ids.len() && a_ids[i] == x;
            if i < j {
                assert(a_post[i] == x);
            } else if i > j {
                assert(a_post[i - 1] == x);
            }
        }
    }
    assert forall|x: Seq<u8>| x != id implies (b_post.contains(x) <==> b_ids.contains(x)) by {
        if b_post.contains(x) {
            let i = choose|i: int| 0 <= i < b_post.len() && b_post[i] == x;
            if i < k {
                assert(b_ids[i] == x);
            } else if i > k {
                assert(b_ids[i - 1] == x);
            }
        }
        if b_ids.contains(x) {
            let i = choose|i: int| 0 <= i < b_ids.len() && b_ids[i] == x;
            if i < k {
                assert(b_post[i] == x);
            } else {
                assert(b_post[i + 1] == x);
            }
        }
    }
}

/// Law: dropping the message at one index leaves every other message in
/// place: entries before it keep their index, entries after it shift down
/// by exactly one.
pub proof fn lemma_drop_keeps_others(s: Seq<MsgView>, k: int)
    requires
        0 <= k < s.len(),
    ensures
        s.remove(k).len() == s.len() - 1,
        forall|i: int| 0 <= i < k ==> #[trigger] s.remove(k)[i] == s[i],
        forall|i: int| k <= i < s.len() - 1 ==> #[trigger] s.remove(k)[i] == s[i + 1],
{
    lemma_remove_index(s, k);
}

} // verus!
