//! The Atlas service's store and its answers to requests.
//!
//! The store maps URIs to Atlas ids. A get answers with the stored id and
//! `found` set, or with id 0 and `found` clear; an insert stores or
//! replaces the id and is acknowledged; a remove answers like a get and
//! drops the entry.
use vstd::prelude::*;

use crate::atlas::{AtlasId, Message, Uri};

verus! {

/// The entries a list holds: a later entry for a URI replaces an earlier
/// one.
pub open spec fn entries_map(s: Seq<(Uri, AtlasId)>) -> Map<Seq<char>, AtlasId>
    decreases s.len(),
{
    if s.len() == 0 {
        Map::empty()
    } else {
        entries_map(s.drop_last()).insert(s.last().0@, s.last().1)
    }
}

/// The entry is not for the URI text `t`.
pub open spec fn not_uri(t: Seq<char>) -> spec_fn((Uri, AtlasId)) -> bool {
    |e: (Uri, AtlasId)| e.0@ != t
}

proof fn lemma_entries_push(s: Seq<(Uri, AtlasId)>, e: (Uri, AtlasId))
    ensures
        entries_map(s.push(e)) == entries_map(s).insert(e.0@, e.1),
{
    assert(s.push(e).drop_last() =~= s);
}

/// Dropping a URI's entries drops the URI from the map.
proof fn lemma_entries_filter(s: Seq<(Uri, AtlasId)>, t: Seq<char>)
    ensures
        entries_map(s.filter(not_uri(t))) == entries_map(s).remove(t),
    decreases s.len(),
{
    reveal_with_fuel(Seq::filter, 1);
    if s.len() == 0 {
        assert(entries_map(s).remove(t) =~= Map::empty());
    } else {
        let d = s.drop_last();
        let e = s.last();
        lemma_entries_filter(d, t);
        if e.0@ != t {
            lemma_entries_push(d.filter(not_uri(t)), e);
            assert(entries_map(s).remove(t) =~= entries_map(d).remove(t).insert(e.0@, e.1));
        } else {
            assert(entries_map(s).remove(t) =~= entries_map(d).remove(t));
        }
    }
}

/// What a get (or remove) of `uri` answers on `store`: whether the entry
/// exists, and its id, or 0.
pub open spec fn lookup_answer(store: Map<Seq<char>, AtlasId>, uri: Seq<char>) -> (bool, AtlasId) {
    if store.contains_key(uri) {
        (true, store[uri])
    } else {
        (false, 0)
    }
}

/// The URI-to-id entries of the Atlas.
#[derive(Debug, Default)]
pub struct AtlasStore {
    entries: Vec<(Uri, AtlasId)>,
}

impl View for AtlasStore {
    type V = Map<Seq<char>, AtlasId>;

    closed spec fn view(&self) -> Map<Seq<char>, AtlasId> {
        entries_map(self.entries@)
    }
}

impl AtlasStore {
    /// An empty store.
    pub fn new() -> (r: Self)
        ensures
            r@ == Map::<Seq<char>, AtlasId>::empty(),
    {
        AtlasStore { entries: Vec::new() }
    }

    /// The id stored for `uri`, if any.
    pub fn get(&self, uri: &Uri) -> (r: Option<AtlasId>)
        ensures
            r == (if self@.contains_key(uri@) {
                Some(self@[uri@])
            } else {
                None::<AtlasId>
            }),
    {
        let ghost s = self.entries@;
        let mut found: Option<AtlasId> = None;
        let mut i: usize = 0;
        while i < self.entries.len()
            invariant
                i <= s.len(),
                s == self.entries@,
                found == (if entries_map(s.subrange(0, i as int)).contains_key(uri@) {
                    Some(entries_map(s.subrange(0, i as int))[uri@])
                } else {
                    None::<AtlasId>
                }),
            decreases s.len() - i,
        {
            proof {
                assert(s.subrange(0, i + 1) =~= s.subrange(0, i as int).push(s[i as int]));
                lemma_entries_push(s.subrange(0, i as int), s[i as int]);
            }
            if self.entries[i].0.same_as(uri) {
                found = Some(self.entries[i].1);
            }
            i = i + 1;
        }
        assert(s.subrange(0, s.len() as int) =~= s);
        found
    }

    /// Store `id` for `uri`, replacing any earlier id.
    pub fn insert(&mut self, uri: Uri, id: AtlasId)
        ensures
            final(self)@ == old(self)@.insert(uri@, id),
    {
        let _ = self.remove(&uri);
        let ghost dropped = self.entries@;
        let entry = (uri, id);
        let ghost pushed = entry;
        self.entries.push(entry);
        proof {
            lemma_entries_push(dropped, pushed);
            assert(old(self)@.remove(pushed.0@).insert(pushed.0@, id) =~= old(self)@.insert(
                pushed.0@,
                id,
            ));
        }
    }

    /// Remove the entry for `uri`, returning its id if there was one.
    pub fn remove(&mut self, uri: &Uri) -> (r: Option<AtlasId>)
        ensures
            r == (if old(self)@.contains_key(uri@) {
                Some(old(self)@[uri@])
            } else {
                None::<AtlasId>
            }),
            final(self)@ == old(self)@.remove(uri@),
    {
        let mut rest: Vec<(Uri, AtlasId)> = Vec::new();
        std::mem::swap(&mut rest, &mut self.entries);
        let ghost s = rest@;
        let n = rest.len();
        let mut kept: Vec<(Uri, AtlasId)> = Vec::new();
        let mut last: Option<AtlasId> = None;
        let mut i: usize = 0;
        while rest.len() > 0
            invariant
                s.len() == n,
                i <= s.len(),
                rest@ == s.subrange(i as int, s.len() as int),
                kept@ == s.subrange(0, i as int).filter(not_uri(uri@)),
                last == (if entries_map(s.subrange(0, i as int)).contains_key(uri@) {
                    Some(entries_map(s.subrange(0, i as int))[uri@])
                } else {
                    None::<AtlasId>
                }),
            decreases rest@.len(),
        {
            let e = rest.remove(0);
            proof {
                assert(e == s[i as int]);
                assert(s.subrange(0, i + 1) =~= s.subrange(0, i as int).push(e));
                lemma_entries_push(s.subrange(0, i as int), e);
                reveal_with_fuel(Seq::filter, 1);
                assert(s.subrange(0, i as int).push(e).drop_last() =~= s.subrange(0, i as int));
                assert(rest@ =~= s.subrange(i + 1, s.len() as int));
            }
            if e.0.same_as(uri) {
                last = Some(e.1);
            } else {
                kept.push(e);
            }
            i = i + 1;
        }
        proof {
            assert(s.subrange(0, s.len() as int) =~= s);
            lemma_entries_filter(s, uri@);
        }
        self.entries = kept;
        last
    }
}

/// Answer a get request.
pub fn handle_get(store: &AtlasStore, request_id: u64, uri: &Uri) -> (r: Message)
    ensures
        r == (Message::ResponseGet {
            request_id,
            id: lookup_answer(store@, uri@).1,
            found: lookup_answer(store@, uri@).0,
        }),
{
    match store.get(uri) {
        Some(id) => Message::ResponseGet { request_id, id, found: true },
        None => Message::ResponseGet { request_id, id: 0, found: false },
    }
}

/// Answer an insert request: store the id and acknowledge.
pub fn handle_insert(store: &mut AtlasStore, request_id: u64, uri: Uri, id: AtlasId) -> (r: Message)
    ensures
        final(store)@ == old(store)@.insert(uri@, id),
        r == (Message::ResponseOk { request_id }),
{
    store.insert(uri, id);
    Message::ResponseOk { request_id }
}

/// Answer a remove request: drop the entry and report what it held.
pub fn handle_remove(store: &mut AtlasStore, request_id: u64, uri: &Uri) -> (r: Message)
    ensures
        final(store)@ == old(store)@.remove(uri@),
        r == (Message::ResponseRemove {
            request_id,
            id: lookup_answer(old(store)@, uri@).1,
            found: lookup_answer(old(store)@, uri@).0,
        }),
{
    match store.remove(uri) {
        Some(id) => Message::ResponseRemove { request_id, id, found: true },
        None => Message::ResponseRemove { request_id, id: 0, found: false },
    }
}

/// A get answers with what the last insert of the same URI stored, and
/// inserting under another URI does not change that answer.
pub proof fn lemma_get_sees_insert(
    store: Map<Seq<char>, AtlasId>,
    uri: Seq<char>,
    id: AtlasId,
    other: Seq<char>,
)
    ensures
        lookup_answer(store.insert(uri, id), uri) == (true, id),
        other != uri ==> lookup_answer(store.insert(uri, id), other) == lookup_answer(store, other),
{
}

/// After a remove, a get of the same URI finds nothing; removing a URI that
/// was just inserted into a store without it gives the store back.
pub proof fn lemma_remove_undoes_insert(store: Map<Seq<char>, AtlasId>, uri: Seq<char>, id: AtlasId)
    ensures
        lookup_answer(store.remove(uri), uri) == (false, 0u64),
        !store.contains_key(uri) ==> store.insert(uri, id).remove(uri) == store,
{
    if !store.contains_key(uri) {
        assert(store.insert(uri, id).remove(uri) =~= store);
    }
}

} // verus!
