//! The links a node has registered, each with its interest state.
//!
//! The table is a map from link identity to interest state that remembers
//! the order in which the links were registered: replies are relayed to the
//! waiting links in that order.
use crate::bloom_filter::{Blooms, BloomsView};
use crate::keyed::{
    distinct_links, lemma_position_unique, lemma_push_keeps_distinct,
    lemma_remove_keeps_distinct, lemma_with_state_keeps_links, position_of, registered, state_of,
    with_state,
};
use crate::link::LinkId;
use vstd::prelude::*;

verus! {

/// One registered link and its interest state.
pub struct LinkEntry {
    pub link: LinkId,
    pub blooms: Blooms,
}

/// What a [`LinkTable`] holds, as a mathematical value: the registered links
/// in order of registration, each with its interest state.
pub type Links = Seq<(LinkId, BloomsView)>;

/// The registered links of a node, each with its interest state.
pub struct LinkTable {
    entries: Vec<LinkEntry>,
}

impl View for LinkTable {
    type V = Links;

    closed spec fn view(&self) -> Links {
        self.entries@.map_values(|e: LinkEntry| (e.link, e.blooms@))
    }
}

impl LinkTable {
    /// The invariant of the table: no link stands in it twice.
    pub open spec fn wf(&self) -> bool {
        distinct_links(self@)
    }

    /// A table without links.
    pub fn new() -> (table: LinkTable)
        ensures
            table@ == Seq::<(LinkId, BloomsView)>::empty(),
            table.wf(),
    {
        let table = LinkTable { entries: Vec::new() };
        proof {
            assert(table@ =~= Seq::<(LinkId, BloomsView)>::empty());
        }
        table
    }

    /// The number of registered links.
    pub fn len(&self) -> (n: usize)
        ensures
            n == self@.len(),
    {
        self.entries.len()
    }

    /// The place of a link in the table, if it is registered.
    pub fn position(&self, link: &LinkId) -> (place: Option<usize>)
        ensures
            place is Some <==> registered(self@, *link),
            place matches Some(at) ==> at < self@.len() && self@[at as int].0 == *link,
            place matches Some(at) ==> self.wf() ==> at == position_of(self@, *link),
    {
        let mut i: usize = 0;
        while i < self.entries.len()
            invariant
                i <= self.entries.len(),
                self@.len() == self.entries.len(),
                forall|k: int| 0 <= k < i ==> (#[trigger] self@[k]).0 != *link,
            decreases self.entries.len() - i,
        {
            if self.entries[i].link == *link {
                proof {
                    assert(self@[i as int].0 == *link);
                    if self.wf() {
                        lemma_position_unique(self@, i as int);
                    }
                }
                return Some(i);
            }
            i = i + 1;
        }
        None
    }

    /// Whether the link is registered.
    pub fn contains_key(&self, link: &LinkId) -> (found: bool)
        ensures
            found == registered(self@, *link),
    {
        self.position(link).is_some()
    }

    /// The link at a place of the table.
    pub fn link_at(&self, at: usize) -> (link: LinkId)
        requires
            at < self@.len(),
        ensures
            link == self@[at as int].0,
    {
        self.entries[at].link
    }

    /// The interest state at a place of the table.
    pub fn blooms_at(&self, at: usize) -> (blooms: &Blooms)
        requires
            at < self@.len(),
        ensures
            blooms@ == self@[at as int].1,
    {
        &self.entries[at].blooms
    }

    /// The interest state at a place of the table, to be changed in place.
    pub fn blooms_at_mut(&mut self, at: usize) -> (blooms: &mut Blooms)
        requires
            at < old(self)@.len(),
        ensures
            blooms@ == old(self)@[at as int].1,
            final(self)@ == old(self)@.update(
                at as int,
                (old(self)@[at as int].0, final(blooms)@),
            ),
    {
        let ghost before = self@;
        let blooms = &mut self.entries[at].blooms;
        proof {
            assert(after_borrow(self)@ =~= before.update(
                at as int,
                (before[at as int].0, final(blooms)@),
            ));
        }
        blooms
    }

    /// The interest state of a link, if it is registered.
    pub fn get(&self, link: &LinkId) -> (blooms: Option<&Blooms>)
        ensures
            blooms is Some <==> registered(self@, *link),
            blooms matches Some(b) ==> exists|at: int|
                0 <= at < self@.len() && #[trigger] self@[at] == (*link, b@),
            blooms matches Some(b) ==> self.wf() ==> b@ == state_of(self@, *link),
    {
        match self.position(link) {
            Some(at) => {
                let blooms = &self.entries[at].blooms;
                proof {
                    assert(self@[at as int] == (*link, blooms@));
                }
                Some(blooms)
            },
            None => None,
        }
    }

    /// Registers a link with an interest state. A link that is registered
    /// already keeps its place and gets the new state; the state it had is
    /// returned.
    pub fn insert(&mut self, link: LinkId, blooms: Blooms) -> (previous: Option<Blooms>)
        requires
            old(self).wf(),
        ensures
            final(self).wf(),
            registered(old(self)@, link) ==> (previous matches Some(b) && b@ == state_of(
                old(self)@,
                link,
            )) && final(self)@ == with_state(old(self)@, link, blooms@),
            !registered(old(self)@, link) ==> previous is None && final(self)@ == old(self)@.push(
                (link, blooms@),
            ),
    {
        match self.position(&link) {
            Some(at) => {
                let mut entry = LinkEntry { link, blooms };
                std::mem::swap(&mut self.entries[at], &mut entry);
                proof {
                    assert(self@ =~= with_state(old(self)@, link, blooms@));
                    lemma_with_state_keeps_links(old(self)@, link, blooms@);
                }
                Some(entry.blooms)
            },
            None => {
                self.entries.push(LinkEntry { link, blooms });
                proof {
                    assert(self@ =~= old(self)@.push((link, blooms@)));
                    lemma_push_keeps_distinct(old(self)@, link, blooms@);
                }
                None
            },
        }
    }

    /// Retires a link: takes it and its interest state out of the table. The
    /// links behind it move up by one place.
    pub fn remove(&mut self, link: &LinkId) -> (previous: Option<Blooms>)
        requires
            old(self).wf(),
        ensures
            final(self).wf(),
            registered(old(self)@, *link) ==> (previous matches Some(b) && b@ == state_of(
                old(self)@,
                *link,
            )) && final(self)@ == old(self)@.remove(position_of(old(self)@, *link)),
            !registered(old(self)@, *link) ==> previous is None && final(self)@ == old(self)@,
    {
        match self.position(link) {
            Some(at) => {
                let entry = self.entries.remove(at);
                proof {
                    assert(self@ =~= old(self)@.remove(at as int));
                    lemma_remove_keeps_distinct(old(self)@, at as int);
                }
                Some(entry.blooms)
            },
            None => None,
        }
    }
}

} // verus!
