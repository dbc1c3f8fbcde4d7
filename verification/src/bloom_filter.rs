//! Interest state of one link: which requests wait for a reply there, and
//! which requests were sent out there.
//!
//! Both records are counting sets over the digests of addresses. A set
//! answers for a digest, not for an address, so it may say yes for an address
//! that was never marked, but it never says no for one that is. Each mark is
//! counted: clearing the mark of one address leaves the marks of every other
//! digest alone, and where two addresses with the same digest were both
//! marked, one mark remains when one is cleared. Marks do not expire; a mark
//! stays until it is cleared.
//!
//! The set cannot tell two addresses with the same digest apart. To clear a
//! mark for an address that was never marked takes a mark from the address
//! that shares its digest, if there is one.
use crate::address::HBFI;
use std::collections::HashMap;
use vstd::multiset::Multiset;
use vstd::prelude::*;

verus! {

/// A counting set of address digests.
pub struct MarkSet {
    counts: HashMap<u64, u64>,
}

impl View for MarkSet {
    type V = Multiset<u64>;

    closed spec fn view(&self) -> Multiset<u64> {
        Multiset::from_map(
            Map::new(|fp: u64| self.counts@.contains_key(fp), |fp: u64| self.counts@[fp] as nat),
        )
    }
}

impl MarkSet {
    /// The number of marks that the table holds for a digest.
    spec fn tally(&self, fp: u64) -> nat {
        if self.counts@.contains_key(fp) {
            self.counts@[fp] as nat
        } else {
            0
        }
    }

    /// The view counts what the table holds, and no count passes `u64::MAX`.
    proof fn lemma_view(&self)
        ensures
            forall|fp: u64| #[trigger] self@.count(fp) == self.tally(fp),
            forall|fp: u64| #[trigger] self@.count(fp) <= u64::MAX,
    {
        let m = Map::new(
            |fp: u64| self.counts@.contains_key(fp),
            |fp: u64| self.counts@[fp] as nat,
        );
        assert(m.dom() =~= self.counts@.dom());
        assert(m.dom().finite());
    }

    /// A set without marks.
    pub fn new() -> (set: MarkSet)
        ensures
            set@ == Multiset::<u64>::empty(),
    {
        let set = MarkSet { counts: HashMap::new() };
        proof {
            set.lemma_view();
            assert(set@ =~= Multiset::<u64>::empty());
        }
        set
    }

    /// Whether the set holds a mark for the digest.
    pub fn contains(&self, fp: u64) -> (found: bool)
        ensures
            found == (self@.count(fp) > 0),
    {
        proof {
            self.lemma_view();
        }
        match self.counts.get(&fp) {
            Some(count) => *count > 0,
            None => false,
        }
    }

    /// The number of marks that the set holds for the digest.
    pub fn count(&self, fp: u64) -> (marks: u64)
        ensures
            marks == self@.count(fp),
    {
        proof {
            self.lemma_view();
        }
        match self.counts.get(&fp) {
            Some(count) => *count,
            None => 0,
        }
    }

    /// Adds one mark for the digest. A count that has reached `u64::MAX`
    /// stays there.
    pub fn insert(&mut self, fp: u64)
        ensures
            final(self)@ == if old(self)@.count(fp) < u64::MAX {
                old(self)@.insert(fp)
            } else {
                old(self)@
            },
    {
        proof {
            self.lemma_view();
        }
        let held: u64 = self.count(fp);
        if held < u64::MAX {
            self.counts.insert(fp, held + 1);
            proof {
                self.lemma_view();
                assert(self@ =~= old(self)@.insert(fp));
            }
        }
    }

    /// Takes away one mark for the digest, if the set holds one.
    pub fn remove(&mut self, fp: u64)
        ensures
            final(self)@ == old(self)@.remove(fp),
    {
        proof {
            self.lemma_view();
        }
        let held: u64 = self.count(fp);
        if held > 1 {
            self.counts.insert(fp, held - 1);
        } else {
            self.counts.remove(&fp);
        }
        proof {
            self.lemma_view();
            assert(self@ =~= old(self)@.remove(fp));
        }
    }
}

/// What a [`Blooms`] holds, as a mathematical value: the digests marked
/// pending and the digests marked forwarded, each with its count.
pub struct BloomsView {
    pub pending: Multiset<u64>,
    pub forwarded: Multiset<u64>,
}

impl BloomsView {
    /// Whether a request for the address waits for its reply on the link.
    pub open spec fn contains_pending(self, hbfi: HBFI) -> bool {
        self.pending.count(hbfi.digest()) > 0
    }

    /// Whether a request for the address was sent out on the link.
    pub open spec fn contains_forwarded(self, hbfi: HBFI) -> bool {
        self.forwarded.count(hbfi.digest()) > 0
    }

    /// The result of adding one mark to a counting set.
    pub open spec fn marked(marks: Multiset<u64>, fp: u64) -> Multiset<u64> {
        if marks.count(fp) < u64::MAX {
            marks.insert(fp)
        } else {
            marks
        }
    }

    /// The state after a pending mark is set for the address.
    pub open spec fn create_pending(self, hbfi: HBFI) -> BloomsView {
        BloomsView { pending: Self::marked(self.pending, hbfi.digest()), ..self }
    }

    /// The state after a forwarded mark is set for the address.
    pub open spec fn create_forwarded(self, hbfi: HBFI) -> BloomsView {
        BloomsView { forwarded: Self::marked(self.forwarded, hbfi.digest()), ..self }
    }

    /// The state after a pending mark of the address is cleared.
    pub open spec fn delete_pending(self, hbfi: HBFI) -> BloomsView {
        BloomsView { pending: self.pending.remove(hbfi.digest()), ..self }
    }

    /// The state after a forwarded mark of the address is cleared.
    pub open spec fn delete_forwarded(self, hbfi: HBFI) -> BloomsView {
        BloomsView { forwarded: self.forwarded.remove(hbfi.digest()), ..self }
    }
}

/// The interest state of one link.
pub struct Blooms {
    pending_request: MarkSet,
    forwarded_request: MarkSet,
}

impl View for Blooms {
    type V = BloomsView;

    closed spec fn view(&self) -> BloomsView {
        BloomsView { pending: self.pending_request@, forwarded: self.forwarded_request@ }
    }
}

impl Blooms {
    /// The interest state of a link on which nothing has happened yet.
    pub fn new() -> (blooms: Blooms)
        ensures
            blooms@ == (BloomsView {
                pending: Multiset::<u64>::empty(),
                forwarded: Multiset::<u64>::empty(),
            }),
    {
        Blooms { pending_request: MarkSet::new(), forwarded_request: MarkSet::new() }
    }

    /// Records that a request for the address waits for its reply here.
    pub fn create_pending_request(&mut self, hbfi: &HBFI)
        ensures
            final(self)@ == old(self)@.create_pending(*hbfi),
            final(self)@.contains_pending(*hbfi),
    {
        proof {
            lemma_no_false_negative(self@, *hbfi, *hbfi);
        }
        self.pending_request.insert(hbfi.fingerprint());
    }

    /// Whether a request for the address waits for its reply here.
    pub fn contains_pending_request(&self, hbfi: &HBFI) -> (found: bool)
        ensures
            found == self@.contains_pending(*hbfi),
    {
        self.pending_request.contains(hbfi.fingerprint())
    }

    /// Clears one pending mark of the address.
    pub fn delete_pending_request(&mut self, hbfi: &HBFI)
        ensures
            final(self)@ == old(self)@.delete_pending(*hbfi),
    {
        self.pending_request.remove(hbfi.fingerprint());
    }

    /// Records that a request for the address was sent out here.
    pub fn create_forwarded_request(&mut self, hbfi: &HBFI)
        ensures
            final(self)@ == old(self)@.create_forwarded(*hbfi),
            final(self)@.contains_forwarded(*hbfi),
    {
        proof {
            lemma_no_false_negative(self@, *hbfi, *hbfi);
        }
        self.forwarded_request.insert(hbfi.fingerprint());
    }

    /// Whether a request for the address was sent out here.
    pub fn contains_forwarded_request(&self, hbfi: &HBFI) -> (found: bool)
        ensures
            found == self@.contains_forwarded(*hbfi),
    {
        self.forwarded_request.contains(hbfi.fingerprint())
    }

    /// Clears one forwarded mark of the address.
    pub fn delete_forwarded_request(&mut self, hbfi: &HBFI)
        ensures
            final(self)@ == old(self)@.delete_forwarded(*hbfi),
    {
        self.forwarded_request.remove(hbfi.fingerprint());
    }
}

/// A mark that was set is seen: after an address was marked, the set shows
/// it, whatever it held before.
pub proof fn lemma_marked_is_seen(marks: Multiset<u64>, fp: u64)
    ensures
        BloomsView::marked(marks, fp).count(fp) > 0,
        marks.count(fp) < u64::MAX ==> BloomsView::marked(marks, fp).count(fp) == marks.count(fp)
            + 1,
{
}

/// Marking one address takes no mark away: every digest has at least the
/// count it had, and the digests of other addresses have exactly that.
pub proof fn lemma_marking_keeps_marks(marks: Multiset<u64>, fp: u64, other: u64)
    ensures
        BloomsView::marked(marks, fp).count(other) >= marks.count(other),
        other != fp ==> BloomsView::marked(marks, fp).count(other) == marks.count(other),
{
}

/// Clearing a mark of one address takes exactly one mark of its digest, if
/// there is one, and leaves every other digest as it was: an address that
/// is marked stays visible when another is cleared, also where both have
/// the same digest, as long as both marks were set.
pub proof fn lemma_clearing_is_safe(marks: Multiset<u64>, fp: u64, other: u64)
    ensures
        other != fp ==> marks.remove(fp).count(other) == marks.count(other),
        marks.count(fp) >= 1 ==> marks.remove(fp).count(fp) == marks.count(fp) - 1,
        marks.count(fp) == 0 ==> marks.remove(fp) == marks,
        marks.count(fp) >= 2 ==> marks.remove(fp).count(fp) > 0,
{
    if marks.count(fp) == 0 {
        assert(marks.remove(fp) =~= marks);
    }
}

/// Setting a mark and clearing it again leaves the set as it was, unless
/// the count stood at `u64::MAX`.
pub proof fn lemma_mark_then_clear(marks: Multiset<u64>, fp: u64)
    requires
        marks.count(fp) < u64::MAX,
    ensures
        BloomsView::marked(marks, fp).remove(fp) == marks,
{
    assert(BloomsView::marked(marks, fp).remove(fp) =~= marks);
}

/// The interest state never says no for an address that is marked: right
/// after a mark was set the link shows the address, and a mark that was
/// there is still shown after a mark of any address was set, or a mark of
/// an address with another digest was cleared. The two records of a link
/// do not touch each other.
pub proof fn lemma_no_false_negative(state: BloomsView, hbfi: HBFI, other: HBFI)
    ensures
        state.create_pending(hbfi).contains_pending(hbfi),
        state.create_forwarded(hbfi).contains_forwarded(hbfi),
        state.contains_pending(other) ==> state.create_pending(hbfi).contains_pending(other),
        state.contains_forwarded(other) ==> state.create_forwarded(hbfi).contains_forwarded(
            other,
        ),
        other.digest() != hbfi.digest() ==> state.delete_pending(hbfi).contains_pending(other)
            == state.contains_pending(other),
        other.digest() != hbfi.digest() ==> state.delete_forwarded(hbfi).contains_forwarded(other)
            == state.contains_forwarded(other),
        state.create_pending(hbfi).forwarded == state.forwarded,
        state.delete_pending(hbfi).forwarded == state.forwarded,
        state.create_forwarded(hbfi).pending == state.pending,
        state.delete_forwarded(hbfi).pending == state.pending,
{
    lemma_marked_is_seen(state.pending, hbfi.digest());
    lemma_marked_is_seen(state.forwarded, hbfi.digest());
    lemma_marking_keeps_marks(state.pending, hbfi.digest(), other.digest());
    lemma_marking_keeps_marks(state.forwarded, hbfi.digest(), other.digest());
    lemma_clearing_is_safe(state.pending, hbfi.digest(), other.digest());
    lemma_clearing_is_safe(state.forwarded, hbfi.digest(), other.digest());
}

} // verus!
