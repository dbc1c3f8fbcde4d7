//! Matching of interests over a sparse bit vector.
//!
//! Every interest that a node has seen leaves its positions set in a bit
//! vector. How much of a new interest the node has seen before shows in how
//! many of the positions of the new interest are set. The node also keeps
//! the indices of the names it has seen most recently.
use crate::faces::{copy_index, in_range, rows, Interest, SDR_BITS};
use bitvec::order::Lsb0;
use bitvec::vec::BitVec;
use lru::LruCache;
use vstd::prelude::*;

verus! {

/// How many names the node keeps the indices of.
pub const LRU_ENTRIES: usize = 1000;

/// A bit vector of the bitvec crate. Its inside is hidden from proofs; what
/// it holds is told by [`bits_of`].
#[verifier::external_body]
pub struct Bits {
    inner: BitVec<usize, Lsb0>,
}

/// The hasher that the lru crate uses where none is given.
#[verifier::external_type_specification]
#[verifier::external_body]
pub struct ExDefaultHasher(lru::DefaultHasher);

/// The cache of the lru crate.
#[verifier::external_type_specification]
#[verifier::external_body]
#[verifier::reject_recursive_types(K)]
#[verifier::reject_recursive_types(V)]
#[verifier::reject_recursive_types(S)]
pub struct ExLruCache<K, V, S>(LruCache<K, V, S>);

/// The bits that a bit vector holds, in order.
pub uninterp spec fn bits_of(bits: Bits) -> Seq<bool>;

/// The names that a cache holds with their indices, the one used last
/// first.
pub uninterp spec fn names_of(cache: LruCache<String, Vec<Vec<usize>>>) -> Seq<
    (Seq<char>, Seq<Seq<usize>>),
>;

/// The number of names that a cache was made to hold.
pub uninterp spec fn limit_of(cache: LruCache<String, Vec<Vec<usize>>>) -> nat;

/// Whether a list of names holds a name.
pub open spec fn holds(names: Seq<(Seq<char>, Seq<Seq<usize>>)>, name: Seq<char>) -> bool {
    exists|i: int| 0 <= i < names.len() && (#[trigger] names[i]).0 == name
}

/// The names of a cache after a name was put into it. If the cache held
/// the name, the name comes first, with the new index, and its old entry is
/// gone. If not, a cache that was made to hold no name at all takes
/// nothing in; any other cache takes the name in at the first place, and
/// if it was full, the name that was used least recently is gone.
pub open spec fn put(
    names: Seq<(Seq<char>, Seq<Seq<usize>>)>,
    limit: nat,
    name: Seq<char>,
    index: Seq<Seq<usize>>,
) -> Seq<(Seq<char>, Seq<Seq<usize>>)> {
    if holds(names, name) {
        let at = choose|i: int| 0 <= i < names.len() && (#[trigger] names[i]).0 == name;
        seq![(name, index)] + names.remove(at)
    } else if limit == 0 {
        names
    } else if names.len() == limit {
        seq![(name, index)] + names.drop_last()
    } else {
        seq![(name, index)] + names
    }
}

/// Calls `BitVec::repeat` for a vector of `len` bits that are all clear.
/// The length is kept far below the greatest that the crate can hold,
/// above which the call panics.
#[verifier::external_body]
fn clear_bits(len: usize) -> (bits: Bits)
    requires
        len <= 0x1000_0000,
    ensures
        bits_of(bits) == Seq::new(len as nat, |i: int| false),
{
    Bits { inner: BitVec::repeat(false, len) }
}

/// Calls `BitSlice::set`, which writes one bit and leaves the others, and
/// panics for an index that is not below the length.
#[verifier::external_body]
fn set_bit(bits: &mut Bits, index: usize, value: bool)
    requires
        index < bits_of(*old(bits)).len(),
    ensures
        bits_of(*final(bits)) == bits_of(*old(bits)).update(index as int, value),
{
    bits.inner.set(index, value);
}

/// Calls `BitSlice::get` with a position, which gives the bit there, and
/// nothing for a position that is not below the length.
#[verifier::external_body]
fn get_bit(bits: &Bits, index: usize) -> (bit: Option<bool>)
    ensures
        bit == if index < bits_of(*bits).len() {
            Some(bits_of(*bits)[index as int])
        } else {
            None::<bool>
        },
{
    match bits.inner.get(index) {
        Some(bit) => Some(*bit),
        None => None,
    }
}

/// Calls `LruCache::new` for an empty cache that holds at most `limit`
/// names. The call sets up a hash map for as many entries as the limit
/// says; the limit is kept small, so that the size of that map can be
/// computed.
#[verifier::external_body]
fn new_cache(limit: usize) -> (cache: LruCache<String, Vec<Vec<usize>>>)
    requires
        limit <= 0x1_0000,
    ensures
        names_of(cache) == Seq::<(Seq<char>, Seq<Seq<usize>>)>::empty(),
        limit_of(cache) == limit,
{
    LruCache::new(limit)
}

/// Calls `LruCache::put`, which makes the name the most recently used one,
/// with the index given. An entry that the cache held under the name is
/// replaced. Otherwise a cache with the limit 0 is left as it is; any other
/// cache takes the name in, and drops the entry that was used least
/// recently if it is full.
#[verifier::external_body]
fn put_name(cache: &mut LruCache<String, Vec<Vec<usize>>>, name: String, index: Vec<Vec<usize>>)
    ensures
        names_of(*final(cache)) == put(
            names_of(*old(cache)),
            limit_of(*old(cache)),
            name@,
            rows(index@),
        ),
        limit_of(*final(cache)) == limit_of(*old(cache)),
{
    cache.put(name, index);
}

/// Calls `LruCache::peek`, which gives the index that the cache holds under
/// a name, if it holds the name, and leaves the order of the names as it
/// is.
#[verifier::external_body]
fn peek_name<'a>(cache: &'a LruCache<String, Vec<Vec<usize>>>, name: &str) -> (found: Option<
    &'a Vec<Vec<usize>>,
>)
    ensures
        found is Some <==> holds(names_of(*cache), name@),
        found matches Some(index) ==> exists|i: int|
            0 <= i < names_of(*cache).len() && #[trigger] names_of(*cache)[i] == (
                name@,
                rows(index@),
            ),
{
    cache.peek(name)
}

/// Whether a position stands in an index.
pub open spec fn lists(index: Seq<Seq<usize>>, position: int) -> bool {
    exists|r: int, c: int|
        0 <= r < index.len() && 0 <= c < index[r].len() && #[trigger] index[r][c] == position
}

/// The bits after the positions of an index were set: a bit is set if it
/// was set before or if its position stands in the index.
pub open spec fn marked(bits: Seq<bool>, index: Seq<Seq<usize>>) -> Seq<bool> {
    Seq::new(bits.len(), |i: int| bits[i] || lists(index, i))
}

/// The bits at the positions of an index, row after row.
pub open spec fn readings(bits: Seq<bool>, index: Seq<Seq<usize>>) -> Seq<bool> {
    index.flatten().map_values(|position: usize| bits[position as int])
}

/// How many bits of a list are set.
pub open spec fn set_among(readings: Seq<bool>) -> nat {
    readings.filter(|bit: bool| bit).len()
}

/// How much of an interest a node has seen before: of the `total`
/// positions of the interest, `hits` are set.
#[derive(Clone, Copy, Debug, PartialEq, Eq, Structural)]
pub struct Overlap {
    pub hits: usize,
    pub total: usize,
}

/// The record of the interests that a node has seen.
pub struct SparseDistributedRouting {
    sdr: Bits,
    lru: LruCache<String, Vec<Vec<usize>>>,
}

impl SparseDistributedRouting {
    /// The invariant of the record: it has 2048 bits.
    pub open spec fn wf(&self) -> bool {
        self.bits().len() == SDR_BITS
    }

    /// The bits of the record.
    pub closed spec fn bits(&self) -> Seq<bool> {
        bits_of(self.sdr)
    }

    /// The names that the record keeps with their indices, the one seen
    /// last first.
    pub closed spec fn names(&self) -> Seq<(Seq<char>, Seq<Seq<usize>>)> {
        names_of(self.lru)
    }

    /// The number of names that the record keeps at most.
    pub closed spec fn limit(&self) -> nat {
        limit_of(self.lru)
    }

    /// The record of a node that has seen no interest: 2048 clear bits and
    /// room for the indices of 1000 names.
    pub fn new() -> (record: Self)
        ensures
            record.wf(),
            record.bits() == Seq::new(SDR_BITS as nat, |i: int| false),
            record.names() == Seq::<(Seq<char>, Seq<Seq<usize>>)>::empty(),
            record.limit() == LRU_ENTRIES,
    {
        SparseDistributedRouting { sdr: clear_bits(SDR_BITS), lru: new_cache(LRU_ENTRIES) }
    }

    /// Records an interest: sets the bits at its positions, and keeps its
    /// index under its name as the name seen last.
    pub fn insert(&mut self, interest: Interest)
        requires
            old(self).wf(),
        ensures
            final(self).wf(),
            final(self).bits() == marked(old(self).bits(), interest.index_view()),
            final(self).names() == put(
                old(self).names(),
                old(self).limit(),
                interest.name_view(),
                interest.index_view(),
            ),
            final(self).limit() == old(self).limit(),
    {
        let name: String = interest.name();
        let indices: Vec<Vec<usize>> = interest.index();
        let ghost index = rows(indices@);
        let ghost before = self.bits();
        let mut r: usize = 0;
        while r < indices.len()
            invariant
                r <= indices.len(),
                index == rows(indices@),
                in_range(index),
                before.len() == SDR_BITS,
                bits_of(self.sdr) == marked(before, index.take(r as int)),
                self.lru == old(self).lru,
            decreases indices.len() - r,
        {
            let row: &Vec<usize> = &indices[r];
            let ghost done = index.take(r as int);
            let mut c: usize = 0;
            proof {
                assert(row@.take(0) =~= Seq::<usize>::empty());
                lemma_lists_empty_row(done, before);
            }
            while c < row.len()
                invariant
                    c <= row.len(),
                    r < indices.len(),
                    row@ == index[r as int],
                    index == rows(indices@),
                    in_range(index),
                    done == index.take(r as int),
                    before.len() == SDR_BITS,
                    bits_of(self.sdr) == marked(before, done.push(row@.take(c as int))),
                    self.lru == old(self).lru,
                decreases row.len() - c,
            {
                let position: usize = row[c];
                let ghost so_far = done.push(row@.take(c as int));
                let ghost next = done.push(row@.take(c + 1));
                proof {
                    assert(index[r as int][c as int] < SDR_BITS);
                }
                set_bit(&mut self.sdr, position, true);
                proof {
                    assert forall|i: int| 0 <= i < before.len() implies (lists(next, i) <==> lists(
                        so_far,
                        i,
                    ) || i == position) by {
                        lemma_lists_step(done, row@, c as int, i);
                    }
                    assert(bits_of(self.sdr) =~= marked(before, next));
                }
                c = c + 1;
            }
            proof {
                assert(row@.take(c as int) =~= row@);
                assert(done.push(row@) =~= index.take(r + 1));
            }
            r = r + 1;
        }
        proof {
            assert(index.take(r as int) =~= index);
        }
        put_name(&mut self.lru, name, indices);
    }

    /// The index that the record keeps under a name, if it keeps the name.
    /// Asking does not make the name the one seen last.
    pub fn recall(&self, name: &str) -> (found: Option<Vec<Vec<usize>>>)
        ensures
            found is Some <==> holds(self.names(), name@),
            found matches Some(index) ==> exists|i: int|
                0 <= i < self.names().len() && #[trigger] self.names()[i] == (
                    name@,
                    rows(index@),
                ),
    {
        match peek_name(&self.lru, name) {
            Some(index) => {
                let copy: Vec<Vec<usize>> = copy_index(index);
                proof {
                    let at = choose|i: int|
                        0 <= i < names_of(self.lru).len() && #[trigger] names_of(self.lru)[i] == (
                            name@,
                            rows(index@),
                        );
                    assert(self.names()[at] == (name@, rows(copy@)));
                }
                Some(copy)
            },
            None => None,
        }
    }

    /// The bits of the record, in order.
    pub fn snapshot(&self) -> (bits: Vec<bool>)
        requires
            self.wf(),
        ensures
            bits@ == self.bits(),
    {
        let mut bits: Vec<bool> = Vec::new();
        let mut i: usize = 0;
        while i < SDR_BITS
            invariant
                i <= SDR_BITS,
                self.wf(),
                bits@ == self.bits().take(i as int),
            decreases SDR_BITS - i,
        {
            let ghost front = bits@;
            match get_bit(&self.sdr, i) {
                Some(bit) => {
                    bits.push(bit);
                },
                None => {},
            }
            proof {
                assert(bits@ =~= self.bits().take(i + 1));
            }
            i = i + 1;
        }
        proof {
            assert(self.bits().take(i as int) =~= self.bits());
        }
        bits
    }

    /// Reads the bits at the positions of an interest, row after row.
    pub fn read(&self, interest: &Interest) -> (vals: Vec<bool>)
        requires
            self.wf(),
        ensures
            vals@ == readings(self.bits(), interest.index_view()),
    {
        let indices: Vec<Vec<usize>> = interest.index();
        let ghost index = rows(indices@);
        let mut vals: Vec<bool> = Vec::new();
        let mut r: usize = 0;
        proof {
            assert(index.take(0).flatten() =~= Seq::<usize>::empty());
            assert(vals@ =~= readings(self.bits(), index.take(0)));
        }
        while r < indices.len()
            invariant
                r <= indices.len(),
                index == rows(indices@),
                in_range(index),
                bits_of(self.sdr).len() == SDR_BITS,
                vals@ == readings(self.bits(), index.take(r as int)),
            decreases indices.len() - r,
        {
            let row: &Vec<usize> = &indices[r];
            let ghost done = index.take(r as int);
            let mut c: usize = 0;
            proof {
                assert(row@.take(0) =~= Seq::<usize>::empty());
                done.lemma_flatten_push(row@.take(0));
                assert(done.push(row@.take(0)).flatten() =~= done.flatten());
            }
            while c < row.len()
                invariant
                    c <= row.len(),
                    r < indices.len(),
                    row@ == index[r as int],
                    index == rows(indices@),
                    in_range(index),
                    done == index.take(r as int),
                    bits_of(self.sdr).len() == SDR_BITS,
                    vals@ == readings(self.bits(), done.push(row@.take(c as int))),
                decreases row.len() - c,
            {
                let position: usize = row[c];
                proof {
                    assert(index[r as int][c as int] < SDR_BITS);
                    done.lemma_flatten_push(row@.take(c as int));
                    done.lemma_flatten_push(row@.take(c + 1));
                    assert(row@.take(c + 1) =~= row@.take(c as int).push(position));
                    assert(done.push(row@.take(c + 1)).flatten() =~= done.push(
                        row@.take(c as int),
                    ).flatten().push(position));
                }
                let ghost front = vals@;
                match get_bit(&self.sdr, position) {
                    Some(bit) => {
                        vals.push(bit);
                    },
                    None => {},
                }
                proof {
                    assert(vals@ =~= front.push(self.bits()[position as int]));
                    assert(vals@ =~= readings(self.bits(), done.push(row@.take(c + 1))));
                }
                c = c + 1;
            }
            proof {
                assert(row@.take(c as int) =~= row@);
                assert(done.push(row@) =~= index.take(r + 1));
            }
            r = r + 1;
        }
        proof {
            assert(index.take(r as int) =~= index);
        }
        vals
    }

    /// Tells how much of an interest the node has seen before: how many
    /// positions the interest has, and how many of them are set.
    pub fn overlap(&self, interest: &Interest) -> (overlap: Overlap)
        requires
            self.wf(),
        ensures
            overlap.total == interest.index_view().flatten().len(),
            overlap.hits == set_among(readings(self.bits(), interest.index_view())),
            overlap.hits <= overlap.total,
    {
        let vals: Vec<bool> = self.read(interest);
        let mut hits: usize = 0;
        let mut i: usize = 0;
        proof {
            reveal(Seq::filter);
            assert(vals@.take(0) =~= Seq::<bool>::empty());
        }
        while i < vals.len()
            invariant
                i <= vals.len(),
                hits == set_among(vals@.take(i as int)),
                hits <= i,
            decreases vals.len() - i,
        {
            proof {
                reveal(Seq::filter);
                assert(vals@.take(i + 1).drop_last() =~= vals@.take(i as int));
            }
            if vals[i] {
                hits = hits + 1;
            }
            i = i + 1;
        }
        proof {
            assert(vals@.take(i as int) =~= vals@);
        }
        Overlap { hits, total: vals.len() }
    }
}

/// Where one more position of a row is taken into an index, the index lists
/// that position and what it listed before.
proof fn lemma_lists_step(done: Seq<Seq<usize>>, row: Seq<usize>, c: int, i: int)
    requires
        0 <= c < row.len(),
    ensures
        lists(done.push(row.take(c + 1)), i) <==> lists(done.push(row.take(c)), i) || i == row[c],
{
    let so_far = done.push(row.take(c));
    let next = done.push(row.take(c + 1));
    let last = done.len() as int;
    if lists(so_far, i) {
        let (r, k) = choose|r: int, k: int|
            0 <= r < so_far.len() && 0 <= k < so_far[r].len() && #[trigger] so_far[r][k] == i;
        assert(next[r][k] == i);
    }
    if i == row[c] {
        assert(next[last][c] == i);
    }
    if lists(next, i) {
        let (r, k) = choose|r: int, k: int|
            0 <= r < next.len() && 0 <= k < next[r].len() && #[trigger] next[r][k] == i;
        if r < last || k < c {
            assert(so_far[r][k] == i);
        }
    }
}

/// An index with one more row that is empty lists what it listed before.
proof fn lemma_lists_empty_row(index: Seq<Seq<usize>>, bits: Seq<bool>)
    ensures
        marked(bits, index.push(Seq::<usize>::empty())) == marked(bits, index),
{
    let longer = index.push(Seq::<usize>::empty());
    assert forall|i: int| lists(longer, i) <==> lists(index, i) by {
        if lists(longer, i) {
            let (r, k) = choose|r: int, k: int|
                0 <= r < longer.len() && 0 <= k < longer[r].len() && #[trigger] longer[r][k] == i;
            assert(index[r][k] == i);
        }
        if lists(index, i) {
            let (r, k) = choose|r: int, k: int|
                0 <= r < index.len() && 0 <= k < index[r].len() && #[trigger] index[r][k] == i;
            assert(longer[r][k] == i);
        }
    }
    assert(marked(bits, longer) =~= marked(bits, index));
}

/// Every position of the rows of an index, taken row after row, stands in
/// the index.
proof fn lemma_flat_is_listed(index: Seq<Seq<usize>>, k: int)
    requires
        0 <= k < index.flatten().len(),
    ensures
        lists(index, index.flatten()[k] as int),
    decreases index.len(),
{
    if index.len() == 0 {
        assert(index.flatten() =~= Seq::<usize>::empty());
    } else {
        let front = index.drop_last();
        let last = index.last();
        assert(index =~= front.push(last));
        front.lemma_flatten_push(last);
        if k < front.flatten().len() {
            lemma_flat_is_listed(front, k);
            let (r, c) = choose|r: int, c: int|
                0 <= r < front.len() && 0 <= c < front[r].len() && #[trigger] front[r][c]
                    == index.flatten()[k];
            assert(index[r][c] == index.flatten()[k]);
        } else {
            let c = k - front.flatten().len();
            assert(index[index.len() - 1][c] == index.flatten()[k]);
        }
    }
}

/// Where every bit of a list is set, as many are set as the list is long.
proof fn lemma_all_set(readings: Seq<bool>)
    requires
        forall|i: int| 0 <= i < readings.len() ==> readings[i],
    ensures
        set_among(readings) == readings.len(),
    decreases readings.len(),
{
    reveal(Seq::filter);
    if readings.len() > 0 {
        lemma_all_set(readings.drop_last());
    }
}

/// An interest that was recorded is seen in full: right after its record,
/// and after the records of any other interests, every one of its
/// positions is set.
pub proof fn lemma_recorded_interest_is_seen(
    bits: Seq<bool>,
    index: Seq<Seq<usize>>,
    later: Seq<Seq<usize>>,
)
    requires
        bits.len() == SDR_BITS,
        in_range(index),
    ensures
        set_among(readings(marked(bits, index), index)) == index.flatten().len(),
        set_among(readings(marked(marked(bits, index), later), index)) == index.flatten().len(),
{
    let once = readings(marked(bits, index), index);
    let twice = readings(marked(marked(bits, index), later), index);
    assert forall|k: int| 0 <= k < index.flatten().len() implies once[k] && twice[k] by {
        lemma_flat_is_listed(index, k);
        let position = index.flatten()[k];
        let (r, c) = choose|r: int, c: int|
            0 <= r < index.len() && 0 <= c < index[r].len() && #[trigger] index[r][c] == position;
        assert(position < SDR_BITS);
    }
    lemma_all_set(once);
    lemma_all_set(twice);
}

} // verus!
