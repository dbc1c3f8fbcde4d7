//! Interests and data, and the face through which a node and an application
//! hand them to each other.
//!
//! An interest names content by a path such as `interested/in/world/affairs`.
//! For matching, every component of the path is hashed to a few positions
//! of a sparse bit vector.
use crate::address::{fnv1a, FNV_OFFSET_BASIS, FNV_PRIME};
use vstd::prelude::*;

verus! {

/// The number of bits of the sparse bit vector that interests are matched
/// over.
pub const SDR_BITS: usize = 2048;

/// The byte that parts the components of a name.
pub const SEPARATOR: u8 = 0x2f;

/// The components of a name: the runs of bytes between separators. A name
/// with n separators has n + 1 components, some of which may be empty.
pub open spec fn components(name: Seq<u8>) -> Seq<Seq<u8>>
    decreases name.len(),
{
    if name.len() == 0 {
        seq![Seq::<u8>::empty()]
    } else {
        let front = components(name.drop_last());
        if name.last() == SEPARATOR {
            front.push(Seq::<u8>::empty())
        } else {
            front.update(front.len() - 1, front.last().push(name.last()))
        }
    }
}

/// The four positions that a hash gives: the low eleven bits of each of its
/// four sixteen-bit parts.
pub open spec fn positions(hash: u64) -> Seq<usize> {
    seq![
        (hash & 0x7ff) as usize,
        ((hash >> 16) & 0x7ff) as usize,
        ((hash >> 32) & 0x7ff) as usize,
        ((hash >> 48) & 0x7ff) as usize,
    ]
}

/// The index of a name: for every component, the positions of its hash.
pub open spec fn index_of(name: Seq<u8>) -> Seq<Seq<usize>> {
    components(name).map_values(|component: Seq<u8>| positions(fnv1a(component)))
}

/// The rows of an index, as mathematical values.
pub open spec fn rows(index: Seq<Vec<usize>>) -> Seq<Seq<usize>> {
    index.map_values(|row: Vec<usize>| row@)
}

/// Whether every position of an index lies within the bit vector.
pub open spec fn in_range(index: Seq<Seq<usize>>) -> bool {
    forall|r: int, c: int|
        0 <= r < index.len() && 0 <= c < index[r].len() ==> #[trigger] index[r][c] < SDR_BITS
}

/// A name has at least one component.
pub proof fn lemma_components_nonempty(name: Seq<u8>)
    ensures
        components(name).len() >= 1,
    decreases name.len(),
{
    if name.len() > 0 {
        lemma_components_nonempty(name.drop_last());
    }
}

/// Every position of the index of a name lies within the bit vector.
pub proof fn lemma_index_in_range(name: Seq<u8>)
    ensures
        in_range(index_of(name)),
{
    assert forall|r: int, c: int|
        0 <= r < index_of(name).len() && 0 <= c < index_of(name)[r].len() implies (
    #[trigger] index_of(name)[r][c]) < SDR_BITS by {
        let hash = fnv1a(components(name)[r]);
        lemma_positions_in_range(hash);
    }
}

/// The positions of a hash lie within the bit vector.
pub proof fn lemma_positions_in_range(hash: u64)
    ensures
        positions(hash).len() == 4,
        forall|c: int| 0 <= c < 4 ==> #[trigger] positions(hash)[c] < SDR_BITS,
{
    assert(hash & 0x7ff < 2048) by (bit_vector);
    assert((hash >> 16) & 0x7ff < 2048) by (bit_vector);
    assert((hash >> 32) & 0x7ff < 2048) by (bit_vector);
    assert((hash >> 48) & 0x7ff < 2048) by (bit_vector);
}

/// Computes the positions of a hash.
fn positions_of(hash: u64) -> (row: Vec<usize>)
    ensures
        row@ == positions(hash),
{
    proof {
        lemma_positions_in_range(hash);
    }
    let mut row: Vec<usize> = Vec::new();
    row.push((hash & 0x7ff) as usize);
    row.push(((hash >> 16) & 0x7ff) as usize);
    row.push(((hash >> 32) & 0x7ff) as usize);
    row.push(((hash >> 48) & 0x7ff) as usize);
    proof {
        assert(row@ =~= positions(hash));
    }
    row
}

/// A copy of an index.
pub(crate) fn copy_index(index: &Vec<Vec<usize>>) -> (copy: Vec<Vec<usize>>)
    ensures
        rows(copy@) == rows(index@),
{
    let mut copy: Vec<Vec<usize>> = Vec::new();
    let mut r: usize = 0;
    while r < index.len()
        invariant
            r <= index.len(),
            rows(copy@) == rows(index@).take(r as int),
        decreases index.len() - r,
    {
        let row: Vec<usize> = index[r].clone();
        assert(row@ =~= index@[r as int]@);
        let ghost front = rows(copy@);
        copy.push(row);
        proof {
            assert(rows(copy@) =~= front.push(row@));
            assert(rows(index@).take(r + 1) =~= rows(index@).take(r as int).push(
                index@[r as int]@,
            ));
        }
        r = r + 1;
    }
    proof {
        assert(rows(index@).take(r as int) =~= rows(index@));
    }
    copy
}

/// An interest in the content of a name.
#[derive(Debug, PartialEq, Eq)]
pub struct Interest {
    name: String,
    index: Vec<Vec<usize>>,
}

impl Interest {
    #[verifier::type_invariant]
    spec fn well_formed(self) -> bool {
        in_range(rows(self.index@)) && rows(self.index@) == index_of(encode_name(self.name@))
    }

    /// The name of the interest, as its characters.
    pub closed spec fn name_view(&self) -> Seq<char> {
        self.name@
    }

    /// The index of the interest: for every component of its name, the
    /// positions of the component in the bit vector.
    pub closed spec fn index_view(&self) -> Seq<Seq<usize>> {
        rows(self.index@)
    }

    /// An interest in the content of `name`.
    pub fn new(name: String) -> (interest: Interest)
        ensures
            interest.name_view() == name@,
            interest.index_view() == index_of(encode_name(name@)),
    {
        let bytes = name.as_str().as_bytes();
        let mut index: Vec<Vec<usize>> = Vec::new();
        let mut hash: u64 = FNV_OFFSET_BASIS;
        let mut i: usize = 0;
        while i < bytes.len()
            invariant
                i <= bytes.len(),
                components(bytes@.take(i as int)).len() == index.len() + 1,
                rows(index@) == index_of(bytes@.take(i as int)).drop_last(),
                hash == fnv1a(components(bytes@.take(i as int)).last()),
            decreases bytes.len() - i,
        {
            let ghost before = components(bytes@.take(i as int));
            let ghost after = components(bytes@.take(i + 1));
            let ghost front = rows(index@);
            proof {
                assert(bytes@.take(i + 1).drop_last() =~= bytes@.take(i as int));
                assert(bytes@.take(i + 1).last() == bytes@[i as int]);
            }
            if bytes[i] == SEPARATOR {
                index.push(positions_of(hash));
                proof {
                    assert(after == before.push(Seq::<u8>::empty()));
                    assert(rows(index@) =~= front.push(positions(hash)));
                    assert(index_of(bytes@.take(i as int)) =~= front.push(positions(hash)));
                    assert(index_of(bytes@.take(i + 1)).drop_last() =~= index_of(
                        bytes@.take(i as int),
                    ));
                }
                hash = FNV_OFFSET_BASIS;
            } else {
                hash = (hash ^ (bytes[i] as u64)).wrapping_mul(FNV_PRIME);
                proof {
                    let last = before.last().push(bytes@[i as int]);
                    assert(after == before.update(before.len() - 1, last));
                    assert(last.drop_last() =~= before.last());
                    assert(index_of(bytes@.take(i + 1)).drop_last() =~= index_of(
                        bytes@.take(i as int),
                    ).drop_last());
                }
            }
            i = i + 1;
        }
        let ghost front = rows(index@);
        index.push(positions_of(hash));
        proof {
            assert(bytes@.take(i as int) =~= bytes@);
            assert(rows(index@) =~= front.push(positions(hash)));
            assert(index_of(bytes@) =~= front.push(positions(hash)));
            lemma_index_in_range(bytes@);
        }
        Interest { name, index }
    }

    /// The name of the interest.
    pub fn name(&self) -> (name: String)
        ensures
            name@ == self.name_view(),
    {
        self.name.clone()
    }

    /// The index of the interest.
    pub fn index(&self) -> (index: Vec<Vec<usize>>)
        ensures
            rows(index@) == self.index_view(),
            in_range(rows(index@)),
            rows(index@) == index_of(encode_name(self.name_view())),
    {
        proof {
            use_type_invariant(self);
        }
        copy_index(&self.index)
    }
}

/// The UTF-8 bytes of a name.
pub open spec fn encode_name(name: Seq<char>) -> Seq<u8> {
    vstd::utf8::encode_utf8(name)
}

impl Clone for Interest {
    fn clone(&self) -> (copy: Self)
        ensures
            copy.name_view() == self.name_view(),
            copy.index_view() == self.index_view(),
    {
        proof {
            use_type_invariant(self);
        }
        Interest { name: self.name.clone(), index: copy_index(&self.index) }
    }
}

/// Content under a name.
#[derive(Debug, PartialEq, Eq)]
pub struct Data {
    name: String,
    content: Vec<u8>,
}

impl Data {
    /// The name of the content, as its characters.
    pub closed spec fn name_view(&self) -> Seq<char> {
        self.name@
    }

    /// The content, as its bytes.
    pub closed spec fn content_view(&self) -> Seq<u8> {
        self.content@
    }

    /// The content `content` under the name `name`.
    pub fn new(name: String, content: Vec<u8>) -> (data: Data)
        ensures
            data.name_view() == name@,
            data.content_view() == content@,
    {
        Data { name, content }
    }

    /// The name of the content.
    pub fn name(&self) -> (name: String)
        ensures
            name@ == self.name_view(),
    {
        self.name.clone()
    }

    /// The content.
    pub fn content(&self) -> (content: &Vec<u8>)
        ensures
            content@ == self.content_view(),
    {
        &self.content
    }
}

/// The face between a node and an application: interests and data go in on
/// one side and come out on the other.
pub trait Face {
    /// A face with nothing in it.
    fn new() -> Self where Self: Sized;

    /// Hands an interest to the face.
    fn interest_in(&self, i: Interest);

    /// Takes an interest from the face, if it holds one.
    fn interest_out(&self) -> Option<Interest>;

    /// Hands data to the face.
    fn data_in(&self, d: Data);

    /// Takes data from the face, if it holds some.
    fn data_out(&self) -> Option<Data>;
}

} // verus!
