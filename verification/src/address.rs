//! Content addresses: hashed, multi-field names of a unit of content.
use vstd::prelude::*;
use vstd::string::StringSliceAdditionalSpecFns;

verus! {

/// A bloom-filter fragment: the hash of one field of a content address.
pub type BFI = u64;

/// Offset basis of the 64-bit FNV-1a hash.
pub const FNV_OFFSET_BASIS: u64 = 0xcbf2_9ce4_8422_2325;

/// Prime of the 64-bit FNV-1a hash.
pub const FNV_PRIME: u64 = 0x0000_0100_0000_01b3;

/// One round of the hash: folds the word `w` into the running value `h`.
pub open spec fn mix(h: u64, w: u64) -> u64 {
    (h ^ w).wrapping_mul(FNV_PRIME)
}

/// The FNV-1a hash of a byte string.
pub open spec fn fnv1a(bytes: Seq<u8>) -> u64
    decreases bytes.len(),
{
    if bytes.len() == 0 {
        FNV_OFFSET_BASIS
    } else {
        mix(fnv1a(bytes.drop_last()), bytes.last() as u64)
    }
}

/// The fragment that stands for a frame index: the hash of its eight
/// little-endian bytes.
pub open spec fn frame_fragment(frm: u64) -> u64 {
    fnv1a(vstd::bytes::spec_u64_to_le_bytes(frm))
}

/// Hashes a byte string to a fragment.
pub fn hash_bytes(bytes: &[u8]) -> (h: u64)
    ensures
        h == fnv1a(bytes@),
{
    let mut h: u64 = FNV_OFFSET_BASIS;
    let mut i: usize = 0;
    while i < bytes.len()
        invariant
            i <= bytes.len(),
            h == fnv1a(bytes@.take(i as int)),
        decreases bytes.len() - i,
    {
        proof {
            assert(bytes@.take(i + 1).drop_last() =~= bytes@.take(i as int));
        }
        h = (h ^ (bytes[i] as u64)).wrapping_mul(FNV_PRIME);
        i = i + 1;
    }
    proof {
        assert(bytes@.take(i as int) =~= bytes@);
    }
    h
}

/// Hashes a name to its fragment.
pub fn bloom_filter_index(s: &str) -> (bfi: BFI)
    ensures
        bfi == fnv1a(s.spec_bytes()),
{
    hash_bytes(s.as_bytes())
}

/// Hashes a frame index to its fragment.
pub fn frame_index(frm: u64) -> (bfi: BFI)
    ensures
        bfi == frame_fragment(frm),
{
    let bytes: Vec<u8> = vstd::bytes::u64_to_le_bytes(frm);
    hash_bytes(bytes.as_slice())
}

/// A content address. Each named field is kept as its fragment; the frame
/// index, which tells the chunks of one reply apart, is kept as a number and
/// hashed when the address is handed to the classifier.
#[derive(Clone, Copy, Debug, PartialEq, Eq, Hash, Structural)]
pub struct HBFI {
    /// Resource.
    pub res: BFI,
    /// Application.
    pub app: BFI,
    /// Module.
    pub m0d: BFI,
    /// Function.
    pub fun: BFI,
    /// Argument.
    pub arg: BFI,
    /// Frame index.
    pub frm: u64,
}

impl HBFI {
    /// The ordered feature list of the address: one fragment per field.
    pub open spec fn features(self) -> Seq<BFI> {
        seq![self.res, self.app, self.m0d, self.fun, self.arg, frame_fragment(self.frm)]
    }

    /// The 64-bit digest under which interest trackers file the address.
    pub open spec fn digest(self) -> u64 {
        mix(
            mix(
                mix(mix(mix(mix(FNV_OFFSET_BASIS, self.res), self.app), self.m0d), self.fun),
                self.arg,
            ),
            self.frm,
        )
    }

    /// Builds the address of frame 0 from the names of its five fields.
    pub fn new(res: &str, app: &str, m0d: &str, fun: &str, arg: &str) -> (hbfi: HBFI)
        ensures
            hbfi == (HBFI {
                res: fnv1a(res.spec_bytes()),
                app: fnv1a(app.spec_bytes()),
                m0d: fnv1a(m0d.spec_bytes()),
                fun: fnv1a(fun.spec_bytes()),
                arg: fnv1a(arg.spec_bytes()),
                frm: 0,
            }),
    {
        HBFI {
            res: bloom_filter_index(res),
            app: bloom_filter_index(app),
            m0d: bloom_filter_index(m0d),
            fun: bloom_filter_index(fun),
            arg: bloom_filter_index(arg),
            frm: 0,
        }
    }

    /// The same address at another frame index.
    pub fn offset(self, frm: u64) -> (hbfi: HBFI)
        ensures
            hbfi == (HBFI { frm, ..self }),
    {
        HBFI { frm, ..self }
    }

    /// The fragments of the address, in field order, for the classifier.
    pub fn to_bfis(&self) -> (bfis: Vec<BFI>)
        ensures
            bfis@ == self.features(),
    {
        let mut bfis: Vec<BFI> = Vec::new();
        bfis.push(self.res);
        bfis.push(self.app);
        bfis.push(self.m0d);
        bfis.push(self.fun);
        bfis.push(self.arg);
        bfis.push(frame_index(self.frm));
        proof {
            assert(bfis@ =~= self.features());
        }
        bfis
    }

    /// Computes the digest of the address.
    pub fn fingerprint(&self) -> (fp: u64)
        ensures
            fp == self.digest(),
    {
        let mut h: u64 = FNV_OFFSET_BASIS;
        h = (h ^ self.res).wrapping_mul(FNV_PRIME);
        h = (h ^ self.app).wrapping_mul(FNV_PRIME);
        h = (h ^ self.m0d).wrapping_mul(FNV_PRIME);
        h = (h ^ self.fun).wrapping_mul(FNV_PRIME);
        h = (h ^ self.arg).wrapping_mul(FNV_PRIME);
        h = (h ^ self.frm).wrapping_mul(FNV_PRIME);
        h
    }
}

} // verus!
