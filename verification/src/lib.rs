//! A Reed-Solomon erasure codec over GF(2^8) (the classic family), with field
//! arithmetic over GF(2^8) and GF(2^16), codec configuration, the parallel
//! execution policy, and the building blocks of the Leopard FFT codec
//! families (transforms and plans). The Leopard encoder and decoder
//! themselves are not part of this library, so a codec of a Leopard family is
//! never built: `ReedSolomon::with_options` refuses one.
use vstd::prelude::*;

pub mod codec;
pub mod errors;
pub mod galois_16;
pub mod galois_8;
pub(crate) mod matrix;
pub(crate) mod poly;

pub use crate::codec::leopard::{LEOPARD_SHARD_MULTIPLE, leopard_aligned_shard_len};
pub use crate::codec::parallel::{
    PARALLEL_POLICY_VERSION, ParallelDecision, ParallelPolicy, RuntimeParallelPolicyCache,
};
pub use crate::codec::{CodecFamily, CodecOptions, LeopardMode, MatrixMode};
pub use crate::errors::Error;
pub use crate::codec::reed_solomon::ReedSolomon;
pub use crate::codec::leopard_gf8::{LeopardGf8ProfileStats, leopard_gf8_profile_stats, reset_leopard_gf8_profile_stats};

verus! {

/// A reusable shard container for reconstruction workflows: it keeps its
/// buffer even while the shard is marked missing.
#[derive(Clone, Debug, PartialEq, Eq)]
pub struct ShardSlot<T> {
    data: T,
    present: bool,
}

impl<T> ShardSlot<T> {
    /// The buffer of the slot.
    pub closed spec fn inner(&self) -> T {
        self.data
    }

    /// Whether the slot holds a present shard.
    pub closed spec fn present(&self) -> bool {
        self.present
    }

    /// Create a shard slot whose data is already present.
    pub fn new_present(data: T) -> (r: Self)
        ensures
            r.inner() == data,
            r.present(),
    {
        ShardSlot { data, present: true }
    }

    /// Create a shard slot whose buffer exists but is currently marked missing.
    pub fn new_missing(data: T) -> (r: Self)
        ensures
            r.inner() == data,
            !r.present(),
    {
        ShardSlot { data, present: false }
    }

    /// Create a shard slot with an explicit presence flag.
    pub fn with_present(data: T, present: bool) -> (r: Self)
        ensures
            r.inner() == data,
            r.present() == present,
    {
        ShardSlot { data, present }
    }

    /// Returns whether the shard is currently marked present.
    pub fn is_present(&self) -> (r: bool)
        ensures
            r == self.present(),
    {
        self.present
    }

    /// Mark the shard as present.
    pub fn mark_present(&mut self)
        ensures
            final(self).present(),
            final(self).inner() == old(self).inner(),
    {
        self.present = true;
    }

    /// Mark the shard as missing while retaining ownership of its buffer.
    pub fn mark_missing(&mut self)
        ensures
            !final(self).present(),
            final(self).inner() == old(self).inner(),
    {
        self.present = false;
    }

    /// Access the inner storage regardless of presence state.
    pub fn as_inner(&self) -> (r: &T)
        ensures
            *r == self.inner(),
    {
        &self.data
    }

    /// Mutably access the inner storage regardless of presence state.
    pub fn as_inner_mut(&mut self) -> (r: &mut T)
        ensures
            *r == old(self).inner(),
            final(self).inner() == *final(r),
            final(self).present() == old(self).present(),
    {
        &mut self.data
    }

    /// Consume the slot and return the inner storage.
    pub fn into_inner(self) -> (r: T)
        ensures
            r == self.inner(),
    {
        self.data
    }
}

impl ShardSlot<Vec<u8>> {
    /// Copy `src` into the slot's own buffer, of the same length, and mark
    /// the slot present.
    pub(crate) fn fill(&mut self, src: &[u8])
        requires
            old(self).inner()@.len() == src@.len(),
        ensures
            final(self).inner()@ == src@,
            final(self).present(),
    {
        let n = src.len();
        let mut i: usize = 0;
        while i < n
            invariant
                n == src@.len(),
                self.data@.len() == n,
                i <= n,
                forall|j: int| 0 <= j < i ==> #[trigger] self.data@[j] == src@[j],
            decreases n - i,
        {
            self.data.set(i, src[i]);
            i = i + 1;
        }
        assert(self.data@ =~= src@);
        self.present = true;
    }
}

/// A container that may hold a shard, as reconstruction uses it: some of
/// the shards may be missing, and reconstruction writes the recovered ones
/// in place.
pub trait ReconstructShard: Sized {
    /// The shard held, `None` when it is missing.
    spec fn shard(&self) -> Option<Seq<u8>>;

    /// The container can take a shard of `len` bytes.
    spec fn fits(&self, len: nat) -> bool;

    /// The size of the shard; `None` when it is missing.
    fn len(&self) -> (r: Option<usize>)
        ensures
            r == match self.shard() {
                Some(v) => Some(v.len() as usize),
                None => None::<usize>,
            },
    ;

    /// Whether the container can take a shard of `len` bytes.
    fn fits_len(&self, len: usize) -> (r: bool)
        ensures
            r == self.fits(len as nat),
    ;

    /// Whether the shard is missing.
    fn is_empty(&self) -> (r: bool)
        ensures
            r == (self.shard() is None),
    {
        self.len().is_none()
    }

    /// The shard's bytes, `None` when it is missing.
    fn get(&mut self) -> (r: Option<&mut [u8]>)
        ensures
            old(self).shard() is Some ==> (r matches Some(s) && s@ == old(self).shard()->0
                && final(self).shard() == Some(final(s)@) && final(self).fits(final(s)@.len()) == old(self).fits(s@.len())),
            old(self).shard() is None ==> r is None && final(self).shard() == old(self).shard()
                && forall|l: nat| final(self).fits(l) == old(self).fits(l),
    ;

    /// The shard's bytes, making a missing shard of `len` bytes present:
    /// `Ok` when it was present, `Err(Ok)` when it has just been made
    /// present, `Err(Err(IncorrectShardSize))` when the container cannot take
    /// `len` bytes (it is then left as it was).
    fn get_or_initialize(&mut self, len: usize) -> (r: Result<&mut [u8], Result<&mut [u8], Error>>)
        ensures
            !old(self).fits(len as nat) ==> r == Err::<&mut [u8], Result<&mut [u8], Error>>(Err(Error::IncorrectShardSize))
                && final(self).shard() == old(self).shard(),
            old(self).fits(len as nat) && old(self).shard() is Some ==> (r matches Ok(s) && s@ == old(self).shard()->0
                && final(self).shard() == Some(final(s)@)),
            old(self).fits(len as nat) && old(self).shard() is None ==> (r matches Err(Ok(s)) && s@.len() == len
                && final(self).shard() == Some(final(s)@)),
    ;
}

impl ReconstructShard for ShardSlot<Vec<u8>> {
    open spec fn shard(&self) -> Option<Seq<u8>> {
        if self.present() {
            Some(self.inner()@)
        } else {
            None
        }
    }

    open spec fn fits(&self, len: nat) -> bool {
        self.inner()@.len() == len
    }

    fn fits_len(&self, len: usize) -> (r: bool) {
        self.data.len() == len
    }

    fn len(&self) -> (r: Option<usize>) {
        if self.present {
            Some(self.data.len())
        } else {
            None
        }
    }

    fn get(&mut self) -> (r: Option<&mut [u8]>) {
        if self.present {
            Some(self.data.as_mut_slice())
        } else {
            None
        }
    }

    fn get_or_initialize(&mut self, len: usize) -> (r: Result<&mut [u8], Result<&mut [u8], Error>>) {
        if self.data.len() == len {
            if self.present {
                Ok(self.data.as_mut_slice())
            } else {
                self.present = true;
                Err(Ok(self.data.as_mut_slice()))
            }
        } else {
            Err(Err(Error::IncorrectShardSize))
        }
    }
}

impl ReconstructShard for Option<Vec<u8>> {
    open spec fn shard(&self) -> Option<Seq<u8>> {
        match self {
            Some(v) => Some(v@),
            None => None,
        }
    }

    open spec fn fits(&self, len: nat) -> bool {
        true
    }

    fn fits_len(&self, len: usize) -> (r: bool) {
        true
    }

    fn len(&self) -> (r: Option<usize>) {
        match self {
            Some(v) => Some(v.len()),
            None => None,
        }
    }

    fn get(&mut self) -> (r: Option<&mut [u8]>) {
        match self {
            Some(v) => Some(v.as_mut_slice()),
            None => None,
        }
    }

    fn get_or_initialize(&mut self, len: usize) -> (r: Result<&mut [u8], Result<&mut [u8], Error>>) {
        if self.is_some() {
            let v = self.as_mut().unwrap();
            Ok(v.as_mut_slice())
        } else {
            let v = self.insert(vec![0u8; len]);
            Err(Ok(v.as_mut_slice()))
        }
    }
}

impl ReconstructShard for (Vec<u8>, bool) {
    open spec fn shard(&self) -> Option<Seq<u8>> {
        if self.1 {
            Some(self.0@)
        } else {
            None
        }
    }

    open spec fn fits(&self, len: nat) -> bool {
        self.0@.len() == len
    }

    fn fits_len(&self, len: usize) -> (r: bool) {
        self.0.len() == len
    }

    fn len(&self) -> (r: Option<usize>) {
        if self.1 {
            Some(self.0.len())
        } else {
            None
        }
    }

    fn get(&mut self) -> (r: Option<&mut [u8]>) {
        if self.1 {
            Some(self.0.as_mut_slice())
        } else {
            None
        }
    }

    fn get_or_initialize(&mut self, len: usize) -> (r: Result<&mut [u8], Result<&mut [u8], Error>>) {
        if self.0.len() == len {
            if self.1 {
                Ok(self.0.as_mut_slice())
            } else {
                self.1 = true;
                Err(Ok(self.0.as_mut_slice()))
            }
        } else {
            Err(Err(Error::IncorrectShardSize))
        }
    }
}

} // verus!
