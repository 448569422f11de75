//! The AEAD interface that channels are built on, and the per-fragment nonce.
use crate::error::{Exceeded, Invalid, NotAuthentic};
use std::marker::PhantomData;
use vstd::prelude::*;

verus! {

/// Bytes in a key.
pub const KEY_LEN: usize = 32;

/// Bytes in the nonce of one AEAD call.
pub const NONCE_LEN: usize = 12;

/// Bytes in the nonce that a caller supplies: the AEAD nonce less the
/// four bytes of the fragment counter.
pub const NONCE_PREFIX_LEN: usize = 8;

/// Bytes in an authentication tag.
pub const TAG_LEN: usize = 16;

/// Associated data of this many bytes or more may be refused by sealing.
pub open spec fn max_aad_len() -> int {
    0x2000_0000_0000_0000
}

/// An authenticated encryption algorithm with associated data, with a
/// 32-byte key, a 12-byte nonce and a 16-byte tag.
///
/// `sealed` and `opened` say what the algorithm computes: sealing is
/// deterministic, and opening gives back exactly what was sealed. Sealing
/// fails only on inputs of gross size.
pub trait Algorithm: Sized {
    /// The key that the instance was built from.
    spec fn key(&self) -> Seq<u8>;

    /// Ciphertext and tag of `plaintext`.
    spec fn sealed(key: Seq<u8>, nonce: Seq<u8>, aad: Seq<u8>, plaintext: Seq<u8>) -> Seq<u8>;

    /// The plaintext of `ciphertext`, or `None` where it is not authentic.
    spec fn opened(key: Seq<u8>, nonce: Seq<u8>, aad: Seq<u8>, ciphertext: Seq<u8>) -> Option<
        Seq<u8>,
    >;

    fn new(key: &[u8; 32]) -> (r: Self)
        ensures
            r.key() == key@,
    ;

    /// Encrypts `in_out` in place and appends the tag.
    fn seal_in_place(&self, nonce: &[u8; 12], aad: &[u8], in_out: &mut Vec<u8>) -> (r: Result<
        (),
        Invalid,
    >)
        ensures
            old(in_out)@.len() <= crate::MAX_BUF_SIZE && aad@.len() < max_aad_len() ==> r is Ok,
            r is Ok ==> final(in_out)@ == Self::sealed(self.key(), nonce@, aad@, old(in_out)@),
            r is Ok ==> final(in_out)@.len() == old(in_out)@.len() + TAG_LEN,
            r is Ok ==> Self::opened(self.key(), nonce@, aad@, final(in_out)@) == Some(
                old(in_out)@,
            ),
    ;

    /// Checks the tag at the end of `in_out` and decrypts the rest in place.
    fn open_in_place(&self, nonce: &[u8; 12], aad: &[u8], in_out: &mut Vec<u8>) -> (r: Result<
        (),
        NotAuthentic,
    >)
        ensures
            r is Ok <==> Self::opened(self.key(), nonce@, aad@, old(in_out)@) is Some,
            old(in_out)@.len() < TAG_LEN ==> r is Err,
            r is Ok ==> final(in_out)@.len() + TAG_LEN == old(in_out)@.len(),
            r is Ok ==> Self::opened(self.key(), nonce@, aad@, old(in_out)@) == Some(
                final(in_out)@,
            ),
    ;
}

/// A secret key for the algorithm `A`.
pub struct Key<A: Algorithm>(pub(crate) [u8; 32], PhantomData<A>);

impl<A: Algorithm> Key<A> {
    pub const SIZE: usize = 32;

    pub fn new(bytes: [u8; 32]) -> (r: Self)
        ensures
            r@ == bytes@,
    {
        Key(bytes, PhantomData)
    }

    pub fn as_bytes(&self) -> (r: &[u8; 32])
        ensures
            r@ == self@,
    {
        &self.0
    }
}

impl<A: Algorithm> View for Key<A> {
    type V = Seq<u8>;

    closed spec fn view(&self) -> Seq<u8> {
        self.0@
    }
}

/// The nonce that a caller supplies for one stream. It must never be used
/// twice with the same key.
pub struct Nonce<A: Algorithm>(pub(crate) [u8; 8], PhantomData<A>);

impl<A: Algorithm> Nonce<A> {
    pub const SIZE: usize = 8;

    pub fn new(bytes: [u8; 8]) -> (r: Self)
        ensures
            r@ == bytes@,
    {
        Nonce(bytes, PhantomData)
    }

    pub fn as_bytes(&self) -> (r: &[u8; 8])
        ensures
            r@ == self@,
    {
        &self.0
    }
}

impl<A: Algorithm> View for Nonce<A> {
    type V = Seq<u8>;

    closed spec fn view(&self) -> Seq<u8> {
        self.0@
    }
}

/// Associated data: authenticated with the stream, never written out.
pub struct Aad<'a, A: Algorithm>(pub(crate) &'a [u8], PhantomData<A>);

impl<A: Algorithm> Aad<'static, A> {
    pub fn empty() -> (r: Self)
        ensures
            r@ == Seq::<u8>::empty(),
    {
        let e: &'static [u8] = &[];
        Aad(e, PhantomData)
    }
}

impl<'a, A: Algorithm> Aad<'a, A> {
    pub fn from(aad: &'a [u8]) -> (r: Self)
        ensures
            r@ == aad@,
    {
        Aad(aad, PhantomData)
    }

    pub fn as_bytes(&self) -> (r: &'a [u8])
        ensures
            r@ == self@,
    {
        self.0
    }
}

impl<'a, A: Algorithm> View for Aad<'a, A> {
    type V = Seq<u8>;

    closed spec fn view(&self) -> Seq<u8> {
        self.0@
    }
}

/// The four little-endian bytes of `n`.
pub open spec fn le_u32(n: u32) -> Seq<u8> {
    seq![n as u8, (n >> 8u32) as u8, (n >> 16u32) as u8, (n >> 24u32) as u8]
}

/// The AEAD nonce of counter value `n` under the caller's nonce `prefix`.
pub open spec fn counter_nonce(prefix: Seq<u8>, n: u32) -> Seq<u8> {
    prefix + le_u32(n)
}

/// Hands out the nonce of each fragment: the caller's eight bytes followed
/// by a 32-bit little-endian counter, which never wraps.
pub struct Counter<A: Algorithm> {
    nonce: [u8; 12],
    seq_num: u32,
    exceeded: bool,
    phantom_data: PhantomData<A>,
}

impl<A: Algorithm> Counter<A> {
    /// The caller's nonce.
    pub closed spec fn prefix(&self) -> Seq<u8> {
        self.nonce@.take(8)
    }

    /// How many nonces were handed out; `u32::MAX + 1` once the counter is
    /// spent.
    pub closed spec fn used(&self) -> nat {
        if self.exceeded {
            u32::MAX as nat + 1
        } else {
            self.seq_num as nat
        }
    }

    pub closed spec fn wf(&self) -> bool {
        &&& self.nonce@.len() == 12
        &&& self.exceeded ==> self.seq_num == u32::MAX
    }

    /// A counter hands out at most `2^32` nonces.
    pub proof fn lemma_used_bound(&self)
        requires
            self.wf(),
        ensures
            self.used() <= u32::MAX as nat + 1,
    {
    }

    pub fn zero(nonce: Nonce<A>) -> (r: Self)
        ensures
            r.wf(),
            r.prefix() == nonce@,
            r.used() == 0,
    {
        let p = nonce.0;
        let value: [u8; 12] = [p[0], p[1], p[2], p[3], p[4], p[5], p[6], p[7], 0, 0, 0, 0];
        assert(value@.take(8) =~= nonce@);
        Counter { nonce: value, seq_num: 0, exceeded: false, phantom_data: PhantomData }
    }

    /// The nonce for the next counter value, or `Exceeded` once all `2^32`
    /// values were used.
    pub fn next(&mut self) -> (r: Result<[u8; 12], Exceeded>)
        requires
            old(self).wf(),
        ensures
            final(self).wf(),
            final(self).prefix() == old(self).prefix(),
            old(self).used() > u32::MAX ==> r is Err && final(self).used() == old(self).used(),
            old(self).used() <= u32::MAX ==> r is Ok && final(self).used() == old(self).used() + 1
                && r->Ok_0@ == counter_nonce(old(self).prefix(), old(self).used() as u32),
    {
        if self.exceeded {
            return Err(Exceeded);
        }
        let s = self.seq_num;
        let n = self.nonce;
        let value: [u8; 12] = [
            n[0],
            n[1],
            n[2],
            n[3],
            n[4],
            n[5],
            n[6],
            n[7],
            s as u8,
            (s >> 8u32) as u8,
            (s >> 16u32) as u8,
            (s >> 24u32) as u8,
        ];
        assert(value@ =~= counter_nonce(self.prefix(), s));
        self.nonce = value;
        if s == u32::MAX {
            self.exceeded = true;
        } else {
            self.seq_num = s + 1;
        }
        assert(self.nonce@.take(8) =~= old(self).prefix());
        Ok(value)
    }
}

} // verus!
