//! The encrypting and the decrypting sink.
use crate::aead::{counter_nonce, max_aad_len, Aad, Algorithm, Counter, Key, Nonce, TAG_LEN};
use crate::error::{Error, Invalid};
use crate::sink::{Close, Sink};
use crate::stream::{
    aad_mac, decrypted, encrypted, fits_counter, fragment_aad, interior_opened, interior_seals_back, lemma_interior_opened_fails_on,
    interior_sealed, interior_stream, lemma_encrypted_len, lemma_interior_opened_prefix, lemma_mul_succ, opened_count, sealed_size, lemma_interior_sealed_prefix, lemma_round_trip,
    seals_back,
};
use crate::{BUF_SIZE, MAX_BUF_SIZE};
use vstd::prelude::*;

verus! {

proof fn lemma_concat_assoc(a: Seq<u8>, b: Seq<u8>, c: Seq<u8>)
    ensures
        a + (b + c) == (a + b) + c,
{
    assert(a + (b + c) =~= (a + b) + c);
}

proof fn lemma_mul_le_div(q: nat, c: nat, x: nat)
    requires
        c >= 1,
        q * c <= x,
    ensures
        q <= x / c,
{
    vstd::arithmetic::div_mod::lemma_fundamental_div_mod(x as int, c as int);
    assert(q <= x / c) by (nonlinear_arith)
        requires
            c >= 1,
            q * c <= x,
            x == c * (x / c) + x % c,
            x % c < c,
    ;
}

proof fn lemma_div_exact(len: nat, m: nat, c: nat, r: nat)
    requires
        c >= 1,
        r < c,
        len == m * c + r,
    ensures
        len / c == m,
{
    vstd::arithmetic::div_mod::lemma_fundamental_div_mod_converse(
        len as int,
        c as int,
        m as int,
        r as int,
    );
}

/// Encrypts and authenticates everything written to it, and writes the
/// ciphertext to the sink that it wraps.
///
/// Bytes gather in a buffer of one fragment; each time the buffer is full
/// it is sealed as an interior fragment and written out. `close` seals
/// what remains as the last fragment and must be called for the
/// ciphertext to be complete.
pub struct EncWriter<A: Algorithm, W: Close> {
    inner: W,
    algorithm: A,
    counter: Counter<A>,
    buffer: Vec<u8>,
    buf_size: usize,
    aad: Vec<u8>,
    errored: bool,
    closed: bool,
    user_aad: Ghost<Seq<u8>>,
    consumed: Ghost<Seq<u8>>,
    base: Ghost<Seq<u8>>,
    taken: Ghost<Seq<u8>>,
}

impl<A: Algorithm, W: Close> EncWriter<A, W> {
    pub closed spec fn key(&self) -> Seq<u8> {
        self.algorithm.key()
    }

    pub closed spec fn nonce(&self) -> Seq<u8> {
        self.counter.prefix()
    }

    pub closed spec fn aad(&self) -> Seq<u8> {
        self.user_aad@
    }

    pub closed spec fn buf_size(&self) -> nat {
        self.buf_size as nat
    }

    /// The plaintext accepted so far.
    pub closed spec fn plaintext(&self) -> Seq<u8> {
        self.consumed@
    }

    /// What the wrapped sink held when the writer was made.
    pub closed spec fn inner_base(&self) -> Seq<u8> {
        self.base@
    }

    /// What the wrapped sink was given: the part taken out with
    /// `take_output`, followed by what the wrapped sink holds now.
    pub closed spec fn output(&self) -> Seq<u8> {
        self.taken@ + self.inner.written()
    }

    /// What `take_output` handed out so far.
    pub closed spec fn taken(&self) -> Seq<u8> {
        self.taken@
    }

    pub closed spec fn is_errored(&self) -> bool {
        self.errored
    }

    spec fn mac(&self) -> Seq<u8> {
        aad_mac::<A>(self.key(), self.nonce(), self.aad())
    }

    /// Interior fragments sealed so far.
    spec fn sealed_count(&self) -> nat {
        (self.counter.used() - 1) as nat
    }

    spec fn wf(&self) -> bool {
        &&& self.inner.inv()
        &&& self.counter.wf()
        &&& 1 <= self.buf_size <= MAX_BUF_SIZE
        &&& self.aad@.len() == TAG_LEN + 1
        &&& !self.errored && !self.closed ==> {
            &&& !self.inner.is_closed()
            &&& self.aad@ == fragment_aad(self.mac(), false)
            &&& self.counter.used() >= 1
            &&& self.buffer@.len() < self.buf_size
            &&& self.consumed@.len() == self.sealed_count() * self.buf_size + self.buffer@.len()
            &&& self.buffer@ == self.consumed@.skip((self.sealed_count() * self.buf_size) as int)
            &&& self.taken@ + self.inner.written() == self.base@ + interior_sealed::<A>(
                self.key(),
                self.nonce(),
                self.mac(),
                self.buf_size as nat,
                self.consumed@,
                self.sealed_count(),
            )
            &&& interior_seals_back::<A>(
                self.key(),
                self.nonce(),
                self.mac(),
                self.buf_size as nat,
                self.consumed@,
                self.sealed_count(),
            )
        }
    }

    /// A well-formed writer has a fragment size between 1 and
    /// `MAX_BUF_SIZE`.
    pub proof fn lemma_buf_size(&self)
        requires
            self.inv(),
        ensures
            1 <= self.buf_size() <= MAX_BUF_SIZE,
    {
    }

    /// Makes an `EncWriter` with fragments of `BUF_SIZE` bytes.
    pub fn new(inner: W, key: &Key<A>, nonce: Nonce<A>, aad: Aad<A>) -> (w: Self)
        requires
            inner.inv(),
            !inner.is_closed(),
            aad@.len() < max_aad_len(),
        ensures
            w.inv(),
            !w.is_closed(),
            !w.is_errored(),
            w.key() == key@,
            w.nonce() == nonce@,
            w.aad() == aad@,
            w.buf_size() == BUF_SIZE,
            w.plaintext() == Seq::<u8>::empty(),
            w.inner_base() == inner.written(),
            w.output() == inner.written(),
    {
        match Self::with_buffer_size(inner, key, nonce, aad, BUF_SIZE) {
            Ok(w) => w,
            Err(_) => vstd::pervasive::unreached(),
        }
    }

    /// Makes an `EncWriter` with fragments of `buf_size` bytes, which must
    /// lie between 1 and `MAX_BUF_SIZE`. Decryption must use the same size.
    pub fn with_buffer_size(
        inner: W,
        key: &Key<A>,
        nonce: Nonce<A>,
        aad: Aad<A>,
        buf_size: usize,
    ) -> (r: Result<Self, Invalid>)
        requires
            inner.inv(),
            !inner.is_closed(),
        ensures
            buf_size == 0 || buf_size > MAX_BUF_SIZE ==> r == Err::<Self, Invalid>(
                Invalid::BufSize,
            ),
            1 <= buf_size <= MAX_BUF_SIZE && aad@.len() < max_aad_len() ==> r is Ok,
            r is Ok ==> {
                let w = r->Ok_0;
                &&& 1 <= buf_size <= MAX_BUF_SIZE
                &&& w.inv()
                &&& !w.is_closed()
                &&& !w.is_errored()
                &&& w.key() == key@
                &&& w.nonce() == nonce@
                &&& w.aad() == aad@
                &&& w.buf_size() == buf_size
                &&& w.plaintext() == Seq::<u8>::empty()
                &&& w.inner_base() == inner.written()
                &&& w.output() == inner.written()
            },
    {
        if buf_size == 0 || buf_size > MAX_BUF_SIZE {
            return Err(Invalid::BufSize);
        }
        let algorithm = A::new(key.as_bytes());
        let mut counter = Counter::zero(nonce);
        let first = match counter.next() {
            Ok(n) => n,
            Err(_) => return Err(Invalid::Nonce),
        };
        let mut mac: Vec<u8> = Vec::with_capacity(TAG_LEN);
        match algorithm.seal_in_place(&first, aad.as_bytes(), &mut mac) {
            Ok(()) => {},
            Err(e) => return Err(e),
        }
        let mut header: Vec<u8> = Vec::with_capacity(TAG_LEN + 1);
        header.push(0x00u8);
        header.extend_from_slice(mac.as_slice());
        assert(header@ =~= fragment_aad(mac@, false));
        let w = EncWriter {
            inner,
            algorithm,
            counter,
            buffer: Vec::with_capacity(buf_size + TAG_LEN),
            buf_size,
            aad: header,
            errored: false,
            closed: false,
            user_aad: Ghost(aad@),
            consumed: Ghost(Seq::empty()),
            base: Ghost(inner.written()),
            taken: Ghost(Seq::empty()),
        };
        proof {
            assert(w.sealed_count() == 0);
            assert(0 * buf_size == 0);
            assert(w.consumed@.skip(0) =~= w.buffer@);
            assert(w.taken@ + w.inner.written() =~= w.base@ + Seq::<u8>::empty());
        }
        Ok(w)
    }

    /// Seals the buffer under the next counter value and the current
    /// associated data, and writes the result to the wrapped sink.
    fn write_buffer(&mut self) -> (r: Result<(), Error>)
        requires
            old(self).inner.inv(),
            !old(self).inner.is_closed(),
            old(self).counter.wf(),
            old(self).buffer@.len() <= MAX_BUF_SIZE,
            old(self).aad@.len() == TAG_LEN + 1,
        ensures
            final(self).inner.inv(),
            !final(self).inner.is_closed(),
            final(self).counter.wf(),
            final(self).counter.prefix() == old(self).counter.prefix(),
            final(self).algorithm == old(self).algorithm,
            final(self).buf_size == old(self).buf_size,
            final(self).aad == old(self).aad,
            final(self).closed == old(self).closed,
            final(self).user_aad == old(self).user_aad,
            final(self).consumed == old(self).consumed,
            final(self).base == old(self).base,
            final(self).taken == old(self).taken,
            old(self).counter.used() > u32::MAX ==> (r matches Err(Error::Exceeded)) && final(self).inner == old(self).inner,
            old(self).counter.used() <= u32::MAX && W::infallible() ==> r is Ok,
            W::infallible() && r is Err ==> (r matches Err(Error::Exceeded)),
            r is Ok ==> {
                let nonce = counter_nonce(old(self).counter.prefix(), old(self).counter.used() as u32);
                &&& old(self).counter.used() <= u32::MAX
                &&& final(self).counter.used() == old(self).counter.used() + 1
                &&& final(self).inner.written() == old(self).inner.written() + A::sealed(
                    old(self).algorithm.key(),
                    nonce,
                    old(self).aad@,
                    old(self).buffer@,
                )
                &&& seals_back::<A>(
                    old(self).algorithm.key(),
                    nonce,
                    old(self).aad@,
                    old(self).buffer@,
                )
                &&& final(self).buffer@.len() == 0
                &&& final(self).errored == old(self).errored
            },
            r is Err ==> final(self).errored,
    {
        let nonce = match self.counter.next() {
            Ok(n) => n,
            Err(_) => {
                self.errored = true;
                return Err(Error::Exceeded);
            },
        };
        match self.algorithm.seal_in_place(&nonce, self.aad.as_slice(), &mut self.buffer) {
            Ok(()) => {},
            Err(e) => {
                self.errored = true;
                return Err(Error::Invalid(e));
            },
        }
        match self.inner.write_all(self.buffer.as_slice()) {
            Ok(()) => {},
            Err(e) => {
                self.errored = true;
                return Err(e);
            },
        }
        self.buffer.clear();
        Ok(())
    }

    /// Encrypts `buf`: every fragment that it completes is sealed and
    /// written out, the rest is kept for later. On success the whole of
    /// `buf` is taken.
    ///
    /// Bytes that complete no fragment are only buffered, which cannot
    /// fail. Over a sink that cannot fail, the write succeeds unless the
    /// fragments that it completes would run the counter out, and then it
    /// fails with `Exceeded`.
    pub fn write(&mut self, buf: &[u8]) -> (r: Result<usize, Error>)
        requires
            old(self).inv(),
            !old(self).is_closed(),
        ensures
            final(self).inv(),
            !final(self).is_closed(),
            final(self).key() == old(self).key(),
            final(self).nonce() == old(self).nonce(),
            final(self).aad() == old(self).aad(),
            final(self).buf_size() == old(self).buf_size(),
            final(self).inner_base() == old(self).inner_base(),
            final(self).taken() == old(self).taken(),
            old(self).is_errored() ==> (r matches Err(Error::AfterError)),
            old(self).is_errored() ==> *final(self) == *old(self),
            !old(self).is_errored() && old(self).plaintext().len() % old(self).buf_size()
                + buf@.len() < old(self).buf_size() ==> r == Ok::<usize, Error>(
                buf@.len() as usize,
            ),
            !old(self).is_errored() && W::infallible() ==> (r is Ok <==> (old(self).plaintext().len() + buf@.len()) / old(self).buf_size() <= u32::MAX),
            !old(self).is_errored() && W::infallible() && r is Err ==> (r matches Err(
                Error::Exceeded,
            )),
            r is Ok ==> {
                &&& r == Ok::<usize, Error>(buf@.len() as usize)
                &&& !final(self).is_errored()
                &&& final(self).plaintext() == old(self).plaintext() + buf@
                &&& final(self).output() == final(self).inner_base() + interior_stream::<A>(
                    final(self).key(),
                    final(self).nonce(),
                    final(self).aad(),
                    final(self).buf_size(),
                    final(self).plaintext(),
                )
            },
            r is Err ==> final(self).is_errored(),
    {
        if self.errored {
            return Err(Error::AfterError);
        }
        let n = buf.len();
        let ghost total: nat = (self.consumed@.len() + n) as nat;
        proof {
            let size = self.buf_size as nat;
            lemma_div_exact(self.consumed@.len(), self.sealed_count(), size, self.buffer@.len());
            vstd::arithmetic::div_mod::lemma_fundamental_div_mod_converse(
                self.consumed@.len() as int,
                size as int,
                self.sealed_count() as int,
                self.buffer@.len() as int,
            );
        }
        if n < self.buf_size - self.buffer.len() {
            let ghost before = self.consumed@;
            let ghost k = self.sealed_count();
            let ghost size = self.buf_size as nat;
            self.buffer.extend_from_slice(buf);
            self.consumed = Ghost(self.consumed@ + buf@);
            proof {
                let now = self.consumed@;
                assert(before =~= now.take(before.len() as int));
                lemma_interior_sealed_prefix::<A>(
                    self.key(),
                    self.nonce(),
                    self.mac(),
                    size,
                    before,
                    now,
                    k,
                );
                assert(self.buffer@ =~= now.skip((k * size) as int));
                lemma_div_exact(now.len(), k, size, self.buffer@.len());
                self.counter.lemma_used_bound();
            }
            return Ok(n);
        }
        let mut i: usize = 0;
        while i < n
            invariant
                i <= n,
                n == buf@.len(),
                !old(self).errored,
                self.wf(),
                !self.errored,
                !self.closed,
                self.algorithm == old(self).algorithm,
                self.counter.prefix() == old(self).counter.prefix(),
                self.buf_size == old(self).buf_size,
                self.user_aad == old(self).user_aad,
                self.base == old(self).base,
                self.taken == old(self).taken,
                self.consumed@ == old(self).consumed@ + buf@.take(i as int),
                self.aad == old(self).aad,
                total == old(self).consumed@.len() + n,
                old(self).consumed@.len() % (old(self).buf_size as nat) + n >= old(self).buf_size,
            decreases n - i,
        {
            let free = self.buf_size - self.buffer.len();
            let take = if n - i < free {
                n - i
            } else {
                free
            };
            let ghost before = self.consumed@;
            let ghost k = self.sealed_count();
            let ghost size = self.buf_size as nat;
            self.buffer.extend_from_slice(&buf[i..i + take]);
            i = i + take;
            self.consumed = Ghost(old(self).consumed@ + buf@.take(i as int));
            proof {
                let now = self.consumed@;
                assert(before =~= now.take(before.len() as int));
                lemma_interior_sealed_prefix::<A>(
                    self.key(),
                    self.nonce(),
                    self.mac(),
                    size,
                    before,
                    now,
                    k,
                );
                assert(self.buffer@ =~= now.skip((k * size) as int));
            }
            if self.buffer.len() == self.buf_size {
                let ghost full = self.buffer@;
                proof {
                    lemma_mul_succ(k, size);
                    assert(self.consumed@.len() <= total);
                    lemma_mul_le_div(k + 1, size, total);
                }
                let ghost w0 = self.inner.written();
                let ghost y = A::sealed(
                    self.algorithm.key(),
                    counter_nonce(self.counter.prefix(), self.counter.used() as u32),
                    self.aad@,
                    self.buffer@,
                );
                match self.write_buffer() {
                    Ok(()) => {},
                    Err(e) => return Err(e),
                }
                proof {
                    lemma_concat_assoc(self.taken@, w0, y);
                }
                proof {
                    let now = self.consumed@;
                    lemma_mul_succ(k, size);
                    assert(self.sealed_count() == k + 1);
                    assert(full =~= now.subrange((k * size) as int, ((k + 1) * size) as int));
                    assert(((k + 1) - 1) * size == k * size);
                    assert(now.skip(((k + 1) * size) as int) =~= self.buffer@);
                }
            }
            proof {
                let kk = self.sealed_count();
                assert(self.inner.inv());
                assert(self.counter.wf());
                assert(!self.inner.is_closed());
                assert(self.aad@ == fragment_aad(self.mac(), false));
                assert(self.counter.used() >= 1);
                assert(self.buffer@.len() < self.buf_size);
                assert(self.consumed@.len() == kk * self.buf_size + self.buffer@.len());
                assert(self.buffer@ == self.consumed@.skip((kk * self.buf_size) as int));
                assert(self.taken@ + self.inner.written() == self.base@ + interior_sealed::<A>(
                    self.key(),
                    self.nonce(),
                    self.mac(),
                    self.buf_size as nat,
                    self.consumed@,
                    kk,
                ));
                assert(interior_seals_back::<A>(
                    self.key(),
                    self.nonce(),
                    self.mac(),
                    self.buf_size as nat,
                    self.consumed@,
                    kk,
                ));
            }
        }
        proof {
            let size = self.buf_size as nat;
            let k = self.sealed_count();
            assert(buf@.take(n as int) =~= buf@);
            lemma_div_exact(self.consumed@.len(), k, size, self.buffer@.len());
            self.counter.lemma_used_bound();
        }
        Ok(n)
    }

    /// Seals what the buffer holds as the last fragment, writes it out, and
    /// closes the wrapped sink.
    fn complete(&mut self) -> (r: Result<(), Error>)
        requires
            old(self).inv(),
            !old(self).is_closed(),
        ensures
            final(self).inv(),
            final(self).is_closed(),
            final(self).key() == old(self).key(),
            final(self).nonce() == old(self).nonce(),
            final(self).aad() == old(self).aad(),
            final(self).buf_size() == old(self).buf_size(),
            final(self).inner_base() == old(self).inner_base(),
            final(self).plaintext() == old(self).plaintext(),
            final(self).taken() == old(self).taken(),
            r is Ok ==> final(self).inner.completed(),
            old(self).is_errored() ==> (r matches Err(Error::AfterError)),
            !old(self).is_errored() && old(self).plaintext().len() / old(self).buf_size()
                >= u32::MAX ==> (r matches Err(Error::Exceeded)) && final(self).output() == old(self).output(),
            !old(self).is_errored() && W::infallible() && old(self).plaintext().len() / old(self).buf_size() < u32::MAX ==> r is Ok,
            r is Ok ==> {
                let ct = encrypted::<A>(
                    old(self).key(),
                    old(self).nonce(),
                    old(self).aad(),
                    old(self).buf_size(),
                    old(self).plaintext(),
                );
                &&& fits_counter(old(self).plaintext().len(), old(self).buf_size())
                &&& final(self).output() == old(self).inner_base() + ct
                &&& ct.len() == old(self).plaintext().len() + TAG_LEN * (old(self).plaintext().len() / old(self).buf_size() + 1)
                &&& decrypted::<A>(
                    old(self).key(),
                    old(self).nonce(),
                    old(self).aad(),
                    old(self).buf_size(),
                    ct,
                ) == Some(old(self).plaintext())
            },
    {
        if self.errored {
            self.closed = true;
            return Err(Error::AfterError);
        }
        let ghost k = self.sealed_count();
        let ghost size = self.buf_size as nat;
        let ghost data = self.consumed@;
        proof {
            lemma_div_exact(data.len(), k, size, (data.len() - k * size) as nat);
        }
        self.closed = true;
        self.aad.set(0, 0x80u8);
        proof {
            assert(self.aad@ =~= fragment_aad(self.mac(), true));
        }
        let ghost w0 = self.inner.written();
        let ghost y = A::sealed(
            self.algorithm.key(),
            counter_nonce(self.counter.prefix(), self.counter.used() as u32),
            self.aad@,
            self.buffer@,
        );
        match self.write_buffer() {
            Ok(()) => {},
            Err(e) => return Err(e),
        }
        proof {
            lemma_concat_assoc(self.taken@, w0, y);
        }
        proof {
            lemma_round_trip::<A>(self.key(), self.nonce(), self.aad(), size, data);
            lemma_encrypted_len::<A>(self.key(), self.nonce(), self.aad(), size, data);
        }
        self.inner.close()
    }

    /// Completes the ciphertext: seals the last fragment, writes it out and
    /// closes the wrapped sink, which is handed back. The wrapped sink is
    /// closed only once the last fragment was written; an error of the
    /// wrapped sink comes back as it was.
    ///
    /// The wrapped sink then holds what it held before, followed by the
    /// ciphertext of everything written, which decrypts to it again. Over a
    /// sink that cannot fail this succeeds unless the counter runs out.
    pub fn close(self) -> (r: Result<W, Error>)
        requires
            self.inv(),
            !self.is_closed(),
        ensures
            self.is_errored() ==> (r matches Err(Error::AfterError)),
            !self.is_errored() && self.plaintext().len() / self.buf_size() >= u32::MAX ==> (r matches Err(
                Error::Exceeded,
            )),
            !self.is_errored() && W::infallible() && self.plaintext().len() / self.buf_size()
                < u32::MAX ==> r is Ok,
            r is Ok ==> {
                let ct = encrypted::<A>(
                    self.key(),
                    self.nonce(),
                    self.aad(),
                    self.buf_size(),
                    self.plaintext(),
                );
                &&& r->Ok_0.inv()
                &&& fits_counter(self.plaintext().len(), self.buf_size())
                &&& self.taken() + r->Ok_0.written() == self.inner_base() + ct
                &&& r->Ok_0.completed()
                &&& ct.len() == self.plaintext().len() + TAG_LEN * (self.plaintext().len()
                    / self.buf_size() + 1)
                &&& decrypted::<A>(self.key(), self.nonce(), self.aad(), self.buf_size(), ct)
                    == Some(self.plaintext())
            },
    {
        let mut w = self;
        match w.complete() {
            Ok(()) => Ok(w.inner),
            Err(e) => Err(e),
        }
    }

    /// Wraps the writer in a `Closer`, whose `close` does not consume it.
    pub fn closer(self) -> (r: Closer<Self>)
        requires
            self.inv(),
            !self.is_closed(),
        ensures
            r.inv(),
            !r.is_closed(),
            r.get_ref() == self,
    {
        Closer::wrap(self)
    }

    /// The wrapped sink, given up without completing the stream.
    pub fn into_inner(self) -> (r: W)
        ensures
            self.taken() + r.written() == self.output(),
    {
        self.inner
    }
}

impl<A: Algorithm> EncWriter<A, Vec<u8>> {
    /// Hands out what the wrapped vector holds and leaves it empty, so that
    /// output can be passed on while the stream goes on. Nothing else of the
    /// writer changes: `output` still counts what was handed out.
    pub fn take_output(&mut self) -> (r: Vec<u8>)
        requires
            old(self).inv(),
        ensures
            final(self).inv(),
            final(self).is_closed() == old(self).is_closed(),
            final(self).is_errored() == old(self).is_errored(),
            final(self).key() == old(self).key(),
            final(self).nonce() == old(self).nonce(),
            final(self).aad() == old(self).aad(),
            final(self).buf_size() == old(self).buf_size(),
            final(self).inner_base() == old(self).inner_base(),
            final(self).plaintext() == old(self).plaintext(),
            final(self).output() == old(self).output(),
            final(self).taken() == old(self).taken() + r@,
            old(self).taken() + r@ == old(self).output(),
    {
        let mut out: Vec<u8> = Vec::new();
        std::mem::swap(&mut out, &mut self.inner);
        self.taken = Ghost(self.taken@ + out@);
        proof {
            assert(self.taken@ + self.inner@ =~= self.taken@);
        }
        out
    }
}

impl<A: Algorithm, W: Close> Sink for EncWriter<A, W> {
    closed spec fn inv(&self) -> bool {
        self.wf()
    }

    closed spec fn written(&self) -> Seq<u8> {
        self.consumed@
    }

    closed spec fn is_closed(&self) -> bool {
        self.closed
    }

    open spec fn infallible() -> bool {
        false
    }

    /// A write is sure to succeed where it completes no fragment, or where
    /// the wrapped sink cannot fail and the counter lasts.
    open spec fn accepts(&self, buf: Seq<u8>) -> bool {
        &&& !self.is_errored()
        &&& self.plaintext().len() % self.buf_size() + buf.len() < self.buf_size() || W::infallible()
            && (self.plaintext().len() + buf.len()) / self.buf_size() <= u32::MAX
    }

    fn write_all(&mut self, buf: &[u8]) -> (r: Result<(), Error>)
        ensures
            old(self).is_errored() ==> (r matches Err(Error::AfterError)),
            old(self).is_errored() ==> *final(self) == *old(self),
            r is Err ==> final(self).is_errored(),
    {
        match self.write(buf) {
            Ok(_) => Ok(()),
            Err(e) => Err(e),
        }
    }

    fn flush(&mut self) -> (r: Result<(), Error>)
        ensures
            old(self).is_errored() ==> (r matches Err(Error::AfterError)),
            r is Err ==> final(self).is_errored(),
            final(self).key() == old(self).key(),
            final(self).nonce() == old(self).nonce(),
            final(self).aad() == old(self).aad(),
            final(self).buf_size() == old(self).buf_size(),
            final(self).inner_base() == old(self).inner_base(),
            r is Ok ==> final(self).output() == old(self).output(),
            old(self).is_errored() ==> *final(self) == *old(self),
            !old(self).is_errored() && W::infallible() ==> r is Ok,
            r is Ok ==> !final(self).is_errored(),
            final(self).written() == old(self).written(),
    {
        if self.errored {
            return Err(Error::AfterError);
        }
        let r = self.inner.flush();
        if r.is_err() {
            self.errored = true;
        }
        r
    }
}

/// Decrypts and verifies everything written to it, and writes the
/// plaintext to the sink that it wraps.
///
/// Ciphertext gathers in a buffer of one sealed fragment. A full buffer is
/// opened as an interior fragment only once more ciphertext arrives, since
/// until then it may be the last fragment; `close` opens what the buffer
/// holds as the last fragment and must be called for the plaintext to be
/// complete. Nothing is passed on that did not open.
pub struct DecWriter<A: Algorithm, W: Close> {
    inner: W,
    algorithm: A,
    counter: Counter<A>,
    buffer: Vec<u8>,
    buf_size: usize,
    aad: Vec<u8>,
    errored: bool,
    closed: bool,
    user_aad: Ghost<Seq<u8>>,
    consumed: Ghost<Seq<u8>>,
    base: Ghost<Seq<u8>>,
    taken: Ghost<Seq<u8>>,
}

impl<A: Algorithm, W: Close> DecWriter<A, W> {
    pub closed spec fn key(&self) -> Seq<u8> {
        self.algorithm.key()
    }

    pub closed spec fn nonce(&self) -> Seq<u8> {
        self.counter.prefix()
    }

    pub closed spec fn aad(&self) -> Seq<u8> {
        self.user_aad@
    }

    pub closed spec fn buf_size(&self) -> nat {
        self.buf_size as nat
    }

    /// The ciphertext accepted so far.
    pub closed spec fn ciphertext(&self) -> Seq<u8> {
        self.consumed@
    }

    /// What the wrapped sink held when the writer was made.
    pub closed spec fn inner_base(&self) -> Seq<u8> {
        self.base@
    }

    /// What the wrapped sink was given: the part taken out with
    /// `take_output`, followed by what the wrapped sink holds now.
    pub closed spec fn output(&self) -> Seq<u8> {
        self.taken@ + self.inner.written()
    }

    /// What `take_output` handed out so far.
    pub closed spec fn taken(&self) -> Seq<u8> {
        self.taken@
    }

    pub closed spec fn is_errored(&self) -> bool {
        self.errored
    }

    spec fn mac(&self) -> Seq<u8> {
        aad_mac::<A>(self.key(), self.nonce(), self.aad())
    }

    /// Interior fragments opened so far.
    spec fn opened_count(&self) -> nat {
        (self.counter.used() - 1) as nat
    }

    spec fn opened_so_far(&self) -> Option<Seq<u8>> {
        interior_opened::<A>(
            self.key(),
            self.nonce(),
            self.mac(),
            self.buf_size as nat,
            self.consumed@,
            self.opened_count(),
        )
    }

    spec fn wf(&self) -> bool {
        &&& self.inner.inv()
        &&& self.counter.wf()
        &&& 1 <= self.buf_size <= MAX_BUF_SIZE
        &&& self.aad@.len() == TAG_LEN + 1
        &&& !self.errored && !self.closed ==> {
            &&& !self.inner.is_closed()
            &&& self.aad@ == fragment_aad(self.mac(), false)
            &&& self.counter.used() >= 1
            &&& self.buffer@.len() <= sealed_size(self.buf_size as nat)
            &&& self.consumed@.len() == self.opened_count() * sealed_size(self.buf_size as nat)
                + self.buffer@.len()
            &&& self.consumed@.len() > 0 ==> self.buffer@.len() > 0
            &&& self.buffer@ == self.consumed@.skip(
                (self.opened_count() * sealed_size(self.buf_size as nat)) as int,
            )
            &&& self.opened_so_far() is Some
            &&& self.taken@ + self.inner.written() == self.base@ + self.opened_so_far()->0
        }
    }

    /// A well-formed writer has a fragment size between 1 and
    /// `MAX_BUF_SIZE`.
    pub proof fn lemma_buf_size(&self)
        requires
            self.inv(),
        ensures
            1 <= self.buf_size() <= MAX_BUF_SIZE,
    {
    }

    /// Makes a `DecWriter` with fragments of `BUF_SIZE` bytes.
    pub fn new(inner: W, key: &Key<A>, nonce: Nonce<A>, aad: Aad<A>) -> (w: Self)
        requires
            inner.inv(),
            !inner.is_closed(),
            aad@.len() < max_aad_len(),
        ensures
            w.inv(),
            !w.is_closed(),
            !w.is_errored(),
            w.key() == key@,
            w.nonce() == nonce@,
            w.aad() == aad@,
            w.buf_size() == BUF_SIZE,
            w.ciphertext() == Seq::<u8>::empty(),
            w.inner_base() == inner.written(),
            w.output() == inner.written(),
    {
        match Self::with_buffer_size(inner, key, nonce, aad, BUF_SIZE) {
            Ok(w) => w,
            Err(_) => vstd::pervasive::unreached(),
        }
    }

    /// Makes a `DecWriter` with fragments of `buf_size` bytes, which must
    /// lie between 1 and `MAX_BUF_SIZE` and match the size that the
    /// ciphertext was made with.
    pub fn with_buffer_size(
        inner: W,
        key: &Key<A>,
        nonce: Nonce<A>,
        aad: Aad<A>,
        buf_size: usize,
    ) -> (r: Result<Self, Invalid>)
        requires
            inner.inv(),
            !inner.is_closed(),
        ensures
            buf_size == 0 || buf_size > MAX_BUF_SIZE ==> r == Err::<Self, Invalid>(
                Invalid::BufSize,
            ),
            1 <= buf_size <= MAX_BUF_SIZE && aad@.len() < max_aad_len() ==> r is Ok,
            r is Ok ==> {
                let w = r->Ok_0;
                &&& 1 <= buf_size <= MAX_BUF_SIZE
                &&& w.inv()
                &&& !w.is_closed()
                &&& !w.is_errored()
                &&& w.key() == key@
                &&& w.nonce() == nonce@
                &&& w.aad() == aad@
                &&& w.buf_size() == buf_size
                &&& w.ciphertext() == Seq::<u8>::empty()
                &&& w.inner_base() == inner.written()
                &&& w.output() == inner.written()
            },
    {
        if buf_size == 0 || buf_size > MAX_BUF_SIZE {
            return Err(Invalid::BufSize);
        }
        let algorithm = A::new(key.as_bytes());
        let mut counter = Counter::zero(nonce);
        let first = match counter.next() {
            Ok(n) => n,
            Err(_) => return Err(Invalid::Nonce),
        };
        let mut mac: Vec<u8> = Vec::with_capacity(TAG_LEN);
        match algorithm.seal_in_place(&first, aad.as_bytes(), &mut mac) {
            Ok(()) => {},
            Err(e) => return Err(e),
        }
        let mut header: Vec<u8> = Vec::with_capacity(TAG_LEN + 1);
        header.push(0x00u8);
        header.extend_from_slice(mac.as_slice());
        assert(header@ =~= fragment_aad(mac@, false));
        let w = DecWriter {
            inner,
            algorithm,
            counter,
            buffer: Vec::with_capacity(buf_size + TAG_LEN),
            buf_size,
            aad: header,
            errored: false,
            closed: false,
            user_aad: Ghost(aad@),
            consumed: Ghost(Seq::empty()),
            base: Ghost(inner.written()),
            taken: Ghost(Seq::empty()),
        };
        proof {
            assert(w.opened_count() == 0);
            assert(0 * sealed_size(buf_size as nat) == 0);
            assert(w.consumed@.skip(0) =~= w.buffer@);
            assert(w.taken@ + w.inner.written() =~= w.base@ + Seq::<u8>::empty());
        }
        Ok(w)
    }

    /// Opens the buffer under the next counter value and the current
    /// associated data, and writes the plaintext to the wrapped sink.
    fn write_buffer(&mut self) -> (r: Result<(), Error>)
        requires
            old(self).inner.inv(),
            !old(self).inner.is_closed(),
            old(self).counter.wf(),
        ensures
            final(self).inner.inv(),
            !final(self).inner.is_closed(),
            final(self).counter.wf(),
            final(self).counter.prefix() == old(self).counter.prefix(),
            final(self).algorithm == old(self).algorithm,
            final(self).buf_size == old(self).buf_size,
            final(self).aad == old(self).aad,
            final(self).closed == old(self).closed,
            final(self).user_aad == old(self).user_aad,
            final(self).consumed == old(self).consumed,
            final(self).base == old(self).base,
            final(self).taken == old(self).taken,
            old(self).counter.used() > u32::MAX ==> (r matches Err(Error::Exceeded)) && final(self).inner == old(self).inner,
            old(self).counter.used() <= u32::MAX && old(self).buffer@.len() < TAG_LEN ==> (r matches Err(Error::NotAuthentic)) && final(self).inner == old(self).inner,
            old(self).counter.used() <= u32::MAX && A::opened(
                old(self).algorithm.key(),
                counter_nonce(old(self).counter.prefix(), old(self).counter.used() as u32),
                old(self).aad@,
                old(self).buffer@,
            ) is None ==> (r matches Err(Error::NotAuthentic)) && final(self).inner == old(self).inner,
            old(self).counter.used() <= u32::MAX && A::opened(
                old(self).algorithm.key(),
                counter_nonce(old(self).counter.prefix(), old(self).counter.used() as u32),
                old(self).aad@,
                old(self).buffer@,
            ) is Some && W::infallible() ==> r is Ok,
            r is Ok ==> {
                let opened = A::opened(
                    old(self).algorithm.key(),
                    counter_nonce(old(self).counter.prefix(), old(self).counter.used() as u32),
                    old(self).aad@,
                    old(self).buffer@,
                );
                &&& old(self).counter.used() <= u32::MAX
                &&& final(self).counter.used() == old(self).counter.used() + 1
                &&& opened is Some
                &&& final(self).inner.written() == old(self).inner.written() + opened->0
                &&& final(self).buffer@.len() == 0
                &&& final(self).errored == old(self).errored
            },
            r is Err ==> final(self).errored,
    {
        let nonce = match self.counter.next() {
            Ok(n) => n,
            Err(_) => {
                self.errored = true;
                return Err(Error::Exceeded);
            },
        };
        match self.algorithm.open_in_place(&nonce, self.aad.as_slice(), &mut self.buffer) {
            Ok(()) => {},
            Err(_) => {
                self.errored = true;
                return Err(Error::NotAuthentic);
            },
        }
        match self.inner.write_all(self.buffer.as_slice()) {
            Ok(()) => {},
            Err(e) => {
                self.errored = true;
                return Err(e);
            },
        }
        self.buffer.clear();
        Ok(())
    }

    /// Takes in `buf`: every buffered fragment that more ciphertext follows
    /// is opened and its plaintext written out; the rest is kept for later.
    /// On success the whole of `buf` is taken.
    pub fn write(&mut self, buf: &[u8]) -> (r: Result<usize, Error>)
        requires
            old(self).inv(),
            !old(self).is_closed(),
        ensures
            final(self).inv(),
            !final(self).is_closed(),
            final(self).key() == old(self).key(),
            final(self).nonce() == old(self).nonce(),
            final(self).aad() == old(self).aad(),
            final(self).buf_size() == old(self).buf_size(),
            final(self).inner_base() == old(self).inner_base(),
            final(self).taken() == old(self).taken(),
            old(self).is_errored() ==> (r matches Err(Error::AfterError)),
            old(self).is_errored() ==> *final(self) == *old(self),
            !old(self).is_errored() && old(self).ciphertext().len() - opened_count(
                old(self).ciphertext().len(),
                old(self).buf_size(),
            ) * sealed_size(old(self).buf_size()) + buf@.len() <= sealed_size(old(self).buf_size())
                ==> r == Ok::<usize, Error>(buf@.len() as usize),
            !old(self).is_errored() && W::infallible() ==> {
                let ct = old(self).ciphertext() + buf@;
                let m = opened_count(ct.len(), old(self).buf_size());
                let mac = aad_mac::<A>(old(self).key(), old(self).nonce(), old(self).aad());
                &&& r is Ok <==> m <= u32::MAX && interior_opened::<A>(
                    old(self).key(),
                    old(self).nonce(),
                    mac,
                    old(self).buf_size(),
                    ct,
                    m,
                ) is Some
                &&& r is Err ==> (r matches Err(Error::NotAuthentic)) || (r matches Err(
                    Error::Exceeded,
                ))
                &&& r is Err ==> exists|j: nat|
                    j <= m && #[trigger] interior_opened::<A>(
                        old(self).key(),
                        old(self).nonce(),
                        mac,
                        old(self).buf_size(),
                        ct,
                        j,
                    ) is Some && final(self).output() == old(self).inner_base()
                        + interior_opened::<A>(
                        old(self).key(),
                        old(self).nonce(),
                        mac,
                        old(self).buf_size(),
                        ct,
                        j,
                    )->0
            },
            r is Ok ==> {
                let ct = final(self).ciphertext();
                let opened = interior_opened::<A>(
                    final(self).key(),
                    final(self).nonce(),
                    aad_mac::<A>(final(self).key(), final(self).nonce(), final(self).aad()),
                    final(self).buf_size(),
                    ct,
                    opened_count(ct.len(), final(self).buf_size()),
                );
                &&& r == Ok::<usize, Error>(buf@.len() as usize)
                &&& !final(self).is_errored()
                &&& ct == old(self).ciphertext() + buf@
                &&& opened is Some
                &&& final(self).output() == final(self).inner_base() + opened->0
            },
            r is Err ==> final(self).is_errored(),
    {
        if self.errored {
            return Err(Error::AfterError);
        }
        let n = buf.len();
        let ghost newct = old(self).consumed@ + buf@;
        proof {
            let size = self.buf_size as nat;
            let len = self.consumed@.len();
            let k = self.opened_count();
            if len > 0 {
                lemma_div_exact(
                    (len - 1) as nat,
                    k,
                    sealed_size(size),
                    (self.buffer@.len() - 1) as nat,
                );
            } else {
                assert(k == 0) by (nonlinear_arith)
                    requires
                        k * sealed_size(size) == 0,
                        sealed_size(size) >= 1,
                ;
            }
            assert(opened_count(len, size) == k);
        }
        if n <= self.buf_size + TAG_LEN - self.buffer.len() {
            let ghost before = self.consumed@;
            let ghost k = self.opened_count();
            let ghost size = self.buf_size as nat;
            self.buffer.extend_from_slice(buf);
            self.consumed = Ghost(self.consumed@ + buf@);
            proof {
                let now = self.consumed@;
                let c = sealed_size(size);
                assert(before =~= now.take(before.len() as int));
                lemma_interior_opened_prefix::<A>(
                    self.key(),
                    self.nonce(),
                    self.mac(),
                    size,
                    before,
                    now,
                    k,
                );
                assert(self.buffer@ =~= now.skip((k * c) as int));
                let len = now.len();
                if len > 0 {
                    lemma_div_exact(
                        (len - 1) as nat,
                        k,
                        c,
                        (self.buffer@.len() - 1) as nat,
                    );
                } else {
                    assert(k == 0) by (nonlinear_arith)
                        requires
                            k * c == 0,
                            c >= 1,
                    ;
                }
                assert(opened_count(len, size) == k);
                self.counter.lemma_used_bound();
            }
            return Ok(n);
        }
        let mut i: usize = 0;
        while i < n
            invariant
                i <= n,
                n == buf@.len(),
                !old(self).errored,
                self.wf(),
                !self.errored,
                !self.closed,
                self.algorithm == old(self).algorithm,
                self.counter.prefix() == old(self).counter.prefix(),
                self.buf_size == old(self).buf_size,
                self.user_aad == old(self).user_aad,
                self.base == old(self).base,
                self.taken == old(self).taken,
                self.consumed@ == old(self).consumed@ + buf@.take(i as int),
                newct == old(self).consumed@ + buf@,
                old(self).consumed@.len() - opened_count(
                    old(self).consumed@.len(),
                    old(self).buf_size as nat,
                ) * sealed_size(old(self).buf_size as nat) + n > sealed_size(
                    old(self).buf_size as nat,
                ),
            decreases n - i,
        {
            let ghost size = self.buf_size as nat;
            let ghost c = sealed_size(size);
            if self.buffer.len() == self.buf_size + TAG_LEN {
                let ghost k = self.opened_count();
                let ghost full = self.buffer@;
                let ghost before = self.consumed@;
                proof {
                    let len = newct.len();
                    lemma_mul_succ(k, c);
                    assert(before =~= newct.take(before.len() as int));
                    assert(before.len() + 1 <= len);
                    lemma_mul_le_div(k + 1, c, (len - 1) as nat);
                    assert(k + 1 <= opened_count(len, size));
                    lemma_interior_opened_prefix::<A>(
                        self.key(),
                        self.nonce(),
                        self.mac(),
                        size,
                        before,
                        newct,
                        k,
                    );
                    assert(newct.subrange((k * c) as int, ((k + 1) * c) as int) =~= full);
                    assert(((k + 1) - 1) * c == k * c);
                    if A::opened(
                        self.key(),
                        counter_nonce(self.nonce(), self.counter.used() as u32),
                        self.aad@,
                        full,
                    ) is None {
                        lemma_interior_opened_fails_on::<A>(
                            self.key(),
                            self.nonce(),
                            self.mac(),
                            size,
                            newct,
                            k + 1,
                            opened_count(len, size),
                        );
                    }
                }
                let ghost w0 = self.inner.written();
                let ghost y = A::opened(
                    self.algorithm.key(),
                    counter_nonce(self.counter.prefix(), self.counter.used() as u32),
                    self.aad@,
                    self.buffer@,
                )->0;
                match self.write_buffer() {
                    Ok(()) => {},
                    Err(e) => {
                        proof {
                            let m = opened_count(newct.len(), size);
                            assert(k <= m);
                            assert(interior_opened::<A>(
                                self.key(),
                                self.nonce(),
                                self.mac(),
                                size,
                                newct,
                                k,
                            ) is Some);
                        }
                        return Err(e);
                    },
                }
                proof {
                    lemma_concat_assoc(self.taken@, w0, y);
                }
                proof {
                    let now = self.consumed@;
                    lemma_mul_succ(k, c);
                    assert(self.opened_count() == k + 1);
                    assert(full =~= now.subrange((k * c) as int, ((k + 1) * c) as int));
                    assert(((k + 1) - 1) * c == k * c);
                    assert(now.skip(((k + 1) * c) as int) =~= self.buffer@);
                    assert(self.taken@ + self.inner.written() == self.base@ + self.opened_so_far()->0);
                }
            }
            let free = self.buf_size + TAG_LEN - self.buffer.len();
            let take = if n - i < free {
                n - i
            } else {
                free
            };
            let ghost before = self.consumed@;
            let ghost k = self.opened_count();
            self.buffer.extend_from_slice(&buf[i..i + take]);
            i = i + take;
            self.consumed = Ghost(old(self).consumed@ + buf@.take(i as int));
            proof {
                let now = self.consumed@;
                assert(before =~= now.take(before.len() as int));
                lemma_interior_opened_prefix::<A>(
                    self.key(),
                    self.nonce(),
                    self.mac(),
                    size,
                    before,
                    now,
                    k,
                );
                assert(self.buffer@ =~= now.skip((k * c) as int));
            }
        }
        proof {
            let size = self.buf_size as nat;
            let k = self.opened_count();
            let len = self.consumed@.len();
            assert(buf@.take(n as int) =~= buf@);
            if len > 0 {
                lemma_div_exact(
                    (len - 1) as nat,
                    k,
                    sealed_size(size),
                    (self.buffer@.len() - 1) as nat,
                );
            } else {
                assert(k * sealed_size(size) == 0);
                assert(k == 0) by (nonlinear_arith)
                    requires
                        k * sealed_size(size) == 0,
                        sealed_size(size) >= 1,
                ;
            }
            assert(opened_count(len, size) == k);
            self.counter.lemma_used_bound();
        }
        Ok(n)
    }

    /// Opens what the buffer holds as the last fragment, writes its
    /// plaintext out, and closes the wrapped sink.
    fn complete(&mut self) -> (r: Result<(), Error>)
        requires
            old(self).inv(),
            !old(self).is_closed(),
        ensures
            final(self).inv(),
            final(self).is_closed(),
            final(self).key() == old(self).key(),
            final(self).nonce() == old(self).nonce(),
            final(self).aad() == old(self).aad(),
            final(self).buf_size() == old(self).buf_size(),
            final(self).inner_base() == old(self).inner_base(),
            final(self).ciphertext() == old(self).ciphertext(),
            final(self).taken() == old(self).taken(),
            r is Ok ==> final(self).inner.completed(),
            old(self).is_errored() ==> (r matches Err(Error::AfterError)),
            !old(self).is_errored() && opened_count(old(self).ciphertext().len(), old(self).buf_size()) + 1
                > u32::MAX ==> (r matches Err(Error::Exceeded)) && final(self).output() == old(self).output(),
            !old(self).is_errored() && opened_count(old(self).ciphertext().len(), old(self).buf_size()) + 1
                <= u32::MAX && decrypted::<A>(
                old(self).key(),
                old(self).nonce(),
                old(self).aad(),
                old(self).buf_size(),
                old(self).ciphertext(),
            ) is None ==> (r matches Err(Error::NotAuthentic)) && final(self).output() == old(self).output(),
            !old(self).is_errored() && opened_count(old(self).ciphertext().len(), old(self).buf_size()) + 1
                <= u32::MAX && old(self).ciphertext().len() - opened_count(old(self).ciphertext().len(), old(self).buf_size()) * sealed_size(old(self).buf_size()) < TAG_LEN ==> (r matches Err(Error::NotAuthentic)) && final(self).output() == old(self).output(),
            !old(self).is_errored() && W::infallible() && decrypted::<A>(
                old(self).key(),
                old(self).nonce(),
                old(self).aad(),
                old(self).buf_size(),
                old(self).ciphertext(),
            ) is Some ==> r is Ok,
            r is Ok ==> {
                let pt = decrypted::<A>(
                    old(self).key(),
                    old(self).nonce(),
                    old(self).aad(),
                    old(self).buf_size(),
                    old(self).ciphertext(),
                );
                &&& pt is Some
                &&& final(self).output() == old(self).inner_base() + pt->0
            },
    {
        if self.errored {
            self.closed = true;
            return Err(Error::AfterError);
        }
        let ghost k = self.opened_count();
        let ghost size = self.buf_size as nat;
        let ghost data = self.consumed@;
        self.closed = true;
        self.aad.set(0, 0x80u8);
        proof {
            assert(self.aad@ =~= fragment_aad(self.mac(), true));
        }
        proof {
            let len = data.len();
            if len > 0 {
                lemma_div_exact(
                    (len - 1) as nat,
                    k,
                    sealed_size(size),
                    (self.buffer@.len() - 1) as nat,
                );
            } else {
                assert(k == 0) by (nonlinear_arith)
                    requires
                        k * sealed_size(size) == 0,
                        sealed_size(size) >= 1,
                ;
            }
            assert(opened_count(len, size) == k);
            assert(data.skip((k * sealed_size(size)) as int) =~= self.buffer@);
        }
        let ghost w0 = self.inner.written();
        let ghost y = A::opened(
            self.algorithm.key(),
            counter_nonce(self.counter.prefix(), self.counter.used() as u32),
            self.aad@,
            self.buffer@,
        )->0;
        match self.write_buffer() {
            Ok(()) => {},
            Err(e) => return Err(e),
        }
        proof {
            lemma_concat_assoc(self.taken@, w0, y);
        }
        self.inner.close()
    }

    /// Completes the plaintext: opens the last fragment, writes its
    /// plaintext out and closes the wrapped sink, which is handed back.
    ///
    /// The wrapped sink then holds what it held before, followed by the
    /// decryption of everything written; there is none where the
    /// ciphertext was not made under this key, nonce, associated data and
    /// fragment size.
    pub fn close(self) -> (r: Result<W, Error>)
        requires
            self.inv(),
            !self.is_closed(),
        ensures
            self.is_errored() ==> (r matches Err(Error::AfterError)),
            !self.is_errored() && opened_count(self.ciphertext().len(), self.buf_size()) + 1
                > u32::MAX ==> (r matches Err(Error::Exceeded)),
            !self.is_errored() && opened_count(self.ciphertext().len(), self.buf_size()) + 1
                <= u32::MAX && decrypted::<A>(
                self.key(),
                self.nonce(),
                self.aad(),
                self.buf_size(),
                self.ciphertext(),
            ) is None ==> (r matches Err(Error::NotAuthentic)),
            !self.is_errored() && opened_count(self.ciphertext().len(), self.buf_size()) + 1
                <= u32::MAX && self.ciphertext().len() - opened_count(self.ciphertext().len(), self.buf_size()) * sealed_size(self.buf_size()) < TAG_LEN ==> (r matches Err(Error::NotAuthentic)),
            !self.is_errored() && W::infallible() && decrypted::<A>(
                self.key(),
                self.nonce(),
                self.aad(),
                self.buf_size(),
                self.ciphertext(),
            ) is Some ==> r is Ok,
            r is Ok ==> {
                let pt = decrypted::<A>(
                    self.key(),
                    self.nonce(),
                    self.aad(),
                    self.buf_size(),
                    self.ciphertext(),
                );
                &&& r->Ok_0.inv()
                &&& pt is Some
                &&& self.taken() + r->Ok_0.written() == self.inner_base() + pt->0
                &&& r->Ok_0.completed()
            },
    {
        let mut w = self;
        match w.complete() {
            Ok(()) => Ok(w.inner),
            Err(e) => Err(e),
        }
    }

    /// Wraps the writer in a `Closer`, whose `close` does not consume it.
    pub fn closer(self) -> (r: Closer<Self>)
        requires
            self.inv(),
            !self.is_closed(),
        ensures
            r.inv(),
            !r.is_closed(),
            r.get_ref() == self,
    {
        Closer::wrap(self)
    }

    /// The wrapped sink, given up without completing the stream.
    pub fn into_inner(self) -> (r: W)
        ensures
            self.taken() + r.written() == self.output(),
    {
        self.inner
    }
}

impl<A: Algorithm> DecWriter<A, Vec<u8>> {
    /// Hands out what the wrapped vector holds and leaves it empty, so that
    /// output can be passed on while the stream goes on. Nothing else of the
    /// writer changes: `output` still counts what was handed out.
    pub fn take_output(&mut self) -> (r: Vec<u8>)
        requires
            old(self).inv(),
        ensures
            final(self).inv(),
            final(self).is_closed() == old(self).is_closed(),
            final(self).is_errored() == old(self).is_errored(),
            final(self).key() == old(self).key(),
            final(self).nonce() == old(self).nonce(),
            final(self).aad() == old(self).aad(),
            final(self).buf_size() == old(self).buf_size(),
            final(self).inner_base() == old(self).inner_base(),
            final(self).ciphertext() == old(self).ciphertext(),
            final(self).output() == old(self).output(),
            final(self).taken() == old(self).taken() + r@,
            old(self).taken() + r@ == old(self).output(),
    {
        let mut out: Vec<u8> = Vec::new();
        std::mem::swap(&mut out, &mut self.inner);
        self.taken = Ghost(self.taken@ + out@);
        proof {
            assert(self.taken@ + self.inner@ =~= self.taken@);
        }
        out
    }
}

impl<A: Algorithm, W: Close> Sink for DecWriter<A, W> {
    closed spec fn inv(&self) -> bool {
        self.wf()
    }

    closed spec fn written(&self) -> Seq<u8> {
        self.consumed@
    }

    closed spec fn is_closed(&self) -> bool {
        self.closed
    }

    open spec fn infallible() -> bool {
        false
    }

    /// A write is sure to succeed where it only fills the held-back
    /// fragment, or where the wrapped sink cannot fail, the counter lasts
    /// and every interior fragment so far opens.
    open spec fn accepts(&self, buf: Seq<u8>) -> bool {
        let ct = self.ciphertext() + buf;
        let m = opened_count(ct.len(), self.buf_size());
        &&& !self.is_errored()
        &&& self.ciphertext().len() - opened_count(self.ciphertext().len(), self.buf_size())
            * sealed_size(self.buf_size()) + buf.len() <= sealed_size(self.buf_size()) || W::infallible()
            && m <= u32::MAX && interior_opened::<A>(
            self.key(),
            self.nonce(),
            aad_mac::<A>(self.key(), self.nonce(), self.aad()),
            self.buf_size(),
            ct,
            m,
        ) is Some
    }

    fn write_all(&mut self, buf: &[u8]) -> (r: Result<(), Error>)
        ensures
            old(self).is_errored() ==> (r matches Err(Error::AfterError)),
            old(self).is_errored() ==> *final(self) == *old(self),
            r is Err ==> final(self).is_errored(),
    {
        match self.write(buf) {
            Ok(_) => Ok(()),
            Err(e) => Err(e),
        }
    }

    fn flush(&mut self) -> (r: Result<(), Error>)
        ensures
            old(self).is_errored() ==> (r matches Err(Error::AfterError)),
            r is Err ==> final(self).is_errored(),
            final(self).key() == old(self).key(),
            final(self).nonce() == old(self).nonce(),
            final(self).aad() == old(self).aad(),
            final(self).buf_size() == old(self).buf_size(),
            final(self).inner_base() == old(self).inner_base(),
            r is Ok ==> final(self).output() == old(self).output(),
            old(self).is_errored() ==> *final(self) == *old(self),
            !old(self).is_errored() && W::infallible() ==> r is Ok,
            r is Ok ==> !final(self).is_errored(),
            final(self).written() == old(self).written(),
    {
        if self.errored {
            return Err(Error::AfterError);
        }
        let r = self.inner.flush();
        if r.is_err() {
            self.errored = true;
        }
        r
    }
}

impl<A: Algorithm, W: Close> Finish for EncWriter<A, W> {
    fn finish(&mut self) -> (r: Result<(), Error>) {
        self.complete()
    }
}

impl<A: Algorithm, W: Close> Finish for DecWriter<A, W> {
    fn finish(&mut self) -> (r: Result<(), Error>) {
        self.complete()
    }
}

/// A sink whose stream has a last step that must run once, after the last
/// write.
pub trait Finish: Sink {
    fn finish(&mut self) -> (r: Result<(), Error>)
        requires
            old(self).inv(),
            !old(self).is_closed(),
        ensures
            final(self).inv(),
            final(self).is_closed(),
            r is Ok ==> final(self).written() == old(self).written(),
    ;
}

/// Gives an `EncWriter` or a `DecWriter` a `close` that does not consume
/// it, so that it can stand as the wrapped sink of another writer. Once
/// closed it takes no more writes; once failed it fails every operation.
pub struct Closer<W: Finish> {
    inner: W,
    closed: bool,
    errored: bool,
}

impl<W: Finish> Closer<W> {
    pub fn wrap(inner: W) -> (r: Self)
        requires
            inner.inv(),
            !inner.is_closed(),
        ensures
            r.inv(),
            !r.is_closed(),
            !r.is_errored(),
            r.get_ref() == inner,
    {
        Closer { inner, closed: false, errored: false }
    }

    pub closed spec fn get_ref(&self) -> W {
        self.inner
    }

    /// Whether an operation failed, after which every write and close fails.
    pub closed spec fn is_errored(&self) -> bool {
        self.errored
    }

    /// The wrapped writer.
    pub fn into_inner(self) -> (r: W)
        ensures
            r == self.get_ref(),
    {
        self.inner
    }
}

impl<W: Finish> Sink for Closer<W> {
    closed spec fn inv(&self) -> bool {
        &&& self.inner.inv()
        &&& !self.closed ==> !self.inner.is_closed()
        &&& self.closed ==> self.inner.is_closed()
    }

    closed spec fn written(&self) -> Seq<u8> {
        self.inner.written()
    }

    closed spec fn is_closed(&self) -> bool {
        self.closed
    }

    open spec fn infallible() -> bool {
        false
    }

    /// A write is sure to succeed where the wrapped writer would take it.
    open spec fn accepts(&self, buf: Seq<u8>) -> bool {
        !self.is_errored() && self.get_ref().accepts(buf)
    }

    fn write_all(&mut self, buf: &[u8]) -> (r: Result<(), Error>)
        ensures
            old(self).is_errored() ==> (r matches Err(Error::AfterError)),
            old(self).is_errored() ==> *final(self) == *old(self),
            r is Err ==> final(self).is_errored(),
            !old(self).is_errored() && r is Ok ==> !final(self).is_errored(),
    {
        if self.errored {
            return Err(Error::AfterError);
        }
        match self.inner.write_all(buf) {
            Ok(()) => Ok(()),
            Err(e) => {
                self.errored = true;
                Err(e)
            },
        }
    }

    fn flush(&mut self) -> (r: Result<(), Error>) {
        self.inner.flush()
    }
}

impl<W: Finish> Close for Closer<W> {
    /// The wrapped writer's stream was completed.
    open spec fn completed(&self) -> bool {
        self.is_closed() && self.get_ref().is_closed()
    }

    fn close(&mut self) -> (r: Result<(), Error>)
        ensures
            old(self).is_errored() ==> (r matches Err(Error::AfterError)),
            old(self).is_errored() ==> *final(self) == *old(self),
            !old(self).is_errored() && old(self).is_closed() ==> r is Ok && *final(self) == *old(self),
            !old(self).is_errored() ==> final(self).is_closed() && final(self).get_ref().is_closed(),
            r is Err ==> final(self).is_errored(),
            r is Ok ==> !final(self).is_errored(),
    {
        if self.errored {
            return Err(Error::AfterError);
        }
        if self.closed {
            return Ok(());
        }
        self.closed = true;
        let r = self.inner.finish();
        if r.is_err() {
            self.errored = true;
        }
        r
    }
}

} // verus!
