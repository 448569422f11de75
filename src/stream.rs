//! The wire format of a stream, as spec functions.
//!
//! A stream of `n` plaintext bytes with fragment size `size` is cut into
//! `n / size` interior fragments of `size` bytes and one last fragment of
//! the `n % size` bytes that remain, which may be empty. Fragment `j`
//! (counting from 1) is sealed under counter value `j`, with associated data
//! `0x00 || mac` for interior fragments and `0x80 || mac` for the last one.
//! `mac` is the tag of the empty plaintext under counter value 0 and the
//! caller's associated data.
use crate::aead::{counter_nonce, Algorithm, TAG_LEN};
use vstd::prelude::*;

verus! {

/// The associated data of a fragment.
pub open spec fn fragment_aad(mac: Seq<u8>, last: bool) -> Seq<u8> {
    seq![if last { 0x80u8 } else { 0x00u8 }] + mac
}

/// The 16 bytes that bind a stream to the caller's associated data.
pub open spec fn aad_mac<A: Algorithm>(key: Seq<u8>, prefix: Seq<u8>, aad: Seq<u8>) -> Seq<u8> {
    A::sealed(key, counter_nonce(prefix, 0), aad, Seq::empty())
}

/// Bytes of one sealed interior fragment.
pub open spec fn sealed_size(size: nat) -> nat {
    size + TAG_LEN as nat
}

/// Whether a stream of `len` plaintext bytes needs no more than the
/// `u32::MAX` fragment numbers that the counter has.
pub open spec fn fits_counter(len: nat, size: nat) -> bool {
    size >= 1 && len / size < u32::MAX
}

/// The `j`-th interior fragment of `data` (counting from 1), sealed.
pub open spec fn interior_fragment<A: Algorithm>(
    key: Seq<u8>,
    prefix: Seq<u8>,
    mac: Seq<u8>,
    size: nat,
    data: Seq<u8>,
    j: nat,
) -> Seq<u8> {
    A::sealed(
        key,
        counter_nonce(prefix, j as u32),
        fragment_aad(mac, false),
        data.subrange((j - 1) * size, (j * size) as int),
    )
}

/// The first `n` interior fragments of `data`, sealed and concatenated.
pub open spec fn interior_sealed<A: Algorithm>(
    key: Seq<u8>,
    prefix: Seq<u8>,
    mac: Seq<u8>,
    size: nat,
    data: Seq<u8>,
    n: nat,
) -> Seq<u8>
    decreases n,
{
    if n == 0 {
        Seq::empty()
    } else {
        interior_sealed::<A>(key, prefix, mac, size, data, (n - 1) as nat) + interior_fragment::<A>(
            key,
            prefix,
            mac,
            size,
            data,
            n,
        )
    }
}

/// The sealed interior fragments of all the whole fragments in `data`:
/// what an encrypting sink has written out after it accepted `data`.
pub open spec fn interior_stream<A: Algorithm>(
    key: Seq<u8>,
    prefix: Seq<u8>,
    aad: Seq<u8>,
    size: nat,
    data: Seq<u8>,
) -> Seq<u8> {
    interior_sealed::<A>(key, prefix, aad_mac::<A>(key, prefix, aad), size, data, data.len() / size)
}

/// The last fragment: what remains of `data` after `n` interior fragments,
/// sealed under counter value `n + 1`.
pub open spec fn last_fragment<A: Algorithm>(
    key: Seq<u8>,
    prefix: Seq<u8>,
    mac: Seq<u8>,
    size: nat,
    data: Seq<u8>,
    n: nat,
) -> Seq<u8> {
    A::sealed(
        key,
        counter_nonce(prefix, (n + 1) as u32),
        fragment_aad(mac, true),
        data.skip((n * size) as int),
    )
}

/// The ciphertext of `data`: its interior fragments, then its last fragment.
pub open spec fn encrypted<A: Algorithm>(
    key: Seq<u8>,
    prefix: Seq<u8>,
    aad: Seq<u8>,
    size: nat,
    data: Seq<u8>,
) -> Seq<u8> {
    let mac = aad_mac::<A>(key, prefix, aad);
    let n = data.len() / size;
    interior_sealed::<A>(key, prefix, mac, size, data, n) + last_fragment::<A>(
        key,
        prefix,
        mac,
        size,
        data,
        n,
    )
}

/// Interior fragments that a decrypting sink holds back nothing of: all
/// whole sealed fragments but the one that the input ends in.
pub open spec fn opened_count(len: nat, size: nat) -> nat {
    if len == 0 {
        0
    } else {
        ((len - 1) as nat) / sealed_size(size)
    }
}

/// The first `n` sealed interior fragments of `ct`, opened and
/// concatenated; `None` where one of them is not authentic.
pub open spec fn interior_opened<A: Algorithm>(
    key: Seq<u8>,
    prefix: Seq<u8>,
    mac: Seq<u8>,
    size: nat,
    ct: Seq<u8>,
    n: nat,
) -> Option<Seq<u8>>
    decreases n,
{
    if n == 0 {
        Some(Seq::empty())
    } else {
        match interior_opened::<A>(key, prefix, mac, size, ct, (n - 1) as nat) {
            None => None,
            Some(p) => match A::opened(
                key,
                counter_nonce(prefix, n as u32),
                fragment_aad(mac, false),
                ct.subrange((n - 1) * sealed_size(size), (n * sealed_size(size)) as int),
            ) {
                None => None,
                Some(q) => Some(p + q),
            },
        }
    }
}

/// The plaintext of the stream `ct`, or `None` where it is not the
/// ciphertext of any plaintext under these parameters.
pub open spec fn decrypted<A: Algorithm>(
    key: Seq<u8>,
    prefix: Seq<u8>,
    aad: Seq<u8>,
    size: nat,
    ct: Seq<u8>,
) -> Option<Seq<u8>> {
    let mac = aad_mac::<A>(key, prefix, aad);
    let n = opened_count(ct.len(), size);
    if n + 1 > u32::MAX {
        None
    } else {
        match interior_opened::<A>(key, prefix, mac, size, ct, n) {
            None => None,
            Some(p) => match A::opened(
                key,
                counter_nonce(prefix, (n + 1) as u32),
                fragment_aad(mac, true),
                ct.skip((n * sealed_size(size)) as int),
            ) {
                None => None,
                Some(q) => Some(p + q),
            },
        }
    }
}

/// Sealing `plaintext` adds a tag and can be undone by opening.
pub open spec fn seals_back<A: Algorithm>(
    key: Seq<u8>,
    nonce: Seq<u8>,
    aad: Seq<u8>,
    plaintext: Seq<u8>,
) -> bool {
    &&& A::sealed(key, nonce, aad, plaintext).len() == plaintext.len() + TAG_LEN
    &&& A::opened(key, nonce, aad, A::sealed(key, nonce, aad, plaintext)) == Some(plaintext)
}

/// `seals_back` holds of each of the first `n` interior fragments of `data`.
pub open spec fn interior_seals_back<A: Algorithm>(
    key: Seq<u8>,
    prefix: Seq<u8>,
    mac: Seq<u8>,
    size: nat,
    data: Seq<u8>,
    n: nat,
) -> bool
    decreases n,
{
    if n == 0 {
        true
    } else {
        &&& interior_seals_back::<A>(key, prefix, mac, size, data, (n - 1) as nat)
        &&& seals_back::<A>(
            key,
            counter_nonce(prefix, n as u32),
            fragment_aad(mac, false),
            data.subrange((n - 1) * size, (n * size) as int),
        )
    }
}

/// `seals_back` holds of every fragment of the stream of `data`.
pub open spec fn stream_seals_back<A: Algorithm>(
    key: Seq<u8>,
    prefix: Seq<u8>,
    aad: Seq<u8>,
    size: nat,
    data: Seq<u8>,
) -> bool {
    let mac = aad_mac::<A>(key, prefix, aad);
    let n = data.len() / size;
    &&& interior_seals_back::<A>(key, prefix, mac, size, data, n)
    &&& seals_back::<A>(
        key,
        counter_nonce(prefix, (n + 1) as u32),
        fragment_aad(mac, true),
        data.skip((n * size) as int),
    )
}

/// One more multiple of `c`.
pub proof fn lemma_mul_succ(m: nat, c: nat)
    ensures
        m * c + c == (m + 1) * c,
        m * c <= (m + 1) * c,
{
    assert(m * c + c == (m + 1) * c) by (nonlinear_arith);
}

/// The first `n` sealed interior fragments take `n` times `size + TAG_LEN`
/// bytes.
pub proof fn lemma_interior_sealed_len<A: Algorithm>(
    key: Seq<u8>,
    prefix: Seq<u8>,
    mac: Seq<u8>,
    size: nat,
    data: Seq<u8>,
    n: nat,
)
    requires
        n * size <= data.len(),
        interior_seals_back::<A>(key, prefix, mac, size, data, n),
    ensures
        interior_sealed::<A>(key, prefix, mac, size, data, n).len() == n * sealed_size(size),
    decreases n,
{
    if n > 0 {
        let m = (n - 1) as nat;
        lemma_mul_succ((n - 1) as nat, size);
        lemma_mul_succ((n - 1) as nat, sealed_size(size));
        lemma_interior_sealed_len::<A>(key, prefix, mac, size, data, m);
        let plain = data.subrange((n - 1) * size, (n * size) as int);
        assert(plain.len() == size);
        assert(interior_fragment::<A>(key, prefix, mac, size, data, n).len() == size + TAG_LEN);
        assert(interior_sealed::<A>(key, prefix, mac, size, data, n).len() == m * sealed_size(size)
            + sealed_size(size));
        assert(m * sealed_size(size) + sealed_size(size) == n * sealed_size(size));
    } else {
        assert(0 * sealed_size(size) == 0);
    }
}

/// Interior fragments depend only on the bytes that they cover.
pub proof fn lemma_interior_sealed_prefix<A: Algorithm>(
    key: Seq<u8>,
    prefix: Seq<u8>,
    mac: Seq<u8>,
    size: nat,
    data: Seq<u8>,
    more: Seq<u8>,
    n: nat,
)
    requires
        n * size <= data.len(),
        data.len() <= more.len(),
        data == more.take(data.len() as int),
    ensures
        interior_sealed::<A>(key, prefix, mac, size, data, n) == interior_sealed::<A>(
            key,
            prefix,
            mac,
            size,
            more,
            n,
        ),
        interior_seals_back::<A>(key, prefix, mac, size, data, n) == interior_seals_back::<A>(
            key,
            prefix,
            mac,
            size,
            more,
            n,
        ),
    decreases n,
{
    if n > 0 {
        lemma_mul_succ((n - 1) as nat, size);
        lemma_interior_sealed_prefix::<A>(key, prefix, mac, size, data, more, (n - 1) as nat);
        assert(data.subrange((n - 1) * size, (n * size) as int) =~= more.subrange(
            (n - 1) * size,
            (n * size) as int,
        ));
    }
}

/// Opened interior fragments depend only on the bytes that they cover.
pub proof fn lemma_interior_opened_prefix<A: Algorithm>(
    key: Seq<u8>,
    prefix: Seq<u8>,
    mac: Seq<u8>,
    size: nat,
    ct: Seq<u8>,
    more: Seq<u8>,
    n: nat,
)
    requires
        n * sealed_size(size) <= ct.len(),
        ct.len() <= more.len(),
        ct == more.take(ct.len() as int),
    ensures
        interior_opened::<A>(key, prefix, mac, size, ct, n) == interior_opened::<A>(
            key,
            prefix,
            mac,
            size,
            more,
            n,
        ),
    decreases n,
{
    if n > 0 {
        let c = sealed_size(size);
        lemma_mul_succ((n - 1) as nat, c);
        lemma_interior_opened_prefix::<A>(key, prefix, mac, size, ct, more, (n - 1) as nat);
        assert(ct.subrange((n - 1) * c, (n * c) as int) =~= more.subrange(
            (n - 1) * c,
            (n * c) as int,
        ));
    }
}

/// Once an interior fragment fails to open, no longer run of interior
/// fragments opens.
pub proof fn lemma_interior_opened_fails_on<A: Algorithm>(
    key: Seq<u8>,
    prefix: Seq<u8>,
    mac: Seq<u8>,
    size: nat,
    ct: Seq<u8>,
    j: nat,
    m: nat,
)
    requires
        j <= m,
        interior_opened::<A>(key, prefix, mac, size, ct, j) is None,
    ensures
        interior_opened::<A>(key, prefix, mac, size, ct, m) is None,
    decreases m,
{
    if m > j {
        lemma_interior_opened_fails_on::<A>(key, prefix, mac, size, ct, j, (m - 1) as nat);
    }
}

/// Opening the sealed interior fragments of `data` gives back the bytes
/// that they cover.
pub proof fn lemma_interior_round_trip<A: Algorithm>(
    key: Seq<u8>,
    prefix: Seq<u8>,
    mac: Seq<u8>,
    size: nat,
    data: Seq<u8>,
    ct: Seq<u8>,
    n: nat,
)
    requires
        n * size <= data.len(),
        n * sealed_size(size) <= ct.len(),
        interior_seals_back::<A>(key, prefix, mac, size, data, n),
        ct.take((n * sealed_size(size)) as int) == interior_sealed::<A>(
            key,
            prefix,
            mac,
            size,
            data,
            n,
        ),
    ensures
        interior_opened::<A>(key, prefix, mac, size, ct, n) == Some(data.take((n * size) as int)),
    decreases n,
{
    if n == 0 {
        assert(0 * size == 0);
        assert(data.take(0) =~= Seq::<u8>::empty());
    } else {
        let c = sealed_size(size);
        let m = (n - 1) as nat;
        lemma_mul_succ((n - 1) as nat, size);
        lemma_mul_succ((n - 1) as nat, c);
        lemma_interior_sealed_len::<A>(key, prefix, mac, size, data, m);
        let whole = interior_sealed::<A>(key, prefix, mac, size, data, n);
        let frag = interior_fragment::<A>(key, prefix, mac, size, data, n);
        assert(whole == interior_sealed::<A>(key, prefix, mac, size, data, m) + frag);
        assert(ct.take((m * c) as int) =~= whole.take((m * c) as int));
        assert(whole.take((m * c) as int) =~= interior_sealed::<A>(
            key,
            prefix,
            mac,
            size,
            data,
            m,
        ));
        lemma_interior_round_trip::<A>(key, prefix, mac, size, data, ct, m);
        lemma_interior_sealed_len::<A>(key, prefix, mac, size, data, n);
        assert(frag.len() == c);
        assert(ct.subrange((m * c) as int, (n * c) as int) =~= whole.subrange(
            (m * c) as int,
            (n * c) as int,
        ));
        assert(whole.subrange((m * c) as int, (n * c) as int) =~= frag);
        assert(data.take((m * size) as int) + data.subrange((m * size) as int, (n * size) as int)
            =~= data.take((n * size) as int));
    }
}

/// The length of a stream: the plaintext, and one tag for each of the
/// `len / size + 1` fragments.
pub proof fn lemma_encrypted_len<A: Algorithm>(
    key: Seq<u8>,
    prefix: Seq<u8>,
    aad: Seq<u8>,
    size: nat,
    data: Seq<u8>,
)
    requires
        size >= 1,
        stream_seals_back::<A>(key, prefix, aad, size, data),
    ensures
        encrypted::<A>(key, prefix, aad, size, data).len() == data.len() + TAG_LEN * (data.len()
            / size + 1),
{
    let mac = aad_mac::<A>(key, prefix, aad);
    let n = data.len() / size;
    lemma_div_bound(data.len(), size);
    lemma_interior_sealed_len::<A>(key, prefix, mac, size, data, n);
    assert(n * sealed_size(size) + (data.len() - n * size) + TAG_LEN == data.len() + TAG_LEN * (n
        + 1)) by (nonlinear_arith);
}

proof fn lemma_div_bound(len: nat, size: nat)
    requires
        size >= 1,
    ensures
        (len / size) * size <= len,
        len - (len / size) * size < size,
{
    assert((len / size) * size <= len && len - (len / size) * size < size) by (nonlinear_arith)
        requires
            size >= 1,
    ;
}

/// A stream that was sealed fragment by fragment decrypts to the data that
/// it was sealed from.
pub proof fn lemma_round_trip<A: Algorithm>(
    key: Seq<u8>,
    prefix: Seq<u8>,
    aad: Seq<u8>,
    size: nat,
    data: Seq<u8>,
)
    requires
        fits_counter(data.len(), size),
        stream_seals_back::<A>(key, prefix, aad, size, data),
    ensures
        decrypted::<A>(key, prefix, aad, size, encrypted::<A>(key, prefix, aad, size, data))
            == Some(data),
{
    let mac = aad_mac::<A>(key, prefix, aad);
    let n = data.len() / size;
    let c = sealed_size(size);
    let ct = encrypted::<A>(key, prefix, aad, size, data);
    let inner = interior_sealed::<A>(key, prefix, mac, size, data, n);
    let last = last_fragment::<A>(key, prefix, mac, size, data, n);
    lemma_div_bound(data.len(), size);
    lemma_interior_sealed_len::<A>(key, prefix, mac, size, data, n);
    let r = data.len() - n * size;
    assert(last.len() == r + TAG_LEN);
    assert(ct.len() == n * c + r + TAG_LEN);
    vstd::arithmetic::div_mod::lemma_fundamental_div_mod_converse(
        ct.len() - 1,
        c as int,
        n as int,
        r + 15,
    );
    assert(opened_count(ct.len(), size) == n);
    assert(ct.take((n * c) as int) =~= inner);
    lemma_interior_round_trip::<A>(key, prefix, mac, size, data, ct, n);
    assert(ct.skip((n * c) as int) =~= last);
    assert(data.take((n * size) as int) + data.skip((n * size) as int) =~= data);
}

/// Every interior fragment that a prefix of a decryptable stream holds
/// opens: a decrypting sink fed such a stream in any pieces never meets a
/// fragment that fails.
pub proof fn lemma_prefix_of_stream_opens<A: Algorithm>(
    key: Seq<u8>,
    prefix: Seq<u8>,
    aad: Seq<u8>,
    size: nat,
    ct: Seq<u8>,
    len: nat,
)
    requires
        size >= 1,
        len <= ct.len(),
        decrypted::<A>(key, prefix, aad, size, ct) is Some,
    ensures
        opened_count(len, size) <= u32::MAX,
        interior_opened::<A>(
            key,
            prefix,
            aad_mac::<A>(key, prefix, aad),
            size,
            ct.take(len as int),
            opened_count(len, size),
        ) is Some,
{
    let mac = aad_mac::<A>(key, prefix, aad);
    let c = sealed_size(size);
    let j = opened_count(len, size);
    let m = opened_count(ct.len(), size);
    let pre = ct.take(len as int);
    if len > 0 {
        vstd::arithmetic::div_mod::lemma_div_is_ordered((len - 1) as int, (ct.len() - 1) as int, c as int);
        vstd::arithmetic::div_mod::lemma_fundamental_div_mod((len - 1) as int, c as int);
        let x = (len - 1) as int;
        let q = x / (c as int);
        assert(j == q);
        assert(c * q <= x) by (nonlinear_arith)
            requires
                x == c * q + x % (c as int),
                x % (c as int) >= 0,
        ;
        assert(j * c <= len) by (nonlinear_arith)
            requires
                j == q,
                c * q <= x,
                x == len - 1,
        ;
    } else {
        assert(j * c == 0);
    }
    assert(j <= m);
    assert(pre =~= ct.take(pre.len() as int));
    lemma_interior_opened_prefix::<A>(key, prefix, mac, size, pre, ct, j);
    if interior_opened::<A>(key, prefix, mac, size, ct, j) is None {
        lemma_interior_opened_fails_on::<A>(key, prefix, mac, size, ct, j, m);
    }
}

} // verus!
