//! Encryption: the control stream's cached AES-128-GCM cipher, and AES-128-CBC.
use aes::cipher::{block_padding, BlockEncryptMut, KeyIvInit};
use aes_gcm::{aead::generic_array::GenericArray, AeadInPlace, Aes128Gcm, Key, KeyInit, Nonce};
use vstd::prelude::*;
use vstd::slice::slice_to_vec;

verus! {

/// Length in bytes of an AES-128 key.
pub const KEY_LEN: usize = 16;

/// Length in bytes of a GCM nonce.
pub const NONCE_LEN: usize = 12;

/// Length in bytes of a GCM authentication tag.
pub const TAG_LEN: usize = 16;

/// Length in bytes of an AES block.
pub const BLOCK_LEN: usize = 16;

/// Longest associated data in bytes that GCM authenticates.
pub const GCM_ASSOCIATED_MAX: u64 = 0x10_0000_0000;

/// Longest plaintext in bytes that GCM encrypts under one nonce.
pub const GCM_PLAINTEXT_MAX: u64 = 0x10_0000_0000;

/// Longest ciphertext in bytes that GCM looks at.
pub const GCM_CIPHERTEXT_MAX: u64 = 0x10_0000_0010;

/// An AES-128-GCM cipher with its key schedule and GHASH table in place.
///
/// Holds an `aes_gcm::Aes128Gcm`, of which nothing is visible here but the
/// key that it was made from: see [`expanded_key`].
#[verifier::external_body]
pub struct ExpandedCipher {
    inner: Aes128Gcm,
}

/// The key that a cipher was made from.
pub uninterp spec fn expanded_key(cipher: ExpandedCipher) -> Seq<u8>;

/// What AES-128-GCM makes of associated data and a plaintext under a key and a
/// nonce: the ciphertext and the authentication tag.
pub uninterp spec fn gcm_sealed(
    key: Seq<u8>,
    nonce: Seq<u8>,
    associated: Seq<u8>,
    plaintext: Seq<u8>,
) -> (Seq<u8>, Seq<u8>);

/// What AES-128-GCM recovers from a ciphertext, its tag and associated data under
/// a key and a nonce; `None` where the tag does not authenticate them.
pub uninterp spec fn gcm_opened(
    key: Seq<u8>,
    nonce: Seq<u8>,
    associated: Seq<u8>,
    ciphertext: Seq<u8>,
    tag: Seq<u8>,
) -> Option<Seq<u8>>;

/// What AES-128 in CBC mode makes of whole blocks under a key and an
/// initialization vector.
pub uninterp spec fn cbc_encrypted(key: Seq<u8>, iv: Seq<u8>, blocks: Seq<u8>) -> Seq<u8>;

/// `aes_gcm::Error`, which says nothing but that encryption or decryption failed.
#[verifier::external_type_specification]
#[verifier::external_body]
pub struct ExGcmError(aes_gcm::Error);

/// `cipher::inout::PadError`, which says nothing but that padded data did not fit.
#[verifier::external_type_specification]
#[verifier::external_body]
pub struct ExPadError(aes::cipher::inout::PadError);

/// Calls `Aes128Gcm::new`, which expands a key of 16 bytes. The cipher that
/// comes back holds that key.
#[verifier::external_body]
fn expand_key(key: &[u8]) -> (cipher: ExpandedCipher)
    requires
        key@.len() == KEY_LEN,
    ensures
        expanded_key(cipher) == key@,
{
    ExpandedCipher { inner: Aes128Gcm::new(Key::<Aes128Gcm>::from_slice(key)) }
}

/// Calls `Aes128Gcm::encrypt_in_place_detached`.
///
/// It fails exactly on a buffer over the plaintext limit or associated data over
/// their own, and leaves the buffer as it was. Otherwise the buffer holds the
/// ciphertext, the tag comes back, and the two open, with the same associated
/// data, to what the buffer held before.
#[verifier::external_body]
fn gcm_encrypt(
    cipher: &ExpandedCipher,
    nonce: &[u8],
    associated: &[u8],
    buffer: &mut [u8],
) -> (res: Result<[u8; 16], aes_gcm::Error>)
    requires
        nonce@.len() == NONCE_LEN,
    ensures
        res is Ok <==> {
            &&& old(buffer)@.len() <= GCM_PLAINTEXT_MAX
            &&& associated@.len() <= GCM_ASSOCIATED_MAX
        },
        final(buffer)@.len() == old(buffer)@.len(),
        res matches Ok(tag) ==> {
            &&& (final(buffer)@, tag@) == gcm_sealed(
                expanded_key(*cipher),
                nonce@,
                associated@,
                old(buffer)@,
            )
            &&& gcm_opened(
                expanded_key(*cipher),
                nonce@,
                associated@,
                final(buffer)@,
                tag@,
            ) == Some(old(buffer)@)
        },
        res is Err ==> final(buffer)@ == old(buffer)@,
{
    cipher.inner.encrypt_in_place_detached(Nonce::from_slice(nonce), associated, buffer).map(
        |tag| tag.into(),
    )
}

/// Calls `Aes128Gcm::decrypt_in_place_detached`.
///
/// It succeeds exactly where the buffer is within the ciphertext limit, the
/// associated data are within their own, and the tag authenticates both: it
/// compares the tag with the one that key, nonce, associated data and ciphertext
/// give, so no other tag authenticates what is accepted. The buffer then holds
/// the plaintext, and, within the plaintext limit, sealing that plaintext gives
/// ciphertext and tag again. On failure the buffer is as it was.
#[verifier::external_body]
fn gcm_decrypt(
    cipher: &ExpandedCipher,
    nonce: &[u8],
    associated: &[u8],
    tag: &[u8],
    buffer: &mut [u8],
) -> (res: Result<(), aes_gcm::Error>)
    requires
        nonce@.len() == NONCE_LEN,
        tag@.len() == TAG_LEN,
    ensures
        res is Ok <==> {
            &&& old(buffer)@.len() <= GCM_CIPHERTEXT_MAX
            &&& associated@.len() <= GCM_ASSOCIATED_MAX
            &&& gcm_opened(
                expanded_key(*cipher),
                nonce@,
                associated@,
                old(buffer)@,
                tag@,
            ) is Some
        },
        final(buffer)@.len() == old(buffer)@.len(),
        res is Ok ==> Some(final(buffer)@) == gcm_opened(
            expanded_key(*cipher),
            nonce@,
            associated@,
            old(buffer)@,
            tag@,
        ),
        res is Ok && old(buffer)@.len() <= GCM_PLAINTEXT_MAX ==> gcm_sealed(
            expanded_key(*cipher),
            nonce@,
            associated@,
            final(buffer)@,
        ) == (old(buffer)@, tag@),
        res is Ok ==> forall|other: Seq<u8>|
            other.len() == TAG_LEN && (#[trigger] gcm_opened(
                expanded_key(*cipher),
                nonce@,
                associated@,
                old(buffer)@,
                other,
            )) is Some ==> other == tag@,
        res is Err ==> final(buffer)@ == old(buffer)@,
{
    cipher.inner.decrypt_in_place_detached(
        Nonce::from_slice(nonce),
        associated,
        buffer,
        GenericArray::from_slice(tag),
    )
}

/// Calls `encrypt_padded_mut` with PKCS#7 padding on a `cbc::Encryptor` over
/// AES-128.
///
/// It pads the first `pos` bytes of the buffer to whole blocks, replaces them
/// by their encryption and says how many bytes that is. It fails exactly where
/// the padded blocks do not fit, and then leaves the buffer as it was.
///
/// Encryption keeps the length and can be undone: no other blocks give the same
/// ciphertext. It chains: what follows some blocks is encrypted with the last
/// block of their ciphertext for initialization vector, and does not bear on
/// theirs.
#[verifier::external_body]
fn cbc_encrypt_padded(key: &[u8], iv: &[u8], buffer: &mut [u8], pos: usize) -> (res: Result<
    usize,
    aes::cipher::inout::PadError,
>)
    requires
        key@.len() == KEY_LEN,
        iv@.len() == BLOCK_LEN,
    ensures
        res is Ok <==> padded_len(pos as nat) <= old(buffer)@.len(),
        final(buffer)@.len() == old(buffer)@.len(),
        res matches Ok(len) ==> {
            &&& len == padded_len(pos as nat)
            &&& final(buffer)@.take(len as int) == cbc_encrypted(
                key@,
                iv@,
                pkcs7_padded(old(buffer)@.take(pos as int)),
            )
            &&& final(buffer)@.skip(len as int) == old(buffer)@.skip(len as int)
            &&& forall|other: Seq<u8>|
                whole_blocks(other) && final(buffer)@.take(len as int) == #[trigger] cbc_encrypted(
                    key@,
                    iv@,
                    other,
                ) ==> other == pkcs7_padded(old(buffer)@.take(pos as int))
            &&& forall|head: Seq<u8>, tail: Seq<u8>|
                whole_blocks(head) && whole_blocks(tail) && head.len() > 0 ==> {
                    let done = cbc_encrypted(key@, iv@, head);
                    &&& done.len() == head.len()
                    &&& #[trigger] cbc_encrypted(key@, iv@, head + tail) == done + cbc_encrypted(
                        key@,
                        last_block(done),
                        tail,
                    )
                }
        },
        res is Err ==> final(buffer)@ == old(buffer)@,
{
    cbc::Encryptor::<aes::Aes128>::new(key.into(), iv.into()).encrypt_padded_mut::<
        block_padding::Pkcs7,
    >(buffer, pos).map(|out| out.len())
}

/// Whether `bytes` is made of whole AES blocks.
pub open spec fn whole_blocks(bytes: Seq<u8>) -> bool {
    bytes.len() % (BLOCK_LEN as nat) == 0
}

/// The last block of `bytes`.
pub open spec fn last_block(bytes: Seq<u8>) -> Seq<u8> {
    bytes.skip(bytes.len() - BLOCK_LEN)
}

/// How long `len` bytes are after PKCS#7 padding: the next multiple of the
/// block length above `len`.
pub open spec fn padded_len(len: nat) -> nat {
    (len / (BLOCK_LEN as nat) + 1) * (BLOCK_LEN as nat)
}

/// PKCS#7 padding: `n` bytes of value `n`, at least one, up to a whole block.
pub open spec fn pkcs7_padded(data: Seq<u8>) -> Seq<u8> {
    let n = (BLOCK_LEN - data.len() % (BLOCK_LEN as nat)) as nat;
    data + Seq::new(n, |i: int| n as u8)
}

/// What PKCS#7 padding was put around: all but as many bytes as the last one says.
pub open spec fn pkcs7_unpadded(padded: Seq<u8>) -> Seq<u8> {
    padded.take(padded.len() - padded.last())
}

/// What AES-128-CBC with PKCS#7 padding makes of `data`.
pub open spec fn cbc_ciphertext(key: Seq<u8>, iv: Seq<u8>, data: Seq<u8>) -> Seq<u8> {
    cbc_encrypted(key, iv, pkcs7_padded(data))
}

/// The whole blocks that AES-128 in CBC mode turns into `ciphertext`.
pub open spec fn cbc_decrypted(key: Seq<u8>, iv: Seq<u8>, ciphertext: Seq<u8>) -> Seq<u8> {
    choose|blocks: Seq<u8>|
        whole_blocks(blocks) && #[trigger] cbc_encrypted(key, iv, blocks) == ciphertext
}

/// A key that a [`GcmCipher`] holds, with the id that it was given.
pub struct CachedKey {
    pub key: Seq<u8>,
    pub key_id: i64,
}

/// What the cache holds once it has been asked for the key `key` of id
/// `key_id`.
///
/// What is held under that id stays, whatever bytes come with the request.
/// Otherwise the new key takes its place, or, where it is no AES-128 key,
/// nothing does.
pub open spec fn cache_after(cache: Option<CachedKey>, key: Seq<u8>, key_id: i64) -> Option<
    CachedKey,
> {
    if cache is Some && cache->0.key_id == key_id {
        cache
    } else if key.len() == KEY_LEN {
        Some(CachedKey { key, key_id })
    } else {
        None
    }
}

/// What messages are authenticated with besides themselves: nothing.
pub open spec fn no_associated_data() -> Seq<u8> {
    Seq::empty()
}

/// What encrypting `plaintext` with the key in the cache comes to: ciphertext
/// and tag, or an error without a key or over the plaintext limit.
pub open spec fn encrypt_outcome(cache: Option<CachedKey>, iv: Seq<u8>, plaintext: Seq<u8>) -> Result<
    (Seq<u8>, Seq<u8>),
    (),
> {
    if cache is Some && plaintext.len() <= GCM_PLAINTEXT_MAX {
        Ok(gcm_sealed(cache->0.key, iv, no_associated_data(), plaintext))
    } else {
        Err(())
    }
}

/// What decrypting `ciphertext` with the key in the cache comes to: the
/// plaintext, or an error without a key, over the ciphertext limit or where the
/// tag does not authenticate the ciphertext.
pub open spec fn decrypt_outcome(
    cache: Option<CachedKey>,
    iv: Seq<u8>,
    ciphertext: Seq<u8>,
    tag: Seq<u8>,
) -> Result<Seq<u8>, ()> {
    if cache is Some && ciphertext.len() <= GCM_CIPHERTEXT_MAX {
        match gcm_opened(cache->0.key, iv, no_associated_data(), ciphertext, tag) {
            Some(plaintext) => Ok(plaintext),
            None => Err(()),
        }
    } else {
        Err(())
    }
}

/// An AES-128-GCM cipher cached across calls, keyed by the control stream's
/// input key.
///
/// The control stream encrypts feedback and decrypts input with the remote
/// input key, which only changes on key rotation, tracked by its id. Building
/// the cipher takes a full AES key schedule and a GHASH table, too much for
/// every packet, so it is kept and only rebuilt when the key id changes.
pub struct GcmCipher {
    cipher: Option<ExpandedCipher>,
    key_id: i64,
}

impl View for GcmCipher {
    type V = Option<CachedKey>;

    closed spec fn view(&self) -> Option<CachedKey> {
        match self.cipher {
            Some(cipher) => Some(CachedKey { key: expanded_key(cipher), key_id: self.key_id }),
            None => None,
        }
    }
}

impl GcmCipher {
    /// An empty cache.
    pub fn new() -> (cipher: Self)
        ensures
            cipher@ is None,
    {
        Self { cipher: None, key_id: i64::MIN }
    }

    /// Returns the cached cipher, rebuilding it if the key has rotated.
    pub fn get(&mut self, key: &[u8], key_id: i64) -> (res: Result<&ExpandedCipher, ()>)
        ensures
            final(self)@ == cache_after(old(self)@, key@, key_id),
            res is Ok <==> final(self)@ is Some,
            res matches Ok(cipher) ==> expanded_key(*cipher) == final(self)@->0.key,
    {
        if self.cipher.is_none() || self.key_id != key_id {
            if key.len() != KEY_LEN {
                self.cipher = None;
                return Err(());
            }
            self.cipher = Some(expand_key(key));
            self.key_id = key_id;
        }
        self.cipher.as_ref().ok_or(())
    }

    /// Encrypts `buffer` in place, returning the detached 16-byte tag.
    ///
    /// What comes out decrypts, with the same key and `iv`, to what went in.
    pub fn encrypt(&mut self, key: &[u8], key_id: i64, iv: &[u8], buffer: &mut [u8]) -> (res:
        Result<[u8; 16], ()>)
        requires
            cache_after(old(self)@, key@, key_id) is Some ==> iv@.len() == NONCE_LEN,
        ensures
            final(self)@ == cache_after(old(self)@, key@, key_id),
            match encrypt_outcome(final(self)@, iv@, old(buffer)@) {
                Ok((ciphertext, tag)) => {
                    &&& res is Ok
                    &&& res->Ok_0@ == tag
                    &&& final(buffer)@ == ciphertext
                },
                Err(_) => res is Err && final(buffer)@ == old(buffer)@,
            },
            final(buffer)@.len() == old(buffer)@.len(),
            res matches Ok(tag) ==> decrypt_outcome(final(self)@, iv@, final(buffer)@, tag@) == Ok::<
                _,
                (),
            >(old(buffer)@),
            res is Ok <==> final(self)@ is Some && old(buffer)@.len() <= 0x10_0000_0000,
            res matches Ok(tag) ==> (final(buffer)@, tag@) == gcm_sealed(
                final(self)@->0.key,
                iv@,
                Seq::empty(),
                old(buffer)@,
            ),
            res is Err ==> final(buffer)@ == old(buffer)@,
    {
        let associated: [u8; 0] = [];
        assert(associated@ =~= no_associated_data());
        match self.get(key, key_id) {
            Ok(cipher) => match gcm_encrypt(cipher, iv, &associated, buffer) {
                Ok(tag) => Ok(tag),
                Err(_) => Err(()),
            },
            Err(()) => Err(()),
        }
    }

    /// Decrypts `buffer` in place using the detached `tag`.
    ///
    /// A buffer that is refused is left as it was. One that is accepted is,
    /// with its tag, what encrypting the recovered plaintext gives, and is
    /// refused with any other tag.
    pub fn decrypt(
        &mut self,
        key: &[u8],
        key_id: i64,
        iv: &[u8],
        tag: &[u8],
        buffer: &mut [u8],
    ) -> (res: Result<(), ()>)
        requires
            cache_after(old(self)@, key@, key_id) is Some ==> iv@.len() == NONCE_LEN && tag@.len()
                == TAG_LEN,
        ensures
            final(self)@ == cache_after(old(self)@, key@, key_id),
            match decrypt_outcome(final(self)@, iv@, old(buffer)@, tag@) {
                Ok(plaintext) => res is Ok && final(buffer)@ == plaintext,
                Err(_) => res is Err && final(buffer)@ == old(buffer)@,
            },
            final(buffer)@.len() == old(buffer)@.len(),
            res is Ok && old(buffer)@.len() <= GCM_PLAINTEXT_MAX ==> encrypt_outcome(
                final(self)@,
                iv@,
                final(buffer)@,
            ) == Ok::<_, ()>((old(buffer)@, tag@)),
            res is Ok ==> forall|other: Seq<u8>|
                other.len() == TAG_LEN && (#[trigger] decrypt_outcome(
                    final(self)@,
                    iv@,
                    old(buffer)@,
                    other,
                )) is Ok ==> other == tag@,
            res is Ok <==> {
                &&& final(self)@ is Some
                &&& old(buffer)@.len() <= 0x10_0000_0010
                &&& gcm_opened(
                    final(self)@->0.key,
                    iv@,
                    Seq::empty(),
                    old(buffer)@,
                    tag@,
                ) is Some
            },
            res is Ok ==> Some(final(buffer)@) == gcm_opened(
                final(self)@->0.key,
                iv@,
                Seq::empty(),
                old(buffer)@,
                tag@,
            ),
            res is Err ==> final(buffer)@ == old(buffer)@,
    {
        let associated: [u8; 0] = [];
        assert(associated@ =~= no_associated_data());
        match self.get(key, key_id) {
            Ok(cipher) => match gcm_decrypt(cipher, iv, &associated, tag, buffer) {
                Ok(()) => Ok(()),
                Err(_) => Err(()),
            },
            Err(()) => Err(()),
        }
    }
}

/// Encrypts `data` with AES-128-CBC and PKCS#7 padding.
///
/// Decrypting what comes out and taking the padding off gives `data` again. Where
/// `data` starts with whole blocks, they are encrypted as they would be alone, and
/// the rest as it would be alone with the last block of their ciphertext for
/// initialization vector.
pub fn encrypt_cbc(data: &[u8], key: &[u8], iv: &[u8]) -> (res: Result<Vec<u8>, String>)
    requires
        key@.len() == KEY_LEN,
        iv@.len() == BLOCK_LEN,
        data@.len() + BLOCK_LEN <= isize::MAX,
    ensures
        res is Ok,
        res->Ok_0@ == cbc_ciphertext(key@, iv@, data@),
        ({
            let n = (16 - data@.len() % 16) as nat;
            res->Ok_0@ == cbc_encrypted(key@, iv@, data@ + Seq::new(n, |i: int| n as u8))
        }),
        res->Ok_0@.len() == padded_len(data@.len()),
        pkcs7_unpadded(cbc_decrypted(key@, iv@, res->Ok_0@)) == data@,
        forall|head: Seq<u8>, tail: Seq<u8>|
            #![trigger cbc_ciphertext(key@, iv@, head + tail)]
            data@ == head + tail && whole_blocks(head) && head.len() > 0 ==> {
                let alone = cbc_ciphertext(key@, iv@, head);
                let n = head.len() as int;
                res->Ok_0@ == alone.take(n) + cbc_ciphertext(
                    key@,
                    alone.subrange(n - BLOCK_LEN, n),
                    tail,
                )
            },
{
    let mut buffer: Vec<u8> = slice_to_vec(data);
    let pos: usize = data.len();
    buffer.resize(pos + BLOCK_LEN, 0u8);
    assert(buffer@.take(pos as int) =~= data@);
    match cbc_encrypt_padded(key, iv, buffer.as_mut_slice(), pos) {
        Ok(ct_len) => {
            buffer.truncate(ct_len);
            proof {
                padding_fills_whole_blocks(data@);
                padding_comes_off(data@);
                assert(buffer@ == cbc_ciphertext(key@, iv@, data@));
                assert forall|head: Seq<u8>, tail: Seq<u8>|
                    #![trigger cbc_ciphertext(key@, iv@, head + tail)]
                    data@ == head + tail && whole_blocks(head) && head.len() > 0 implies {
                    let alone = cbc_ciphertext(key@, iv@, head);
                    let n = head.len() as int;
                    buffer@ == alone.take(n) + cbc_ciphertext(
                        key@,
                        alone.subrange(n - BLOCK_LEN, n),
                        tail,
                    )
                } by {
                    let done = cbc_encrypted(key@, iv@, head);
                    let padding = pkcs7_padded(Seq::empty());
                    padding_fills_whole_blocks(tail);
                    padding_fills_whole_blocks(Seq::empty());
                    lemma_padding_follows_blocks(head, tail);
                    lemma_padding_follows_blocks(head, Seq::empty());
                    assert(head + Seq::empty() =~= head);
                    assert(cbc_encrypted(key@, iv@, head + pkcs7_padded(tail)) == done
                        + cbc_encrypted(key@, last_block(done), pkcs7_padded(tail)));
                    assert(cbc_encrypted(key@, iv@, head + padding) == done + cbc_encrypted(
                        key@,
                        last_block(done),
                        padding,
                    ));
                    let alone = cbc_ciphertext(key@, iv@, head);
                    let n = head.len() as int;
                    assert(alone.take(n) =~= done);
                    assert(alone.subrange(n - BLOCK_LEN, n) =~= last_block(done));
                }
            }
            Ok(buffer)
        },
        Err(_) => Err("Padding error: PadError".to_string()),
    }
}

/// A request for a key leaves its id in the cache or nothing; and it leaves
/// nothing, and fails, exactly where the id was not held and the key is no AES-128
/// key.
pub proof fn cache_holds_the_last_id(cache: Option<CachedKey>, key: Seq<u8>, key_id: i64)
    ensures
        cache_after(cache, key, key_id) matches Some(cached) ==> cached.key_id == key_id,
        cache_after(cache, key, key_id) is None <==> !(cache is Some && cache->0.key_id == key_id)
            && key.len() != KEY_LEN,
{
}

/// What is held under a key id is used for every request with that id, whatever
/// bytes come with it.
pub proof fn cached_key_serves_its_id(cached: CachedKey, key: Seq<u8>)
    ensures
        cache_after(Some(cached), key, cached.key_id) == Some(cached),
{
}

/// A request with a new id replaces what was held, and an AES-128 key is then
/// held under that id.
pub proof fn rotation_replaces_the_key(cache: Option<CachedKey>, key: Seq<u8>, key_id: i64)
    requires
        cache matches Some(cached) ==> cached.key_id != key_id,
        key.len() == KEY_LEN,
    ensures
        cache_after(cache, key, key_id) == Some(CachedKey { key, key_id }),
{
}

/// A key of the wrong length under a new id is refused: encryption and
/// decryption fail, nothing stays cached, and the next request is served as by an
/// empty cache.
pub proof fn bad_key_empties_the_cache(
    cache: Option<CachedKey>,
    key: Seq<u8>,
    key_id: i64,
    next_key: Seq<u8>,
    next_id: i64,
    iv: Seq<u8>,
    data: Seq<u8>,
    tag: Seq<u8>,
)
    requires
        cache matches Some(cached) ==> cached.key_id != key_id,
        key.len() != KEY_LEN,
    ensures
        encrypt_outcome(cache_after(cache, key, key_id), iv, data) is Err,
        decrypt_outcome(cache_after(cache, key, key_id), iv, data, tag) is Err,
        cache_after(cache_after(cache, key, key_id), next_key, next_id) == cache_after(
            None,
            next_key,
            next_id,
        ),
{
}

/// What a cache holds that was empty and has been asked for keys, each with its id,
/// one after the other.
pub open spec fn cache_after_all(requests: Seq<(Seq<u8>, i64)>) -> Option<CachedKey>
    decreases requests.len(),
{
    if requests.len() == 0 {
        None
    } else {
        cache_after(
            cache_after_all(requests.drop_last()),
            requests.last().0,
            requests.last().1,
        )
    }
}

/// Whether a key id always comes with the same key.
pub open spec fn ids_name_keys(requests: Seq<(Seq<u8>, i64)>) -> bool {
    forall|i: int, j: int|
        #![trigger requests[i], requests[j]]
        0 <= i < requests.len() && 0 <= j < requests.len() && requests[i].1 == requests[j].1
            ==> requests[i].0 == requests[j].0
}

/// Where a key id always comes with the same key, the cache does not show: every
/// request is served, and every message encrypted and decrypted, as by an empty
/// cache.
pub proof fn cache_does_not_show(
    requests: Seq<(Seq<u8>, i64)>,
    iv: Seq<u8>,
    data: Seq<u8>,
    tag: Seq<u8>,
)
    requires
        requests.len() > 0,
        ids_name_keys(requests),
    ensures
        ({
            let cache = cache_after_all(requests);
            let fresh = cache_after(None, requests.last().0, requests.last().1);
            &&& cache == fresh
            &&& encrypt_outcome(cache, iv, data) == encrypt_outcome(fresh, iv, data)
            &&& decrypt_outcome(cache, iv, data, tag) == decrypt_outcome(fresh, iv, data, tag)
        }),
    decreases requests.len(),
{
    let earlier = requests.drop_last();
    if earlier.len() > 0 {
        assert(requests[earlier.len() - 1] == earlier.last());
        assert(requests[requests.len() - 1] == requests.last());
        assert(ids_name_keys(earlier)) by {
            assert forall|i: int, j: int|
                #![trigger earlier[i], earlier[j]]
                0 <= i < earlier.len() && 0 <= j < earlier.len() && earlier[i].1
                    == earlier[j].1 implies earlier[i].0 == earlier[j].0 by {
                assert(earlier[i] == requests[i] && earlier[j] == requests[j]);
            }
        }
        cache_does_not_show(earlier, iv, data, tag);
    } else {
        assert(cache_after_all(earlier) is None);
    }
}

/// A request whose key is the one held under its id, if any is, is served as by an
/// empty cache.
pub proof fn held_key_is_as_good_as_new(
    cache: Option<CachedKey>,
    key: Seq<u8>,
    key_id: i64,
    iv: Seq<u8>,
    data: Seq<u8>,
    tag: Seq<u8>,
)
    requires
        cache matches Some(cached) ==> cached.key.len() == KEY_LEN && (cached.key_id == key_id
            ==> cached.key == key),
    ensures
        encrypt_outcome(cache_after(cache, key, key_id), iv, data) == encrypt_outcome(
            cache_after(None, key, key_id),
            iv,
            data,
        ),
        decrypt_outcome(cache_after(cache, key, key_id), iv, data, tag) == decrypt_outcome(
            cache_after(None, key, key_id),
            iv,
            data,
            tag,
        ),
{
}

/// The cache only ever holds AES-128 keys.
pub proof fn cached_keys_have_key_length(cache: Option<CachedKey>, key: Seq<u8>, key_id: i64)
    requires
        cache matches Some(cached) ==> cached.key.len() == KEY_LEN,
    ensures
        cache_after(cache, key, key_id) matches Some(cached) ==> cached.key.len() == KEY_LEN,
{
}

/// Messages are sealed by AES-128-GCM under the key that is held, with nothing for
/// associated data, whatever they hold and however long they are; only a message
/// over 2^36 bytes is not, and none is without a key.
pub proof fn messages_are_sealed_alone(
    cache: Option<CachedKey>,
    iv: Seq<u8>,
    plaintext: Seq<u8>,
)
    ensures
        encrypt_outcome(cache, iv, plaintext) is Ok <==> cache is Some && plaintext.len()
            <= 0x10_0000_0000,
        encrypt_outcome(cache, iv, plaintext) matches Ok(sealed) ==> sealed == gcm_sealed(
            cache->0.key,
            iv,
            Seq::empty(),
            plaintext,
        ),
{
}

/// Messages are opened by AES-128-GCM under the key that is held, with nothing for
/// associated data: exactly those are accepted, up to 2^36 + 16 bytes, that the tag
/// authenticates, and they give what GCM recovers.
pub proof fn messages_are_opened_alone(
    cache: Option<CachedKey>,
    iv: Seq<u8>,
    ciphertext: Seq<u8>,
    tag: Seq<u8>,
)
    ensures
        decrypt_outcome(cache, iv, ciphertext, tag) is Ok <==> cache is Some && ciphertext.len()
            <= 0x10_0000_0010 && gcm_opened(
            cache->0.key,
            iv,
            Seq::empty(),
            ciphertext,
            tag,
        ) is Some,
        decrypt_outcome(cache, iv, ciphertext, tag) matches Ok(plaintext) ==> Some(plaintext)
            == gcm_opened(cache->0.key, iv, Seq::empty(), ciphertext, tag),
{
}

/// What decrypts under a key that was asked for decrypts again in a later request
/// with the same id, and in any other cache that holds the same key. What
/// [`GcmCipher::encrypt`] returns is such a message.
pub proof fn same_key_decrypts_again(
    cache: Option<CachedKey>,
    key: Seq<u8>,
    key_id: i64,
    later_key: Seq<u8>,
    peer: Option<CachedKey>,
    iv: Seq<u8>,
    ciphertext: Seq<u8>,
    tag: Seq<u8>,
    plaintext: Seq<u8>,
)
    requires
        decrypt_outcome(cache_after(cache, key, key_id), iv, ciphertext, tag) == Ok::<_, ()>(
            plaintext,
        ),
        peer is Some,
        peer->0.key == cache_after(cache, key, key_id)->0.key,
    ensures
        decrypt_outcome(
            cache_after(cache_after(cache, key, key_id), later_key, key_id),
            iv,
            ciphertext,
            tag,
        ) == Ok::<_, ()>(plaintext),
        decrypt_outcome(peer, iv, ciphertext, tag) == Ok::<_, ()>(plaintext),
{
}

/// Data are encrypted under the given key and vector, all of them, followed by as
/// many bytes as are missing to a whole block, a whole block of them where none is,
/// each of which says how many they are.
pub proof fn cbc_encrypts_data_and_padding(key: Seq<u8>, iv: Seq<u8>, data: Seq<u8>, padding: Seq<u8>)
    requires
        1 <= padding.len() <= 16,
        (data.len() + padding.len()) % 16 == 0,
        forall|i: int| 0 <= i < padding.len() ==> (#[trigger] padding[i]) == padding.len(),
    ensures
        pkcs7_padded(data) == data + padding,
        cbc_ciphertext(key, iv, data) == cbc_encrypted(key, iv, data + padding),
        padded_len(data.len()) == data.len() + padding.len(),
{
    assert(pkcs7_padded(data) =~= data + padding);
}

/// Padding fills whole blocks: it adds between one byte and a block, and its last
/// byte tells how many.
pub proof fn padding_fills_whole_blocks(data: Seq<u8>)
    ensures
        pkcs7_padded(data).len() == padded_len(data.len()),
        pkcs7_padded(data).len() % (BLOCK_LEN as nat) == 0,
        data.len() < pkcs7_padded(data).len() <= data.len() + BLOCK_LEN,
        pkcs7_padded(data).last() == pkcs7_padded(data).len() - data.len(),
        pkcs7_padded(data).take(data.len() as int) == data,
{
    assert(pkcs7_padded(data).take(data.len() as int) =~= data);
}

/// Taking the padding off gives back what was padded.
pub proof fn padding_comes_off(data: Seq<u8>)
    ensures
        pkcs7_unpadded(pkcs7_padded(data)) == data,
{
    padding_fills_whole_blocks(data);
}

/// Padding data that starts with whole blocks pads what follows them.
proof fn lemma_padding_follows_blocks(head: Seq<u8>, tail: Seq<u8>)
    requires
        whole_blocks(head),
    ensures
        pkcs7_padded(head + tail) == head + pkcs7_padded(tail),
{
    assert((head + tail).len() % (BLOCK_LEN as nat) == tail.len() % (BLOCK_LEN as nat));
    assert(pkcs7_padded(head + tail) =~= head + pkcs7_padded(tail));
}

/// Padding loses nothing: data that is padded alike is alike.
pub proof fn padding_is_reversible(a: Seq<u8>, b: Seq<u8>)
    requires
        pkcs7_padded(a) == pkcs7_padded(b),
    ensures
        a == b,
{
    padding_fills_whole_blocks(a);
    padding_fills_whole_blocks(b);
}

} // verus!
