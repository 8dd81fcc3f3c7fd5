//! The certificates that a Reality server shows to the clients that it knows.

use vstd::prelude::*;
use vstd::slice::slice_to_vec;
use vstd::utf8::is_ascii_chars;

use lru::LruCache;
use rcgen::{CertificateParams, KeyPair};

use super::{reality_error, RealityError};
use crate::crypto::{hmac_sha512, hmac_sha512_tag};

verus! {

/// A certificate and its keys, from which the certificates for single connections are made.
pub struct CertTemplate {
    pub cert_der: Vec<u8>,
    pub private_key_der: Vec<u8>,
    pub public_key_raw: Vec<u8>,
}

/// The mathematical value of a [`CertTemplate`]: the certificate, the private key and the public
/// key.
pub type TemplateView = (Seq<u8>, Seq<u8>, Seq<u8>);

impl View for CertTemplate {
    type V = TemplateView;

    open spec fn view(&self) -> TemplateView {
        (self.cert_der@, self.private_key_der@, self.public_key_raw@)
    }
}

/// The length of the signature at the end of a certificate.
pub const SIGNATURE_LEN: usize = 64;

/// How many templates are kept.
pub const CACHE_CAPACITY: usize = 100;

/// The certificate and private key for a connection. In place of its signature the certificate
/// carries a tag over its public key, by which a client that shares the key knows the server.
pub open spec fn signed(template: TemplateView, auth_key: Seq<u8>) -> core::result::Result<
    (Seq<u8>, Seq<u8>),
    Seq<char>,
> {
    let (cert_der, private_key_der, public_key_raw) = template;
    if cert_der.len() < SIGNATURE_LEN {
        Err("certificate DER too short"@)
    } else {
        let unsigned = cert_der.take(cert_der.len() - SIGNATURE_LEN);
        Ok((unsigned + hmac_sha512_tag(auth_key, public_key_raw), private_key_der))
    }
}

/// The mathematical value of what [`CertTemplate::sign`] returns.
pub open spec fn signed_view(result: core::result::Result<(Vec<u8>, Vec<u8>), RealityError>) -> core::result::Result<
    (Seq<u8>, Seq<u8>),
    Seq<char>,
> {
    match result {
        Ok((cert, key)) => Ok((cert@, key@)),
        Err(err) => Err(err.message@),
    }
}

impl CertTemplate {
    /// The certificate and private key for a connection.
    pub fn sign(&self, auth_key: &[u8; 32]) -> (result: core::result::Result<(Vec<u8>, Vec<u8>), RealityError>)
        ensures
            signed_view(result) == signed(self@, auth_key@),
    {
        if self.cert_der.len() < SIGNATURE_LEN {
            return Err(reality_error("certificate DER too short"));
        }
        let mut cert = slice_to_vec(self.cert_der.as_slice());
        let mut tag = hmac_sha512(auth_key.as_slice(), self.public_key_raw.as_slice());
        cert.truncate(self.cert_der.len() - SIGNATURE_LEN);
        cert.append(&mut tag);
        assert(cert@ =~= self.cert_der@.take(self.cert_der@.len() - SIGNATURE_LEN) + hmac_sha512_tag(
            auth_key@,
            self.public_key_raw@,
        ));
        Ok((cert, slice_to_vec(self.private_key_der.as_slice())))
    }
}

// The cache of templates.

/// `LruCache` of the `lru` crate, a map that keeps the entries that were used last.
#[verifier::external_type_specification]
#[verifier::external_body]
#[verifier::reject_recursive_types(K)]
#[verifier::reject_recursive_types(V)]
#[verifier::reject_recursive_types(S)]
pub struct ExLruCache<K, V, S>(lru::LruCache<K, V, S>);

/// `DefaultHasher` of the `lru` crate, by which its map finds entries.
#[verifier::external_type_specification]
#[verifier::external_body]
pub struct ExDefaultHasher(lru::DefaultHasher);

/// A template as the cache holds it.
pub type TemplateParts = (Vec<u8>, Vec<u8>, Vec<u8>);

/// A host with its template.
pub type CacheEntry = (Seq<char>, TemplateView);

pub open spec fn parts_view(parts: TemplateParts) -> TemplateView {
    (parts.0@, parts.1@, parts.2@)
}

/// What a cache holds, the most recently used entry first.
pub uninterp spec fn cache_entries(cache: lru::LruCache<String, TemplateParts>) -> Seq<CacheEntry>;

/// How many entries a cache may hold.
pub uninterp spec fn cache_capacity(cache: lru::LruCache<String, TemplateParts>) -> nat;

/// Where a host's entry stands, or -1.
pub open spec fn entry_index(entries: Seq<CacheEntry>, host: Seq<char>) -> int
    decreases entries.len(),
{
    if entries.len() == 0 {
        -1
    } else if entries.last().0 == host {
        entries.len() - 1
    } else {
        entry_index(entries.drop_last(), host)
    }
}

/// The entries once the one at position `i` has been used.
pub open spec fn used(entries: Seq<CacheEntry>, i: int) -> Seq<CacheEntry> {
    seq![entries[i]] + entries.remove(i)
}

/// The entries once a host has been given a template. It comes first; where the host is new and
/// the cache is full, the entry that was used longest ago makes way.
pub open spec fn stored(entries: Seq<CacheEntry>, capacity: nat, host: Seq<char>, template: TemplateView) -> Seq<
    CacheEntry,
> {
    let i = entry_index(entries, host);
    let others = if i >= 0 {
        entries.remove(i)
    } else if entries.len() == capacity {
        entries.drop_last()
    } else {
        entries
    };
    seq![(host, template)] + others
}

/// Calls `LruCache::new`, which makes an empty cache of a capacity that is not zero.
#[verifier::external_body]
fn cache_new(capacity: usize) -> (cache: LruCache<String, TemplateParts>)
    requires
        0 < capacity <= 0x1_0000,
    ensures
        cache_entries(cache) == Seq::<CacheEntry>::empty(),
        cache_capacity(cache) == capacity,
{
    LruCache::new(std::num::NonZeroUsize::new(capacity).unwrap())
}

/// Calls `LruCache::get`, which finds the entry of a key and takes it for used.
#[verifier::external_body]
fn cache_get(cache: &mut LruCache<String, TemplateParts>, host: &str) -> (template: Option<TemplateParts>)
    ensures
        cache_capacity(*final(cache)) == cache_capacity(*old(cache)),
        match template {
            Some(template) => {
                let i = entry_index(cache_entries(*old(cache)), host@);
                i >= 0 && parts_view(template) == cache_entries(*old(cache))[i].1 && cache_entries(*final(cache)) == used(
                    cache_entries(*old(cache)),
                    i,
                )
            },
            None => entry_index(cache_entries(*old(cache)), host@) < 0 && cache_entries(*final(cache))
                == cache_entries(*old(cache)),
        },
{
    cache.get(host).cloned()
}

/// Calls `LruCache::put`, which gives a key a value, as [`stored`] says.
#[verifier::external_body]
fn cache_put(cache: &mut LruCache<String, TemplateParts>, host: String, template: TemplateParts)
    ensures
        cache_capacity(*final(cache)) == cache_capacity(*old(cache)),
        cache_entries(*final(cache)) == stored(
            cache_entries(*old(cache)),
            cache_capacity(*old(cache)),
            host@,
            parts_view(template),
        ),
{
    cache.put(host, template);
}

// Making templates.

/// The public key of the Ed25519 key pair that `rcgen` loads from a private key in PKCS #8, unless
/// it refuses the key.
pub uninterp spec fn ed25519_public_key(private_key_der: Seq<u8>) -> Option<Seq<u8>>;

/// The certificate that `rcgen` makes for a host and signs with the host's own Ed25519 key, or how
/// its error reads.
pub uninterp spec fn certificate_of(host: Seq<char>, private_key_der: Seq<u8>) -> core::result::Result<
    Seq<u8>,
    Seq<char>,
>;

/// How `rcgen` refuses a host that is not ASCII.
pub open spec fn not_ascii(host: Seq<char>) -> Seq<char> {
    "Invalid IA5String: '"@ + host + "'"@
}

/// Calls `KeyPair::generate_for` of `rcgen` for Ed25519, and takes the private and the public key
/// out of the pair. The private key is left to chance; the public key is the one that belongs to
/// it. Whether there is a key is left to the machine's source of randomness; the error always
/// reads the same.
#[verifier::external_body]
fn generate_key() -> (key: core::result::Result<(Vec<u8>, Vec<u8>), String>)
    ensures
        match key {
            Ok((private_key, public_key)) => ed25519_public_key(private_key@) == Some(public_key@),
            Err(err) => err@ == "Unspecified ring error"@,
        },
{
    let key = KeyPair::generate_for(&rcgen::PKCS_ED25519).map_err(|err| err.to_string())?;
    Ok((key.serialize_der(), key.public_key_raw().to_vec()))
}

/// Calls `CertificateParams::self_signed` of `rcgen`, with what `CertificateParams::new` makes of
/// the host and `KeyPair::from_pkcs8_der_and_sign_algo` of the key. A host is taken where it is
/// ASCII; the outer error is how it is refused. Then there is a certificate exactly where the key
/// is taken, and it is longer than the signature of 64 bytes at its end. It depends on the host
/// and the key alone, as an Ed25519 signature does on what it signs, and goes by the name
/// [`certificate_of`]; so does the inner error.
#[verifier::external_body]
fn self_signed_certificate(host: &str, private_key_der: &[u8]) -> (made: core::result::Result<
    core::result::Result<Vec<u8>, String>,
    String,
>)
    ensures
        match made {
            Err(err) => !is_ascii_chars(host@) && err@ == not_ascii(host@),
            Ok(Ok(cert)) => {
                &&& is_ascii_chars(host@)
                &&& ed25519_public_key(private_key_der@) is Some
                &&& certificate_of(host@, private_key_der@) == Ok::<Seq<u8>, Seq<char>>(cert@)
                &&& cert@.len() > SIGNATURE_LEN
            },
            Ok(Err(err)) => {
                &&& is_ascii_chars(host@)
                &&& ed25519_public_key(private_key_der@) is None
                &&& certificate_of(host@, private_key_der@) == Err::<Seq<u8>, Seq<char>>(err@)
            },
        },
{
    let params = CertificateParams::new(vec![host.to_owned()]).map_err(|err| err.to_string())?;
    let der = rustls_pki_types::PrivatePkcs8KeyDer::from(private_key_der);
    let key = KeyPair::from_pkcs8_der_and_sign_algo(&der, &rcgen::PKCS_ED25519);
    let cert = key.and_then(|key| params.self_signed(&key));
    Ok(cert.map(|cert| cert.der().to_vec()).map_err(|err| err.to_string()))
}

/// Why no template could be made: the step that failed, and how its error reads.
pub enum TemplateFailure {
    Key(String),
    Params(String),
    Signing(String),
}

impl View for TemplateFailure {
    type V = Seq<char>;

    /// A failure is what is said of it.
    open spec fn view(&self) -> Seq<char> {
        match self {
            TemplateFailure::Key(err) => "key generation failed: "@ + err@,
            TemplateFailure::Params(err) => "certificate generation failed: "@ + err@,
            TemplateFailure::Signing(err) => "certificate serialization failed: "@ + err@,
        }
    }
}

impl TemplateFailure {
    /// What is said of the failure.
    pub fn message(&self) -> (text: String)
        ensures
            text@ == self@,
    {
        match self {
            TemplateFailure::Key(err) => String::from_str("key generation failed: ").concat(err.as_str()),
            TemplateFailure::Params(err) => String::from_str("certificate generation failed: ").concat(err.as_str()),
            TemplateFailure::Signing(err) => String::from_str("certificate serialization failed: ").concat(
                err.as_str(),
            ),
        }
    }
}

/// A template from a key pair and what came of making a certificate with it.
pub fn template_from(
    private_key_der: Vec<u8>,
    public_key_raw: Vec<u8>,
    certificate: core::result::Result<core::result::Result<Vec<u8>, String>, String>,
) -> (made: core::result::Result<CertTemplate, TemplateFailure>)
    ensures
        match certificate {
            Ok(Ok(cert_der)) => made matches Ok(template) && template@ == (
                cert_der@,
                private_key_der@,
                public_key_raw@,
            ),
            Ok(Err(err)) => made matches Err(TemplateFailure::Signing(text)) && text@ == err@,
            Err(err) => made matches Err(TemplateFailure::Params(text)) && text@ == err@,
        },
{
    match certificate {
        Ok(Ok(cert_der)) => Ok(CertTemplate { cert_der, private_key_der, public_key_raw }),
        Ok(Err(err)) => Err(TemplateFailure::Signing(err)),
        Err(err) => Err(TemplateFailure::Params(err)),
    }
}

/// What may come of making a template for a host: a certificate for the host with the key pair
/// that signed it, where the host is ASCII; the refusal of a host that is not; or, for any host,
/// that there was no key.
pub open spec fn may_make(host: Seq<char>, made: core::result::Result<TemplateView, Seq<char>>) -> bool {
    match made {
        Ok((cert_der, private_key_der, public_key_raw)) => {
            &&& is_ascii_chars(host)
            &&& ed25519_public_key(private_key_der) == Some(public_key_raw)
            &&& certificate_of(host, private_key_der) == Ok::<Seq<u8>, Seq<char>>(cert_der)
            &&& cert_der.len() > SIGNATURE_LEN
        },
        Err(text) => {
            ||| !is_ascii_chars(host) && text == "certificate generation failed: "@ + not_ascii(host)
            ||| text == "key generation failed: "@ + "Unspecified ring error"@
        },
    }
}

/// A new template for a host. Its private key is left to chance, and what else it holds goes by
/// the host and that key.
fn generate_template(host: &str) -> (made: core::result::Result<CertTemplate, TemplateFailure>)
    ensures
        may_make(host@, made_view(made)),
{
    match generate_key() {
        Ok((private_key_der, public_key_raw)) => {
            let certificate = self_signed_certificate(host, private_key_der.as_slice());
            template_from(private_key_der, public_key_raw, certificate)
        },
        Err(err) => Err(TemplateFailure::Key(err)),
    }
}

/// The templates that a server has made, by host.
pub struct CertCache {
    templates: LruCache<String, TemplateParts>,
}

impl View for CertCache {
    type V = Seq<CacheEntry>;

    closed spec fn view(&self) -> Seq<CacheEntry> {
        cache_entries(self.templates)
    }
}

impl CertCache {
    /// How many templates the cache may hold.
    pub closed spec fn capacity(self) -> nat {
        cache_capacity(self.templates)
    }

    /// No templates.
    pub fn new() -> (cache: Self)
        ensures
            cache@ == Seq::<CacheEntry>::empty(),
            cache.capacity() == CACHE_CAPACITY,
    {
        CertCache { templates: cache_new(CACHE_CAPACITY) }
    }

    /// The template of a host, if there is one.
    pub fn find(&mut self, host: &str) -> (template: Option<CertTemplate>)
        ensures
            final(self).capacity() == old(self).capacity(),
            match template {
                Some(template) => {
                    let i = entry_index(old(self)@, host@);
                    i >= 0 && template@ == old(self)@[i].1 && final(self)@ == used(old(self)@, i)
                },
                None => entry_index(old(self)@, host@) < 0 && final(self)@ == old(self)@,
            },
    {
        match cache_get(&mut self.templates, host) {
            Some((cert_der, private_key_der, public_key_raw)) => Some(
                CertTemplate { cert_der, private_key_der, public_key_raw },
            ),
            None => None,
        }
    }

    /// Gives a host a template.
    pub fn store(&mut self, host: &str, template: CertTemplate)
        ensures
            final(self).capacity() == old(self).capacity(),
            final(self)@ == stored(old(self)@, old(self).capacity(), host@, template@),
    {
        let parts = (template.cert_der, template.private_key_der, template.public_key_raw);
        cache_put(&mut self.templates, host.to_owned(), parts);
    }
}

/// What came of making a template.
pub open spec fn made_view(made: core::result::Result<CertTemplate, TemplateFailure>) -> core::result::Result<
    TemplateView,
    Seq<char>,
> {
    match made {
        Ok(template) => Ok(template@),
        Err(failure) => Err(failure@),
    }
}

/// What a host without a template is given, and what the cache holds then.
pub open spec fn first_use(
    entries: Seq<CacheEntry>,
    capacity: nat,
    auth_key: Seq<u8>,
    host: Seq<char>,
    made: core::result::Result<TemplateView, Seq<char>>,
) -> (core::result::Result<(Seq<u8>, Seq<u8>), Seq<char>>, Seq<CacheEntry>) {
    match made {
        Ok(template) => (signed(template, auth_key), stored(entries, capacity, host, template)),
        Err(text) => (Err(text), entries),
    }
}

/// The certificate and private key for a connection to a host for which a template has just been
/// made, or could not be.
pub fn use_new_template(
    cache: &mut CertCache,
    auth_key: &[u8; 32],
    host: &str,
    made: core::result::Result<CertTemplate, TemplateFailure>,
) -> (result: core::result::Result<(Vec<u8>, Vec<u8>), RealityError>)
    ensures
        final(cache).capacity() == old(cache).capacity(),
        (signed_view(result), final(cache)@) == first_use(
            old(cache)@,
            old(cache).capacity(),
            auth_key@,
            host@,
            made_view(made),
        ),
{
    match made {
        Ok(template) => {
            let result = template.sign(auth_key);
            cache.store(host, template);
            result
        },
        Err(failure) => Err(RealityError { message: failure.message() }),
    }
}

/// The certificate and private key for a connection, from the host's template. A host without
/// one is given a new template first.
pub fn generate_reality_cert(cache: &mut CertCache, auth_key: &[u8; 32], host: &str) -> (result: core::result::Result<
    (Vec<u8>, Vec<u8>),
    RealityError,
>)
    ensures
        final(cache).capacity() == old(cache).capacity(),
        entry_index(old(cache)@, host@) >= 0 ==> signed_view(result) == signed(
            old(cache)@[entry_index(old(cache)@, host@)].1,
            auth_key@,
        ) && final(cache)@ == used(old(cache)@, entry_index(old(cache)@, host@)),
        entry_index(old(cache)@, host@) < 0 ==> exists|made: core::result::Result<TemplateView, Seq<char>>|
            may_make(host@, made) && #[trigger] first_use(old(cache)@, old(cache).capacity(), auth_key@, host@, made) == (
                signed_view(result),
                final(cache)@,
            ),
{
    match cache.find(host) {
        Some(template) => template.sign(auth_key),
        None => use_new_template(cache, auth_key, host, generate_template(host)),
    }
}

proof fn lemma_entry_index(entries: Seq<CacheEntry>, host: Seq<char>)
    ensures
        -1 <= entry_index(entries, host) < entries.len(),
        entry_index(entries, host) >= 0 ==> entries[entry_index(entries, host)].0 == host,
    decreases entries.len(),
{
    if entries.len() > 0 && entries.last().0 != host {
        lemma_entry_index(entries.drop_last(), host);
    }
}

/// Each host has one entry at most.
pub open spec fn distinct(entries: Seq<CacheEntry>) -> bool {
    forall|i: int, j: int| 0 <= i < j < entries.len() ==> #[trigger] entries[i].0 != #[trigger] entries[j].0
}

/// Using and storing templates keeps one entry for each host at most.
pub proof fn hosts_stay_distinct(entries: Seq<CacheEntry>, capacity: nat, host: Seq<char>, template: TemplateView)
    requires
        capacity > 0,
        distinct(entries),
    ensures
        distinct(stored(entries, capacity, host, template)),
        entry_index(entries, host) >= 0 ==> distinct(used(entries, entry_index(entries, host))),
{
    let at = entry_index(entries, host);
    lemma_entry_index(entries, host);
    lemma_entry_index_absent(entries, host);
    let all = stored(entries, capacity, host, template);
    assert forall|i: int, j: int| 0 <= i < j < all.len() implies #[trigger] all[i].0 != #[trigger] all[j].0 by {
        let k = if at >= 0 && i - 1 >= at { i } else { i - 1 };
        let l = if at >= 0 && j - 1 >= at { j } else { j - 1 };
        assert(all[j] == entries[l]);
        if i > 0 {
            assert(all[i] == entries[k]);
            assert(entries[k].0 != entries[l].0);
        } else if at >= 0 {
            assert(entries[at].0 == host);
            if l < at {
                assert(entries[l].0 != entries[at].0);
            } else {
                assert(entries[at].0 != entries[l].0);
            }
        }
    }
    if at >= 0 {
        let moved = used(entries, at);
        assert(moved =~= seq![(host, entries[at].1)] + entries.remove(at));
        assert(moved =~= stored(entries, capacity, host, entries[at].1));
        assert forall|i: int, j: int| 0 <= i < j < moved.len() implies #[trigger] moved[i].0 != #[trigger] moved[j].0 by {
            assert(moved[i].0 == all[i].0 && moved[j].0 == all[j].0);
        }
    }
}

/// The cache never holds more than its capacity.
pub proof fn cache_stays_within_capacity(
    entries: Seq<CacheEntry>,
    capacity: nat,
    host: Seq<char>,
    template: TemplateView,
)
    requires
        entries.len() <= capacity,
        capacity > 0,
    ensures
        stored(entries, capacity, host, template).len() <= capacity,
        entry_index(entries, host) >= 0 ==> used(entries, entry_index(entries, host)).len() == entries.len(),
{
    lemma_entry_index(entries, host);
}

/// A template that was stored is found.
pub proof fn stored_template_is_first(
    entries: Seq<CacheEntry>,
    capacity: nat,
    host: Seq<char>,
    template: TemplateView,
)
    requires
        capacity > 0,
        distinct(entries),
    ensures
        stored(entries, capacity, host, template)[0] == (host, template),
        entry_index(stored(entries, capacity, host, template), host) == 0,
{
    let all = stored(entries, capacity, host, template);
    lemma_entry_index(entries, host);
    lemma_entry_index(all, host);
    lemma_entry_index_absent(entries, host);
    let i = entry_index(entries, host);
    assert forall|j: int| 0 < j < all.len() implies (#[trigger] all[j]).0 != host by {
        if i >= 0 {
            if j - 1 < i {
                assert(all[j] == entries[j - 1]);
                assert(entries[j - 1].0 != entries[i].0);
            } else {
                assert(all[j] == entries[j]);
                assert(entries[i].0 != entries[j].0);
            }
        } else {
            assert(all[j] == entries[j - 1]);
        }
    }
    let found = entry_index(all, host);
    lemma_entry_index_absent(all, host);
    assert(all[0].0 == host);
    if found > 0 {
        assert(all[found].0 == host);
    }
}

proof fn lemma_entry_index_absent(entries: Seq<CacheEntry>, host: Seq<char>)
    ensures
        entry_index(entries, host) < 0 ==> forall|j: int| 0 <= j < entries.len() ==> (#[trigger] entries[j]).0
            != host,
    decreases entries.len(),
{
    if entries.len() > 0 && entries.last().0 != host {
        let front = entries.drop_last();
        lemma_entry_index_absent(front, host);
        if entry_index(entries, host) < 0 {
            assert forall|j: int| 0 <= j < entries.len() implies (#[trigger] entries[j]).0 != host by {
                if j < front.len() {
                    assert(front[j] == entries[j]);
                }
            }
        }
    }
}

/// The certificate for a connection is the template's but for its signature, in whose place stands the
/// tag over the template's public key under the connection's key. The private key is the template's.
pub proof fn certificates_carry_the_tag(template: TemplateView, auth_key: Seq<u8>)
    ensures
        template.0.len() >= 64 ==> ({
            let (cert, key) = signed(template, auth_key)->Ok_0;
            let n = template.0.len() - 64;
            &&& signed(template, auth_key) is Ok
            &&& cert.subrange(0, n) == template.0.subrange(0, n)
            &&& cert.skip(n) == hmac_sha512_tag(auth_key, template.2)
            &&& key == template.1
        }),
        template.0.len() < 64 ==> signed(template, auth_key) is Err,
{
    if template.0.len() >= 64 {
        let n = template.0.len() - 64;
        let cert = signed(template, auth_key)->Ok_0.0;
        assert(cert.subrange(0, n) =~= template.0.subrange(0, n));
        assert(cert.skip(n) =~= hmac_sha512_tag(auth_key, template.2));
    }
}

/// Using a template keeps every entry and brings its own to the front. Storing one keeps every entry
/// of another host, in their order, but for the one that was used longest ago where the host is new
/// and the cache is full.
pub proof fn other_hosts_keep_their_templates(
    entries: Seq<CacheEntry>,
    capacity: nat,
    host: Seq<char>,
    template: TemplateView,
)
    requires
        distinct(entries),
    ensures
        ({
            let i = entry_index(entries, host);
            let after = stored(entries, capacity, host, template);
            &&& i >= 0 ==> entries[i].0 == host && used(entries, i) == seq![entries[i]] + entries.take(i) + entries.skip(
                i + 1,
            )
            &&& i < 0 ==> forall|j: int| 0 <= j < entries.len() ==> (#[trigger] entries[j]).0 != host
            &&& after[0] == (host, template)
            &&& i >= 0 ==> after.drop_first() == entries.take(i) + entries.skip(i + 1)
            &&& i < 0 && entries.len() != capacity ==> after.drop_first() == entries
            &&& i < 0 && entries.len() == capacity && capacity > 0 ==> after.drop_first() == entries.take(
                entries.len() - 1,
            )
        }),
{
    let i = entry_index(entries, host);
    let after = stored(entries, capacity, host, template);
    lemma_entry_index(entries, host);
    lemma_entry_index_absent(entries, host);
    if i >= 0 {
        assert(entries.remove(i) =~= entries.take(i) + entries.skip(i + 1));
        assert(used(entries, i) =~= seq![entries[i]] + entries.take(i) + entries.skip(i + 1));
        assert(after.drop_first() =~= entries.take(i) + entries.skip(i + 1));
    } else if entries.len() == capacity && capacity > 0 {
        assert(after.drop_first() =~= entries.take(entries.len() - 1));
    } else if entries.len() != capacity {
        assert(after.drop_first() =~= entries);
    }
}

/// A new template is used at once and kept; one that could not be made leaves the cache as it was,
/// and the reason is passed on.
pub proof fn new_templates_are_kept(
    entries: Seq<CacheEntry>,
    capacity: nat,
    auth_key: Seq<u8>,
    host: Seq<char>,
    template: TemplateView,
    reason: Seq<char>,
)
    ensures
        first_use(entries, capacity, auth_key, host, Ok(template)).0 == signed(template, auth_key),
        first_use(entries, capacity, auth_key, host, Ok(template)).1[0] == (host, template),
        first_use(entries, capacity, auth_key, host, Err(reason)) == (
            Err::<(Seq<u8>, Seq<u8>), Seq<char>>(reason),
            entries,
        ),
{
}

/// A template that may be made for a host can be used for every connection to it, and there is one
/// only for a host of ASCII characters.
pub proof fn made_templates_can_be_used(host: Seq<char>, template: TemplateView, auth_key: Seq<u8>)
    requires
        may_make(host, Ok(template)),
    ensures
        signed(template, auth_key) is Ok,
        is_ascii_chars(host),
        ed25519_public_key(template.1) == Some(template.2),
        certificate_of(host, template.1) == Ok::<Seq<u8>, Seq<char>>(template.0),
{
}

} // verus!
