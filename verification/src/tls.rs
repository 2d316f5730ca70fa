//! Certificates: the configuration of a TLS server, and the roots that a TLS client trusts.
//!
//! A server that is asked for TLS never falls back to plain text: where its certificates or its key
//! cannot be used, there is no configuration at all.
use std::sync::Arc;
use vstd::prelude::*;
use vstd::utf8;

verus! {

// ---------------------------------------------------------------------------
// PEM

/// What `rustls_pemfile::certs` yields on a text, item by item: the DER bytes of a certificate, or
/// nothing for a part that cannot be read.
pub uninterp spec fn pem_certs(pem: Seq<u8>) -> Seq<Option<Seq<u8>>>;

/// The bytes of each item.
pub open spec fn items_of(items: Seq<Option<Vec<u8>>>) -> Seq<Option<Seq<u8>>> {
    items.map_values(
        |c: Option<Vec<u8>>|
            match c {
                Some(d) => Some(d@),
                None => None,
            },
    )
}

/// Wraps `rustls_pemfile::certs`: which certificates a text holds is left to the name. The claim is
/// that the answer depends on the text alone.
#[verifier::external_body]
fn read_certs(pem: &[u8]) -> (r: Vec<Option<Vec<u8>>>)
    ensures
        items_of(r@) == pem_certs(pem@),
{
    let mut rd = pem;
    rustls_pemfile::certs(&mut rd).map(|c| c.ok().map(|d| d.as_ref().to_vec())).collect()
}

/// The certificates of a chain, where every item is one and there is one at all.
pub open spec fn chain(items: Seq<Option<Seq<u8>>>) -> Option<Seq<Seq<u8>>> {
    if items.len() > 0 && forall|i: int| 0 <= i < items.len() ==> #[trigger] items[i] is Some {
        Some(items.map_values(|c: Option<Seq<u8>>| c->0))
    } else {
        None
    }
}

/// The bytes of each certificate.
pub open spec fn ders_of(certs: Seq<Vec<u8>>) -> Seq<Seq<u8>> {
    certs.map_values(|c: Vec<u8>| c@)
}

/// Makes a chain of what was read from a text.
pub fn usable_chain(items: Vec<Option<Vec<u8>>>) -> (r: Option<Vec<Vec<u8>>>)
    ensures
        match r {
            Some(certs) => chain(items_of(items@)) == Some(ders_of(certs@)),
            None => chain(items_of(items@)) is None,
        },
{
    let ghost all = items_of(items@);
    let n: usize = items.len();
    let mut certs: Vec<Vec<u8>> = Vec::new();
    let mut rest = items;
    let ghost start = items@;
    while rest.len() > 0
        invariant
            all == items_of(start),
            start == items@,
            n == start.len(),
            rest@.len() + certs@.len() == n,
            rest@ == start.take(rest@.len() as int),
            forall|i: int|
                0 <= i < certs@.len() ==> all[n - 1 - i] == Some(#[trigger] certs@[i]@),
        decreases rest@.len(),
    {
        let ghost before = rest@;
        match rest.pop() {
            Some(item) => {
                assert(item == start[before.len() - 1]);
                match item {
                    Some(der) => {
                        certs.push(der);
                        assert(all[n - certs@.len()] == Some(der@));
                    },
                    None => {
                        assert(all[before.len() - 1] is None);
                        return None;
                    },
                }
            },
            None => {
                return None;
            },
        }
        assert(rest@ =~= start.take(rest@.len() as int));
    }
    if n == 0 {
        return None;
    }
    let mut out: Vec<Vec<u8>> = Vec::new();
    while certs.len() > 0
        invariant
            all.len() == n,
            certs@.len() + out@.len() == n,
            forall|i: int|
                0 <= i < certs@.len() ==> all[n - 1 - i] == Some(#[trigger] certs@[i]@),
            forall|i: int| 0 <= i < out@.len() ==> all[i] == Some(#[trigger] out@[i]@),
        decreases certs@.len(),
    {
        match certs.pop() {
            Some(der) => {
                out.push(der);
            },
            None => {},
        }
    }
    proof {
        assert forall|i: int| 0 <= i < all.len() implies #[trigger] all[i] is Some by {
            assert(all[i] == Some(out@[i]@));
        }
        assert(chain(all)->0 =~= ders_of(out@));
    }
    Some(out)
}

/// Whether `rustls_pemfile::private_key` finds a private key in a text.
pub uninterp spec fn pem_has_key(pem: Seq<u8>) -> bool;

/// `rustls_pki_types::PrivateKeyDer`: a private key.
#[verifier::external_type_specification]
#[verifier::external_body]
pub struct ExPrivateKeyDer<'a>(rustls_pki_types::PrivateKeyDer<'a>);

/// A private key, and the text that it was read from.
struct PemKey {
    key: rustls_pki_types::PrivateKeyDer<'static>,
    pem: Ghost<Seq<u8>>,
}

/// Wraps `rustls_pemfile::private_key`: whether a text holds a key is left to the name. The claim
/// is that the answer depends on the text alone, and that the key is the one of this text.
#[verifier::external_body]
fn read_key(pem: &[u8]) -> (r: Option<PemKey>)
    ensures
        r is Some == pem_has_key(pem@),
        r matches Some(k) ==> k.pem@ == pem@,
{
    let mut rd = pem;
    match rustls_pemfile::private_key(&mut rd) {
        Ok(Some(key)) => Some(PemKey { key, pem: Ghost(pem@) }),
        _ => None,
    }
}

// ---------------------------------------------------------------------------
// Servers

/// `rustls::ServerConfig`: the configuration of a TLS server.
#[verifier::external_type_specification]
#[verifier::external_body]
pub struct ExServerConfig(rustls::ServerConfig);

/// Whether `with_single_cert` of the rustls server builder takes a chain of certificates, in DER,
/// with the private key in a text.
pub uninterp spec fn pair_usable(certs: Seq<Seq<u8>>, key_pem: Seq<u8>) -> bool;

/// The configuration of a TLS server: the certificates that it shows and the text of its key.
pub struct TlsConfig {
    config: Arc<rustls::ServerConfig>,
    certs: Ghost<Seq<Seq<u8>>>,
    key_pem: Ghost<Seq<u8>>,
}

impl TlsConfig {
    /// The certificates that the server shows.
    pub closed spec fn certs(&self) -> Seq<Seq<u8>> {
        self.certs@
    }

    /// The text that the key of the server was read from.
    pub closed spec fn key_pem(&self) -> Seq<u8> {
        self.key_pem@
    }

    /// The configuration itself.
    pub closed spec fn inner(&self) -> Arc<rustls::ServerConfig> {
        self.config
    }

    /// The configuration, for the connections of the server.
    pub fn into_config(self) -> (r: Arc<rustls::ServerConfig>)
        ensures
            r == self.inner(),
    {
        self.config
    }
}

/// Wraps `with_single_cert` of the rustls server builder, made with the ring provider, the default
/// protocol versions and no client authentication. Whether the key fits the certificates is left to
/// the name; the claim is that the answer depends on the two alone, and that the configuration is
/// made of them.
#[verifier::external_body]
fn build_config(certs: Vec<Vec<u8>>, key: PemKey) -> (r: Option<TlsConfig>)
    ensures
        r is Some == pair_usable(ders_of(certs@), key.pem@),
        r matches Some(c) ==> c.certs() == ders_of(certs@) && c.key_pem() == key.pem@,
{
    let ghost shown = ders_of(certs@);
    let ghost text = key.pem@;
    let chain = certs.into_iter().map(rustls_pki_types::CertificateDer::from).collect();
    let provider = Arc::new(rustls::crypto::ring::default_provider());
    let config = rustls::ServerConfig::builder_with_provider(provider)
        .with_safe_default_protocol_versions()
        .ok()?
        .with_no_client_auth()
        .with_single_cert(chain, key.key)
        .ok()?;
    Some(TlsConfig { config: Arc::new(config), certs: Ghost(shown), key_pem: Ghost(text) })
}

/// The certificates of a server configuration, where the two texts make one: a chain of which every
/// item can be read, a key, and the one fits the other.
pub open spec fn server_pair(cert_pem: Seq<u8>, key_pem: Seq<u8>) -> Option<Seq<Seq<u8>>> {
    match chain(pem_certs(cert_pem)) {
        Some(certs) => if pem_has_key(key_pem) && pair_usable(certs, key_pem) {
            Some(certs)
        } else {
            None
        },
        None => None,
    }
}

/// Makes the configuration of a TLS server from a chain of certificates and a private key, both in
/// PEM. There is none where the chain is empty or cannot be read, there is no key, or the key does
/// not fit.
pub fn server_config_from_pem(cert_pem: &str, key_pem: &str) -> (r: Option<TlsConfig>)
    ensures
        match (r, server_pair(utf8::encode_utf8(cert_pem@), utf8::encode_utf8(key_pem@))) {
            (Some(c), Some(certs)) => c.certs() == certs && c.key_pem() == utf8::encode_utf8(
                key_pem@,
            ),
            (None, None) => true,
            _ => false,
        },
{
    let certs = match usable_chain(read_certs(cert_pem.as_bytes())) {
        Some(certs) => certs,
        None => {
            return None;
        },
    };
    match read_key(key_pem.as_bytes()) {
        Some(key) => build_config(certs, key),
        None => None,
    }
}

// ---------------------------------------------------------------------------
// Clients

/// `rustls::RootCertStore`: the roots that a TLS client trusts.
#[verifier::external_type_specification]
#[verifier::external_body]
pub struct ExRootCertStore(rustls::RootCertStore);

/// The roots in a `rustls::RootCertStore`, in order: the name, the key and the constraints of each.
pub uninterp spec fn anchors(store: rustls::RootCertStore) -> Seq<
    (Seq<u8>, Seq<u8>, Option<Seq<u8>>),
>;

/// The root that `RootCertStore::add` of rustls makes of the DER bytes of a certificate, if it can.
pub uninterp spec fn anchor_of(der: Seq<u8>) -> Option<(Seq<u8>, Seq<u8>, Option<Seq<u8>>)>;

/// The roots of a store once `webpki_roots::TLS_SERVER_ROOTS` were added to those that it had.
pub uninterp spec fn with_bundled(
    before: Seq<(Seq<u8>, Seq<u8>, Option<Seq<u8>>)>,
) -> Seq<(Seq<u8>, Seq<u8>, Option<Seq<u8>>)>;

/// Wraps `RootCertStore::empty` of rustls: a store without roots.
#[verifier::external_body]
fn empty_store() -> (r: rustls::RootCertStore)
    ensures
        anchors(r) == Seq::<(Seq<u8>, Seq<u8>, Option<Seq<u8>>)>::empty(),
{
    rustls::RootCertStore::empty()
}

/// Wraps `extend` of `RootCertStore` with the roots that webpki-roots ships: they come behind those
/// that the store has. Which ones they are is left to the name.
#[verifier::external_body]
fn add_bundled(store: &mut rustls::RootCertStore)
    ensures
        anchors(*final(store)) == with_bundled(anchors(*old(store))),
        anchors(*old(store)).is_prefix_of(anchors(*final(store))),
{
    store.extend(webpki_roots::TLS_SERVER_ROOTS.iter().cloned());
}

/// Wraps `RootCertStore::add` of rustls: a certificate that makes a root is put behind the others,
/// and one that does not changes nothing. Which certificates make a root is left to the name.
#[verifier::external_body]
fn add_root(store: &mut rustls::RootCertStore, der: &[u8]) -> (r: bool)
    ensures
        r == anchor_of(der@) is Some,
        anchors(*final(store)) == (match anchor_of(der@) {
            Some(a) => anchors(*old(store)).push(a),
            None => anchors(*old(store)),
        }),
{
    store.add(rustls_pki_types::CertificateDer::from(der)).is_ok()
}

/// The roots that the items read from a text make; those that cannot be read or make none are left
/// out.
pub open spec fn roots_in(items: Seq<Option<Seq<u8>>>) -> Seq<
    (Seq<u8>, Seq<u8>, Option<Seq<u8>>),
>
    decreases items.len(),
{
    if items.len() == 0 {
        Seq::empty()
    } else {
        match items.last() {
            Some(der) => match anchor_of(der) {
                Some(a) => roots_in(items.drop_last()).push(a),
                None => roots_in(items.drop_last()),
            },
            None => roots_in(items.drop_last()),
        }
    }
}

/// The roots that a client trusts: the bundled ones, and those in a text of its own, if it has one.
pub open spec fn trusted(extra: Option<Seq<u8>>) -> Seq<(Seq<u8>, Seq<u8>, Option<Seq<u8>>)> {
    with_bundled(Seq::empty()) + (match extra {
        Some(pem) => roots_in(pem_certs(pem)),
        None => Seq::empty(),
    })
}

/// Adds the roots that the items read from a text make.
pub fn add_roots(store: &mut rustls::RootCertStore, items: &Vec<Option<Vec<u8>>>)
    ensures
        anchors(*final(store)) == anchors(*old(store)) + roots_in(items_of(items@)),
{
    let ghost all = items_of(items@);
    let ghost before = anchors(*store);
    let mut i: usize = 0;
    assert(all.take(0) =~= Seq::<Option<Seq<u8>>>::empty());
    assert(before + roots_in(all.take(0)) =~= before);
    while i < items.len()
        invariant
            i <= items@.len(),
            all == items_of(items@),
            anchors(*store) == before + roots_in(all.take(i as int)),
        decreases items@.len() - i,
    {
        let ghost t = all.take(i + 1);
        assert(t.drop_last() =~= all.take(i as int));
        assert(t.last() == all[i as int]);
        match &items[i] {
            Some(der) => {
                let _ = add_root(store, der.as_slice());
                assert(anchors(*store) =~= before + roots_in(t));
            },
            None => {},
        }
        i += 1;
    }
    assert(all.take(i as int) =~= all);
}

/// Collects the roots that a client trusts: the bundled ones, and those in the PEM text of its own,
/// if it has one.
pub fn trusted_roots(extra: Option<&[u8]>) -> (r: rustls::RootCertStore)
    ensures
        anchors(r) == trusted(
            match extra {
                Some(pem) => Some(pem@),
                None => None,
            },
        ),
{
    let mut store = empty_store();
    add_bundled(&mut store);
    match extra {
        Some(pem) => {
            let items = read_certs(pem);
            add_roots(&mut store, &items);
        },
        None => {
            assert(anchors(store) + Seq::<(Seq<u8>, Seq<u8>, Option<Seq<u8>>)>::empty() =~= anchors(
                store,
            ));
        },
    }
    store
}

/// A text of its own only adds to what a client trusts: the bundled roots stay, all of them and
/// first.
pub proof fn own_roots_only_add(pem: Seq<u8>)
    ensures
        trusted(None).is_prefix_of(trusted(Some(pem))),
        trusted(None) == with_bundled(Seq::empty()),
{
    assert(trusted(None) =~= with_bundled(Seq::empty()));
    assert(trusted(Some(pem)).take(trusted(None).len() as int) =~= trusted(None));
}

/// `rustls::ClientConfig`: the configuration of a TLS client.
#[verifier::external_type_specification]
#[verifier::external_body]
pub struct ExClientConfig(rustls::ClientConfig);

/// The configuration of a TLS client, and the roots that it trusts.
pub struct ClientTls {
    config: Arc<rustls::ClientConfig>,
    roots: Ghost<Seq<(Seq<u8>, Seq<u8>, Option<Seq<u8>>)>>,
}

impl ClientTls {
    /// The roots that the client trusts.
    pub closed spec fn roots(&self) -> Seq<(Seq<u8>, Seq<u8>, Option<Seq<u8>>)> {
        self.roots@
    }

    /// The configuration itself.
    pub closed spec fn inner(&self) -> Arc<rustls::ClientConfig> {
        self.config
    }

    /// The configuration, for the connections of the client.
    pub fn into_config(self) -> (r: Arc<rustls::ClientConfig>)
        ensures
            r == self.inner(),
    {
        self.config
    }
}

/// Wraps `with_root_certificates` of the rustls client builder, made with the ring provider, the
/// default protocol versions, which that provider supports, and no client authentication. The claim
/// is that the client trusts the roots of the store.
#[verifier::external_body]
fn build_client(roots: rustls::RootCertStore) -> (r: ClientTls)
    ensures
        r.roots() == anchors(roots),
{
    let ghost held = anchors(roots);
    let provider = Arc::new(rustls::crypto::ring::default_provider());
    let config = rustls::ClientConfig::builder_with_provider(provider)
        .with_safe_default_protocol_versions()
        .expect("ring provider supports the default protocol versions")
        .with_root_certificates(roots)
        .with_no_client_auth();
    ClientTls { config: Arc::new(config), roots: Ghost(held) }
}

/// Makes the configuration of a TLS client that trusts the bundled roots, and those in the PEM text
/// of its own, if it has one.
pub fn client_config(extra: Option<&[u8]>) -> (r: ClientTls)
    ensures
        r.roots() == trusted(
            match extra {
                Some(pem) => Some(pem@),
                None => None,
            },
        ),
{
    build_client(trusted_roots(extra))
}

// ---------------------------------------------------------------------------
// Laws

/// A chain is every certificate that was read, in order, and there is none where one of them could
/// not be read or there was none at all.
pub proof fn chains_hold_every_certificate(items: Seq<Option<Seq<u8>>>, i: int)
    requires
        0 <= i < items.len(),
    ensures
        items[i] is None ==> chain(items) is None,
        (forall|j: int| 0 <= j < items.len() ==> #[trigger] items[j] is Some) ==> (chain(
            items,
        ) matches Some(certs) && certs.len() == items.len() && items[i] == Some(certs[i])),
        chain(Seq::empty()) is None,
{
}

/// A server has a configuration exactly where its chain can be read, there is a key, and the key
/// fits; and then it shows the whole chain.
pub proof fn servers_show_their_chain(cert_pem: Seq<u8>, key_pem: Seq<u8>)
    ensures
        server_pair(cert_pem, key_pem) == (if chain(pem_certs(cert_pem)) is Some && pem_has_key(
            key_pem,
        ) && pair_usable(chain(pem_certs(cert_pem))->0, key_pem) {
            chain(pem_certs(cert_pem))
        } else {
            None
        }),
{
}

/// Every certificate of a text that makes a root is trusted, in order; the others are left out and
/// keep none of the rest from being trusted.
pub proof fn every_root_is_trusted(items: Seq<Option<Seq<u8>>>, item: Option<Seq<u8>>)
    ensures
        roots_in(Seq::empty()).len() == 0,
        roots_in(items.push(item)) == (match item {
            Some(der) => match anchor_of(der) {
                Some(a) => roots_in(items).push(a),
                None => roots_in(items),
            },
            None => roots_in(items),
        }),
{
    assert(items.push(item).drop_last() =~= items);
}

/// What a client trusts: the bundled roots, and behind them all that the text of its own makes.
pub proof fn clients_trust_both(pem: Seq<u8>)
    ensures
        trusted(Some(pem)).len() == with_bundled(Seq::empty()).len() + roots_in(
            pem_certs(pem),
        ).len(),
        trusted(Some(pem)).skip(with_bundled(Seq::empty()).len() as int) == roots_in(
            pem_certs(pem),
        ),
{
    let bundled = with_bundled(Seq::empty());
    assert(trusted(Some(pem)).skip(bundled.len() as int) =~= roots_in(pem_certs(pem)));
}

/// Certificates are seen as the bytes that they are, all of them and in order.
pub proof fn certificates_are_seen_as_they_are(
    items: Seq<Option<Vec<u8>>>,
    certs: Seq<Vec<u8>>,
    i: int,
)
    ensures
        items_of(items).len() == items.len(),
        0 <= i < items.len() ==> items_of(items)[i] == (match items[i] {
            Some(d) => Some(d@),
            None => None,
        }),
        ders_of(certs).len() == certs.len(),
        0 <= i < certs.len() ==> ders_of(certs)[i] == certs[i]@,
{
}

} // verus!
