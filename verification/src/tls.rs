//! What is checked of the files for encrypted connections.
use crate::error::{Error, ErrorView, Result};
use crate::text::{decimal, decimal_text, join};
use rustls::RootCertStore;
use rustls_pki_types::pem::PemObject;
use rustls_pki_types::{CertificateDer, PrivateKeyDer};
use vstd::prelude::*;
use vstd::string::*;

verus! {

/// The files of a client for encrypted connections, by path.
#[derive(Debug, Clone, PartialEq, Eq)]
pub struct HttpClientTlsConfig {
    /// A private authority, where the server has no certificate of a public one.
    pub ca_certificate: Option<Vec<u8>>,
    /// The client's certificates and their private key.
    pub identity_pem: Option<Vec<u8>>,
}

impl HttpClientTlsConfig {
    /// The settings of a client, if any are made.
    pub fn from_settings(ca_certificate: Option<Vec<u8>>, identity_pem: Option<Vec<u8>>) -> (config:
        Option<HttpClientTlsConfig>)
        ensures
            config == if ca_certificate is None && identity_pem is None {
                None::<HttpClientTlsConfig>
            } else {
                Some(HttpClientTlsConfig { ca_certificate, identity_pem })
            },
    {
        if ca_certificate.is_none() && identity_pem.is_none() {
            None
        } else {
            Some(HttpClientTlsConfig { ca_certificate, identity_pem })
        }
    }
}

/// Whether a server has a certificate.
pub fn check_certificates(count: usize) -> (result: Result<()>)
    ensures
        count > 0 ==> result is Ok,
        count == 0 ==> result is Err && result->Err_0@ == ErrorView::InvalidConfiguration(
            "TLS certificate file contains no certificates"@,
        ),
{
    if count == 0 {
        return Err(
            Error::InvalidConfiguration(
                "TLS certificate file contains no certificates".to_owned(),
            ),
        );
    }
    Ok(())
}

/// The error where authorities cannot be used.
pub open spec fn unusable_authorities(accepted: nat, rejected: nat) -> ErrorView {
    ErrorView::InvalidConfiguration(
        "client CA file contained "@ + decimal(accepted) + " accepted and "@ + decimal(rejected)
            + " rejected certificates"@,
    )
}

/// Whether the authorities that clients may come from can be used: there is one,
/// and none was rejected.
pub fn check_client_roots(accepted: usize, rejected: usize) -> (result: Result<()>)
    ensures
        accepted > 0 && rejected == 0 ==> result is Ok,
        accepted == 0 || rejected > 0 ==> result is Err && result->Err_0@ == unusable_authorities(
            accepted as nat,
            rejected as nat,
        ),
{
    if accepted == 0 || rejected > 0 {
        let mut message = join(
            "client CA file contained ",
            decimal_text(accepted as u64).as_str(),
        );
        message.append(" accepted and ");
        message.append(decimal_text(rejected as u64).as_str());
        message.append(" rejected certificates");
        return Err(Error::InvalidConfiguration(message));
    }
    Ok(())
}

/// A section of a PEM file: the bytes of a certificate, or why it cannot be read.
pub type Section = core::result::Result<Vec<u8>, String>;

/// The bytes of a certificate, or why it cannot be read, as contracts see it.
pub type SectionView = core::result::Result<Seq<u8>, Seq<char>>;

/// Sections, as contracts see them.
pub open spec fn section_views(sections: Seq<Section>) -> Seq<SectionView> {
    Seq::new(
        sections.len(),
        |i: int|
            match sections[i] {
                Ok(der) => Ok::<Seq<u8>, Seq<char>>(der@),
                Err(reason) => Err(reason@),
            },
    )
}

/// The bytes of certificates.
pub open spec fn byte_views(list: Seq<Vec<u8>>) -> Seq<Seq<u8>> {
    Seq::new(list.len(), |i: int| list[i]@)
}

/// The certificates of a PEM file, in order, each with its bytes or why it cannot be
/// read: what `CertificateDer::pem_reader_iter` gives of a reader of the bytes of the
/// file.
pub uninterp spec fn pem_certificates(pem: Seq<u8>) -> Seq<SectionView>;

/// Calls `CertificateDer::pem_reader_iter` of the crate `rustls-pki-types` on a reader
/// of bytes in memory, which never fails. It goes over the certificates line by line,
/// each line with its end, as it does over those of a file. What it gives depends on
/// the bytes alone and is named, not described.
#[verifier::external_body]
fn pem_reader_iter(pem: &Vec<u8>) -> (sections: Vec<Section>)
    ensures
        section_views(sections@) == pem_certificates(pem@),
{
    CertificateDer::pem_reader_iter(pem.as_slice()).map(
        |section|
            match section {
                Ok(der) => Ok(der.as_ref().to_vec()),
                Err(error) => Err(error.to_string()),
            },
    ).collect()
}

/// How many of some certificates can serve as authorities: how many of them
/// `RootCertStore::add_parsable_certificates` takes.
pub uninterp spec fn parsable_certificates(ders: Seq<Seq<u8>>) -> nat;

/// Calls `RootCertStore::add_parsable_certificates` of the crate `rustls` on an empty
/// store. It counts the certificates that it takes and those that it passes over:
/// together they are all. Which it takes depends on their bytes alone; how many those
/// are is named, not described.
#[verifier::external_body]
fn add_parsable_certificates(ders: &Vec<Vec<u8>>) -> (counts: (usize, usize))
    ensures
        counts.0 == parsable_certificates(byte_views(ders@)),
        counts.0 + counts.1 == ders@.len(),
{
    RootCertStore::empty().add_parsable_certificates(
        ders.iter().map(|der| CertificateDer::from(der.as_slice())),
    )
}

/// The certificates of a file whose sections are given: all of them, or the first
/// reason why one cannot be read.
pub open spec fn certificates_in(sections: Seq<SectionView>) -> core::result::Result<
    Seq<Seq<u8>>,
    ErrorView,
>
    decreases sections.len(),
{
    if sections.len() == 0 {
        Ok(seq![])
    } else {
        match certificates_in(sections.drop_last()) {
            Err(error) => Err(error),
            Ok(done) => match sections.last() {
                Ok(der) => Ok(done.push(der)),
                Err(reason) => Err(ErrorView::InvalidConfiguration(reason)),
            },
        }
    }
}

proof fn lemma_first_fault(sections: Seq<SectionView>, count: int)
    requires
        0 <= count <= sections.len(),
        certificates_in(sections.subrange(0, count)) is Err,
    ensures
        certificates_in(sections) == certificates_in(sections.subrange(0, count)),
    decreases sections.len() - count,
{
    if count == sections.len() {
        assert(sections.subrange(0, count) =~= sections);
    } else {
        assert(sections.subrange(0, count + 1).drop_last() =~= sections.subrange(0, count));
        lemma_first_fault(sections, count + 1);
    }
}

/// The certificates of sections, or the first reason why one cannot be read.
pub fn collect_certificates(sections: Vec<Section>) -> (result: Result<Vec<Vec<u8>>>)
    ensures
        match certificates_in(section_views(sections@)) {
            Ok(list) => result is Ok && byte_views(result->Ok_0@) == list,
            Err(error) => result is Err && result->Err_0@ == error,
        },
{
    let ghost given = sections@;
    let ghost all = section_views(given);
    let mut rest = sections;
    let mut reversed: Vec<Section> = Vec::new();
    while rest.len() > 0
        invariant
            given == sections@,
            rest@.len() + reversed@.len() == given.len(),
            forall|i: int| 0 <= i < rest@.len() ==> #[trigger] rest@[i] == given[i],
            forall|i: int|
                0 <= i < reversed@.len() ==> #[trigger] reversed@[i] == given[given.len() - 1 - i],
        decreases rest.len(),
    {
        match rest.pop() {
            None => {},
            Some(section) => {
                reversed.push(section);
            },
        }
    }
    let mut list: Vec<Vec<u8>> = Vec::new();
    let ghost mut done: int = 0;
    assert(all.subrange(0, 0) =~= Seq::empty());
    assert(byte_views(list@) =~= Seq::empty());
    while reversed.len() > 0
        invariant
            given == sections@,
            all == section_views(given),
            0 <= done <= given.len(),
            reversed@.len() == given.len() - done,
            forall|i: int|
                0 <= i < reversed@.len() ==> #[trigger] reversed@[i] == given[given.len() - 1 - i],
            certificates_in(all.subrange(0, done)) == Ok::<Seq<Seq<u8>>, ErrorView>(
                byte_views(list@),
            ),
        decreases reversed.len(),
    {
        let ghost before = byte_views(list@);
        match reversed.pop() {
            None => {},
            Some(section) => {
                assert(section == given[done]);
                assert(all.subrange(0, done + 1).drop_last() =~= all.subrange(0, done));
                assert(all.subrange(0, done + 1).last() == all[done]);
                match section {
                    Ok(der) => {
                        list.push(der);
                        assert(byte_views(list@) =~= before.push(der@));
                    },
                    Err(reason) => {
                        proof {
                            lemma_first_fault(all, done + 1);
                        }
                        return Err(Error::InvalidConfiguration(reason));
                    },
                }
                proof {
                    done = done + 1;
                }
            },
        }
    }
    assert(all.subrange(0, done) =~= all);
    Ok(list)
}

/// The certificates of a server, of the bytes of its PEM file: at least one, and all
/// of them readable.
pub fn server_certificates(pem: &Vec<u8>) -> (result: Result<Vec<Vec<u8>>>)
    ensures
        match certificates_in(pem_certificates(pem@)) {
            Ok(list) => if list.len() > 0 {
                result is Ok && byte_views(result->Ok_0@) == list
            } else {
                result is Err && result->Err_0@ == ErrorView::InvalidConfiguration(
                    "TLS certificate file contains no certificates"@,
                )
            },
            Err(error) => result is Err && result->Err_0@ == error,
        },
{
    let list = collect_certificates(pem_reader_iter(pem))?;
    check_certificates(list.len())?;
    Ok(list)
}

/// The authorities that clients may come from, of the bytes of a PEM file: at least
/// one, all of them readable and usable.
pub fn client_authorities(pem: &Vec<u8>) -> (result: Result<Vec<Vec<u8>>>)
    ensures
        match certificates_in(pem_certificates(pem@)) {
            Ok(list) => {
                let accepted = parsable_certificates(list);
                if accepted > 0 && accepted == list.len() {
                    result is Ok && byte_views(result->Ok_0@) == list
                } else {
                    result is Err && result->Err_0@ == unusable_authorities(
                        accepted,
                        (list.len() - accepted) as nat,
                    )
                }
            },
            Err(error) => result is Err && result->Err_0@ == error,
        },
{
    let list = collect_certificates(pem_reader_iter(pem))?;
    let (accepted, rejected) = add_parsable_certificates(&list);
    check_client_roots(accepted, rejected)?;
    Ok(list)
}

/// The form in which the bytes of a private key stand: one of three that are known, or
/// another.
#[derive(Debug, Clone, Copy, PartialEq, Eq, Structural)]
pub enum KeyForm {
    Pkcs1,
    Sec1,
    Pkcs8,
    Other,
}

/// A private key, or why there is none.
pub type KeyRead = core::result::Result<(KeyForm, Vec<u8>), String>;

/// A private key, or why there is none, as contracts see it.
pub type KeyReadView = core::result::Result<(KeyForm, Seq<u8>), Seq<char>>;

/// What was read of a private key, as contracts see it.
pub open spec fn key_view(read: KeyRead) -> KeyReadView {
    match read {
        Ok((form, der)) => Ok((form, der@)),
        Err(reason) => Err(reason@),
    }
}

/// The first private key of a PEM file, or why there is none: what
/// `PrivateKeyDer::from_pem_reader` gives of a reader of the bytes of the file.
pub uninterp spec fn pem_private_key(pem: Seq<u8>) -> KeyReadView;

/// Calls `PrivateKeyDer::from_pem_reader` of the crate `rustls-pki-types` on a reader of
/// bytes in memory, which never fails. It gives the first section that is a private key,
/// in one of its forms. What it gives depends on the bytes alone and is named, not
/// described.
#[verifier::external_body]
fn key_from_pem_reader(pem: &Vec<u8>) -> (read: KeyRead)
    ensures
        key_view(read) == pem_private_key(pem@),
{
    match PrivateKeyDer::from_pem_reader(pem.as_slice()) {
        Ok(PrivateKeyDer::Pkcs1(key)) => Ok((KeyForm::Pkcs1, key.secret_pkcs1_der().to_vec())),
        Ok(PrivateKeyDer::Sec1(key)) => Ok((KeyForm::Sec1, key.secret_sec1_der().to_vec())),
        Ok(PrivateKeyDer::Pkcs8(key)) => Ok((KeyForm::Pkcs8, key.secret_pkcs8_der().to_vec())),
        Ok(key) => Ok((KeyForm::Other, key.secret_der().to_vec())),
        Err(error) => Err(error.to_string()),
    }
}

/// A private key that was read, or the mistake that there is none.
pub fn accept_key(read: KeyRead) -> (result: Result<(KeyForm, Vec<u8>)>)
    ensures
        match key_view(read) {
            Ok(key) => result is Ok && result->Ok_0.0 == key.0 && result->Ok_0.1@ == key.1,
            Err(reason) => result is Err && result->Err_0@ == ErrorView::InvalidConfiguration(
                reason,
            ),
        },
{
    match read {
        Ok(key) => Ok(key),
        Err(reason) => Err(Error::InvalidConfiguration(reason)),
    }
}

/// The private key of a server, of the bytes of its PEM file.
pub fn server_private_key(pem: &Vec<u8>) -> (result: Result<(KeyForm, Vec<u8>)>)
    ensures
        match pem_private_key(pem@) {
            Ok(key) => result is Ok && result->Ok_0.0 == key.0 && result->Ok_0.1@ == key.1,
            Err(reason) => result is Err && result->Err_0@ == ErrorView::InvalidConfiguration(
                reason,
            ),
        },
{
    accept_key(key_from_pem_reader(pem))
}

/// The certificate and the key of a client, as `reqwest` holds them.
#[verifier::external_type_specification]
#[verifier::external_body]
pub struct ExIdentity(reqwest::Identity);

/// A PEM file holds the identity of a client: `reqwest::Identity::from_pem` takes its
/// bytes.
pub uninterp spec fn holds_identity(pem: Seq<u8>) -> bool;

/// Calls `reqwest::Identity::from_pem`, which takes a private key and the certificates
/// beside it out of the text of a PEM file. Whether it does depends on that text alone
/// and is named, not described. Its error is one of building, whatever is wrong, and
/// reads "builder error". What the identity holds is left unsaid: it cannot be looked
/// into.
#[verifier::external_body]
fn identity_from_pem(pem: &Vec<u8>) -> (read: core::result::Result<reqwest::Identity, String>)
    ensures
        read is Ok == holds_identity(pem@),
        read matches Err(reason) ==> reason@ == "builder error"@,
{
    reqwest::Identity::from_pem(pem).map_err(|error| error.to_string())
}

/// The error where a PEM file does not hold the identity of a client.
pub open spec fn no_identity() -> ErrorView {
    ErrorView::InvalidConfiguration("builder error"@)
}

/// The identity of a client, of the bytes of its PEM file: its certificate and the key
/// of it.
pub fn client_identity(pem: &Vec<u8>) -> (result: Result<reqwest::Identity>)
    ensures
        holds_identity(pem@) ==> result is Ok,
        !holds_identity(pem@) ==> result is Err && result->Err_0@ == no_identity(),
{
    match identity_from_pem(pem) {
        Ok(identity) => Ok(identity),
        Err(reason) => Err(Error::InvalidConfiguration(reason)),
    }
}

/// What reading a file comes to where one is set, when `read` reads it; where none is
/// set there is nothing to read.
pub open spec fn was_read<R: Fn(&Vec<u8>) -> Result<Vec<u8>>>(
    path: Option<Vec<u8>>,
    read: R,
    outcome: Result<Option<Vec<u8>>>,
) -> bool {
    match path {
        None => outcome == Ok::<Option<Vec<u8>>, Error>(None),
        Some(file) => exists|bytes: Result<Vec<u8>>| #[trigger]
            read.ensures((&file,), bytes) && outcome == match bytes {
                Ok(pem) => Ok::<Option<Vec<u8>>, Error>(Some(pem)),
                Err(error) => Err(error),
            },
    }
}

/// Reads a file where one is set.
fn read_set<R: Fn(&Vec<u8>) -> Result<Vec<u8>>>(path: &Option<Vec<u8>>, read: &R) -> (outcome:
    Result<Option<Vec<u8>>>)
    requires
        path matches Some(file) ==> read.requires((&file,)),
    ensures
        was_read(*path, *read, outcome),
{
    match path {
        None => Ok(None),
        Some(file) => {
            let bytes = read(file);
            assert(read.ensures((file,), bytes));
            match bytes {
                Ok(pem) => Ok(Some(pem)),
                Err(error) => Err(error),
            }
        },
    }
}

/// The file of a private authority, where one is set.
pub open spec fn authority_path(tls: Option<&HttpClientTlsConfig>) -> Option<Vec<u8>> {
    match tls {
        Some(config) => config.ca_certificate,
        None => None,
    }
}

/// The file of a client's identity, where one is set.
pub open spec fn identity_path(tls: Option<&HttpClientTlsConfig>) -> Option<Vec<u8>> {
    match tls {
        Some(config) => config.identity_pem,
        None => None,
    }
}

/// Builds a client. `read` reads a file and `build` builds the client of the bytes of a
/// private authority and of an identity, where these are set. Only files that are set
/// are read, that of the authority first, and nothing is built unless all of them could
/// be.
pub fn build_http_client<
    C,
    R: Fn(&Vec<u8>) -> Result<Vec<u8>>,
    B: FnOnce(Option<Vec<u8>>, Option<reqwest::Identity>) -> Result<C>,
>(tls: Option<&HttpClientTlsConfig>, read: R, build: B) -> (result: Result<C>)
    requires
        authority_path(tls) matches Some(file) ==> read.requires((&file,)),
        identity_path(tls) matches Some(file) ==> read.requires((&file,)),
        forall|authority: Option<Vec<u8>>, identity: Option<reqwest::Identity>|
            was_read(authority_path(tls), read, Ok(authority)) && identity is Some
                == identity_path(tls) is Some ==> #[trigger] build.requires((authority, identity)),
    ensures
        exists|authority: Result<Option<Vec<u8>>>| #[trigger]
            was_read(authority_path(tls), read, authority) && match authority {
                Err(error) => result == Err::<C, Error>(error),
                Ok(authority) => exists|pem: Result<Option<Vec<u8>>>| #[trigger]
                    was_read(identity_path(tls), read, pem) && match pem {
                        Err(error) => result == Err::<C, Error>(error),
                        Ok(None) => build.ensures((authority, None), result),
                        Ok(Some(pem)) => if holds_identity(pem@) {
                            exists|identity: reqwest::Identity| #[trigger]
                                build.ensures((authority, Some(identity)), result)
                        } else {
                            result is Err && result->Err_0@ == no_identity()
                        },
                    },
            },
{
    let (authority, pem) = match tls {
        None => (None, None),
        Some(config) => {
            let authority = read_set(&config.ca_certificate, &read)?;
            let pem = read_set(&config.identity_pem, &read)?;
            (authority, pem)
        },
    };
    assert(was_read(authority_path(tls), read, Ok(authority)));
    assert(was_read(identity_path(tls), read, Ok(pem)));
    let identity = match &pem {
        None => None,
        Some(pem) => Some(client_identity(pem)?),
    };
    let result = build(authority, identity);
    assert(build.ensures((authority, identity), result));
    result
}

/// How a server is reached: by its two files, or without encryption where neither
/// is set.
#[derive(Debug, Clone, Copy, PartialEq, Eq, Structural)]
pub enum Transport {
    Plain,
    Encrypted,
}

/// How a server is reached. One file without the other is a mistake.
pub fn choose_transport(certificate: bool, private_key: bool) -> (result: Result<Transport>)
    ensures
        certificate && private_key ==> result == Ok::<Transport, Error>(Transport::Encrypted),
        !certificate && !private_key ==> result == Ok::<Transport, Error>(Transport::Plain),
        certificate != private_key ==> result is Err && result->Err_0@
            == ErrorView::InvalidConfiguration(
            "FOCAL_TLS_CERT and FOCAL_TLS_KEY must be set together"@,
        ),
{
    if certificate && private_key {
        Ok(Transport::Encrypted)
    } else if !certificate && !private_key {
        Ok(Transport::Plain)
    } else {
        Err(
            Error::InvalidConfiguration(
                "FOCAL_TLS_CERT and FOCAL_TLS_KEY must be set together".to_owned(),
            ),
        )
    }
}

/// The certificates of a file are read exactly where each of its sections can be, and then
/// each stands in its place; otherwise the first reason is told.
pub proof fn law_every_certificate_is_read(sections: Seq<SectionView>)
    ensures
        certificates_in(sections) is Ok <==> forall|i: int|
            0 <= i < sections.len() ==> (#[trigger] sections[i]) is Ok,
        certificates_in(sections) matches Ok(list) ==> list.len() == sections.len() && forall|
            i: int,
        |
            0 <= i < sections.len() ==> (#[trigger] sections[i]) == Ok::<Seq<u8>, Seq<char>>(
                list[i],
            ),
        certificates_in(sections) matches Err(error) ==> exists|i: int|
            0 <= i < sections.len() && (#[trigger] sections[i]) is Err && error
                == ErrorView::InvalidConfiguration(sections[i]->Err_0) && forall|j: int|
                0 <= j < i ==> (#[trigger] sections[j]) is Ok,
    decreases sections.len(),
{
    if sections.len() > 0 {
        let rest = sections.drop_last();
        let end = sections.len() - 1;
        law_every_certificate_is_read(rest);
        assert forall|i: int| 0 <= i < rest.len() implies rest[i] == #[trigger] sections[i] by {}
        match certificates_in(rest) {
            Err(error) => {
                let i = choose|i: int|
                    0 <= i < rest.len() && (#[trigger] rest[i]) is Err && error
                        == ErrorView::InvalidConfiguration(rest[i]->Err_0) && forall|j: int|
                        0 <= j < i ==> (#[trigger] rest[j]) is Ok;
                assert(sections[i] is Err);
                assert forall|j: int| 0 <= j < i implies (#[trigger] sections[j]) is Ok by {
                    assert(rest[j] is Ok);
                }
            },
            Ok(front) => {
                assert forall|j: int| 0 <= j < end implies (#[trigger] sections[j]) is Ok by {
                    assert(rest[j] is Ok);
                }
                assert(sections[end] == sections.last());
                if let Ok(der) = sections[end] {
                    let list = front.push(der);
                    assert forall|i: int| 0 <= i < sections.len() implies (#[trigger] sections[i])
                        == Ok::<Seq<u8>, Seq<char>>(list[i]) by {
                        if i < end {
                            assert(rest[i] == Ok::<Seq<u8>, Seq<char>>(front[i]));
                        }
                    }
                }
            },
        }
    }
}

} // verus!
