//! A minimal certificate protocol on RSA signatures: a user asks with a
//! self-signed public key, the authority checks the self-signature and signs
//! the key under a fresh identifier, and anyone checks that signature.

use crate::bignum::{be_bytes, be_value, Natural};
use crate::primitives::{hex_chars, hex_encode, random_array, sha256};
use crate::rsa::{signature_fits, signature_value, Rsa, RsaPublicKey, RsaSecretKey};
use vstd::arithmetic::power2::pow2;
use vstd::prelude::*;
use vstd::string::StringExecFns;
use vstd::utf8::encode_utf8;

verus! {

/// An identifier, a public key and the authority's signature over both.
pub struct Certificate {
    pub id: String,
    pub pk: RsaPublicKey,
    pub sigma_ca: Vec<u8>,
}

/// A public key and its holder's signature over it.
pub struct CertRequest {
    pub pk_user: RsaPublicKey,
    pub sigma_user: Vec<u8>,
}

impl Clone for Certificate {
    fn clone(&self) -> (r: Self)
        ensures
            r.id@ == self.id@,
            r.pk.n@ == self.pk.n@,
            r.pk.e@ == self.pk.e@,
            r.sigma_ca@ == self.sigma_ca@,
    {
        Certificate { id: self.id.clone(), pk: self.pk.clone(), sigma_ca: self.sigma_ca.clone() }
    }
}

/// The bytes of a public key: the shortest big-endian form of the modulus,
/// then that of the exponent, with nothing between them.
pub open spec fn serialized(n: nat, e: nat) -> Seq<u8> {
    be_bytes(n) + be_bytes(e)
}

/// The number that a signature over `message` has to match: the SHA-256
/// digest read as a big-endian number.
pub open spec fn digest_value(message: Seq<u8>) -> nat {
    be_value(sha256(message))
}

/// What the authority signs: the identifier's bytes, then the public key's.
pub open spec fn certified_message(id: Seq<char>, n: nat, e: nat) -> Seq<u8> {
    encode_utf8(id) + serialized(n, e)
}

/// The identifier made from random bytes: `ID-` and the first four of them in
/// lower-case hexadecimal.
pub open spec fn identifier(random: Seq<u8>) -> Seq<char> {
    seq!['I', 'D', '-'] + hex_chars(random.subrange(0, 4))
}

/// The bytes of a public key.
pub fn serialize_pk(pk: &RsaPublicKey) -> (buf: Vec<u8>)
    ensures
        buf@ == serialized(pk.n@, pk.e@),
{
    let mut buf = Vec::new();
    let n_bytes = pk.n.to_bytes_be();
    let e_bytes = pk.e.to_bytes_be();
    buf.extend_from_slice(n_bytes.as_slice());
    buf.extend_from_slice(e_bytes.as_slice());
    assert(buf@ =~= serialized(pk.n@, pk.e@));
    buf
}

/// The key pair of which only the public half is used.
fn verifier_for(pk: &RsaPublicKey) -> (r: Rsa)
    ensures
        r.pk.n@ == pk.n@,
        r.pk.e@ == pk.e@,
{
    Rsa { pk: pk.clone(), sk: RsaSecretKey { n: Natural::from_u32(1), d: Natural::from_u32(1) } }
}

/// A request for a certificate: the user's public key and the user's own
/// signature over its bytes. `None` where the digest of those bytes does not
/// fit below the user's modulus, which a modulus of at least `2^256` rules out.
pub fn user_generate_request(user_rsa: &Rsa) -> (r: Option<CertRequest>)
    ensures
        r is Some <==> digest_value(serialized(user_rsa.pk.n@, user_rsa.pk.e@)) < user_rsa.sk.n@,
        r matches Some(request) ==> {
            &&& request.pk_user.n@ == user_rsa.pk.n@
            &&& request.pk_user.e@ == user_rsa.pk.e@
            &&& request.sigma_user@ == be_bytes(
                signature_value(
                    digest_value(serialized(user_rsa.pk.n@, user_rsa.pk.e@)),
                    user_rsa.sk.d@,
                    user_rsa.sk.n@,
                ),
            )
        },
        user_rsa.sk.n@ >= pow2(256) ==> r is Some,
{
    let pk_bytes = serialize_pk(&user_rsa.pk);
    match user_rsa.sign(pk_bytes.as_slice()) {
        Some(sigma_user) => Some(CertRequest { pk_user: user_rsa.pk.clone(), sigma_user }),
        None => None,
    }
}

/// Whether the signature in a request fits the public key in the same
/// request. This shows that the sender holds the secret key, and nothing about
/// who the sender is.
pub open spec fn request_is_valid(request: CertRequest) -> bool {
    signature_fits(
        request.sigma_user@,
        digest_value(serialized(request.pk_user.n@, request.pk_user.e@)),
        request.pk_user.e@,
        request.pk_user.n@,
    )
}

/// The certificate binds its identifier and public key under the authority's
/// secret key `(n, d)`.
pub open spec fn issued_by(cert: Certificate, d: nat, n: nat) -> bool {
    cert.sigma_ca@ == be_bytes(
        signature_value(digest_value(certified_message(cert.id@, cert.pk.n@, cert.pk.e@)), d, n),
    )
}

/// Issues a certificate for a request under an identifier made from eight
/// random bytes. `None` where the request's self-signature does not fit, or
/// where the digest that the authority has to sign does not fit below its
/// modulus. Whatever identifier is drawn, a request whose self-signature fits
/// gets its certificate from an authority with a modulus of at least `2^256`.
pub fn ca_issue_certificate(request: &CertRequest, ca_rsa: &Rsa) -> (r: Option<Certificate>)
    ensures
        !request_is_valid(*request) ==> r is None,
        r matches Some(cert) ==> {
            &&& cert.pk.n@ == request.pk_user.n@
            &&& cert.pk.e@ == request.pk_user.e@
            &&& exists|random: Seq<u8>| random.len() == 8 && cert.id@ == #[trigger] identifier(random)
            &&& digest_value(certified_message(cert.id@, cert.pk.n@, cert.pk.e@)) < ca_rsa.sk.n@
            &&& issued_by(cert, ca_rsa.sk.d@, ca_rsa.sk.n@)
        },
        request_is_valid(*request) && ca_rsa.sk.n@ >= pow2(256) ==> r is Some,
{
    let buf: [u8; 8] = random_array::<8>();
    issue_with_random(request, ca_rsa, &buf)
}

/// Issues a certificate for a request under the identifier made from
/// `random`. `None` where the request's self-signature does not fit, or where
/// the digest that the authority has to sign does not fit below its modulus.
pub fn issue_with_random(request: &CertRequest, ca_rsa: &Rsa, random: &[u8; 8]) -> (r: Option<
    Certificate,
>)
    ensures
        r is Some <==> request_is_valid(*request) && digest_value(
            certified_message(identifier(random@), request.pk_user.n@, request.pk_user.e@),
        ) < ca_rsa.sk.n@,
        r matches Some(cert) ==> {
            &&& cert.id@ == identifier(random@)
            &&& cert.pk.n@ == request.pk_user.n@
            &&& cert.pk.e@ == request.pk_user.e@
            &&& issued_by(cert, ca_rsa.sk.d@, ca_rsa.sk.n@)
        },
        request_is_valid(*request) && ca_rsa.sk.n@ >= pow2(256) ==> r is Some,
{
    let pk_bytes = serialize_pk(&request.pk_user);
    let user_verifier = verifier_for(&request.pk_user);
    if !user_verifier.verify(pk_bytes.as_slice(), request.sigma_user.as_slice()) {
        return None;
    }
    let first: [u8; 4] = [random[0], random[1], random[2], random[3]];
    assert(first@ =~= random@.subrange(0, 4));
    let hex = hex_encode(first.as_slice());
    let id = String::from_str("ID-").concat(hex.as_str());
    proof {
        reveal_strlit("ID-");
        assert("ID-"@ =~= seq!['I', 'D', '-']);
    }

    let mut msg = vstd::slice::slice_to_vec(id.as_str().as_bytes());
    msg.extend_from_slice(pk_bytes.as_slice());
    assert(msg@ =~= certified_message(id@, request.pk_user.n@, request.pk_user.e@));

    match ca_rsa.sign(msg.as_slice()) {
        Some(sigma_ca) => Some(Certificate { id, pk: request.pk_user.clone(), sigma_ca }),
        None => None,
    }
}

/// Whether the authority's signature in a certificate fits the certificate's
/// identifier and public key under the authority's public key.
pub fn user_verify_certificate(cert: &Certificate, ca_pk: &RsaPublicKey) -> (r: bool)
    ensures
        r == signature_fits(
            cert.sigma_ca@,
            digest_value(certified_message(cert.id@, cert.pk.n@, cert.pk.e@)),
            ca_pk.e@,
            ca_pk.n@,
        ),
{
    let mut msg = vstd::slice::slice_to_vec(cert.id.as_str().as_bytes());
    let pk_bytes = serialize_pk(&cert.pk);
    msg.extend_from_slice(pk_bytes.as_slice());
    assert(msg@ =~= certified_message(cert.id@, cert.pk.n@, cert.pk.e@));

    let ca_verifier = verifier_for(ca_pk);
    ca_verifier.verify(msg.as_slice(), cert.sigma_ca.as_slice())
}

} // verus!
