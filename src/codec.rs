use vstd::prelude::*;
use vstd::utf8::encode_utf8;
use base64::Engine;

verus! {

/// Padded standard-alphabet base64 text of some bytes.
pub uninterp spec fn base64_of(b: Seq<u8>) -> Seq<char>;

/// The bytes that padded standard-alphabet base64 text stands for, if it is
/// such text.
pub uninterp spec fn base64_bytes(s: Seq<char>) -> Option<Seq<u8>>;

/// The plaintext that an ECIES ciphertext opens to under a secret key, if
/// the key parses and the ciphertext authenticates. This holds under ecies's
/// default process-wide configuration: a program that calls
/// `ecies::config::update_config` must not use this library.
pub uninterp spec fn ecies_open(sk: Seq<u8>, ct: Seq<u8>) -> Option<Seq<u8>>;

/// Whether bytes parse as an ECIES public key (a curve point, compressed,
/// uncompressed or raw).
pub uninterp spec fn ecies_key_ok(pk: Seq<u8>) -> bool;

/// Whether `sk` parses as an ECIES secret key and `pk` is its public point.
pub uninterp spec fn ecies_pair(sk: Seq<u8>, pk: Seq<u8>) -> bool;

/// Relies on base64's `STANDARD` engine `encode`: padded base64 of the bytes,
/// which the same engine's `decode` reads back.
#[verifier::external_body]
pub(crate) fn b64_encode(b: &[u8]) -> (r: String)
    ensures
        r@ == base64_of(b@),
        base64_bytes(r@) == Some(b@),
{
    base64::engine::general_purpose::STANDARD.encode(b)
}

/// Relies on base64's `STANDARD` engine `decode`: the bytes, or an error for
/// text that is not canonical padded base64.
#[verifier::external_body]
pub(crate) fn b64_decode(s: &str) -> (r: Option<Vec<u8>>)
    ensures
        match r {
            Some(v) => base64_bytes(s@) == Some(v@),
            None => base64_bytes(s@) is None,
        },
{
    base64::engine::general_purpose::STANDARD.decode(s).ok()
}

/// Relies on `ecies::encrypt`: it fails when the public key does not parse,
/// and otherwise only for a message over the cipher's 2^36-byte limit. The
/// ephemeral key is fresh each call, so only this is known of a ciphertext:
/// `ecies::decrypt` opens it to the message under every matching secret key.
#[verifier::external_body]
fn ecies_seal(pk: &[u8], msg: &[u8]) -> (r: Option<Vec<u8>>)
    ensures
        r is Some ==> ecies_key_ok(pk@),
        ecies_key_ok(pk@) && msg@.len() <= 0x10_0000_0000 ==> r is Some,
        forall|sk: Seq<u8>|
            #[trigger] ecies_pair(sk, pk@) && msg@.len() <= 0x10_0000_0000 ==> r is Some,
        r matches Some(c) ==> forall|sk: Seq<u8>|
            #[trigger] ecies_pair(sk, pk@) ==> ecies_open(sk, c@) == Some(msg@),
{
    ecies::encrypt(pk, msg).ok()
}

/// Relies on `ecies::decrypt`, with the crate's default configuration,
/// which this library never changes.
#[verifier::external_body]
fn ecies_unseal(sk: &[u8], ct: &[u8]) -> (r: Option<Vec<u8>>)
    ensures
        match r {
            Some(v) => ecies_open(sk@, ct@) == Some(v@),
            None => ecies_open(sk@, ct@) is None,
        },
{
    ecies::decrypt(sk, ct).ok()
}

/// Why encryption or decryption failed.
#[derive(Debug, Clone, Copy, PartialEq, Eq)]
pub enum CryptoError {
    /// Key material is not base64 text.
    KeyEncoding,
    /// The public key was rejected by the cipher.
    KeyFormat,
    /// The response is not base64 text.
    ResponseEncoding,
    /// Wrong key, corruption or tampering: the ciphertext did not authenticate.
    Decryption,
}

/// The request plaintext: each name's UTF-8 bytes in base64, joined by `|`.
pub open spec fn payload_text(names: Seq<Seq<char>>) -> Seq<char>
    decreases names.len(),
{
    if names.len() == 0 {
        Seq::empty()
    } else if names.len() == 1 {
        base64_of(encode_utf8(names[0]))
    } else {
        payload_text(names.drop_last()) + seq!['|'] + base64_of(encode_utf8(names.last()))
    }
}

/// Joins the base64 of each name with `|`, in the order given.
pub fn encode_payload(names: &Vec<String>) -> (r: String)
    ensures
        r@ == payload_text(names.deep_view()),
{
    let ghost ns = names.deep_view();
    let mut out = String::new();
    let mut i: usize = 0;
    while i < names.len()
        invariant
            ns == names.deep_view(),
            i <= names@.len(),
            out@ == payload_text(ns.take(i as int)),
        decreases names@.len() - i,
    {
        proof {
            reveal_strlit("|");
            assert(ns.take(i + 1).drop_last() =~= ns.take(i as int));
            assert(ns[i as int] == names@[i as int]@);
        }
        let ghost before = out@;
        if i > 0 {
            out.append("|");
        }
        let b = names[i].as_str().as_bytes();
        let piece = b64_encode(b);
        out.append(piece.as_str());
        proof {
            if i == 0 {
                assert(out@ =~= payload_text(ns.take(1)));
            } else {
                assert(out@ =~= payload_text(ns.take(i + 1)));
            }
        }
        i = i + 1;
    }
    assert(ns.take(i as int) =~= ns);
    out
}

/// Whether base64 key text decodes to a public key that the cipher accepts.
pub open spec fn public_key_ok(public_key: Seq<char>) -> bool {
    base64_bytes(public_key) matches Some(k) && ecies_key_ok(k)
}

/// Whether a ciphertext opens to `m` under every secret key that matches
/// the public key that the base64 text stands for.
pub open spec fn opens_to(c: Seq<u8>, public_key: Seq<char>, m: Seq<u8>) -> bool {
    forall|sk: Seq<u8>|
        #[trigger] ecies_pair(sk, base64_bytes(public_key)->Some_0) ==> ecies_open(sk, c) == Some(m)
}

/// The largest plaintext, in bytes, that the cipher takes.
pub open spec fn max_plaintext() -> int {
    0x10_0000_0000
}

/// Encrypts plaintext bytes for the holder of the secret key that matches
/// the base64 public key.
pub fn seal(plaintext: &[u8], public_key: &str) -> (r: Result<Vec<u8>, CryptoError>)
    ensures
        r is Ok ==> public_key_ok(public_key@),
        public_key_ok(public_key@) && plaintext@.len() <= max_plaintext() ==> r is Ok,
        base64_bytes(public_key@) is Some ==> forall|sk: Seq<u8>|
            #[trigger] ecies_pair(sk, base64_bytes(public_key@)->Some_0) && plaintext@.len()
                <= max_plaintext() ==> r is Ok,
        r matches Ok(c) ==> opens_to(c@, public_key@, plaintext@),
        r == Err::<Vec<u8>, CryptoError>(CryptoError::KeyEncoding) <==> base64_bytes(public_key@) is None,
        r is Err ==> r == Err::<Vec<u8>, CryptoError>(CryptoError::KeyEncoding) || r == Err::<
            Vec<u8>,
            CryptoError,
        >(CryptoError::KeyFormat),
{
    let pk = match b64_decode(public_key) {
        Some(pk) => pk,
        None => {
            return Err(CryptoError::KeyEncoding);
        },
    };
    match ecies_seal(pk.as_slice(), plaintext) {
        Some(c) => Ok(c),
        None => Err(CryptoError::KeyFormat),
    }
}

/// What decrypting a base64 response with a base64 secret key yields.
pub open spec fn decrypt_spec(response: Seq<char>, secret_key: Seq<char>) -> Result<
    Seq<u8>,
    CryptoError,
> {
    match base64_bytes(response) {
        None => Err(CryptoError::ResponseEncoding),
        Some(ct) => match base64_bytes(secret_key) {
            None => Err(CryptoError::KeyEncoding),
            Some(sk) => match ecies_open(sk, ct) {
                None => Err(CryptoError::Decryption),
                Some(plain) => Ok(plain),
            },
        },
    }
}

/// Decodes and decrypts a response frame into its plaintext bytes. Never
/// yields part of a plaintext: any failure is an error.
pub fn decrypt_response(response: &str, secret_key: &str) -> (r: Result<Vec<u8>, CryptoError>)
    ensures
        match r {
            Ok(b) => decrypt_spec(response@, secret_key@) == Ok::<Seq<u8>, CryptoError>(b@),
            Err(e) => decrypt_spec(response@, secret_key@) == Err::<Seq<u8>, CryptoError>(e),
        },
{
    let ct = match b64_decode(response) {
        Some(c) => c,
        None => {
            return Err(CryptoError::ResponseEncoding);
        },
    };
    let sk = match b64_decode(secret_key) {
        Some(k) => k,
        None => {
            return Err(CryptoError::KeyEncoding);
        },
    };
    match ecies_unseal(sk.as_slice(), ct.as_slice()) {
        Some(p) => Ok(p),
        None => Err(CryptoError::Decryption),
    }
}

/// Any plaintext buffer sealed for a public key comes back, byte for byte,
/// from the response that carries the ciphertext in base64, under the
/// base64 text of a matching secret key.
pub proof fn lemma_sealed_bytes_decrypt(
    c: Seq<u8>,
    public_key: Seq<char>,
    m: Seq<u8>,
    response: Seq<char>,
    secret_key: Seq<char>,
)
    requires
        opens_to(c, public_key, m),
        base64_bytes(response) == Some(c),
        base64_bytes(secret_key) matches Some(sk) && ecies_pair(sk, base64_bytes(public_key)->Some_0),
    ensures
        decrypt_spec(response, secret_key) == Ok::<Seq<u8>, CryptoError>(m),
{
    let sk = base64_bytes(secret_key)->Some_0;
    assert(ecies_pair(sk, base64_bytes(public_key)->Some_0));
}

} // verus!
