use vstd::prelude::*;
use vstd::utf8::encode_utf8;
use crate::codec::{
    base64_of, base64_bytes, ecies_pair, encode_payload, max_plaintext, opens_to, payload_text, public_key_ok, seal,
    CryptoError,
};
use crate::store::{index_of_newline, lemma_index_of_newline};

verus! {

/// Code-point order on strings, shorter prefix first.
pub open spec fn lex_lt(a: Seq<char>, b: Seq<char>) -> bool
    decreases a.len(),
{
    if b.len() == 0 {
        false
    } else if a.len() == 0 {
        true
    } else if a[0] != b[0] {
        a[0] < b[0]
    } else {
        lex_lt(a.drop_first(), b.drop_first())
    }
}

/// Strictly increasing, hence free of repeats.
pub open spec fn strictly_sorted(s: Seq<Seq<char>>) -> bool {
    forall|i: int, j: int| 0 <= i < j < s.len() ==> lex_lt(s[i], s[j])
}

pub proof fn lemma_lex_total(a: Seq<char>, b: Seq<char>)
    ensures
        !lex_lt(a, a),
        a != b ==> (lex_lt(a, b) || lex_lt(b, a)),
        !(lex_lt(a, b) && lex_lt(b, a)),
    decreases a.len(),
{
    if a.len() > 0 {
        lemma_lex_total(a.drop_first(), a.drop_first());
    }
    if a.len() > 0 && b.len() > 0 {
        lemma_lex_total(a.drop_first(), b.drop_first());
        if a != b && a[0] == b[0] {
            assert(a.drop_first() != b.drop_first()) by {
                if a.drop_first() == b.drop_first() {
                    assert(a =~= seq![a[0]] + a.drop_first());
                    assert(b =~= seq![b[0]] + b.drop_first());
                }
            }
        }
    } else if a.len() == 0 && b.len() == 0 {
        assert(a =~= b);
    }
}

pub proof fn lemma_lex_trans(a: Seq<char>, b: Seq<char>, c: Seq<char>)
    requires
        lex_lt(a, b),
        lex_lt(b, c),
    ensures
        lex_lt(a, c),
    decreases a.len(),
{
    if a.len() > 0 && b.len() > 0 && c.len() > 0 && a[0] == b[0] && b[0] == c[0] {
        lemma_lex_trans(a.drop_first(), b.drop_first(), c.drop_first());
    }
}

/// Whether `a` comes strictly before `b` in code-point order.
pub fn text_lt(a: &str, b: &str) -> (r: bool)
    ensures
        r == lex_lt(a@, b@),
{
    let n = a.unicode_len();
    let m = b.unicode_len();
    let mut i: usize = 0;
    proof {
        assert(a@.skip(0) =~= a@);
        assert(b@.skip(0) =~= b@);
    }
    while i < n && i < m
        invariant
            n == a@.len(),
            m == b@.len(),
            i <= n,
            i <= m,
            lex_lt(a@, b@) == lex_lt(a@.skip(i as int), b@.skip(i as int)),
        decreases n - i,
    {
        let x = a.get_char(i);
        let y = b.get_char(i);
        proof {
            assert(a@.skip(i as int)[0] == x);
            assert(b@.skip(i as int)[0] == y);
            assert(a@.skip(i as int).drop_first() =~= a@.skip(i + 1));
            assert(b@.skip(i as int).drop_first() =~= b@.skip(i + 1));
        }
        if x != y {
            return x < y;
        }
        i = i + 1;
    }
    i < m
}

/// Adds `x` to a strictly sorted list of strings, where it belongs.
pub fn insert_sorted(v: &mut Vec<String>, x: &str)
    requires
        strictly_sorted(old(v).deep_view()),
    ensures
        strictly_sorted(final(v).deep_view()),
        final(v).deep_view().to_set() == old(v).deep_view().to_set().insert(x@),
{
    let ghost s = v.deep_view();
    let mut p: usize = 0;
    while p < v.len() && text_lt(v[p].as_str(), x)
        invariant
            s == v.deep_view(),
            p <= v@.len(),
            forall|j: int| 0 <= j < p ==> lex_lt(s[j], x@),
        decreases v@.len() - p,
    {
        p = p + 1;
    }
    if p < v.len() && crate::store::text_eq(v[p].as_str(), x) {
        assert(s.to_set().insert(x@) =~= s.to_set()) by {
            assert(s[p as int] == x@);
        }
        return;
    }
    proof {
        if p < s.len() {
            lemma_lex_total(s[p as int], x@);
            assert forall|k: int| p <= k < s.len() implies lex_lt(x@, s[k]) by {
                if k > p {
                    lemma_lex_trans(x@, s[p as int], s[k]);
                }
            }
        }
    }
    v.insert(p, String::from_str(x));
    let ghost t = v.deep_view();
    assert(t =~= s.insert(p as int, x@));
    assert forall|i: int, j: int| 0 <= i < j < t.len() implies lex_lt(t[i], t[j]) by {
        if j < p {
        } else if j == p {
        } else if i < p {
            lemma_lex_trans(t[i], x@, t[j]);
        } else if i == p {
        } else {
        }
    }
    assert forall|y: Seq<char>| t.to_set().contains(y) <==> s.to_set().insert(x@).contains(y) by {
        if t.contains(y) {
            let k = choose|k: int| 0 <= k < t.len() && t[k] == y;
            if k < p {
                assert(s[k] == y);
            } else if k > p {
                assert(s[k - 1] == y);
            }
        }
        if s.contains(y) {
            let k = choose|k: int| 0 <= k < s.len() && s[k] == y;
            if k < p {
                assert(t[k] == y);
            } else {
                assert(t[k + 1] == y);
            }
        }
        if y == x@ {
            assert(t[p as int] == y);
        }
    }
    assert(t.to_set() =~= s.to_set().insert(x@));
}

/// The same names, each once, in code-point order.
pub fn canonical_names(names: &Vec<String>) -> (r: Vec<String>)
    ensures
        strictly_sorted(r.deep_view()),
        r.deep_view().to_set() == names.deep_view().to_set(),
{
    let ghost ns = names.deep_view();
    let mut r: Vec<String> = Vec::new();
    let mut i: usize = 0;
    assert(r.deep_view().to_set() =~= ns.take(0).to_set());
    while i < names.len()
        invariant
            ns == names.deep_view(),
            i <= ns.len(),
            strictly_sorted(r.deep_view()),
            r.deep_view().to_set() == ns.take(i as int).to_set(),
        decreases ns.len() - i,
    {
        insert_sorted(&mut r, names[i].as_str());
        proof {
            assert(ns.take(i + 1) =~= ns.take(i as int).push(ns[i as int]));
            assert(ns[i as int] == names@[i as int]@);
            let a = ns.take(i as int);
            let b = ns.take(i + 1);
            assert(b =~= a.push(ns[i as int]));
            assert forall|y: Seq<char>| b.contains(y) implies a.to_set().insert(ns[i as int]).contains(y) by {
                let k = choose|k: int| 0 <= k < b.len() && b[k] == y;
                if k < i {
                    assert(a[k] == y);
                }
            }
            assert forall|y: Seq<char>| a.contains(y) implies b.contains(y) by {
                let k = choose|k: int| 0 <= k < a.len() && a[k] == y;
                assert(b[k] == y);
            }
            assert(b[i as int] == ns[i as int]);
            assert(b.to_set() =~= a.to_set().insert(ns[i as int]));
        }
        i = i + 1;
    }
    assert(ns.take(i as int) =~= ns);
    r
}

/// The names of a set in code-point order, each once.
pub open spec fn canonical_order(s: Set<Seq<char>>) -> Seq<Seq<char>> {
    choose|c: Seq<Seq<char>>| strictly_sorted(c) && c.to_set() == s
}

/// The canonical request plaintext of some package names: the names
/// sorted, each once, in base64, joined by `|`.
pub open spec fn canonical_payload(names: Seq<Seq<char>>) -> Seq<char> {
    payload_text(canonical_order(names.to_set()))
}

/// Two strictly sorted sequences with the same elements are equal.
pub proof fn lemma_sorted_unique(a: Seq<Seq<char>>, b: Seq<Seq<char>>)
    requires
        strictly_sorted(a),
        strictly_sorted(b),
        a.to_set() == b.to_set(),
    ensures
        a == b,
    decreases a.len(),
{
    if a.len() == 0 {
        if b.len() > 0 {
            assert(b.to_set().contains(b[0]));
        }
        assert(a =~= b);
    } else {
        assert(a.to_set().contains(a[0]));
        assert(b.len() > 0);
        assert(b.to_set().contains(b[0]));
        let j = choose|j: int| 0 <= j < b.len() && b[j] == a[0];
        let i = choose|i: int| 0 <= i < a.len() && a[i] == b[0];
        lemma_lex_total(a[0], b[0]);
        if j > 0 {
            assert(lex_lt(b[0], a[0]));
            if i > 0 {
                assert(lex_lt(a[0], b[0]));
            }
        }
        assert(a[0] == b[0]);
        let a1 = a.drop_first();
        let b1 = b.drop_first();
        assert forall|y: Seq<char>| a1.contains(y) <==> b1.contains(y) by {
            if a1.contains(y) {
                let k = choose|k: int| 0 <= k < a1.len() && a1[k] == y;
                assert(a[k + 1] == y);
                assert(b.to_set().contains(y));
                let m = choose|m: int| 0 <= m < b.len() && b[m] == y;
                lemma_lex_total(a[0], y);
                if m == 0 {
                    assert(lex_lt(a[0], a[k + 1]));
                }
                assert(b1[m - 1] == y);
            }
            if b1.contains(y) {
                let k = choose|k: int| 0 <= k < b1.len() && b1[k] == y;
                assert(b[k + 1] == y);
                assert(a.to_set().contains(y));
                let m = choose|m: int| 0 <= m < a.len() && a[m] == y;
                lemma_lex_total(b[0], y);
                if m == 0 {
                    assert(lex_lt(b[0], b[k + 1]));
                }
                assert(a1[m - 1] == y);
            }
        }
        assert(a1.to_set() =~= b1.to_set());
        lemma_sorted_unique(a1, b1);
        assert(a =~= seq![a[0]] + a1);
        assert(b =~= seq![b[0]] + b1);
    }
}

/// The canonical request plaintext of a set of package names.
pub fn request_plaintext(names: &Vec<String>) -> (r: String)
    ensures
        r@ == canonical_payload(names.deep_view()),
{
    let c = canonical_names(names);
    proof {
        let s = names.deep_view().to_set();
        let o = canonical_order(s);
        assert(strictly_sorted(c.deep_view()) && c.deep_view().to_set() == s);
        lemma_sorted_unique(c.deep_view(), o);
    }
    encode_payload(&c)
}

/// Encrypts the canonical plaintext of the names for the server's base64
/// public key. Succeeds exactly when the key is base64 of a point that the
/// cipher accepts (for any plaintext within the cipher's limit); the
/// ciphertext then opens to that plaintext under the matching secret key.
pub fn encrypt_request(packages: &Vec<String>, public_key: &str) -> (r: Result<Vec<u8>, CryptoError>)
    ensures
        r is Ok ==> public_key_ok(public_key@),
        public_key_ok(public_key@) && encode_utf8(canonical_payload(packages.deep_view())).len()
            <= max_plaintext() ==> r is Ok,
        base64_bytes(public_key@) is Some ==> forall|sk: Seq<u8>|
            #[trigger] ecies_pair(sk, base64_bytes(public_key@)->Some_0) && encode_utf8(
                canonical_payload(packages.deep_view()),
            ).len() <= max_plaintext() ==> r is Ok,
        r matches Ok(c) ==> opens_to(c@, public_key@, encode_utf8(canonical_payload(packages.deep_view()))),
        r == Err::<Vec<u8>, CryptoError>(CryptoError::KeyEncoding) <==> base64_bytes(public_key@) is None,
        r is Err ==> r == Err::<Vec<u8>, CryptoError>(CryptoError::KeyEncoding) || r == Err::<
            Vec<u8>,
            CryptoError,
        >(CryptoError::KeyFormat),
{
    let plaintext = request_plaintext(packages);
    seal(plaintext.as_str().as_bytes(), public_key)
}

/// The text with leading and trailing white space removed.
pub uninterp spec fn trim_of(s: Seq<char>) -> Seq<char>;

/// Relies on `str::trim`: the text without leading and trailing white space.
#[verifier::external_body]
fn trim_text(s: &str) -> (r: &str)
    ensures
        r@ == trim_of(s@),
{
    s.trim()
}

/// The lines of a text: split at each line break; a final line break ends
/// the last line rather than starting an empty one.
pub open spec fn lines_of(t: Seq<char>) -> Seq<Seq<char>>
    decreases t.len(),
{
    if t.len() == 0 {
        Seq::empty()
    } else {
        let k = index_of_newline(t);
        if 0 <= k <= t.len() {
            seq![t.subrange(0, k)] + lines_of(
                if k < t.len() {
                    t.subrange(k + 1, t.len() as int)
                } else {
                    Seq::empty()
                },
            )
        } else {
            Seq::empty()
        }
    }
}

/// The names that some lines list: each line trimmed, blank ones left out.
pub open spec fn names_in(ls: Seq<Seq<char>>) -> Set<Seq<char>>
    decreases ls.len(),
{
    if ls.len() == 0 {
        Set::empty()
    } else if trim_of(ls.last()).len() > 0 {
        names_in(ls.drop_last()).insert(trim_of(ls.last()))
    } else {
        names_in(ls.drop_last())
    }
}

/// Reads a package list: one name per line, white space around a name
/// trimmed, blank lines ignored. The names come once each, sorted.
pub fn load_package_list(content: &str) -> (r: Vec<String>)
    ensures
        strictly_sorted(r.deep_view()),
        r.deep_view().to_set() == names_in(lines_of(content@)),
{
    let n = content.unicode_len();
    let ghost t = content@;
    let mut r: Vec<String> = Vec::new();
    let ghost mut done: Seq<Seq<char>> = Seq::empty();
    let mut pos: usize = 0;
    proof {
        assert(t.subrange(0, n as int) =~= t);
        assert(done + lines_of(t) =~= lines_of(t));
        assert(r.deep_view().to_set() =~= Set::<Seq<char>>::empty());
    }
    while pos < n
        invariant
            n == t.len(),
            t == content@,
            pos <= n,
            strictly_sorted(r.deep_view()),
            r.deep_view().to_set() == names_in(done),
            lines_of(t) == done + lines_of(t.subrange(pos as int, n as int)),
        decreases n - pos,
    {
        let ghost u = t.subrange(pos as int, n as int);
        let mut k: usize = pos;
        while k < n && content.get_char(k) != '\n'
            invariant
                pos <= k <= n,
                n == t.len(),
                t == content@,
                forall|j: int| pos <= j < k ==> t[j] != '\n',
            decreases n - k,
        {
            k = k + 1;
        }
        proof {
            lemma_index_of_newline(u, k - pos);
        }
        let line = content.substring_char(pos, k);
        let name = trim_text(line);
        if name.unicode_len() > 0 {
            insert_sorted(&mut r, name);
        }
        let next: usize = if k < n { k + 1 } else { n };
        proof {
            assert(line@ =~= u.subrange(0, k - pos));
            let rest = t.subrange(next as int, n as int);
            if k < n {
                assert(u.subrange(k - pos + 1, u.len() as int) =~= rest);
            } else {
                assert(rest =~= Seq::<char>::empty());
            }
            assert(lines_of(u) == seq![line@] + lines_of(rest));
            assert(done + lines_of(u) =~= done.push(line@) + lines_of(rest));
            assert(done.push(line@).drop_last() =~= done);
            done = done.push(line@);
        }
        pos = next;
    }
    proof {
        assert(t.subrange(pos as int, n as int) =~= Seq::<char>::empty());
        assert(done + Seq::<Seq<char>>::empty() =~= done);
    }
    r
}

/// The JSON string literal that stands for a text.
pub uninterp spec fn json_quoted(s: Seq<char>) -> Seq<char>;

/// Relies on `serde_json::to_string` of a `&str`: the quoted and escaped
/// JSON string. Serialising a string does not fail.
#[verifier::external_body]
fn json_string(s: &str) -> (r: String)
    ensures
        r@ == json_quoted(s@),
{
    match serde_json::to_string(s) {
        Ok(t) => t,
        Err(_) => String::new(),
    }
}

/// The JSON request object: the account id and the base64 ciphertext.
pub open spec fn request_json(uuid: Seq<char>, raw: Seq<char>) -> Seq<char> {
    seq!['{', '"', 'u', 'u', 'i', 'd', '"', ':'] + json_quoted(uuid) + seq![
        ',',
        '"',
        'r',
        'a',
        'w',
        '"',
        ':',
        '"',
    ] + raw + seq!['"', '}']
}

/// The text frame that carries a request: the base64 of its JSON object.
pub fn request_frame(uuid: &str, ciphertext: &Vec<u8>) -> (r: String)
    ensures
        r@ == base64_of(encode_utf8(request_json(uuid@, base64_of(ciphertext@)))),
{
    proof {
        reveal_strlit("{\"uuid\":");
        reveal_strlit(",\"raw\":\"");
        reveal_strlit("\"}");
    }
    let raw = crate::codec::b64_encode(ciphertext.as_slice());
    let mut json = String::from_str("{\"uuid\":");
    let quoted = json_string(uuid);
    json.append(quoted.as_str());
    json.append(",\"raw\":\"");
    json.append(raw.as_str());
    json.append("\"}");
    assert(json@ =~= request_json(uuid@, base64_of(ciphertext@)));
    crate::codec::b64_encode(json.as_str().as_bytes())
}

/// Where the server is, who is asking, and the key material.
pub struct UserConfig {
    pub url: String,
    pub uuid: String,
    pub secret: String,
    pub public: String,
}

/// Why a configuration cannot be used.
#[derive(Debug, Clone, Copy, PartialEq, Eq)]
pub enum ConfigError {
    MissingUrl,
    BadSecretKey,
    BadPublicKey,
}

impl UserConfig {
    /// Checks, before any network attempt, that the server address is set
    /// and both keys are base64 text.
    pub fn check(&self) -> (r: Result<(), ConfigError>)
        ensures
            r == Err::<(), ConfigError>(ConfigError::MissingUrl) <==> self.url@.len() == 0,
            r == Err::<(), ConfigError>(ConfigError::BadSecretKey) <==> (self.url@.len() > 0
                && base64_bytes(self.secret@) is None),
            r == Err::<(), ConfigError>(ConfigError::BadPublicKey) <==> (self.url@.len() > 0
                && base64_bytes(self.secret@) is Some && base64_bytes(self.public@) is None),
    {
        if self.url.as_str().unicode_len() == 0 {
            return Err(ConfigError::MissingUrl);
        }
        if crate::codec::b64_decode(self.secret.as_str()).is_none() {
            return Err(ConfigError::BadSecretKey);
        }
        if crate::codec::b64_decode(self.public.as_str()).is_none() {
            return Err(ConfigError::BadPublicKey);
        }
        Ok(())
    }
}

/// The frame that one check sends: the names' canonical plaintext,
/// encrypted for the server, wrapped with the account id. A key that is not
/// base64 of an accepted point fails here, before any connection.
pub fn check_updates(user_cfg: &UserConfig, packages: &Vec<String>) -> (r: Result<String, CryptoError>)
    ensures
        r == Err::<String, CryptoError>(CryptoError::KeyEncoding) <==> base64_bytes(user_cfg.public@) is None,
        r is Err ==> r == Err::<String, CryptoError>(CryptoError::KeyEncoding) || r == Err::<
            String,
            CryptoError,
        >(CryptoError::KeyFormat),
        r is Ok ==> public_key_ok(user_cfg.public@),
        public_key_ok(user_cfg.public@) && encode_utf8(canonical_payload(packages.deep_view())).len()
            <= max_plaintext() ==> r is Ok,
        base64_bytes(user_cfg.public@) is Some ==> forall|sk: Seq<u8>|
            #[trigger] ecies_pair(sk, base64_bytes(user_cfg.public@)->Some_0) && encode_utf8(
                canonical_payload(packages.deep_view()),
            ).len() <= max_plaintext() ==> r is Ok,
        r matches Ok(f) ==> exists|c: Seq<u8>|
            #[trigger] opens_to(c, user_cfg.public@, encode_utf8(canonical_payload(packages.deep_view())))
                && f@ == base64_of(encode_utf8(request_json(user_cfg.uuid@, base64_of(c)))),
{
    match encrypt_request(packages, user_cfg.public.as_str()) {
        Ok(c) => {
            let f = request_frame(user_cfg.uuid.as_str(), &c);
            assert(opens_to(c@, user_cfg.public@, encode_utf8(canonical_payload(packages.deep_view()))));
            Ok(f)
        },
        Err(e) => Err(e),
    }
}

} // verus!
