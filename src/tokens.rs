//! Login tokens: a payload and its keyed BLAKE2b signature, written as two
//! URL-safe base64 pieces joined by a dot.
use vstd::prelude::*;

use base64::Engine;
use blake2::digest::Mac;

use crate::clock::now_micros;
use crate::models::{Error, TokenPayload, CODE_INTERNAL, CODE_INVALID_ARGUMENT};

verus! {

/// What base64's URL-safe engine without padding writes for these bytes.
pub uninterp spec fn url_base64(b: Seq<u8>) -> Seq<char>;

/// What base64's URL-safe engine without padding reads from this text, if it is valid.
pub uninterp spec fn url_base64_decoded(s: Seq<char>) -> Option<Seq<u8>>;

/// The 32-byte BLAKE2b MAC of `data` under `key`.
pub uninterp spec fn blake2b_mac(key: Seq<u8>, data: Seq<u8>) -> Seq<u8>;

/// A character of the URL-safe base64 alphabet.
pub open spec fn url_safe_char(c: char) -> bool {
    ('A' <= c && c <= 'Z') || ('a' <= c && c <= 'z') || ('0' <= c && c <= '9') || c == '-' || c == '_'
}

/// Relies on base64's `URL_SAFE_NO_PAD.encode`: the text depends on the bytes alone
/// and uses the URL-safe alphabet only.
#[verifier::external_body]
fn encode_url(bytes: &Vec<u8>) -> (r: String)
    ensures
        r@ == url_base64(bytes@),
        forall|i: int| 0 <= i < r@.len() ==> url_safe_char(#[trigger] r@[i]),
{
    base64::engine::general_purpose::URL_SAFE_NO_PAD.encode(bytes)
}

/// Relies on base64's `URL_SAFE_NO_PAD.decode`: the bytes, or an error for text
/// that is not valid, depending on the text alone.
#[verifier::external_body]
fn decode_url(text: &str) -> (r: Option<Vec<u8>>)
    ensures
        url_base64_decoded(text@) == match r {
            Some(v) => Some(v@),
            None => None::<Seq<u8>>,
        },
{
    base64::engine::general_purpose::URL_SAFE_NO_PAD.decode(text).ok()
}

/// Relies on blake2's `Blake2bMac<U32>` with an empty salt and persona: a 32-byte
/// tag that depends on the key and the data alone. Keys over 64 bytes panic there.
#[verifier::external_body]
fn sign(key: &Vec<u8>, data: &Vec<u8>) -> (r: Vec<u8>)
    requires
        key@.len() <= 64,
    ensures
        r@ == blake2b_mac(key@, data@),
        r@.len() == 32,
{
    let mut m = blake2::Blake2bMac::<blake2::digest::consts::U32>::new_with_salt_and_personal(key, &[], &[]).unwrap();
    m.update(data);
    m.finalize().into_bytes().to_vec()
}

/// Relies on blake2's `Blake2bMac<U32>` and digest's `Mac::verify_slice`: accepts
/// exactly the tag that `sign` gives for this key and data.
#[verifier::external_body]
fn signature_matches(key: &Vec<u8>, data: &Vec<u8>, tag: &Vec<u8>) -> (r: bool)
    requires
        key@.len() <= 64,
    ensures
        r == (tag@ == blake2b_mac(key@, data@)),
{
    let mut m = blake2::Blake2bMac::<blake2::digest::consts::U32>::new_with_salt_and_personal(key, &[], &[]).unwrap();
    m.update(data);
    m.verify_slice(tag).is_ok()
}

/// Relies on rand's `thread_rng` and `RngCore::fill_bytes`: `n` random bytes.
#[verifier::external_body]
fn random_bytes(n: usize) -> (r: Vec<u8>)
    ensures
        r@.len() == n,
{
    let mut key = vec![0u8; n];
    rand::RngCore::fill_bytes(&mut rand::thread_rng(), &mut key);
    key
}

/// A signed token: the signature over the payload's bytes.
#[derive(Clone, Debug)]
pub struct Token {
    pub signature: Vec<u8>,
    pub payload: Vec<u8>,
}

/// `k` is the only position of a dot in `s`.
pub open spec fn only_dot_at(s: Seq<char>, k: int) -> bool {
    &&& 0 <= k < s.len()
    &&& s[k] == '.'
    &&& forall|j: int| 0 <= j < s.len() && j != k ==> #[trigger] s[j] != '.'
}

/// The two dot-separated pieces of a token's text, when it holds exactly one dot.
pub open spec fn token_parts(s: Seq<char>) -> Option<(Seq<char>, Seq<char>)> {
    if exists|k: int| #[trigger] only_dot_at(s, k) {
        let k = choose|k: int| #[trigger] only_dot_at(s, k);
        Some((s.take(k), s.skip(k + 1)))
    } else {
        None
    }
}

/// The position of the only dot, if there is exactly one.
fn single_dot(chars: &Vec<char>) -> (r: Option<usize>)
    ensures
        r matches Some(k) ==> only_dot_at(chars@, k as int),
        r is None ==> forall|k: int| !#[trigger] only_dot_at(chars@, k),
{
    let n = chars.len();
    let mut k: usize = 0;
    while k < n && chars[k] != '.'
        invariant
            n == chars@.len(),
            k <= n,
            forall|j: int| 0 <= j < k ==> chars@[j] != '.',
        decreases n - k,
    {
        k = k + 1;
    }
    if k == n {
        return None;
    }
    let mut j: usize = k + 1;
    while j < n
        invariant
            n == chars@.len(),
            k < j <= n,
            chars@[k as int] == '.',
            forall|i: int| 0 <= i < k ==> chars@[i] != '.',
            forall|i: int| k < i < j ==> chars@[i] != '.',
        decreases n - j,
    {
        if chars[j] == '.' {
            assert forall|m: int| !#[trigger] only_dot_at(chars@, m) by {
                if 0 <= m < n && chars@[m] == '.' {
                    if m == k {
                        assert(chars@[j as int] == '.');
                    } else {
                        assert(chars@[k as int] == '.');
                    }
                }
            }
            return None;
        }
        j = j + 1;
    }
    Some(k)
}

/// How a token is written: the payload's text, a dot, the signature's text.
pub open spec fn token_text(t: Token) -> Seq<char> {
    url_base64(t.payload@) + seq!['.'] + url_base64(t.signature@)
}

impl Token {
    /// The token's text.
    pub fn to_string(&self) -> (r: String)
        ensures
            r@ == token_text(*self),
    {
        let payload = encode_url(&self.payload);
        let signature = encode_url(&self.signature);
        let with_dot = payload.concat(".");
        proof {
            reveal_strlit(".");
        }
        let r = with_dot.concat(signature.as_str());
        proof {
            assert("."@ =~= seq!['.']);
        }
        r
    }

    /// Reads a token's text: exactly one dot, and both pieces valid base64.
    pub fn parse(s: &str) -> (r: Result<Token, Error>)
        ensures
            token_parts(s@) is None ==> (r matches Err(e) && e.code == CODE_INVALID_ARGUMENT),
            token_parts(s@) matches Some((p, q)) ==> {
                &&& (url_base64_decoded(p) is Some && url_base64_decoded(q) is Some) <==> r is Ok
                &&& r matches Ok(t) ==> t.payload@ == url_base64_decoded(p)->0 && t.signature@
                    == url_base64_decoded(q)->0
                &&& r matches Err(e) ==> e.code == CODE_INVALID_ARGUMENT
            },
    {
        let chars = crate::text::chars_of(s);
        let n = chars.len();
        let k = match single_dot(&chars) {
            Some(k) => k,
            None => {
                return Err(Error::invalid_argument());
            },
        };
        proof {
            let c = choose|c: int| #[trigger] only_dot_at(s@, c);
            assert(only_dot_at(s@, k as int));
            if c != k {
                assert(s@[c] != '.');
            }
        }
        let first = s.substring_char(0, k);
        let second = s.substring_char(k + 1, n);
        proof {
            assert(first@ =~= s@.take(k as int));
            assert(second@ =~= s@.skip(k + 1));
        }
        let signature = match decode_url(second) {
            Some(v) => v,
            None => {
                return Err(Error::invalid_argument());
            },
        };
        let payload = match decode_url(first) {
            Some(v) => v,
            None => {
                return Err(Error::invalid_argument());
            },
        };
        Ok(Token { signature, payload })
    }
}

/// Signs and checks tokens with a random key of its own.
#[derive(Clone, Debug)]
pub struct TokenFactory {
    key: Vec<u8>,
}

/// The verdict on a signed payload at time `now`: accepted unless it has expired.
pub open spec fn expiry_verdict(payload: TokenPayload, now: i64) -> Result<TokenPayload, i32> {
    if payload.expires < now {
        Err(CODE_INVALID_ARGUMENT)
    } else {
        Ok(payload)
    }
}

/// Accepts a payload whose signature checked, unless it expired before `now`
/// (microseconds since the Unix epoch).
pub fn check_expiry(payload: TokenPayload, now: i64) -> (r: Result<TokenPayload, Error>)
    ensures
        match expiry_verdict(payload, now) {
            Ok(p) => r matches Ok(q) && q == p,
            Err(code) => r matches Err(e) && e.code == code,
        },
{
    if payload.expires < now {
        Err(Error::invalid_argument())
    } else {
        Ok(payload)
    }
}

impl TokenPayload {
    /// Whether the token lets a client at `address` act as user `user_id`.
    pub fn authorizes(&self, address: &str, user_id: i32) -> (r: bool)
        ensures
            r == (self.address@ == address@ && self.subject.id == user_id),
    {
        crate::text::same_text(self.address.as_str(), address) && self.subject.id == user_id
    }
}

impl TokenFactory {
    /// The signing key.
    pub closed spec fn key(&self) -> Seq<u8> {
        self.key@
    }

    /// A factory with a fresh random 16-byte key.
    pub fn new() -> (r: TokenFactory)
        ensures
            r.key().len() == 16,
    {
        TokenFactory { key: random_bytes(16) }
    }

    /// Signs the payload's bytes.
    pub fn create(&self, payload: &Vec<u8>) -> (r: Token)
        requires
            self.key().len() <= 64,
        ensures
            r.payload@ == payload@,
            r.signature@ == blake2b_mac(self.key(), payload@),
    {
        let signature = sign(&self.key, payload);
        Token { signature, payload: payload.clone() }
    }

    /// Checks a token: its signature must be this factory's over its payload, its
    /// payload must have been read (`payload`, `None` when it is not a payload), and
    /// it must not have expired by now. With a good signature and a payload, the
    /// result is `check_expiry`'s at the current time, whatever the clock reads.
    pub fn parse(&self, token: &Token, payload: Option<TokenPayload>) -> (r: Result<TokenPayload, Error>)
        requires
            self.key().len() <= 64,
        ensures
            token.signature@ != blake2b_mac(self.key(), token.payload@) ==> (r matches Err(e) && e.code
                == CODE_INVALID_ARGUMENT),
            token.signature@ == blake2b_mac(self.key(), token.payload@) && payload is None ==> (r matches Err(e)
                && e.code == CODE_INTERNAL),
            r matches Ok(p) ==> payload == Some(p) && token.signature@ == blake2b_mac(self.key(), token.payload@),
            token.signature@ == blake2b_mac(self.key(), token.payload@) && payload is Some ==> exists|now: i64|
                match #[trigger] expiry_verdict(payload->0, now) {
                    Ok(q) => r matches Ok(x) && x == q,
                    Err(c) => r matches Err(e) && e.code == c,
                },
            r matches Err(e) ==> e.code == CODE_INVALID_ARGUMENT || e.code == CODE_INTERNAL,
    {
        if !signature_matches(&self.key, &token.payload, &token.signature) {
            return Err(Error::invalid_argument());
        }
        match payload {
            None => Err(Error::internal()),
            Some(p) => {
                let now = now_micros();
                let r = check_expiry(p, now);
                proof {
                    assert(match expiry_verdict(payload->0, now) {
                        Ok(q) => r matches Ok(x) && x == q,
                        Err(c) => r matches Err(e) && e.code == c,
                    });
                }
                r
            },
        }
    }
}

} // verus!
