//! Bearer-token authentication with Schubert capability tokens.
//!
//! A request authenticates with an `Authorization: Bearer <token>` header
//! whose token is the base64 (standard alphabet) encoding of a
//! [`GrantToken`] in its wire format. [`authenticate`] decides the outcome
//! from the installed verifier and the header's value; a web framework's
//! extractor hands it those and turns the outcome into a response.

use vstd::prelude::*;
use base64::Engine;
use crate::crypto::{entries_view, grant_decode, grant_message, signature_verifies, GrantToken, GrantVerifier};

verus! {

/// A request authenticated by a signature-verified grant token.
#[derive(Debug, Clone)]
pub struct AuthPrincipal(pub GrantToken);

/// Why authentication failed.
///
/// Client failures (no or invalid credential) are distinguished from server
/// misconfiguration (no verifier installed). The carried detail is
/// diagnostic only: the response body never includes it, so a client cannot
/// tell how far a forged token got.
#[derive(Debug)]
pub enum AuthError {
    /// The client did not present a valid credential (HTTP 401).
    Unauthorized(&'static str),
    /// The server is misconfigured, e.g. no verifier is installed (HTTP 500).
    ServerMisconfigured(&'static str),
}

/// The HTTP response an authentication error is answered with: its status
/// and body. The error's detail never enters it.
pub open spec fn auth_response(e: AuthError) -> (u16, Seq<char>) {
    match e {
        AuthError::Unauthorized(_) => (401, "Unauthorized"@),
        AuthError::ServerMisconfigured(_) => (500, "internal auth misconfiguration"@),
    }
}

/// Every client failure gets the same response, whatever its detail: 401
/// with the generic body; a misconfigured server gets 500.
pub proof fn law_response_hides_detail(d1: &'static str, d2: &'static str)
    ensures
        auth_response(AuthError::Unauthorized(d1)) == auth_response(AuthError::Unauthorized(d2)),
        auth_response(AuthError::Unauthorized(d1)) == (401u16, "Unauthorized"@),
        auth_response(AuthError::ServerMisconfigured(d1)) == (500u16, "internal auth misconfiguration"@),
{
}

impl AuthError {
    /// The HTTP status of the response: 401 for a client failure, 500 for a
    /// misconfigured server.
    pub fn status_code(&self) -> (r: u16)
        ensures
            self is Unauthorized ==> r == 401,
            self is ServerMisconfigured ==> r == 500,
            r == auth_response(*self).0,
    {
        match self {
            AuthError::Unauthorized(_) => 401,
            AuthError::ServerMisconfigured(_) => 500,
        }
    }

    /// The response body: the same generic text for every client failure.
    pub fn body(&self) -> (r: &'static str)
        ensures
            self is Unauthorized ==> r@ == "Unauthorized"@,
            self is ServerMisconfigured ==> r@ == "internal auth misconfiguration"@,
            r@ == auth_response(*self).1,
    {
        match self {
            AuthError::Unauthorized(_) => "Unauthorized",
            AuthError::ServerMisconfigured(_) => "internal auth misconfiguration",
        }
    }
}

/// The character is white space in the sense of Unicode's `White_Space`
/// property, which `str::trim` removes.
pub open spec fn is_space(c: char) -> bool {
    let x = c as u32;
    ||| 0x09 <= x <= 0x0d
    ||| x == 0x20
    ||| x == 0x85
    ||| x == 0xa0
    ||| x == 0x1680
    ||| 0x2000 <= x <= 0x200a
    ||| x == 0x2028
    ||| x == 0x2029
    ||| x == 0x202f
    ||| x == 0x205f
    ||| x == 0x3000
}

/// The text without its leading white space.
pub open spec fn trim_start(s: Seq<char>) -> Seq<char>
    decreases s.len(),
{
    if s.len() > 0 && is_space(s[0]) {
        trim_start(s.drop_first())
    } else {
        s
    }
}

/// The text without its trailing white space.
pub open spec fn trim_end(s: Seq<char>) -> Seq<char>
    decreases s.len(),
{
    if s.len() > 0 && is_space(s.last()) {
        trim_end(s.drop_last())
    } else {
        s
    }
}

/// The text without leading and trailing white space.
pub open spec fn trimmed(s: Seq<char>) -> Seq<char> {
    trim_end(trim_start(s))
}

/// The scheme prefix of a bearer credential.
pub open spec fn bearer_prefix() -> Seq<char> {
    seq!['B', 'e', 'a', 'r', 'e', 'r', ' ']
}

/// The bytes the standard base64 alphabet (with padding) decodes the text
/// to, or `None` where it is not valid base64.
pub uninterp spec fn base64_standard_decode(s: Seq<char>) -> Option<Seq<u8>>;

/// Decodes base64 text with `base64::engine::general_purpose::STANDARD`.
///
/// The engine's `decode` is a function of its input alone; its result is
/// named here.
#[verifier::external_body]
fn base64_decode(text: &str) -> (r: Option<Vec<u8>>)
    ensures
        match base64_standard_decode(text@) {
            Some(b) => r matches Some(v) && v@ == b,
            None => r is None,
        },
{
    base64::engine::general_purpose::STANDARD.decode(text).ok()
}

/// A decoded grant is accepted by the verifier's key: issued under that
/// key, with a 64-byte signature that verifies over the grant's message.
pub open spec fn grant_accepted(key: Seq<u8>, p: Seq<char>, es: Seq<(Seq<char>, Seq<usize>)>, issuer: Seq<u8>, sig: Seq<u8>) -> bool {
    &&& issuer == key
    &&& sig.len() == 64
    &&& signature_verifies(key, grant_message(p, es, issuer), sig)
}

/// What authentication returns for the bytes a credential decoded to: a
/// rejection when it was not base64, when the bytes are not a grant token,
/// or when the verifier's key does not accept the grant; otherwise the
/// grant.
pub open spec fn decoded_result(key: Seq<u8>, decoded: Option<Seq<u8>>, r: Result<AuthPrincipal, AuthError>) -> bool {
    match decoded {
        None => r matches Err(AuthError::Unauthorized(m)) && m@ == "invalid base64 token"@,
        Some(b) => match grant_decode(b) {
            Err(_) => r matches Err(AuthError::Unauthorized(m)) && m@ == "malformed capability token"@,
            Ok((p, es, issuer, sig)) => if grant_accepted(key, p, es, issuer, sig) {
                r matches Ok(a) && a.0.principal.0@ == p && entries_view(a.0.capabilities@) == es
                    && a.0.issuer_key@ == issuer && a.0.signature@ == sig
            } else {
                r matches Err(AuthError::Unauthorized(m)) && m@ == "invalid capability token signature"@
            },
        },
    }
}

/// What authentication returns: a server error without a verifier, a
/// rejection without a header or without the `Bearer ` scheme, and
/// otherwise the outcome for what the trimmed token decodes to.
pub open spec fn auth_result(key: Option<Seq<u8>>, header: Option<Seq<char>>, r: Result<AuthPrincipal, AuthError>) -> bool {
    match key {
        None => r matches Err(AuthError::ServerMisconfigured(m))
            && m@ == "auth state not installed — add Extension<Arc<GrantVerifier>> to the router"@,
        Some(key) => match header {
            None => r matches Err(AuthError::Unauthorized(m)) && m@ == "missing Authorization header"@,
            Some(h) => if h.len() >= 7 && h.subrange(0, 7) == bearer_prefix() {
                decoded_result(key, base64_standard_decode(trimmed(h.subrange(7, h.len() as int))), r)
            } else {
                r matches Err(AuthError::Unauthorized(m)) && m@ == "expected 'Bearer <token>' scheme"@
            },
        },
    }
}

/// Authenticate the bytes a bearer credential decoded to (`None` when it was
/// not valid base64) against a verifier.
pub fn authenticate_decoded(verifier: &GrantVerifier, decoded: Option<Vec<u8>>) -> (r: Result<AuthPrincipal, AuthError>)
    ensures
        decoded_result(verifier.key_bytes(), match decoded {
            Some(v) => Some(v@),
            None => None,
        }, r),
{
    let bytes = match decoded {
        None => return Err(AuthError::Unauthorized("invalid base64 token")),
        Some(b) => b,
    };
    let grant = match GrantToken::from_bytes(bytes.as_slice()) {
        Err(_) => return Err(AuthError::Unauthorized("malformed capability token")),
        Ok(g) => g,
    };
    match verifier.verify(&grant) {
        Err(_) => Err(AuthError::Unauthorized("invalid capability token signature")),
        Ok(()) => Ok(AuthPrincipal(grant)),
    }
}

/// Whether the text starts with `Bearer `.
fn has_bearer_prefix(h: &str) -> (r: bool)
    ensures
        r == (h@.len() >= 7 && h@.subrange(0, 7) == bearer_prefix()),
{
    let len = h.unicode_len();
    if len < 7 {
        return false;
    }
    let ok = h.get_char(0) == 'B' && h.get_char(1) == 'e' && h.get_char(2) == 'a' && h.get_char(3) == 'r'
        && h.get_char(4) == 'e' && h.get_char(5) == 'r' && h.get_char(6) == ' ';
    proof {
        if ok {
            assert(h@.subrange(0, 7) =~= bearer_prefix());
        } else {
            if h@.subrange(0, 7) == bearer_prefix() {
                assert(h@[0] == h@.subrange(0, 7)[0]);
                assert(h@[1] == h@.subrange(0, 7)[1]);
                assert(h@[2] == h@.subrange(0, 7)[2]);
                assert(h@[3] == h@.subrange(0, 7)[3]);
                assert(h@[4] == h@.subrange(0, 7)[4]);
                assert(h@[5] == h@.subrange(0, 7)[5]);
                assert(h@[6] == h@.subrange(0, 7)[6]);
            }
        }
    }
    ok
}

/// Whether the character is white space.
fn char_is_space(c: char) -> (r: bool)
    ensures
        r == is_space(c),
{
    let x = c as u32;
    (0x09 <= x && x <= 0x0d) || x == 0x20 || x == 0x85 || x == 0xa0 || x == 0x1680 || (0x2000 <= x
        && x <= 0x200a) || x == 0x2028 || x == 0x2029 || x == 0x202f || x == 0x205f || x == 0x3000
}

/// Dropping leading white space from a suffix that starts with it.
proof fn lemma_trim_start_from(s: Seq<char>, i: int)
    requires
        0 <= i <= s.len(),
        forall|j: int| 0 <= j < i ==> is_space(#[trigger] s[j]),
    ensures
        trim_start(s) == trim_start(s.subrange(i, s.len() as int)),
    decreases i,
{
    if i > 0 {
        assert(is_space(s[0]));
        let t = s.drop_first();
        assert forall|j: int| 0 <= j < i - 1 implies is_space(#[trigger] t[j]) by {
            assert(t[j] == s[j + 1]);
        }
        lemma_trim_start_from(t, i - 1);
        assert(t.subrange(i - 1, t.len() as int) =~= s.subrange(i, s.len() as int));
    } else {
        assert(s.subrange(0, s.len() as int) =~= s);
    }
}

/// Dropping trailing white space from a prefix that ends with it.
proof fn lemma_trim_end_to(s: Seq<char>, e: int)
    requires
        0 <= e <= s.len(),
        forall|j: int| e <= j < s.len() ==> is_space(#[trigger] s[j]),
    ensures
        trim_end(s) == trim_end(s.subrange(0, e)),
    decreases s.len() - e,
{
    if e < s.len() {
        assert(is_space(s.last()));
        let t = s.drop_last();
        assert forall|j: int| e <= j < t.len() implies is_space(#[trigger] t[j]) by {
            assert(t[j] == s[j]);
        }
        lemma_trim_end_to(t, e);
        assert(t.subrange(0, e) =~= s.subrange(0, e));
    } else {
        assert(s.subrange(0, e) =~= s);
    }
}

/// The text without leading and trailing white space.
fn trim(s: &str) -> (r: &str)
    ensures
        r@ == trimmed(s@),
{
    let len = s.unicode_len();
    let mut a: usize = 0;
    while a < len && char_is_space(s.get_char(a))
        invariant
            len == s@.len(),
            a <= len,
            forall|j: int| 0 <= j < a ==> is_space(#[trigger] s@[j]),
        decreases len - a,
    {
        a = a + 1;
    }
    let ghost rest = s@.subrange(a as int, len as int);
    proof {
        lemma_trim_start_from(s@, a as int);
        if a < len {
            assert(rest[0] == s@[a as int]);
        }
        assert(trim_start(rest) == rest);
    }
    let mut e: usize = len;
    while e > a && char_is_space(s.get_char(e - 1))
        invariant
            len == s@.len(),
            a <= e <= len,
            rest == s@.subrange(a as int, len as int),
            forall|j: int| e <= j < len ==> is_space(#[trigger] s@[j]),
        decreases e,
    {
        e = e - 1;
    }
    proof {
        assert forall|j: int| e - a <= j < rest.len() implies is_space(#[trigger] rest[j]) by {
            assert(rest[j] == s@[a + j]);
        }
        lemma_trim_end_to(rest, e - a);
        let core = rest.subrange(0, e - a);
        assert(core =~= s@.subrange(a as int, e as int));
        if e > a {
            assert(core.last() == s@[e - 1]);
        }
        assert(trim_end(core) == core);
    }
    s.substring_char(a, e)
}

/// Authenticate a request from the installed verifier (`None` when none is
/// installed) and its `Authorization` header (`None` when missing or not
/// text).
pub fn authenticate(verifier: Option<&GrantVerifier>, header: Option<&str>) -> (r: Result<AuthPrincipal, AuthError>)
    ensures
        auth_result(
            match verifier {
                Some(v) => Some(v.key_bytes()),
                None => None,
            },
            match header {
                Some(h) => Some(h@),
                None => None,
            },
            r,
        ),
{
    let verifier = match verifier {
        None => return Err(
            AuthError::ServerMisconfigured(
                "auth state not installed — add Extension<Arc<GrantVerifier>> to the router",
            ),
        ),
        Some(v) => v,
    };
    let header = match header {
        None => return Err(AuthError::Unauthorized("missing Authorization header")),
        Some(h) => h,
    };
    if !has_bearer_prefix(header) {
        return Err(AuthError::Unauthorized("expected 'Bearer <token>' scheme"));
    }
    let token = header.substring_char(7, header.unicode_len());
    let text = trim(token);
    let decoded = base64_decode(text);
    authenticate_decoded(verifier, decoded)
}

} // verus!
