//! Google sign-in for a desktop application through the system browser:
//! the PKCE verifier and its S256 challenge, the consent URL with a loopback
//! redirect, the checks on the redirect that comes back, the form of the
//! token exchange and what its answer yields.

use vstd::prelude::*;
use vstd::utf8::*;
use crate::codec::{
    b64url, b64url_spec, is_b64url_char, law_b64url_text_needs_no_encoding, lemma_b64url_shape,
    random_b64url, sha256, sha256_spec, url_encode, url_encode_spec,
};
use crate::loopback::{RedirectParams, RedirectView};
use crate::text::{contains, opt_view, decimal, decimal_string, occurs_at, owned, push_str};

verus! {

// ---------------------------------------------------------------------------
// Tokens
// ---------------------------------------------------------------------------

/// The tokens handed to the front end, which signs in to Firebase with them.
pub struct Tokens {
    pub id_token: String,
    pub access_token: String,
}

/// What the token endpoint answered, as far as the sign-in reads it.
/// `error` is the `error` member rendered as JSON text (a string keeps its
/// quotes), present whenever the member is; the other fields hold the member
/// of that name where it is present and a JSON string.
pub struct TokenResponse {
    pub error: Option<String>,
    pub error_description: Option<String>,
    pub id_token: Option<String>,
    pub access_token: Option<String>,
}

/// The characters of an optional string, or nothing.
pub open spec fn or_empty(o: Option<String>) -> Seq<char> {
    match o {
        Some(s) => s@,
        None => seq![],
    }
}

/// The message for an error answer of the token endpoint.
pub open spec fn token_error_message(error: Seq<char>, description: Seq<char>) -> Seq<char> {
    "token hatasi: "@ + error + " "@ + description
}

/// The message when the answer holds no `id_token`.
pub open spec fn missing_id_token_message() -> Seq<char> {
    "yanitta id_token yok"@
}

/// What the sign-in makes of the token endpoint's answer: an `error` member
/// fails with it and its description; otherwise the `id_token` is required
/// and the `access_token` defaults to empty.
pub fn interpret_token_response(resp: TokenResponse) -> (r: Result<Tokens, String>)
    ensures
        match resp.error {
            Some(e) => r is Err && r->Err_0@ == token_error_message(
                e@,
                or_empty(resp.error_description),
            ),
            None => match resp.id_token {
                Some(id) => r is Ok && r->Ok_0.id_token@ == id@ && r->Ok_0.access_token@
                    == or_empty(resp.access_token),
                None => r is Err && r->Err_0@ == missing_id_token_message(),
            },
        },
{
    match resp.error {
        Some(e) => {
            let mut msg = String::new();
            push_str(&mut msg, "token hatasi: ");
            push_str(&mut msg, e.as_str());
            push_str(&mut msg, " ");
            match resp.error_description {
                Some(d) => push_str(&mut msg, d.as_str()),
                None => {},
            }
            Err(msg)
        },
        None => match resp.id_token {
            Some(id) => {
                let access = match resp.access_token {
                    Some(a) => a,
                    None => String::new(),
                };
                Ok(Tokens { id_token: id, access_token: access })
            },
            None => Err(owned("yanitta id_token yok")),
        },
    }
}

// ---------------------------------------------------------------------------
// PKCE
// ---------------------------------------------------------------------------

/// The S256 code challenge of RFC 7636 for a verifier: the base64url encoding,
/// without padding, of the SHA-256 digest of the verifier's bytes.
pub open spec fn s256_challenge(verifier: Seq<char>) -> Seq<char> {
    b64url_spec(sha256_spec(encode_utf8(verifier)))
}

/// Computes the S256 challenge of `verifier`.
pub fn pkce_challenge(verifier: &str) -> (c: String)
    ensures
        c@ == s256_challenge(verifier@),
{
    let h = sha256(verifier.as_bytes());
    b64url(h.as_slice())
}

// ---------------------------------------------------------------------------
// The consent URL
// ---------------------------------------------------------------------------

/// The scopes asked for when the caller names none.
pub open spec fn default_scope() -> Seq<char> {
    "openid email profile"@
}

/// The scopes asked for.
pub open spec fn scope_of(scopes: Option<Seq<char>>) -> Seq<char> {
    match scopes {
        Some(s) => s,
        None => default_scope(),
    }
}

/// The scopes of a sign-in: those given, else `openid email profile`.
pub fn resolve_scope(scopes: Option<String>) -> (s: String)
    ensures
        s@ == scope_of(opt_view(scopes)),
{
    match scopes {
        Some(s) => s,
        None => owned("openid email profile"),
    }
}

/// The loopback redirect URI for a port of 127.0.0.1.
pub open spec fn loopback_uri(port: u16) -> Seq<char> {
    "http://127.0.0.1:"@ + decimal(port as nat)
}

/// Builds [`loopback_uri`].
pub fn redirect_uri_for(port: u16) -> (u: String)
    ensures
        u@ == loopback_uri(port),
{
    let mut u = owned("http://127.0.0.1:");
    let p = decimal_string(port as u128);
    push_str(&mut u, p.as_str());
    u
}

/// Google's consent URL for an authorization code with PKCE (S256): client,
/// redirect URI and scope percent-encoded, challenge and state as they are
/// (base64url text needs no encoding), offline access, account chooser.
pub open spec fn consent_url_spec(
    client_id: Seq<char>,
    redirect_uri: Seq<char>,
    scope: Seq<char>,
    challenge: Seq<char>,
    state: Seq<char>,
) -> Seq<char> {
    "https://accounts.google.com/o/oauth2/v2/auth?client_id="@ + url_encode_spec(client_id)
        + "&redirect_uri="@ + url_encode_spec(redirect_uri) + "&response_type=code&scope="@
        + url_encode_spec(scope) + "&code_challenge="@ + challenge
        + "&code_challenge_method=S256&state="@ + state
        + "&access_type=offline&prompt=select_account"@
}

/// Builds [`consent_url_spec`].
pub fn consent_url(
    client_id: &str,
    redirect_uri: &str,
    scope: &str,
    challenge: &str,
    state: &str,
) -> (u: String)
    ensures
        u@ == consent_url_spec(client_id@, redirect_uri@, scope@, challenge@, state@),
{
    let mut u = owned("https://accounts.google.com/o/oauth2/v2/auth?client_id=");
    let cid = url_encode(client_id);
    push_str(&mut u, cid.as_str());
    push_str(&mut u, "&redirect_uri=");
    let ru = url_encode(redirect_uri);
    push_str(&mut u, ru.as_str());
    push_str(&mut u, "&response_type=code&scope=");
    let sc = url_encode(scope);
    push_str(&mut u, sc.as_str());
    push_str(&mut u, "&code_challenge=");
    push_str(&mut u, challenge);
    push_str(&mut u, "&code_challenge_method=S256&state=");
    push_str(&mut u, state);
    push_str(&mut u, "&access_type=offline&prompt=select_account");
    u
}

// ---------------------------------------------------------------------------
// The sign-in session
// ---------------------------------------------------------------------------

/// The mathematical value of a sign-in session.
pub struct LoginView {
    pub client_id: Seq<char>,
    pub client_secret: Option<Seq<char>>,
    pub scope: Seq<char>,
    pub verifier: Seq<char>,
    pub challenge: Seq<char>,
    pub state: Seq<char>,
    pub redirect_uri: Seq<char>,
    pub auth_url: Seq<char>,
}

/// All characters of `s` belong to the base64url alphabet.
pub open spec fn all_b64url(s: Seq<char>) -> bool {
    forall|i: int| 0 <= i < s.len() ==> is_b64url_char(#[trigger] s[i])
}

impl LoginView {
    /// What every session keeps: the verifier is the base64url encoding of 32
    /// bytes (43 characters, within the 43 to 128 that RFC 7636 allows), the
    /// state that of 16 bytes (22 characters), the challenge is the S256
    /// challenge of the verifier, and the consent URL is built from the
    /// session's own values.
    pub open spec fn consistent(self) -> bool {
        &&& exists|b: Seq<u8>| b.len() == 32 && self.verifier == b64url_spec(b)
        &&& self.verifier.len() == 43
        &&& all_b64url(self.verifier)
        &&& exists|b: Seq<u8>| b.len() == 16 && self.state == b64url_spec(b)
        &&& self.state.len() == 22
        &&& all_b64url(self.state)
        &&& self.challenge == s256_challenge(self.verifier)
        &&& self.auth_url == consent_url_spec(
            self.client_id,
            self.redirect_uri,
            self.scope,
            self.challenge,
            self.state,
        )
    }
}

/// One sign-in in progress: what was sent to the browser, and what the
/// answer is checked against.
pub struct LoginSession {
    client_id: String,
    client_secret: Option<String>,
    scope: String,
    verifier: String,
    challenge: String,
    state: String,
    redirect_uri: String,
    auth_url: String,
}

impl View for LoginSession {
    type V = LoginView;

    closed spec fn view(&self) -> LoginView {
        LoginView {
            client_id: self.client_id@,
            client_secret: opt_view(self.client_secret),
            scope: self.scope@,
            verifier: self.verifier@,
            challenge: self.challenge@,
            state: self.state@,
            redirect_uri: self.redirect_uri@,
            auth_url: self.auth_url@,
        }
    }
}

/// The message when the provider reports an error in the redirect.
pub open spec fn provider_refused_message(error: Seq<char>) -> Seq<char> {
    "Google reddetti: "@ + error
}

/// The message when the redirect's state is not the session's.
pub open spec fn state_mismatch_message() -> Seq<char> {
    "state uyusmuyor (guvenlik)"@
}

/// The message when the redirect carries no code.
pub open spec fn missing_code_message() -> Seq<char> {
    "yetkilendirme kodu alinamadi"@
}

/// The fields of the token request (`application/x-www-form-urlencoded`):
/// the authorization code grant with the PKCE verifier, and the client secret
/// where one was given and is not empty.
pub open spec fn token_form_spec(s: LoginView, code: Seq<char>) -> Seq<(Seq<char>, Seq<char>)> {
    seq![
        ("client_id"@, s.client_id),
        ("code"@, code),
        ("code_verifier"@, s.verifier),
        ("grant_type"@, "authorization_code"@),
        ("redirect_uri"@, s.redirect_uri),
    ] + match s.client_secret {
        Some(secret) => if secret.len() > 0 {
            seq![("client_secret"@, secret)]
        } else {
            seq![]
        },
        None => seq![],
    }
}

/// What a session makes of the redirect: the provider's error first, then a
/// state other than the session's, then a missing code refuse it; otherwise
/// the token request is formed.
pub open spec fn token_exchange_spec(s: LoginView, p: RedirectView) -> Result<
    Seq<(Seq<char>, Seq<char>)>,
    Seq<char>,
> {
    match p.error {
        Some(e) => Err(provider_refused_message(e)),
        None => if p.state != s.state {
            Err(state_mismatch_message())
        } else if p.code.len() == 0 {
            Err(missing_code_message())
        } else {
            Ok(token_form_spec(s, p.code))
        },
    }
}

/// The view of a list of form fields.
pub open spec fn form_view(form: Seq<(String, String)>) -> Seq<(Seq<char>, Seq<char>)> {
    form.map_values(|f: (String, String)| (f.0@, f.1@))
}

/// The view of what [`LoginSession::token_request`] returns.
pub open spec fn exchange_view(r: Result<Vec<(String, String)>, String>) -> Result<
    Seq<(Seq<char>, Seq<char>)>,
    Seq<char>,
> {
    match r {
        Ok(form) => Ok(form_view(form@)),
        Err(e) => Err(e@),
    }
}

/// Appends the field `(k, v)` to `form`.
fn push_field(form: &mut Vec<(String, String)>, k: &str, v: &str)
    ensures
        form_view(final(form)@) == form_view(old(form)@).push((k@, v@)),
{
    let ghost before = form@;
    form.push((owned(k), owned(v)));
    assert(form_view(form@) =~= form_view(before).push((k@, v@)));
}

impl LoginSession {
    #[verifier::type_invariant]
    spec fn inv(self) -> bool {
        self@.consistent()
    }

    /// Starts a sign-in for the client `client_id` with the redirect going to
    /// `127.0.0.1:port`: draws a fresh PKCE verifier and state, and builds the
    /// consent URL that the browser is to open.
    pub fn start(client_id: String, client_secret: Option<String>, scopes: Option<String>, port: u16) -> (s: LoginSession)
        ensures
            s@.consistent(),
            s@.client_id == client_id@,
            s@.client_secret == opt_view(client_secret),
            s@.scope == scope_of(opt_view(scopes)),
            s@.redirect_uri == loopback_uri(port),
    {
        let scope = resolve_scope(scopes);
        let verifier = random_b64url(32);
        let challenge = pkce_challenge(verifier.as_str());
        let state = random_b64url(16);
        let redirect_uri = redirect_uri_for(port);
        let auth_url = consent_url(
            client_id.as_str(),
            redirect_uri.as_str(),
            scope.as_str(),
            challenge.as_str(),
            state.as_str(),
        );
        LoginSession {
            client_id,
            client_secret,
            scope,
            verifier,
            challenge,
            state,
            redirect_uri,
            auth_url,
        }
    }

    /// The consent URL to open in the system browser.
    pub fn auth_url(&self) -> (u: &str)
        ensures
            u@ == self@.auth_url,
    {
        self.auth_url.as_str()
    }

    /// The redirect URI of the session.
    pub fn redirect_uri(&self) -> (u: &str)
        ensures
            u@ == self@.redirect_uri,
    {
        self.redirect_uri.as_str()
    }

    /// Checks the redirect against the session and forms the token request:
    /// an error reported by the provider, a state other than the one sent, or
    /// a missing code refuse the redirect.
    pub fn token_request(&self, p: &RedirectParams) -> (r: Result<Vec<(String, String)>, String>)
        ensures
            exchange_view(r) == token_exchange_spec(self@, p@),
            p@.error is None && p@.state == self@.state && p@.code.len() > 0 ==> r is Ok,
    {
        match &p.error {
            Some(e) => {
                let mut msg = owned("Google reddetti: ");
                push_str(&mut msg, e.as_str());
                return Err(msg);
            },
            None => {},
        }
        if p.state != self.state {
            return Err(owned("state uyusmuyor (guvenlik)"));
        }
        if p.code.as_str().is_empty() {
            return Err(owned("yetkilendirme kodu alinamadi"));
        }
        let mut form: Vec<(String, String)> = Vec::new();
        push_field(&mut form, "client_id", self.client_id.as_str());
        push_field(&mut form, "code", p.code.as_str());
        push_field(&mut form, "code_verifier", self.verifier.as_str());
        push_field(&mut form, "grant_type", "authorization_code");
        push_field(&mut form, "redirect_uri", self.redirect_uri.as_str());
        match &self.client_secret {
            Some(secret) => {
                if !secret.as_str().is_empty() {
                    push_field(&mut form, "client_secret", secret.as_str());
                }
            },
            None => {},
        }
        assert(form_view(form@) =~= token_form_spec(self@, p@.code));
        Ok(form)
    }
}

// ---------------------------------------------------------------------------
// Laws of the sign-in
// ---------------------------------------------------------------------------

/// A text occurs in any text that surrounds it.
pub proof fn lemma_contains_middle(a: Seq<char>, b: Seq<char>, c: Seq<char>)
    ensures
        contains(a + b + c, b),
{
    let s = a + b + c;
    assert(s.subrange(a.len() as int, (a.len() + b.len()) as int) =~= b);
    assert(occurs_at(s, b, a.len() as int));
}

/// A redirect is turned into a token request only when the provider reported
/// no error, a code came, and the state is the one that the consent URL
/// carried; the request then sends the verifier whose S256 challenge the
/// consent URL carried, and the redirect URI that the consent URL named.
pub proof fn law_exchange_matches_consent(s: LoginView, p: RedirectView)
    requires
        s.consistent(),
        token_exchange_spec(s, p) is Ok,
    ensures
        p.error is None,
        p.code.len() > 0,
        p.state == s.state,
        contains(s.auth_url, "&state="@ + s.state),
        token_exchange_spec(s, p)->Ok_0[1] == ("code"@, p.code),
        token_exchange_spec(s, p)->Ok_0[2] == ("code_verifier"@, s.verifier),
        s256_challenge(token_exchange_spec(s, p)->Ok_0[2].1) == s.challenge,
        contains(s.auth_url, "&code_challenge="@ + s.challenge),
        token_exchange_spec(s, p)->Ok_0[4] == ("redirect_uri"@, s.redirect_uri),
        contains(s.auth_url, "&redirect_uri="@ + url_encode_spec(s.redirect_uri)),
{
    let head = "https://accounts.google.com/o/oauth2/v2/auth?client_id="@ + url_encode_spec(
        s.client_id,
    );
    let ru = "&redirect_uri="@ + url_encode_spec(s.redirect_uri);
    let mid = "&response_type=code&scope="@ + url_encode_spec(s.scope);
    let cc = "&code_challenge="@ + s.challenge;
    let st = "&state="@ + s.state;
    let method = "&code_challenge_method=S256"@;
    let tail = "&access_type=offline&prompt=select_account"@;
    reveal_strlit("&code_challenge_method=S256&state=");
    reveal_strlit("&code_challenge_method=S256");
    reveal_strlit("&state=");
    assert("&code_challenge_method=S256&state="@ =~= method + "&state="@);
    assert(s.auth_url =~= head + ru + (mid + cc + method + st + tail));
    lemma_contains_middle(head, ru, mid + cc + method + st + tail);
    assert(s.auth_url =~= (head + ru + mid) + cc + (method + st + tail));
    lemma_contains_middle(head + ru + mid, cc, method + st + tail);
    assert(s.auth_url =~= (head + ru + mid + cc + method) + st + tail);
    lemma_contains_middle(head + ru + mid + cc + method, st, tail);
}

/// The challenge and the state stand in the consent URL unencoded, and
/// percent-encoding them would change nothing: both are base64url text.
pub proof fn law_consent_values_need_no_encoding(s: LoginView)
    requires
        s.consistent(),
    ensures
        url_encode_spec(s.challenge) == s.challenge,
        url_encode_spec(s.state) == s.state,
{
    lemma_b64url_shape(sha256_spec(encode_utf8(s.verifier)));
    law_b64url_text_needs_no_encoding(s.challenge);
    law_b64url_text_needs_no_encoding(s.state);
}

/// Every redirect that carries no error, the session's own state and a
/// non-empty code (of any length) is turned into a token request: the
/// authorization code grant with the client, that code, the session's
/// verifier and redirect URI, and the client secret only where one is given
/// and not empty.
pub proof fn law_valid_redirect_is_exchanged(s: LoginView, p: RedirectView)
    requires
        p.error is None,
        p.state == s.state,
        p.code.len() > 0,
    ensures
        token_exchange_spec(s, p) is Ok,
        token_exchange_spec(s, p)->Ok_0.take(5) == seq![
            ("client_id"@, s.client_id),
            ("code"@, p.code),
            ("code_verifier"@, s.verifier),
            ("grant_type"@, "authorization_code"@),
            ("redirect_uri"@, s.redirect_uri),
        ],
        token_exchange_spec(s, p)->Ok_0.len() == if s.client_secret is Some
            && s.client_secret->0.len() > 0 {
            6int
        } else {
            5int
        },
        s.client_secret is Some && s.client_secret->0.len() > 0 ==> token_exchange_spec(s, p)->Ok_0[5]
            == ("client_secret"@, s.client_secret->0),
{
    let form = token_exchange_spec(s, p)->Ok_0;
    assert(form.take(5) =~= seq![
        ("client_id"@, s.client_id),
        ("code"@, p.code),
        ("code_verifier"@, s.verifier),
        ("grant_type"@, "authorization_code"@),
        ("redirect_uri"@, s.redirect_uri),
    ]);
}

} // verus!
