use plotica::codec::random_b64url;
use plotica::loopback::{
    parse_redirect_request, redirect_received, redirect_response, RedirectParams,
    SIGN_IN_DONE_PAGE,
};
use plotica::oauth::{
    consent_url, interpret_token_response, pkce_challenge, redirect_uri_for, resolve_scope,
    LoginSession, TokenResponse,
};
use plotica::text::decimal_string;

fn params(code: &str, state: &str, error: Option<&str>) -> RedirectParams {
    RedirectParams {
        code: code.to_string(),
        state: state.to_string(),
        error: error.map(|e| e.to_string()),
    }
}

fn query_value<'a>(url: &'a str, key: &str) -> Option<&'a str> {
    let query = url.split_once('?')?.1;
    query.split('&').find_map(|pair| {
        let (k, v) = pair.split_once('=')?;
        if k == key { Some(v) } else { None }
    })
}

#[test]
fn pkce_challenge_of_the_rfc_example() {
    // RFC 7636, appendix B
    assert_eq!(
        pkce_challenge("dBjftJeZ4CVP-mB92K27uhbUJU1p1r_wW1gFWFOEjXk"),
        "E9Melhoa2OwvFrEMTJguCHaoeK1t8URWbuGJSstw-cM"
    );
}

#[test]
fn random_tokens_have_the_base64url_shape() {
    let a = random_b64url(32);
    let b = random_b64url(32);
    assert_eq!(a.len(), 43);
    assert_eq!(random_b64url(16).len(), 22);
    assert_eq!(random_b64url(0), "");
    assert_eq!(random_b64url(1).len(), 2);
    assert_eq!(random_b64url(2).len(), 3);
    assert!(a.chars().all(|c| c.is_ascii_alphanumeric() || c == '-' || c == '_'));
    assert_ne!(a, b);
}

#[test]
fn scopes_default() {
    assert_eq!(resolve_scope(None), "openid email profile");
    assert_eq!(resolve_scope(Some("openid".to_string())), "openid");
}

#[test]
fn loopback_redirect_uris() {
    assert_eq!(redirect_uri_for(8080), "http://127.0.0.1:8080");
    assert_eq!(redirect_uri_for(0), "http://127.0.0.1:0");
    assert_eq!(redirect_uri_for(65535), "http://127.0.0.1:65535");
}

#[test]
fn decimal_rendering() {
    assert_eq!(decimal_string(0), "0");
    assert_eq!(decimal_string(10), "10");
    assert_eq!(decimal_string(907), "907");
}

#[test]
fn consent_url_layout() {
    let url = consent_url(
        "123-abc.apps.googleusercontent.com",
        "http://127.0.0.1:5000",
        "openid email profile",
        "CH_-1",
        "ST-2",
    );
    assert_eq!(
        url,
        "https://accounts.google.com/o/oauth2/v2/auth?client_id=123-abc.apps.googleusercontent.com\
&redirect_uri=http%3A%2F%2F127.0.0.1%3A5000&response_type=code&scope=openid%20email%20profile\
&code_challenge=CH_-1&code_challenge_method=S256&state=ST-2&access_type=offline&prompt=select_account"
    );
}

#[test]
fn consent_url_encodes_the_client_id() {
    let url = consent_url("a&b=ç", "r", "s", "c", "t");
    assert!(url.contains("client_id=a%26b%3D%C3%A7&"));
}

#[test]
fn session_consent_url_carries_the_pkce_challenge_and_state() {
    let s = LoginSession::start("cid".to_string(), None, None, 4242);
    assert_eq!(s.redirect_uri(), "http://127.0.0.1:4242");
    let url = s.auth_url().to_string();
    assert!(url.starts_with("https://accounts.google.com/o/oauth2/v2/auth?client_id=cid&"));
    assert_eq!(query_value(&url, "redirect_uri"), Some("http%3A%2F%2F127.0.0.1%3A4242"));
    assert_eq!(query_value(&url, "scope"), Some("openid%20email%20profile"));
    assert_eq!(query_value(&url, "code_challenge_method"), Some("S256"));
    let state = query_value(&url, "state").unwrap().to_string();
    assert_eq!(state.len(), 22);
    let challenge = query_value(&url, "code_challenge").unwrap().to_string();
    assert_eq!(challenge.len(), 43);

    // the verifier that goes into the token request hashes to that challenge
    let form = s.token_request(&params("4/code", &state, None)).unwrap();
    let verifier = &form.iter().find(|(k, _)| k == "code_verifier").unwrap().1;
    assert_eq!(verifier.len(), 43);
    assert_eq!(pkce_challenge(verifier), challenge);
}

#[test]
fn token_request_form() {
    let s = LoginSession::start("cid".to_string(), Some("sekret".to_string()), None, 9000);
    let state = query_value(s.auth_url(), "state").unwrap().to_string();
    let form = s.token_request(&params("4/0Ab", &state, None)).unwrap();
    let keys: Vec<&str> = form.iter().map(|(k, _)| k.as_str()).collect();
    assert_eq!(
        keys,
        vec!["client_id", "code", "code_verifier", "grant_type", "redirect_uri", "client_secret"]
    );
    assert_eq!(form[0].1, "cid");
    assert_eq!(form[1].1, "4/0Ab");
    assert_eq!(form[3].1, "authorization_code");
    assert_eq!(form[4].1, "http://127.0.0.1:9000");
    assert_eq!(form[5].1, "sekret");
}

#[test]
fn empty_secret_is_not_sent() {
    let s = LoginSession::start("cid".to_string(), Some(String::new()), None, 1);
    let state = query_value(s.auth_url(), "state").unwrap().to_string();
    let form = s.token_request(&params("c", &state, None)).unwrap();
    assert_eq!(form.len(), 5);
}

#[test]
fn redirect_checks_in_order() {
    let s = LoginSession::start("cid".to_string(), None, None, 1);
    let state = query_value(s.auth_url(), "state").unwrap().to_string();
    assert_eq!(
        s.token_request(&params("c", "other", Some("access_denied"))).unwrap_err(),
        "Google reddetti: access_denied"
    );
    assert_eq!(
        s.token_request(&params("c", "other", None)).unwrap_err(),
        "state uyusmuyor (guvenlik)"
    );
    assert_eq!(
        s.token_request(&params("", &state, None)).unwrap_err(),
        "yetkilendirme kodu alinamadi"
    );
    assert!(s.token_request(&params("c", &state, None)).is_ok());
}

#[test]
fn token_answers() {
    let ok = interpret_token_response(TokenResponse {
        error: None,
        error_description: None,
        id_token: Some("idt".to_string()),
        access_token: Some("at".to_string()),
    })
    .unwrap();
    assert_eq!((ok.id_token.as_str(), ok.access_token.as_str()), ("idt", "at"));

    let no_access = interpret_token_response(TokenResponse {
        error: None,
        error_description: None,
        id_token: Some("idt".to_string()),
        access_token: None,
    })
    .unwrap();
    assert_eq!(no_access.access_token, "");

    let err = interpret_token_response(TokenResponse {
        error: Some("\"invalid_grant\"".to_string()),
        error_description: Some("Bad Request".to_string()),
        id_token: Some("idt".to_string()),
        access_token: None,
    });
    assert_eq!(err.err().unwrap(), "token hatasi: \"invalid_grant\" Bad Request");

    let err_no_desc = interpret_token_response(TokenResponse {
        error: Some("\"x\"".to_string()),
        error_description: None,
        id_token: None,
        access_token: None,
    });
    assert_eq!(err_no_desc.err().unwrap(), "token hatasi: \"x\" ");

    let missing = interpret_token_response(TokenResponse {
        error: None,
        error_description: None,
        id_token: None,
        access_token: Some("at".to_string()),
    });
    assert_eq!(missing.err().unwrap(), "yanitta id_token yok");
}

#[test]
fn redirect_with_code_and_state() {
    let req = b"GET /?state=xyz&code=4%2F0AbC&scope=email HTTP/1.1\r\nHost: 127.0.0.1:5000\r\n\r\n";
    let p = parse_redirect_request(req);
    assert_eq!(p.code, "4/0AbC");
    assert_eq!(p.state, "xyz");
    assert_eq!(p.error, None);
    assert!(redirect_received(&p));
}

#[test]
fn redirect_with_error() {
    let p = parse_redirect_request(b"GET /?error=access_denied&state=s HTTP/1.1\r\n\r\n");
    assert_eq!(p.code, "");
    assert_eq!(p.error, Some("access_denied".to_string()));
    assert!(redirect_received(&p));
}

#[test]
fn other_requests_do_not_end_the_wait() {
    let p = parse_redirect_request(b"GET /favicon.ico HTTP/1.1\r\nHost: x\r\n\r\n");
    assert_eq!((p.code.as_str(), p.state.as_str(), p.error.clone()), ("", "", None));
    assert!(!redirect_received(&p));
    let empty = parse_redirect_request(b"");
    assert!(!redirect_received(&empty));
    let code_in_header = parse_redirect_request(b"GET / HTTP/1.1\r\nX: /?code=1\r\n\r\n");
    assert!(!redirect_received(&code_in_header));
}

#[test]
fn redirect_parsing_details() {
    // the last pair of a key counts
    let p = parse_redirect_request(b"GET /?code=a&code=b HTTP/1.1\r\n");
    assert_eq!(p.code, "b");
    // a value that is not UTF-8 once decoded becomes empty
    let p = parse_redirect_request(b"GET /?code=%FF&state=s HTTP/1.1\r\n");
    assert_eq!(p.code, "");
    assert_eq!(p.state, "s");
    // a key without '=' has an empty value; '+' stays as it is
    let p = parse_redirect_request(b"GET /?error&state=a+b HTTP/1.1\n");
    assert_eq!(p.error, Some(String::new()));
    assert_eq!(p.state, "a+b");
    // only the part after the first '?' is the query; words split on any white space
    let p = parse_redirect_request(b"GET\t/cb?x=1?code=z   HTTP/1.1");
    assert_eq!(p.code, "");
    let p = parse_redirect_request(b"  GET   /?code=z");
    assert_eq!(p.code, "z");
}

#[test]
fn redirect_bytes_that_are_not_utf8() {
    let p = parse_redirect_request(b"GET /?code=ok&state=\xFF\xFE HTTP/1.1\r\n");
    assert_eq!(p.code, "ok");
    assert_eq!(p.state, "\u{FFFD}\u{FFFD}");
}

#[test]
fn browser_answer() {
    let r = redirect_response();
    let head = format!(
        "HTTP/1.1 200 OK\r\nContent-Type: text/html; charset=utf-8\r\nContent-Length: {}\r\nConnection: close\r\n\r\n",
        SIGN_IN_DONE_PAGE.len()
    );
    assert_eq!(r, format!("{}{}", head, SIGN_IN_DONE_PAGE));
    assert!(SIGN_IN_DONE_PAGE.contains("Giris tamamlandi."));
}

#[test]
fn redirect_gives_back_what_the_provider_sent() {
    for (code, state) in [("4/0AbC-x_y", "Zq9-_aB"), ("a=b?c", "s"), ("", "")] {
        let req = format!("GET /?code={}&state={} HTTP/1.1\r\nHost: 127.0.0.1\r\n\r\n", code, state);
        let p = parse_redirect_request(req.as_bytes());
        assert_eq!(p.code, code);
        assert_eq!(p.state, state);
        assert_eq!(p.error, None);
    }
}
