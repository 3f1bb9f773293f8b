# plotica

The logic behind the Plotica desktop shell, written in Verus and verified.

- `src/oauth.rs` — Google sign-in through the system browser: the PKCE
  verifier and its S256 challenge, the consent URL with a loopback redirect,
  the checks on the redirect (provider error, state, code), the token request
  form and what the token endpoint's answer yields.
- `src/loopback.rs` — reading the browser's redirect request (first line,
  request target, query pairs, percent-decoding), when the wait is over, and
  the HTTP answer with its `Content-Length`.
- `src/export.rs` — file names Windows accepts, the save dialog's extension
  and filter, Windows line endings and the byte order mark, `file://` URLs,
  the printable page, the PDF export's answers and the link filter; with the
  laws on line endings and URLs.
- `src/codec.rs` — base64url, SHA-256, random tokens and percent-encoding,
  each through its crate (`base64`, `sha2`, `rand`, `urlencoding`).
- `src/text.rs` — character-level building blocks with their definitions.
- `app/lib.rs` — the Tauri commands: sockets, browser, HTTP, dialogs, files,
  clocks and the WebView2 PDF printer around the library.
- `tests/` — tests on concrete values.
