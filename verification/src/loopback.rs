//! The one-shot loopback listener of the sign-in flow: what the browser's
//! redirect request carries (`code`, `state`, `error` from the query of the
//! request target), when the wait is over, and the page sent back.

use vstd::prelude::*;
use vstd::utf8::*;
use crate::codec::url_decode;
use crate::codec::url_decode_spec;
use crate::codec::lemma_url_decode_without_percent;
use crate::text::{
    decimal, decimal_string, push_str, chars_of, find_char, first_index, split_char, is_white_space, lemma_first_index, lossy_utf8,
    lossy_utf8_spec, skip_white_space, string_of, trim_start, white_space,
};

verus! {

// ---------------------------------------------------------------------------
// Specification of the request parsing
// ---------------------------------------------------------------------------

/// The first line of `s`, as `s.lines().next().unwrap_or("")` gives it: up to
/// the first `\n`, without a `\r` just before it.
pub open spec fn first_line(s: Seq<char>) -> Seq<char> {
    match first_index(s, '\n') {
        Some(k) => if k > 0 && s[k - 1] == '\r' {
            s.take(k - 1)
        } else {
            s.take(k)
        },
        None => s,
    }
}

/// The number of leading characters of `s` that are not white space.
pub open spec fn word_len(s: Seq<char>) -> nat
    decreases s.len(),
{
    if s.len() > 0 && !is_white_space(s[0]) {
        1 + word_len(s.drop_first())
    } else {
        0
    }
}

/// The first white-space separated word of `s` (empty if there is none) and
/// what follows it.
pub open spec fn next_word(s: Seq<char>) -> (Seq<char>, Seq<char>) {
    let t = trim_start(s);
    (t.take(word_len(t) as int), t.skip(word_len(t) as int))
}

/// The second white-space separated word of `s`, or empty, as
/// `s.split_whitespace().nth(1).unwrap_or("")` gives it.
pub open spec fn second_word(s: Seq<char>) -> Seq<char> {
    next_word(next_word(s).1).0
}

/// What follows the first `?` of a request target, or empty, as
/// `path.splitn(2, '?').nth(1).unwrap_or("")` gives it.
pub open spec fn query_part(path: Seq<char>) -> Seq<char> {
    match first_index(path, '?') {
        Some(k) => path.skip(k + 1),
        None => seq![],
    }
}

/// The key of a `key=value` pair: the part before the first `=`, or all of it.
pub open spec fn pair_key(seg: Seq<char>) -> Seq<char> {
    match first_index(seg, '=') {
        Some(k) => seg.take(k),
        None => seg,
    }
}

/// The raw value of a `key=value` pair: the part after the first `=`, or empty.
pub open spec fn pair_raw_value(seg: Seq<char>) -> Seq<char> {
    match first_index(seg, '=') {
        Some(k) => seg.skip(k + 1),
        None => seq![],
    }
}

/// The decoded value of a pair: the percent-decoding of its raw value, or
/// empty where that is not UTF-8.
pub open spec fn pair_value(seg: Seq<char>) -> Seq<char> {
    match url_decode_spec(pair_raw_value(seg)) {
        Some(v) => v,
        None => seq![],
    }
}

/// What a redirect carries: the authorization code, the state and the
/// error reported by the provider, each as the last pair with that key gives it.
pub struct RedirectView {
    pub code: Seq<char>,
    pub state: Seq<char>,
    pub error: Option<Seq<char>>,
}

/// The view before any pair is read.
pub open spec fn empty_redirect() -> RedirectView {
    RedirectView { code: seq![], state: seq![], error: None }
}

/// One `key=value` pair applied to what was read so far: `code`, `state` and
/// `error` overwrite their field, other keys change nothing.
pub open spec fn apply_pair(acc: RedirectView, seg: Seq<char>) -> RedirectView {
    let key = pair_key(seg);
    if key == "code"@ {
        RedirectView { code: pair_value(seg), ..acc }
    } else if key == "state"@ {
        RedirectView { state: pair_value(seg), ..acc }
    } else if key == "error"@ {
        RedirectView { error: Some(pair_value(seg)), ..acc }
    } else {
        acc
    }
}

/// All pairs applied from left to right.
pub open spec fn apply_pairs(acc: RedirectView, segs: Seq<Seq<char>>) -> RedirectView
    decreases segs.len(),
{
    if segs.len() == 0 {
        acc
    } else {
        apply_pairs(apply_pair(acc, segs[0]), segs.drop_first())
    }
}

/// What the request text `req` carries: the pairs of the query of the target
/// (the second word of the first line).
pub open spec fn redirect_of_text(req: Seq<char>) -> RedirectView {
    apply_pairs(empty_redirect(), split_char(query_part(second_word(first_line(req))), '&'))
}

/// What the bytes of a request carry, read as UTF-8 with replacement.
pub open spec fn redirect_of_request(bytes: Seq<u8>) -> RedirectView {
    redirect_of_text(lossy_utf8_spec(bytes))
}

// ---------------------------------------------------------------------------
// The parsed redirect
// ---------------------------------------------------------------------------

/// What the provider's redirect carried.
pub struct RedirectParams {
    pub code: String,
    pub state: String,
    pub error: Option<String>,
}

impl View for RedirectParams {
    type V = RedirectView;

    /// The mathematical value of the parameters.
    open spec fn view(&self) -> RedirectView {
        RedirectView {
            code: self.code@,
            state: self.state@,
            error: match self.error {
                Some(e) => Some(e@),
                None => None,
            },
        }
    }
}

/// A copy of `v[a..b]`.
pub fn sub_chars(v: &Vec<char>, a: usize, b: usize) -> (r: Vec<char>)
    requires
        a <= b <= v@.len(),
    ensures
        r@ == v@.subrange(a as int, b as int),
{
    let mut r: Vec<char> = Vec::new();
    let mut i = a;
    while i < b
        invariant
            a <= i <= b <= v@.len(),
            r@ == v@.subrange(a as int, i as int),
        decreases b - i,
    {
        r.push(v[i]);
        i = i + 1;
        assert(r@ =~= v@.subrange(a as int, i as int));
    }
    r
}

/// Whether two character vectors are equal.
pub fn chars_eq(a: &Vec<char>, b: &Vec<char>) -> (r: bool)
    ensures
        r == (a@ == b@),
{
    if a.len() != b.len() {
        return false;
    }
    let mut i: usize = 0;
    while i < a.len()
        invariant
            a@.len() == b@.len(),
            i <= a@.len(),
            forall|j: int| 0 <= j < i ==> a@[j] == b@[j],
        decreases a@.len() - i,
    {
        if a[i] != b[i] {
            return false;
        }
        i = i + 1;
    }
    assert(a@ =~= b@);
    true
}

/// The first line of `v`, as [`first_line`] has it.
fn first_line_of(v: &Vec<char>) -> (r: Vec<char>)
    ensures
        r@ == first_line(v@),
{
    assert(v@.skip(0) =~= v@);
    proof {
        lemma_first_index(v@, '\n');
    }
    match find_char(v, '\n', 0) {
        Some(k) => {
            assert(first_index(v@, '\n') == Some(k as int));
            if k > 0 && v[k - 1] == '\r' {
                let r = sub_chars(v, 0, k - 1);
                assert(r@ =~= v@.take(k - 1));
                r
            } else {
                let r = sub_chars(v, 0, k);
                assert(r@ =~= v@.take(k as int));
                r
            }
        },
        None => {
            let r = sub_chars(v, 0, v.len());
            assert(r@ =~= v@);
            r
        },
    }
}

/// The word length of `v@.skip(i)`, and its end.
fn word_end(v: &Vec<char>, i: usize) -> (j: usize)
    requires
        i <= v@.len(),
    ensures
        i <= j <= v@.len(),
        j - i == word_len(v@.skip(i as int)),
{
    let mut j = i;
    while j < v.len() && !white_space(v[j])
        invariant
            i <= j <= v@.len(),
            word_len(v@.skip(i as int)) == (j - i) + word_len(v@.skip(j as int)),
        decreases v@.len() - j,
    {
        assert(v@.skip(j as int).drop_first() =~= v@.skip(j + 1));
        j = j + 1;
    }
    j
}

/// [`next_word`] of `v@.skip(i)`: the bounds of the word and the start of the rest.
fn next_word_at(v: &Vec<char>, i: usize) -> (r: (usize, usize))
    requires
        i <= v@.len(),
    ensures
        r.0 <= r.1 <= v@.len(),
        i <= r.0,
        v@.subrange(r.0 as int, r.1 as int) == next_word(v@.skip(i as int)).0,
        v@.skip(r.1 as int) == next_word(v@.skip(i as int)).1,
{
    let s = skip_white_space(v, i);
    let e = word_end(v, s);
    let ghost t = trim_start(v@.skip(i as int));
    assert(t == v@.skip(s as int));
    assert(t.take(word_len(t) as int) =~= v@.subrange(s as int, e as int));
    assert(t.skip(word_len(t) as int) =~= v@.skip(e as int));
    (s, e)
}

/// The second word of a line.
fn second_word_of(v: &Vec<char>) -> (r: Vec<char>)
    ensures
        r@ == second_word(v@),
{
    assert(v@.skip(0) =~= v@);
    let (_a, b) = next_word_at(v, 0);
    let (c, d) = next_word_at(v, b);
    sub_chars(v, c, d)
}

/// The query of a request target.
fn query_of(path: &Vec<char>) -> (r: Vec<char>)
    ensures
        r@ == query_part(path@),
{
    assert(path@.skip(0) =~= path@);
    proof {
        lemma_first_index(path@, '?');
    }
    match find_char(path, '?', 0) {
        Some(k) => {
            let r = sub_chars(path, k + 1, path.len());
            assert(r@ =~= path@.skip(k + 1));
            r
        },
        None => Vec::new(),
    }
}

/// The decoded value of the pair `seg`.
fn decoded_value(seg: &Vec<char>) -> (r: String)
    ensures
        r@ == pair_value(seg@),
{
    assert(seg@.skip(0) =~= seg@);
    proof {
        lemma_first_index(seg@, '=');
    }
    let raw = match find_char(seg, '=', 0) {
        Some(k) => sub_chars(seg, k + 1, seg.len()),
        None => Vec::new(),
    };
    assert(raw@ =~= pair_raw_value(seg@));
    let raw_s = string_of(raw.as_slice());
    match url_decode(raw_s.as_str()) {
        Some(v) => v,
        None => String::new(),
    }
}

/// Applies the pair `seg` to `p`.
fn apply_pair_exec(p: RedirectParams, seg: &Vec<char>) -> (r: RedirectParams)
    ensures
        r@ == apply_pair(p@, seg@),
{
    assert(seg@.skip(0) =~= seg@);
    proof {
        lemma_first_index(seg@, '=');
    }
    let key = match find_char(seg, '=', 0) {
        Some(k) => sub_chars(seg, 0, k),
        None => sub_chars(seg, 0, seg.len()),
    };
    proof {
        assert(key@ =~= pair_key(seg@));
    }
    let code_key = chars_of("code");
    let state_key = chars_of("state");
    let error_key = chars_of("error");
    if chars_eq(&key, &code_key) {
        RedirectParams { code: decoded_value(seg), ..p }
    } else if chars_eq(&key, &state_key) {
        RedirectParams { state: decoded_value(seg), ..p }
    } else if chars_eq(&key, &error_key) {
        RedirectParams { error: Some(decoded_value(seg)), ..p }
    } else {
        p
    }
}

/// Reads the query string `q` pair by pair.
fn parse_query(q: &Vec<char>) -> (r: RedirectParams)
    ensures
        r@ == apply_pairs(empty_redirect(), split_char(q@, '&')),
{
    let mut p = RedirectParams { code: String::new(), state: String::new(), error: None };
    let mut i: usize = 0;
    assert(q@.skip(0) =~= q@);
    loop
        invariant
            i <= q@.len(),
            apply_pairs(p@, split_char(q@.skip(i as int), '&')) == apply_pairs(
                empty_redirect(),
                split_char(q@, '&'),
            ),
        decreases q@.len() - i,
    {
        let ghost rest = q@.skip(i as int);
        proof {
            lemma_first_index(rest, '&');
        }
        match find_char(q, '&', i) {
            Some(k) => {
                let seg = sub_chars(q, i, k);
                proof {
                    assert(first_index(rest, '&') == Some(k - i));
                    assert(seg@ =~= rest.take(k - i));
                    assert(rest.skip(k - i + 1) =~= q@.skip(k + 1));
                    let segs = split_char(rest, '&');
                    assert(segs[0] == seg@);
                    assert(segs.drop_first() =~= split_char(q@.skip(k + 1), '&'));
                }
                p = apply_pair_exec(p, &seg);
                i = k + 1;
            },
            None => {
                let seg = sub_chars(q, i, q.len());
                proof {
                    assert(seg@ =~= rest);
                    let segs = split_char(rest, '&');
                    assert(segs =~= seq![seg@]);
                    assert(segs.drop_first() =~= Seq::<Seq<char>>::empty());
                }
                let ghost before = p@;
                p = apply_pair_exec(p, &seg);
                proof {
                    let segs = split_char(rest, '&');
                    assert(apply_pairs(before, segs) == apply_pairs(
                        apply_pair(before, segs[0]),
                        segs.drop_first(),
                    ));
                    assert(apply_pairs(p@, Seq::<Seq<char>>::empty()) == p@);
                }
                return p;
            },
        }
    }
}

/// Reads what a redirect request carries: the `code`, `state` and `error`
/// pairs of the query of its target, each percent-decoded, the last of each
/// key counting. `bytes` is what was read from the connection.
pub fn parse_redirect_request(bytes: &[u8]) -> (p: RedirectParams)
    ensures
        p@ == redirect_of_request(bytes@),
{
    let text = lossy_utf8(bytes);
    let v = chars_of(text.as_str());
    let line = first_line_of(&v);
    let target = second_word_of(&line);
    let query = query_of(&target);
    parse_query(&query)
}

/// Whether the redirect ends the wait: it carries a code or an error.
/// Other requests (a favicon, say) are answered and the wait goes on.
pub fn redirect_received(p: &RedirectParams) -> (b: bool)
    ensures
        b == (p@.code.len() > 0 || p@.error is Some),
{
    !p.code.as_str().is_empty() || p.error.is_some()
}

// ---------------------------------------------------------------------------
// What a redirect gives back
// ---------------------------------------------------------------------------

/// Where a text without `c` is followed by more text, the first `c` is found
/// in what follows.
pub proof fn lemma_first_index_after(a: Seq<char>, b: Seq<char>, c: char)
    requires
        forall|i: int| 0 <= i < a.len() ==> a[i] != c,
    ensures
        first_index(a + b, c) == match first_index(b, c) {
            Some(i) => Some(i + a.len()),
            None => None,
        },
    decreases a.len(),
{
    if a.len() == 0 {
        assert(a + b =~= b);
    } else {
        let t = a.drop_first();
        assert forall|i: int| 0 <= i < t.len() implies t[i] != c by {
            assert(t[i] == a[i + 1]);
        }
        lemma_first_index_after(t, b, c);
        assert((a + b).drop_first() =~= t + b);
        assert((a + b)[0] == a[0]);
    }
}

/// Leading white space does not count for [`trim_start`].
proof fn lemma_trim_start_after_space(a: Seq<char>, b: Seq<char>)
    requires
        forall|i: int| 0 <= i < a.len() ==> is_white_space(a[i]),
    ensures
        trim_start(a + b) == trim_start(b),
    decreases a.len(),
{
    if a.len() == 0 {
        assert(a + b =~= b);
    } else {
        let t = a.drop_first();
        assert forall|i: int| 0 <= i < t.len() implies is_white_space(t[i]) by {
            assert(t[i] == a[i + 1]);
        }
        lemma_trim_start_after_space(t, b);
        assert((a + b).drop_first() =~= t + b);
        assert((a + b)[0] == a[0]);
    }
}

/// A word followed by white space or by nothing has its own length.
proof fn lemma_word_len_of_word(a: Seq<char>, b: Seq<char>)
    requires
        forall|i: int| 0 <= i < a.len() ==> !is_white_space(a[i]),
        b.len() == 0 || is_white_space(b[0]),
    ensures
        word_len(a + b) == a.len(),
    decreases a.len(),
{
    if a.len() == 0 {
        assert(a + b =~= b);
    } else {
        let t = a.drop_first();
        assert forall|i: int| 0 <= i < t.len() implies !is_white_space(t[i]) by {
            assert(t[i] == a[i + 1]);
        }
        lemma_word_len_of_word(t, b);
        assert((a + b).drop_first() =~= t + b);
        assert((a + b)[0] == a[0]);
    }
}

/// The second word of `a b c`, for words `a`, `b`, `c` and a single space
/// between them.
proof fn lemma_second_of_three(a: Seq<char>, b: Seq<char>, c: Seq<char>)
    requires
        a.len() > 0,
        b.len() > 0,
        forall|i: int| 0 <= i < a.len() ==> !is_white_space(a[i]),
        forall|i: int| 0 <= i < b.len() ==> !is_white_space(b[i]),
    ensures
        second_word(a + seq![' '] + b + seq![' '] + c) == b,
{
    let sp = seq![' '];
    let l = a + sp + b + sp + c;
    assert(is_white_space(' '));
    assert(trim_start(l) == l);
    assert(l =~= a + (sp + b + sp + c));
    lemma_word_len_of_word(a, sp + b + sp + c);
    let r = l.skip(a.len() as int);
    assert(r =~= sp + (b + sp + c));
    lemma_trim_start_after_space(sp, b + sp + c);
    assert(trim_start(b + sp + c) == b + sp + c);
    assert(b + sp + c =~= b + (sp + c));
    lemma_word_len_of_word(b, sp + c);
    assert((b + sp + c).take(b.len() as int) =~= b);
}

/// A value that a redirect carries as it is: no `&`, no `%`, no white space.
pub open spec fn plain_value(v: Seq<char>) -> bool {
    forall|i: int| 0 <= i < v.len() ==> v[i] != '&' && v[i] != '%' && !is_white_space(#[trigger] v[i])
}

/// A `key=value` pair whose key holds no `=` and whose value needs no
/// decoding.
proof fn lemma_plain_pair(key: Seq<char>, v: Seq<char>)
    requires
        forall|i: int| 0 <= i < key.len() ==> key[i] != '=',
        plain_value(v),
    ensures
        pair_key(key + seq!['='] + v) == key,
        pair_value(key + seq!['='] + v) == v,
{
    let seg = key + seq!['='] + v;
    assert(seg =~= key + (seq!['='] + v));
    lemma_first_index_after(key, seq!['='] + v, '=');
    assert(first_index(seq!['='] + v, '=') == Some(0int));
    assert(seg.take(key.len() as int) =~= key);
    assert(seg.skip(key.len() as int + 1) =~= v);
    assert(!v.contains('%'));
    lemma_url_decode_without_percent(v);
}

/// The provider's redirect `GET /?code=C&state=S HTTP/1.1` gives back the
/// code and the state that it carries, for values that need no decoding, and
/// no error; what follows the request line does not matter.
pub proof fn law_redirect_gives_back_code_and_state(code: Seq<char>, state: Seq<char>, rest: Seq<char>)
    requires
        plain_value(code),
        plain_value(state),
    ensures
        redirect_of_text(
            "GET /?code="@ + code + "&state="@ + state + " HTTP/1.1\r\n"@ + rest,
        ) == (RedirectView { code: code, state: state, error: None }),
{
    reveal_strlit("GET /?code=");
    reveal_strlit("&state=");
    reveal_strlit(" HTTP/1.1\r\n");
    reveal_strlit("code");
    reveal_strlit("state");
    reveal_strlit("error");
    let kc = seq!['c', 'o', 'd', 'e'];
    let ks = seq!['s', 't', 'a', 't', 'e'];
    let p1 = kc + seq!['='] + code;
    let p2 = ks + seq!['='] + state;
    let q = p1 + seq!['&'] + p2;
    let target = seq!['/', '?'] + q;
    let line = seq!['G', 'E', 'T'] + seq![' '] + target + seq![' '] + seq![
        'H',
        'T',
        'T',
        'P',
        '/',
        '1',
        '.',
        '1',
    ];
    let text = "GET /?code="@ + code + "&state="@ + state + " HTTP/1.1\r\n"@ + rest;
    assert(text =~= (line + seq!['\r']) + (seq!['\n'] + rest));
    // the request line
    assert forall|i: int| 0 <= i < (line + seq!['\r']).len() implies (line + seq!['\r'])[i]
        != '\n' by {
        let x = (line + seq!['\r'])[i];
        if 11 <= i < 11 + code.len() {
            assert(x == code[i - 11]);
        } else if 18 + code.len() <= i < 18 + code.len() + state.len() {
            assert(x == state[i - 18 - code.len()]);
        }
    }
    lemma_first_index_after(line + seq!['\r'], seq!['\n'] + rest, '\n');
    assert(first_index(seq!['\n'] + rest, '\n') == Some(0int));
    assert(text.take(line.len() as int) =~= line);
    assert(first_line(text) == line);
    // the target
    assert forall|i: int| 0 <= i < target.len() implies !is_white_space(target[i]) by {
        if 7 <= i < 7 + code.len() {
            assert(target[i] == code[i - 7]);
        } else if 14 + code.len() <= i {
            assert(target[i] == state[i - 14 - code.len()]);
        }
    }
    lemma_second_of_three(seq!['G', 'E', 'T'], target, seq!['H', 'T', 'T', 'P', '/', '1', '.', '1']);
    // the query
    lemma_first_index_after(seq!['/'], seq!['?'] + q, '?');
    assert(seq!['/'] + (seq!['?'] + q) =~= target);
    assert(first_index(seq!['?'] + q, '?') == Some(0int));
    assert(target.skip(2) =~= q);
    assert(query_part(target) == q);
    // the pairs
    assert forall|i: int| 0 <= i < p1.len() implies p1[i] != '&' by {
        if i >= 5 {
            assert(p1[i] == code[i - 5]);
        }
    }
    assert forall|i: int| 0 <= i < p2.len() implies p2[i] != '&' by {
        if i >= 6 {
            assert(p2[i] == state[i - 6]);
        }
    }
    lemma_first_index_after(p1, seq!['&'] + p2, '&');
    assert(q =~= p1 + (seq!['&'] + p2));
    assert(first_index(seq!['&'] + p2, '&') == Some(0int));
    assert(q.take(p1.len() as int) =~= p1);
    assert(q.skip(p1.len() as int + 1) =~= p2);
    lemma_first_index_after(p2, Seq::<char>::empty(), '&');
    assert(p2 + Seq::<char>::empty() =~= p2);
    let segs = split_char(q, '&');
    assert(split_char(p2, '&') == seq![p2]);
    assert(segs =~= seq![p1, p2]);
    lemma_plain_pair(kc, code);
    lemma_plain_pair(ks, state);
    assert(kc =~= "code"@);
    assert(ks =~= "state"@);
    assert(segs.drop_first() =~= seq![p2]);
    assert(seq![p2].drop_first() =~= Seq::<Seq<char>>::empty());
    let after1 = apply_pair(empty_redirect(), p1);
    assert(after1 == RedirectView { code: code, state: seq![], error: None });
    let after2 = apply_pair(after1, p2);
    assert(after2 == RedirectView { code: code, state: state, error: None });
    assert(segs[0] == p1);
    assert(apply_pairs(empty_redirect(), segs) == apply_pairs(after1, segs.drop_first()));
    assert(seq![p2][0] == p2);
    assert(apply_pairs(after1, seq![p2]) == apply_pairs(after2, seq![p2].drop_first()));
    assert(apply_pairs(after2, Seq::<Seq<char>>::empty()) == after2);
    assert(second_word(line) == target);
    assert(redirect_of_text(text) == apply_pairs(empty_redirect(), segs));
}

// ---------------------------------------------------------------------------
// The answer to the browser
// ---------------------------------------------------------------------------

/// The page shown in the browser tab once the redirect arrived.
pub const SIGN_IN_DONE_PAGE: &'static str = "<!doctype html><html lang=\"tr\"><head><meta charset=\"utf-8\"><title>Plotica</title></head><body style=\"font-family:system-ui,sans-serif;background:#0e0e0f;color:#f0ede6;text-align:center;padding-top:90px;margin:0\"><div style=\"font-family:Georgia,serif;font-size:34px;font-weight:900;color:#e8c97a\">Plotica</div><p style=\"color:#9a9690;margin-top:14px\">Giris tamamlandi. Bu sekmeyi kapatip uygulamaya donebilirsiniz.</p><script>setTimeout(function(){window.close();},800);</script></body></html>";

/// A `200 OK` HTTP/1.1 response carrying the HTML `body`, its
/// `Content-Length` the number of UTF-8 bytes of the body, the connection
/// closed after it.
pub open spec fn http_ok_response(body: Seq<char>) -> Seq<char> {
    "HTTP/1.1 200 OK\r\nContent-Type: text/html; charset=utf-8\r\nContent-Length: "@ + decimal(
        encode_utf8(body).len(),
    ) + "\r\nConnection: close\r\n\r\n"@ + body
}

/// Builds [`http_ok_response`] for `body`.
pub fn http_ok_response_for(body: &str) -> (r: String)
    ensures
        r@ == http_ok_response(body@),
        r@ == "HTTP/1.1 200 OK\r\nContent-Type: text/html; charset=utf-8\r\nContent-Length: "@
            + decimal(encode_utf8(body@).len()) + "\r\nConnection: close\r\n\r\n"@ + body@,
{
    let mut r = String::new();
    push_str(&mut r, "HTTP/1.1 200 OK\r\nContent-Type: text/html; charset=utf-8\r\nContent-Length: ");
    let n = body.as_bytes().len();
    let len = decimal_string(n as u128);
    push_str(&mut r, len.as_str());
    push_str(&mut r, "\r\nConnection: close\r\n\r\n");
    push_str(&mut r, body);
    r
}

/// The response sent to every request on the loopback listener.
pub fn redirect_response() -> (r: String)
    ensures
        r@ == http_ok_response(SIGN_IN_DONE_PAGE@),
{
    http_ok_response_for(SIGN_IN_DONE_PAGE)
}

/// The answer's `Content-Length` counts the bytes of the body as sent: the
/// response is the status line and headers, with the decimal length of the
/// body's UTF-8 encoding (not its number of characters), then the body. For a
/// body with a character outside ASCII the byte count exceeds the character
/// count.
pub proof fn law_content_length_counts_bytes(body: Seq<char>)
    ensures
        http_ok_response(body) == "HTTP/1.1 200 OK\r\nContent-Type: text/html; charset=utf-8\r\nContent-Length: "@
            + decimal(encode_utf8(body).len()) + "\r\nConnection: close\r\n\r\n"@ + body,
        http_ok_response(body).skip(
            http_ok_response(body).len() - body.len(),
        ) == body,
{
    let r = http_ok_response(body);
    assert(r.skip(r.len() - body.len()) =~= body);
}

} // verus!
