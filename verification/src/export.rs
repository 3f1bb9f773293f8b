//! Exporting: file names that Windows accepts, the extension and filter of
//! the save dialog, Windows line endings and the optional byte order mark,
//! `file://` URLs, the printable page with its automatic print call, and
//! what the PDF export and the link opener answer.

use vstd::prelude::*;
use vstd::utf8::*;
use crate::codec::{
    is_unreserved, law_url_decode_undoes_url_encode, lemma_url_decode_two_ascii,
    percent_encode, percent_encode_byte, url_decode_spec, url_encode, url_encode_spec,
};
use crate::loopback::{chars_eq, lemma_first_index_after, sub_chars};
use crate::text::{
    all_ascii, ascii_lowercase, chars_of, contains, decimal, decimal_string, find_char, find_from,
    extension_of_name, find_last, first_index, is_plain_file_name, has_prefix, is_white_space, white_space, lemma_first_index, lemma_trim_end,
    lemma_trim_end_char, lemma_trim_start, lowercase_spec, occurs_at, opt_view, owned, path_extension,
    push_chars, push_str, replace_all, replace_chars, split_char, starts_with, string_of,
    to_lowercase, trim, trim_chars, trim_end, trim_end_char, trim_end_char_in_place,
    trim_start, trim_start_char,
};

verus! {

// ---------------------------------------------------------------------------
// File names
// ---------------------------------------------------------------------------

/// Characters that Windows refuses in file names: `\ / : * ? " < > |` and
/// every control character below U+0020 (among them tab and the line breaks).
pub open spec fn is_forbidden(c: char) -> bool {
    ||| (c as u32) < 0x20
    ||| c == '\\'
    ||| c == '/'
    ||| c == ':'
    ||| c == '*'
    ||| c == '?'
    ||| c == '"'
    ||| c == '<'
    ||| c == '>'
    ||| c == '|'
}

/// Executable test for [`is_forbidden`].
pub fn forbidden(c: char) -> (b: bool)
    ensures
        b == is_forbidden(c),
{
    (c as u32) < 0x20 || c == '\\' || c == '/' || c == ':' || c == '*' || c == '?' || c == '"'
        || c == '<' || c == '>' || c == '|'
}

/// `s` with every forbidden character replaced by `_`.
pub open spec fn replace_forbidden(s: Seq<char>) -> Seq<char> {
    s.map_values(|c: char| if is_forbidden(c) { '_' } else { c })
}

/// The name used when nothing usable is left of a file name.
pub open spec fn untitled() -> Seq<char> {
    "Adsiz"@
}

/// A file name that Windows accepts made of `name`: forbidden characters
/// become `_`, surrounding white space and then trailing dots are removed,
/// and `Adsiz` stands for what is left empty.
pub open spec fn sanitize_spec(name: Seq<char>) -> Seq<char> {
    let t = trim_end_char(trim(replace_forbidden(name)), '.');
    if t.len() == 0 {
        untitled()
    } else {
        t
    }
}

/// Cleans `name` into a file name that Windows accepts: the result is never
/// empty, holds no forbidden character, does not begin with white space and
/// does not end with `.`.
pub fn sanitize_file_name(name: &str) -> (r: String)
    ensures
        r@ == sanitize_spec(name@),
        r@.len() > 0,
        forall|i: int| 0 <= i < r@.len() ==> !is_forbidden(#[trigger] r@[i]),
        !is_white_space(r@[0]),
        r@.last() != '.',
{
    let v = chars_of(name);
    let mut cleaned: Vec<char> = Vec::new();
    let n = v.len();
    let mut i: usize = 0;
    while i < n
        invariant
            n == v@.len(),
            i <= n,
            cleaned@ == replace_forbidden(v@).take(i as int),
        decreases n - i,
    {
        let c = v[i];
        if forbidden(c) {
            cleaned.push('_');
        } else {
            cleaned.push(c);
        }
        i = i + 1;
        assert(cleaned@ =~= replace_forbidden(v@).take(i as int));
    }
    assert(replace_forbidden(v@).take(n as int) =~= replace_forbidden(v@));
    let mut t = trim_chars(&cleaned);
    trim_end_char_in_place(&mut t, '.');
    proof {
        let x = replace_forbidden(v@);
        let k1 = lemma_trim_start(x);
        let k2 = lemma_trim_end(trim_start(x));
        let k3 = lemma_trim_end_char(trim(x), '.');
        assert forall|j: int| 0 <= j < t@.len() implies !is_forbidden(#[trigger] t@[j]) by {
            assert(t@[j] == x[k1 + j]);
        }
        if t@.len() > 0 {
            assert(t@[0] == trim_start(x)[0]);
        }
    }
    if t.len() == 0 {
        proof {
            reveal_strlit("Adsiz");
        }
        owned("Adsiz")
    } else {
        string_of(t.as_slice())
    }
}

// ---------------------------------------------------------------------------
// The save dialog
// ---------------------------------------------------------------------------

/// The extension picked before it is lowered: the one asked for unless it is
/// missing or empty, else the one of the suggested name, else `txt`.
pub open spec fn picked_extension(
    requested: Option<Seq<char>>,
    of_name: Option<Seq<char>>,
) -> Seq<char> {
    match requested {
        Some(x) => if x.len() > 0 {
            x
        } else {
            match of_name {
                Some(y) => y,
                None => "txt"@,
            }
        },
        None => match of_name {
            Some(y) => y,
            None => "txt"@,
        },
    }
}

/// The extension of a saved file: [`picked_extension`] in lower case.
pub open spec fn chosen_extension(
    requested: Option<Seq<char>>,
    of_name: Option<Seq<char>>,
) -> Seq<char> {
    lowercase_spec(picked_extension(requested, of_name))
}

/// Chooses the extension from the one asked for and the one of the suggested
/// name, as [`chosen_extension`] says.
pub fn choose_extension(requested: Option<String>, of_name: Option<String>) -> (e: String)
    ensures
        e@ == chosen_extension(opt_view(requested), opt_view(of_name)),
        all_ascii(picked_extension(opt_view(requested), opt_view(of_name))) ==> e@
            == ascii_lowercase(picked_extension(opt_view(requested), opt_view(of_name))),
{
    let fallback = match of_name {
        Some(y) => y,
        None => owned("txt"),
    };
    let picked = match requested {
        Some(x) => if x.as_str().is_empty() {
            fallback
        } else {
            x
        },
        None => fallback,
    };
    to_lowercase(picked.as_str())
}

/// The extension of a saved file for the extension asked for and the
/// suggested file name, the latter read as a path on this platform.
pub fn resolve_extension(requested: Option<String>, suggested_name: &str) -> (e: String)
    ensures
        exists|of_name: Option<Seq<char>>|
            {
                &&& e@ == chosen_extension(opt_view(requested), of_name)
                &&& (all_ascii(picked_extension(opt_view(requested), of_name)) ==> e@
                    == ascii_lowercase(picked_extension(opt_view(requested), of_name)))
                &&& (of_name is Some ==> contains(suggested_name@, seq!['.'] + of_name->0))
                &&& (of_name is Some ==> !of_name->0.contains('.'))
                &&& (!suggested_name@.contains('.') ==> of_name is None)
                &&& (is_plain_file_name(suggested_name@) ==> of_name == extension_of_name(
                    suggested_name@,
                ))
            },
{
    let of_name = path_extension(suggested_name);
    let ghost g = opt_view(of_name);
    let e = choose_extension(requested, of_name);
    assert(e@ == chosen_extension(opt_view(requested), g));
    e
}

/// The filter label shown in the save dialog for a (lower-case) extension.
pub open spec fn filter_label_spec(ext: Seq<char>) -> Seq<char> {
    if ext == "txt"@ {
        "Metin dosyasi (*.txt)"@
    } else if ext == "csv"@ {
        "CSV tablosu (*.csv)"@
    } else if ext == "fdx"@ {
        "Final Draft senaryo (*.fdx)"@
    } else if ext == "html"@ {
        "HTML dosyasi (*.html)"@
    } else {
        "Dosya"@
    }
}

/// The filter label of the save dialog for `ext`.
pub fn filter_label(ext: &str) -> (l: &'static str)
    ensures
        l@ == filter_label_spec(ext@),
{
    let e = chars_of(ext);
    if chars_eq(&e, &chars_of("txt")) {
        "Metin dosyasi (*.txt)"
    } else if chars_eq(&e, &chars_of("csv")) {
        "CSV tablosu (*.csv)"
    } else if chars_eq(&e, &chars_of("fdx")) {
        "Final Draft senaryo (*.fdx)"
    } else if chars_eq(&e, &chars_of("html")) {
        "HTML dosyasi (*.html)"
    } else {
        "Dosya"
    }
}

// ---------------------------------------------------------------------------
// Line endings and the byte order mark
// ---------------------------------------------------------------------------

/// `\r\n`.
pub open spec fn crlf() -> Seq<char> {
    seq!['\r', '\n']
}

/// `\n`.
pub open spec fn lf() -> Seq<char> {
    seq!['\n']
}

/// Every `\r\n` made `\n`.
pub open spec fn to_lf(s: Seq<char>) -> Seq<char> {
    replace_all(s, crlf(), lf())
}

/// Every `\n` made `\r\n`.
pub open spec fn lf_to_crlf(s: Seq<char>) -> Seq<char> {
    replace_all(s, lf(), crlf())
}

/// Windows line endings: `\r\n` first made `\n`, then every `\n` made `\r\n`.
pub open spec fn crlf_spec(s: Seq<char>) -> Seq<char> {
    lf_to_crlf(to_lf(s))
}

/// Gives `contents` Windows line endings, as [`crlf_spec`] says.
pub fn to_crlf(contents: &str) -> (r: String)
    ensures
        r@ == crlf_spec(contents@),
{
    let v = chars_of(contents);
    let crlf_v: Vec<char> = vec!['\r', '\n'];
    let lf_v: Vec<char> = vec!['\n'];
    assert(crlf_v@ =~= crlf());
    assert(lf_v@ =~= lf());
    let a = replace_chars(&v, &crlf_v, &lf_v);
    let b = replace_chars(&a, &lf_v, &crlf_v);
    string_of(b.as_slice())
}

/// One step of [`lf_to_crlf`] on a non-empty text.
proof fn lemma_lf_to_crlf_step(x: Seq<char>)
    requires
        x.len() > 0,
    ensures
        lf_to_crlf(x) == if x[0] == '\n' {
            crlf() + lf_to_crlf(x.drop_first())
        } else {
            seq![x[0]] + lf_to_crlf(x.drop_first())
        },
{
    assert(x.skip(1) =~= x.drop_first());
    if x[0] == '\n' {
        assert(x.subrange(0, 1) =~= lf());
    } else {
        assert(x.subrange(0, 1)[0] != lf()[0]);
    }
}

/// [`to_lf`] on a text that begins with `\r\n`.
proof fn lemma_to_lf_crlf(y: Seq<char>)
    ensures
        to_lf(crlf() + y) == lf() + to_lf(y),
{
    let s = crlf() + y;
    assert(s.subrange(0, 2) =~= crlf());
    assert(s.skip(2) =~= y);
}

/// [`to_lf`] on a text that begins with a character that does not start `\r\n`.
proof fn lemma_to_lf_other(c: char, y: Seq<char>)
    requires
        c != '\r' || y.len() == 0 || y[0] != '\n',
    ensures
        to_lf(seq![c] + y) == seq![c] + to_lf(y),
{
    let s = seq![c] + y;
    assert(s.drop_first() =~= y);
    if s.len() >= 2 {
        if c != '\r' {
            assert(s.subrange(0, 2)[0] != crlf()[0]);
        } else {
            assert(s.subrange(0, 2)[1] != crlf()[1]);
        }
    }
}

/// [`lf_to_crlf`] gives a text whose first character is `\r` or the first
/// character of its argument, and never a leading `\n`.
proof fn lemma_lf_to_crlf_head(x: Seq<char>)
    ensures
        lf_to_crlf(x).len() == 0 || lf_to_crlf(x)[0] != '\n',
{
    if x.len() > 0 {
        lemma_lf_to_crlf_step(x);
    }
}

/// Turning every `\n` into `\r\n` and then every `\r\n` back into `\n`
/// gives the text back.
pub proof fn lemma_to_lf_undoes_lf_to_crlf(x: Seq<char>)
    ensures
        to_lf(lf_to_crlf(x)) == x,
    decreases x.len(),
{
    if x.len() == 0 {
        assert(lf_to_crlf(x) == x);
    } else {
        let rest = x.drop_first();
        lemma_lf_to_crlf_step(x);
        lemma_to_lf_undoes_lf_to_crlf(rest);
        if x[0] == '\n' {
            lemma_to_lf_crlf(lf_to_crlf(rest));
            assert(lf() + rest =~= x);
        } else {
            lemma_lf_to_crlf_head(rest);
            lemma_to_lf_other(x[0], lf_to_crlf(rest));
            assert(seq![x[0]] + rest =~= x);
        }
    }
}

/// Giving Windows line endings to a text that already has them changes
/// nothing.
pub proof fn law_crlf_idempotent(s: Seq<char>)
    ensures
        crlf_spec(crlf_spec(s)) == crlf_spec(s),
{
    lemma_to_lf_undoes_lf_to_crlf(to_lf(s));
}

/// Windows line endings keep the text's lines: read with `\r\n` as `\n`,
/// the converted text is the text it was made from.
pub proof fn law_crlf_keeps_lines(s: Seq<char>)
    ensures
        to_lf(crlf_spec(s)) == to_lf(s),
{
    lemma_to_lf_undoes_lf_to_crlf(to_lf(s));
}

/// After the conversion every `\n` follows a `\r`.
pub proof fn law_crlf_no_bare_lf(s: Seq<char>)
    ensures
        forall|i: int|
            0 <= i < crlf_spec(s).len() && #[trigger] crlf_spec(s)[i] == '\n' ==> i > 0
                && crlf_spec(s)[i - 1] == '\r',
{
    lemma_no_bare_lf(to_lf(s));
}

/// [`lf_to_crlf`] leaves no `\n` without a `\r` before it.
proof fn lemma_no_bare_lf(x: Seq<char>)
    ensures
        forall|i: int|
            0 <= i < lf_to_crlf(x).len() && #[trigger] lf_to_crlf(x)[i] == '\n' ==> i > 0
                && lf_to_crlf(x)[i - 1] == '\r',
    decreases x.len(),
{
    if x.len() > 0 {
        let rest = x.drop_first();
        lemma_lf_to_crlf_step(x);
        lemma_no_bare_lf(rest);
        lemma_lf_to_crlf_head(rest);
        let e = lf_to_crlf(x);
        let er = lf_to_crlf(rest);
        let h: int = if x[0] == '\n' { 2 } else { 1 };
        assert forall|i: int| 0 <= i < e.len() && #[trigger] e[i] == '\n' implies i > 0 && e[i
            - 1] == '\r' by {
            if i >= h {
                assert(e[i] == er[i - h]);
                if i - h > 0 {
                    assert(e[i - 1] == er[i - h - 1]);
                } else {
                    assert(er[0] != '\n');
                }
            }
        }
    }
}

/// The UTF-8 byte order mark.
pub open spec fn bom() -> Seq<u8> {
    seq![0xEFu8, 0xBBu8, 0xBFu8]
}

/// The bytes written for `text`: its UTF-8 encoding, after a byte order mark
/// where one is asked for (so that Excel reads a CSV file as UTF-8).
pub open spec fn file_bytes_spec(text: Seq<char>, with_bom: bool) -> Seq<u8> {
    (if with_bom {
        bom()
    } else {
        seq![]
    }) + encode_utf8(text)
}

/// The bytes of a saved text file, as [`file_bytes_spec`] says; no byte order
/// mark unless `bom` is `Some(true)`.
pub fn file_bytes(text: &str, bom_wanted: Option<bool>) -> (b: Vec<u8>)
    ensures
        b@ == file_bytes_spec(text@, bom_wanted == Some(true)),
{
    let mut b: Vec<u8> = Vec::new();
    let with_bom = match bom_wanted {
        Some(x) => x,
        None => false,
    };
    if with_bom {
        b.push(0xEFu8);
        b.push(0xBBu8);
        b.push(0xBFu8);
    }
    let ghost start = b@;
    assert(start =~= if with_bom {
        bom()
    } else {
        seq![]
    });
    let bytes = text.as_bytes();
    let n = bytes.len();
    let mut i: usize = 0;
    while i < n
        invariant
            n == bytes@.len(),
            i <= n,
            b@ == start + bytes@.take(i as int),
        decreases n - i,
    {
        b.push(bytes[i]);
        i = i + 1;
        assert(b@ =~= start + bytes@.take(i as int));
    }
    assert(bytes@.take(n as int) =~= bytes@);
    b
}

// ---------------------------------------------------------------------------
// file:// URLs
// ---------------------------------------------------------------------------

/// A Windows drive such as `C:`, kept unencoded at the start of a URL: one
/// ASCII character other than white space, and a colon (so that the URL stays
/// free of spaces).
pub open spec fn is_drive(seg: Seq<char>) -> bool {
    seg.len() == 2 && seg[1] == ':' && (seg[0] as u32) < 128 && !is_white_space(seg[0])
}

/// The first segment of a path in a URL: a drive as it is, anything else
/// percent-encoded.
pub open spec fn first_segment_url(seg: Seq<char>) -> Seq<char> {
    if is_drive(seg) {
        seg
    } else {
        url_encode_spec(seg)
    }
}

/// Later segments, each after a `/` and percent-encoded.
pub open spec fn later_segments_url(segs: Seq<Seq<char>>) -> Seq<char>
    decreases segs.len(),
{
    if segs.len() == 0 {
        seq![]
    } else {
        seq!['/'] + url_encode_spec(segs[0]) + later_segments_url(segs.drop_first())
    }
}

/// `s` with every back slash made `/`.
pub open spec fn forward_slashes(s: Seq<char>) -> Seq<char> {
    s.map_values(|c: char| if c == '\\' { '/' } else { c })
}

/// The `file://` URL of a path: back slashes made `/`, leading `/` removed,
/// each segment percent-encoded except a leading drive.
pub open spec fn file_url_spec(path: Seq<char>) -> Seq<char> {
    let s = trim_start_char(forward_slashes(path), '/');
    let segs = split_char(s, '/');
    "file:///"@ + first_segment_url(segs[0]) + later_segments_url(segs.drop_first())
}

/// A character that a URL can carry as it is: ASCII and not white space.
pub open spec fn url_safe_char(c: char) -> bool {
    (c as u32) < 128 && !is_white_space(c)
}

/// Percent-encoding yields only URL-safe characters.
proof fn lemma_percent_encode_safe(bytes: Seq<u8>)
    ensures
        forall|i: int|
            0 <= i < percent_encode(bytes).len() ==> url_safe_char(#[trigger] percent_encode(bytes)[i]),
    decreases bytes.len(),
{
    if bytes.len() > 0 {
        lemma_percent_encode_safe(bytes.drop_first());
        let h = percent_encode_byte(bytes[0]);
        let t = percent_encode(bytes.drop_first());
        assert forall|i: int| 0 <= i < h.len() implies url_safe_char(#[trigger] h[i]) by {
            let b = bytes[0];
            if !is_unreserved(b) && i > 0 {
                assert(b / 16 < 16 && b % 16 < 16);
            }
        }
        assert forall|i: int|
            0 <= i < percent_encode(bytes).len() implies url_safe_char(
            #[trigger] percent_encode(bytes)[i],
        ) by {
            if i < h.len() {
                assert(percent_encode(bytes)[i] == h[i]);
            } else {
                assert(percent_encode(bytes)[i] == t[i - h.len()]);
            }
        }
    }
}

/// Later segments in a URL are made of URL-safe characters.
proof fn lemma_later_segments_safe(segs: Seq<Seq<char>>)
    ensures
        forall|i: int|
            0 <= i < later_segments_url(segs).len() ==> url_safe_char(
                #[trigger] later_segments_url(segs)[i],
            ),
    decreases segs.len(),
{
    if segs.len() > 0 {
        lemma_later_segments_safe(segs.drop_first());
        lemma_percent_encode_safe(encode_utf8(segs[0]));
        let a = seq!['/'] + url_encode_spec(segs[0]);
        let b = later_segments_url(segs.drop_first());
        assert forall|i: int| 0 <= i < (a + b).len() implies url_safe_char(#[trigger] (a + b)[i]) by {
            if i == 0 {
            } else if i < a.len() {
                assert((a + b)[i] == url_encode_spec(segs[0])[i - 1]);
            } else {
                assert((a + b)[i] == b[i - a.len()]);
            }
        }
    }
}

/// The URL of a file carries Turkish letters and spaces safely: every
/// character is ASCII and none is white space.
pub proof fn law_file_url_is_safe(path: Seq<char>)
    ensures
        forall|i: int|
            0 <= i < file_url_spec(path).len() ==> url_safe_char(#[trigger] file_url_spec(path)[i]),
{
    let st = trim_start_char(forward_slashes(path), '/');
    let segs = split_char(st, '/');
    let prefix = "file:///"@;
    reveal_strlit("file:///");
    let first = first_segment_url(segs[0]);
    let later = later_segments_url(segs.drop_first());
    lemma_later_segments_safe(segs.drop_first());
    lemma_percent_encode_safe(encode_utf8(segs[0]));
    let u = file_url_spec(path);
    assert(u == prefix + first + later);
    assert forall|i: int| 0 <= i < u.len() implies url_safe_char(#[trigger] u[i]) by {
        if i < 8 {
            assert(u[i] == prefix[i]);
        } else if i < 8 + first.len() {
            assert(u[i] == first[i - 8]);
        } else {
            assert(u[i] == later[i - 8 - first.len()]);
        }
    }
}

/// Percent-encoding leaves no `/`.
proof fn lemma_percent_encode_no_slash(bytes: Seq<u8>)
    ensures
        forall|i: int| 0 <= i < percent_encode(bytes).len() ==> #[trigger] percent_encode(bytes)[i] != '/',
    decreases bytes.len(),
{
    if bytes.len() > 0 {
        lemma_percent_encode_no_slash(bytes.drop_first());
        let h = percent_encode_byte(bytes[0]);
        let t = percent_encode(bytes.drop_first());
        assert forall|i: int| 0 <= i < h.len() implies #[trigger] h[i] != '/' by {
            let b = bytes[0];
            if !is_unreserved(b) && i > 0 {
                assert(b / 16 < 16 && b % 16 < 16);
            }
        }
        assert forall|i: int|
            0 <= i < percent_encode(bytes).len() implies #[trigger] percent_encode(bytes)[i] != '/' by {
            if i < h.len() {
                assert(percent_encode(bytes)[i] == h[i]);
            } else {
                assert(percent_encode(bytes)[i] == t[i - h.len()]);
            }
        }
    }
}

/// Splitting a first piece without `/` and the later segments of a URL at
/// `/` gives the piece and then each later segment percent-encoded.
proof fn lemma_split_later_segments(x: Seq<char>, segs: Seq<Seq<char>>)
    requires
        forall|i: int| 0 <= i < x.len() ==> x[i] != '/',
    ensures
        split_char(x + later_segments_url(segs), '/').len() == segs.len() + 1,
        split_char(x + later_segments_url(segs), '/')[0] == x,
        forall|i: int|
            1 <= i <= segs.len() ==> #[trigger] split_char(x + later_segments_url(segs), '/')[i]
                == url_encode_spec(segs[i - 1]),
    decreases segs.len(),
{
    let whole = x + later_segments_url(segs);
    if segs.len() == 0 {
        assert(whole =~= x + Seq::<char>::empty());
        lemma_first_index_after(x, Seq::<char>::empty(), '/');
        assert(x + Seq::<char>::empty() =~= x);
        assert(split_char(whole, '/') == seq![x]);
    } else {
        let y = url_encode_spec(segs[0]);
        let rest = segs.drop_first();
        lemma_percent_encode_no_slash(encode_utf8(segs[0]));
        lemma_split_later_segments(y, rest);
        assert(whole =~= x + (seq!['/'] + (y + later_segments_url(rest))));
        lemma_first_index_after(x, seq!['/'] + (y + later_segments_url(rest)), '/');
        assert(first_index(seq!['/'] + (y + later_segments_url(rest)), '/') == Some(0int));
        assert(whole.take(x.len() as int) =~= x);
        assert(whole.skip(x.len() as int + 1) =~= y + later_segments_url(rest));
        let inner = split_char(y + later_segments_url(rest), '/');
        assert(split_char(whole, '/') == seq![x] + inner);
        assert forall|i: int| 1 <= i <= segs.len() implies #[trigger] split_char(whole, '/')[i]
            == url_encode_spec(segs[i - 1]) by {
            assert(split_char(whole, '/')[i] == inner[i - 1]);
            if i >= 2 {
                assert(inner[i - 1] == url_encode_spec(rest[i - 2]));
            }
        }
    }
}

/// The URL of a file gives the path back: after `file:///`, its segments
/// between `/` are as many as those of the path (back slashes made `/`,
/// leading `/` removed), and each percent-decodes to the segment of the path
/// at the same place.
pub proof fn law_file_url_segments_decode(path: Seq<char>)
    ensures
        ({
            let segs = split_char(trim_start_char(forward_slashes(path), '/'), '/');
            let url_segs = split_char(file_url_spec(path).skip(8), '/');
            &&& url_segs.len() == segs.len()
            &&& forall|i: int| 0 <= i < segs.len() ==> url_decode_spec(#[trigger] url_segs[i]) == Some(segs[i])
        }),
{
    let st = trim_start_char(forward_slashes(path), '/');
    let segs = split_char(st, '/');
    reveal_strlit("file:///");
    let first = first_segment_url(segs[0]);
    assert(file_url_spec(path).skip(8) =~= first + later_segments_url(segs.drop_first()));
    lemma_split_length(st);
    if is_drive(segs[0]) {
        lemma_url_decode_two_ascii(segs[0][0], segs[0][1]);
        assert(seq![segs[0][0], segs[0][1]] =~= segs[0]);
        lemma_first_index(st, '/');
        assert forall|i: int| 0 <= i < segs[0].len() implies segs[0][i] != '/' by {
            assert(segs[0][i] == st[i]);
        }
    } else {
        lemma_percent_encode_no_slash(encode_utf8(segs[0]));
        law_url_decode_undoes_url_encode(segs[0]);
    }
    lemma_split_later_segments(first, segs.drop_first());
    let url_segs = split_char(file_url_spec(path).skip(8), '/');
    assert forall|i: int| 0 <= i < segs.len() implies url_decode_spec(#[trigger] url_segs[i])
        == Some(segs[i]) by {
        if i >= 1 {
            law_url_decode_undoes_url_encode(segs[i]);
            assert(segs.drop_first()[i - 1] == segs[i]);
        }
    }
}

/// Splitting gives at least one piece.
proof fn lemma_split_length(s: Seq<char>)
    ensures
        split_char(s, '/').len() >= 1,
{
    lemma_first_index(s, '/');
}

/// The segment `seg` as it stands in the URL.
fn segment_url(seg: &Vec<char>, first: bool) -> (r: String)
    ensures
        r@ == if first {
            first_segment_url(seg@)
        } else {
            url_encode_spec(seg@)
        },
{
    let s = string_of(seg.as_slice());
    if first && seg.len() == 2 && seg[1] == ':' {
        let c = seg[0];
        if (c as u32) < 128 && !white_space(c) {
            return s;
        }
    }
    url_encode(s.as_str())
}

/// The `file://` URL of `path` (a path as text), as [`file_url_spec`] says.
pub fn file_url(path: &str) -> (u: String)
    ensures
        u@ == file_url_spec(path@),
{
    let v = chars_of(path);
    // back slashes to slashes
    let mut w: Vec<char> = Vec::new();
    let n = v.len();
    let mut i: usize = 0;
    while i < n
        invariant
            n == v@.len(),
            i <= n,
            w@ == forward_slashes(v@).take(i as int),
        decreases n - i,
    {
        if v[i] == '\\' {
            w.push('/');
        } else {
            w.push(v[i]);
        }
        i = i + 1;
        assert(w@ =~= forward_slashes(v@).take(i as int));
    }
    let ghost mapped = forward_slashes(v@);
    assert(mapped.take(n as int) =~= mapped);
    // leading slashes
    let mut start: usize = 0;
    while start < w.len() && w[start] == '/'
        invariant
            start <= w@.len(),
            trim_start_char(w@.skip(start as int), '/') == trim_start_char(mapped, '/'),
            w@ == mapped,
        decreases w@.len() - start,
    {
        assert(w@.skip(start as int).drop_first() =~= w@.skip(start + 1));
        start = start + 1;
    }
    let s = sub_chars(&w, start, w.len());
    assert(s@ =~= w@.skip(start as int));
    let ghost st = trim_start_char(mapped, '/');
    assert(st == s@);
    // segments
    let mut out = owned("file:///");
    let mut pos: usize = 0;
    let mut first = true;
    assert(s@.skip(0) =~= s@);
    let ghost segs = split_char(s@, '/');
    proof {
        lemma_first_index(s@, '/');
    }
    loop
        invariant
            pos <= s@.len(),
            s@ == trim_start_char(forward_slashes(path@), '/'),
            segs == split_char(s@, '/'),
            first ==> pos == 0,
            first ==> out@ == "file:///"@,
            !first ==> out@ + later_segments_url(split_char(s@.skip(pos as int), '/'))
                == "file:///"@ + first_segment_url(segs[0]) + later_segments_url(segs.drop_first()),
        decreases s@.len() - pos,
    {
        let ghost rest = s@.skip(pos as int);
        proof {
            lemma_first_index(rest, '/');
        }
        let ghost before = out@;
        match find_char(&s, '/', pos) {
            Some(k) => {
                let seg = sub_chars(&s, pos, k);
                proof {
                    assert(first_index(rest, '/') == Some(k - pos));
                    assert(seg@ =~= rest.take(k - pos));
                    assert(rest.skip(k - pos + 1) =~= s@.skip(k + 1));
                    let rs = split_char(rest, '/');
                    assert(rs[0] == seg@);
                    assert(rs.drop_first() =~= split_char(s@.skip(k + 1), '/'));
                }
                if !first {
                    push_str(&mut out, "/");
                }
                let piece = segment_url(&seg, first);
                push_str(&mut out, piece.as_str());
                proof {
                    let rs = split_char(rest, '/');
                    if first {
                        assert(rest =~= s@);
                        assert(segs[0] == seg@);
                        assert(segs.drop_first() == split_char(s@.skip(k + 1), '/'));
                    } else {
                        assert(later_segments_url(rs) == seq!['/'] + url_encode_spec(rs[0])
                            + later_segments_url(rs.drop_first()));
                        assert("/"@ == seq!['/']) by {
                            reveal_strlit("/");
                        }
                        assert(before + later_segments_url(rs) =~= out@ + later_segments_url(
                            rs.drop_first(),
                        ));
                    }
                }
                first = false;
                pos = k + 1;
            },
            None => {
                let seg = sub_chars(&s, pos, s.len());
                proof {
                    assert(seg@ =~= rest);
                    let rs = split_char(rest, '/');
                    assert(rs =~= seq![seg@]);
                    assert(rs.drop_first() =~= Seq::<Seq<char>>::empty());
                }
                if !first {
                    push_str(&mut out, "/");
                }
                let piece = segment_url(&seg, first);
                push_str(&mut out, piece.as_str());
                proof {
                    let rs = split_char(rest, '/');
                    if first {
                        assert(rest =~= s@);
                        assert(segs[0] == seg@);
                        assert(segs.drop_first() =~= Seq::<Seq<char>>::empty());
                        assert(later_segments_url(segs.drop_first()) =~= Seq::<char>::empty());
                    } else {
                        assert("/"@ == seq!['/']) by {
                            reveal_strlit("/");
                        }
                        assert(later_segments_url(rs) == seq!['/'] + url_encode_spec(rs[0])
                            + later_segments_url(rs.drop_first()));
                        assert(later_segments_url(rs.drop_first()) =~= Seq::<char>::empty());
                        assert(out@ =~= before + later_segments_url(rs));
                    }
                }
                return out;
            },
        }
    }
}

// ---------------------------------------------------------------------------
// Printing
// ---------------------------------------------------------------------------

/// The script that opens the print dialog once the page has loaded.
pub const AUTO_PRINT: &'static str = "<script>window.addEventListener('load',function(){setTimeout(function(){window.print();},400);});</script>";

/// The last index at which `p` occurs in `s` (meaningful when it occurs).
pub open spec fn last_occurrence(s: Seq<char>, p: Seq<char>) -> int {
    choose|i: int| occurs_at(s, p, i) && forall|j: int| i < j ==> !occurs_at(s, p, j)
}

/// The first index at which `p` occurs in `s` (meaningful when it occurs).
pub open spec fn first_occurrence(s: Seq<char>, p: Seq<char>) -> int {
    choose|i: int| occurs_at(s, p, i) && forall|j: int| 0 <= j < i ==> !occurs_at(s, p, j)
}

/// `html` with the print script just before its last `</body>`, or at its end
/// when it has none.
pub open spec fn with_auto_print(html: Seq<char>) -> Seq<char> {
    if contains(html, "</body>"@) {
        let i = last_occurrence(html, "</body>"@);
        html.take(i) + AUTO_PRINT@ + html.skip(i)
    } else {
        html + AUTO_PRINT@
    }
}

/// The first occurrence of `p` in `s` replaced by `r`, as `str::replacen(p, r, 1)`.
pub open spec fn replace_first(s: Seq<char>, p: Seq<char>, r: Seq<char>) -> Seq<char> {
    if contains(s, p) {
        let i = first_occurrence(s, p);
        s.take(i) + r + s.skip(i + p.len())
    } else {
        s
    }
}

/// A page that says nothing of its character set gets `<meta charset="utf-8">`
/// right after its first `<head>`.
pub open spec fn with_charset(page: Seq<char>) -> Seq<char> {
    if contains(page, "charset"@) {
        page
    } else {
        replace_first(page, "<head>"@, "<head><meta charset=\"utf-8\">"@)
    }
}

/// The page written for printing.
pub open spec fn printable_page_spec(html: Seq<char>) -> Seq<char> {
    with_charset(with_auto_print(html))
}

/// Inserts the print script, as [`with_auto_print`] says: removing the script
/// again gives back `html`.
pub fn insert_auto_print(html: &str) -> (r: String)
    ensures
        r@ == with_auto_print(html@),
        exists|i: int| 0 <= i <= html@.len() && r@ == html@.take(i) + AUTO_PRINT@ + html@.skip(i),
{
    let v = chars_of(html);
    let p = chars_of("</body>");
    let mut r = String::new();
    match find_last(&v, &p) {
        Some(i) => {
            proof {
                let j = last_occurrence(v@, p@);
                assert(occurs_at(v@, p@, i as int));
                assert(occurs_at(v@, p@, j) && forall|k: int| j < k ==> !occurs_at(v@, p@, k));
                assert(j == i);
            }
            let head = sub_chars(&v, 0, i);
            let tail = sub_chars(&v, i, v.len());
            push_chars(&mut r, head.as_slice());
            push_str(&mut r, AUTO_PRINT);
            push_chars(&mut r, tail.as_slice());
            assert(head@ =~= v@.take(i as int));
            assert(tail@ =~= v@.skip(i as int));
        },
        None => {
            push_str(&mut r, html);
            push_str(&mut r, AUTO_PRINT);
            assert(html@.take(html@.len() as int) =~= html@);
            assert(html@.skip(html@.len() as int) =~= Seq::<char>::empty());
            assert(r@ =~= html@.take(html@.len() as int) + AUTO_PRINT@ + html@.skip(
                html@.len() as int,
            ));
        },
    }
    r
}

/// Adds the character set declaration, as [`with_charset`] says.
pub fn ensure_charset(page: String) -> (r: String)
    ensures
        r@ == with_charset(page@),
{
    let v = chars_of(page.as_str());
    let cs = chars_of("charset");
    match find_from(&v, &cs, 0) {
        Some(_) => {
            return page;
        },
        None => {},
    }
    let h = chars_of("<head>");
    match find_from(&v, &h, 0) {
        Some(i) => {
            proof {
                let j = first_occurrence(v@, h@);
                assert(occurs_at(v@, h@, i as int));
                assert(occurs_at(v@, h@, j) && forall|k: int| 0 <= k < j ==> !occurs_at(v@, h@, k));
                assert(j == i);
            }
            let mut r = String::new();
            let n = v.len();
            assert(i + h@.len() <= n);
            let head = sub_chars(&v, 0, i);
            let tail = sub_chars(&v, i + h.len(), n);
            push_chars(&mut r, head.as_slice());
            push_str(&mut r, "<head><meta charset=\"utf-8\">");
            push_chars(&mut r, tail.as_slice());
            assert(head@ =~= v@.take(i as int));
            assert(tail@ =~= v@.skip(i + h@.len()));
            r
        },
        None => page,
    }
}

/// The page written for printing: `html` with the print script, and the
/// character set declared where it was not.
pub fn printable_page(html: &str) -> (r: String)
    ensures
        r@ == printable_page_spec(html@),
{
    let with_script = insert_auto_print(html);
    ensure_charset(with_script)
}

/// Whether a file left by an earlier print is removed: when it is more than a
/// day (86 400 s) old. `age_secs` is its age in seconds, `None` where the age
/// cannot be told (a modification time after now).
pub fn is_stale_print_file(age_secs: Option<u64>) -> (b: bool)
    ensures
        b == (age_secs is Some && age_secs->0 > 86_400),
{
    match age_secs {
        Some(a) => a > 86_400,
        None => false,
    }
}

/// The base name of a print file: the cleaned name where one is given and
/// cleaning leaves more than the fallback `Adsiz`, else `plotica_` and the
/// time stamp.
pub open spec fn print_base_spec(name: Option<Seq<char>>, stamp: nat) -> Seq<char> {
    match name {
        Some(n) => if sanitize_spec(n) != untitled() {
            sanitize_spec(n)
        } else {
            "plotica_"@ + decimal(stamp)
        },
        None => "plotica_"@ + decimal(stamp),
    }
}

/// The file name (`<base>.html`) of the page written for printing; `stamp`
/// is the time in milliseconds.
pub fn print_file_name(name: Option<String>, stamp: u128) -> (r: String)
    ensures
        r@ == print_base_spec(opt_view(name), stamp as nat) + ".html"@,
        name is Some && sanitize_spec(name->0@) != "Adsiz"@ ==> r@ == sanitize_spec(name->0@)
            + ".html"@,
        (name is None || sanitize_spec(name->0@) == "Adsiz"@) ==> r@ == "plotica_"@ + decimal(
            stamp as nat,
        ) + ".html"@,
{
    let fallback = {
        let mut f = owned("plotica_");
        let d = decimal_string(stamp);
        push_str(&mut f, d.as_str());
        f
    };
    let mut base = match name {
        Some(n) => {
            let c = sanitize_file_name(n.as_str());
            let cv = chars_of(c.as_str());
            if chars_eq(&cv, &chars_of("Adsiz")) {
                fallback
            } else {
                c
            }
        },
        None => fallback,
    };
    push_str(&mut base, ".html");
    base
}

// ---------------------------------------------------------------------------
// PDF export
// ---------------------------------------------------------------------------

/// The temporary page file of a PDF export.
pub fn pdf_page_file_name(stamp: u128) -> (r: String)
    ensures
        r@ == "pdf_"@ + decimal(stamp as nat) + ".html"@,
{
    let mut r = owned("pdf_");
    let d = decimal_string(stamp);
    push_str(&mut r, d.as_str());
    push_str(&mut r, ".html");
    r
}

/// The label of the hidden window of a PDF export.
pub fn pdf_window_label(stamp: u128) -> (r: String)
    ensures
        r@ == "pdfprint_"@ + decimal(stamp as nat),
{
    let mut r = owned("pdfprint_");
    let d = decimal_string(stamp);
    push_str(&mut r, d.as_str());
    r
}

/// What the PDF writer's completion reports: `hr` is the call's own result
/// (its error as text), `ok` whether the file was written.
pub fn print_completion(hr: Result<(), String>, ok: bool) -> (r: Result<(), String>)
    ensures
        match hr {
            Ok(()) => if ok {
                r is Ok
            } else {
                r is Err && r->Err_0@ == "PDF yazilamadi"@
            },
            Err(e) => r is Err && r->Err_0@ == "PrintToPdf: "@ + e@,
        },
{
    match hr {
        Ok(()) => if ok {
            Ok(())
        } else {
            Err(owned("PDF yazilamadi"))
        },
        Err(e) => {
            let mut m = owned("PrintToPdf: ");
            push_str(&mut m, e.as_str());
            Err(m)
        },
    }
}

/// The answer of a PDF export: `completion` is what the writer reported, or
/// `None` when nothing came within the time allowed; `out` is the target path.
pub fn pdf_export_answer(completion: Option<Result<(), String>>, out: String) -> (r: Result<
    Option<String>,
    String,
>)
    ensures
        match completion {
            Some(Ok(())) => r is Ok && r->Ok_0 is Some && r->Ok_0->0@ == out@,
            Some(Err(e)) => r is Err && r->Err_0@ == e@,
            None => r is Err && r->Err_0@ == "PDF olusturma zaman asimina ugradi"@,
        },
{
    match completion {
        Some(Ok(())) => Ok(Some(out)),
        Some(Err(e)) => Err(e),
        None => Err(owned("PDF olusturma zaman asimina ugradi")),
    }
}

// ---------------------------------------------------------------------------
// Links
// ---------------------------------------------------------------------------

/// The schemes of links that may be opened in the system browser.
pub open spec fn allowed_link(url: Seq<char>) -> bool {
    starts_with(url, "https://"@) || starts_with(url, "http://"@) || starts_with(url, "mailto:"@)
}

/// Lets through only `https://`, `http://` and `mailto:` links.
pub fn check_link(url: &str) -> (r: Result<(), String>)
    ensures
        allowed_link(url@) ==> r is Ok,
        !allowed_link(url@) ==> r is Err && r->Err_0@ == "gecersiz url"@,
        r is Ok <==> (starts_with(url@, "https://"@) || starts_with(url@, "http://"@)
            || starts_with(url@, "mailto:"@)),
{
    let v = chars_of(url);
    if has_prefix(&v, &chars_of("https://")) || has_prefix(&v, &chars_of("http://")) || has_prefix(
        &v,
        &chars_of("mailto:"),
    ) {
        Ok(())
    } else {
        Err(owned("gecersiz url"))
    }
}

// ---------------------------------------------------------------------------
// Laws of the export helpers
// ---------------------------------------------------------------------------

/// A name that Windows already accepts is kept as it is: with no character
/// among `\ / : * ? " < > |` or below U+0020, no white space at either end
/// and no `.` at the end, the cleaned name is the name itself (an apostrophe,
/// a Turkish letter or a space inside stay).
pub proof fn law_sanitize_keeps_clean_names(name: Seq<char>)
    requires
        name.len() > 0,
        forall|i: int|
            0 <= i < name.len() ==> {
                let c = #[trigger] name[i];
                &&& (c as u32) >= 0x20
                &&& c != '\\'
                &&& c != '/'
                &&& c != ':'
                &&& c != '*'
                &&& c != '?'
                &&& c != '"'
                &&& c != '<'
                &&& c != '>'
                &&& c != '|'
            },
        !is_white_space(name[0]),
        !is_white_space(name.last()),
        name.last() != '.',
    ensures
        sanitize_spec(name) == name,
{
    let m = replace_forbidden(name);
    assert forall|i: int| 0 <= i < name.len() implies !is_forbidden(#[trigger] name[i]) by {}
    assert(m =~= name);
    assert(trim_start(name) == name);
    assert(trim_end(name) == name);
    assert(trim_end_char(name, '.') == name);
}

/// Cleaning changes only the forbidden characters: it is the trimming (white
/// space at both ends, then trailing dots) of a text of the same length that
/// has `_` where the name has one of `\ / : * ? " < > |` or a character below
/// U+0020, and the name's own character everywhere else; `Adsiz` stands for
/// an empty result.
pub proof fn law_sanitize_replaces_only_forbidden(name: Seq<char>)
    ensures
        exists|m: Seq<char>|
            {
                &&& m.len() == name.len()
                &&& forall|i: int|
                    0 <= i < name.len() ==> #[trigger] m[i] == if (name[i] as u32) < 0x20
                        || name[i] == '\\' || name[i] == '/' || name[i] == ':' || name[i] == '*'
                        || name[i] == '?' || name[i] == '"' || name[i] == '<' || name[i] == '>'
                        || name[i] == '|' {
                        '_'
                    } else {
                        name[i]
                    }
                &&& sanitize_spec(name) == if trim_end_char(trim(m), '.').len() == 0 {
                    "Adsiz"@
                } else {
                    trim_end_char(trim(m), '.')
                }
            },
{
    let m = replace_forbidden(name);
    assert(m.len() == name.len());
    assert forall|i: int| 0 <= i < name.len() implies #[trigger] m[i] == if (name[i] as u32) < 0x20
        || name[i] == '\\' || name[i] == '/' || name[i] == ':' || name[i] == '*' || name[i] == '?'
        || name[i] == '"' || name[i] == '<' || name[i] == '>' || name[i] == '|' {
        '_'
    } else {
        name[i]
    } by {}
    assert(sanitize_spec(name) == if trim_end_char(trim(m), '.').len() == 0 {
        "Adsiz"@
    } else {
        trim_end_char(trim(m), '.')
    });
}

/// A print file is named after the cleaned document name whenever cleaning
/// leaves more than `Adsiz`, and after the time stamp otherwise.
pub proof fn law_print_file_named_after_document(name: Option<Seq<char>>, stamp: nat)
    ensures
        name is Some && sanitize_spec(name->0) != "Adsiz"@ ==> print_base_spec(name, stamp)
            == sanitize_spec(name->0),
        (name is None || sanitize_spec(name->0) == "Adsiz"@) ==> print_base_spec(name, stamp)
            == "plotica_"@ + decimal(stamp),
{
}

/// A link is let through exactly when it begins with `https://`, `http://`
/// or `mailto:`; what follows the scheme (a path, a query) does not matter.
pub proof fn law_links_by_scheme(url: Seq<char>, rest: Seq<char>)
    ensures
        allowed_link(url) <==> (starts_with(url, "https://"@) || starts_with(url, "http://"@)
            || starts_with(url, "mailto:"@)),
        allowed_link("https://"@ + rest),
        allowed_link("http://"@ + rest),
        allowed_link("mailto:"@ + rest),
{
    lemma_starts_with_concat("https://"@, rest);
    lemma_starts_with_concat("http://"@, rest);
    lemma_starts_with_concat("mailto:"@, rest);
}

/// A text begins with any prefix put before it.
proof fn lemma_starts_with_concat(p: Seq<char>, rest: Seq<char>)
    ensures
        starts_with(p + rest, p),
{
    assert((p + rest).subrange(0, p.len() as int) =~= p);
}

} // verus!
