use plotica::export::{
    check_link, choose_extension, file_bytes, file_url, filter_label, insert_auto_print,
    pdf_export_answer, pdf_page_file_name, pdf_window_label, print_completion,
    is_stale_print_file, print_file_name, printable_page, resolve_extension, to_crlf, AUTO_PRINT,
};
use plotica::sanitize_file_name;

#[test]
fn sanitize_replaces_forbidden_characters() {
    assert_eq!(sanitize_file_name("a:b"), "a_b");
    assert_eq!(sanitize_file_name("rapor?*<>|\"x"), "rapor______x");
    assert_eq!(sanitize_file_name("dir/sub\\name"), "dir_sub_name");
    assert_eq!(sanitize_file_name("x\ty\n"), "x_y_");
}

#[test]
fn sanitize_trims_white_space_then_dots() {
    assert_eq!(sanitize_file_name("  Senaryo  "), "Senaryo");
    assert_eq!(sanitize_file_name("Taslak..."), "Taslak");
    // dots are removed after the white space, so a space before them stays
    assert_eq!(sanitize_file_name("Taslak ."), "Taslak ");
    assert_eq!(sanitize_file_name(".gizli"), ".gizli");
}

#[test]
fn sanitize_falls_back_to_untitled() {
    assert_eq!(sanitize_file_name(""), "Adsiz");
    assert_eq!(sanitize_file_name("   "), "Adsiz");
    assert_eq!(sanitize_file_name(" ... "), "Adsiz");
    assert_eq!(sanitize_file_name("\u{3000}"), "Adsiz");
}

#[test]
fn sanitize_keeps_unicode_letters() {
    assert_eq!(sanitize_file_name("Çağrı Ödülü: 1"), "Çağrı Ödülü_ 1");
}

#[test]
fn extension_choice() {
    assert_eq!(choose_extension(Some("CSV".to_string()), None), "csv");
    assert_eq!(choose_extension(Some(String::new()), Some("FDX".to_string())), "fdx");
    assert_eq!(choose_extension(None, None), "txt");
    assert_eq!(choose_extension(Some(String::new()), None), "txt");
    assert_eq!(choose_extension(None, Some("HTML".to_string())), "html");
}

#[test]
fn extension_from_suggested_name() {
    assert_eq!(resolve_extension(None, "rapor.FDX"), "fdx");
    assert_eq!(resolve_extension(None, "rapor"), "txt");
    assert_eq!(resolve_extension(None, "arsiv.tar.GZ"), "gz");
    assert_eq!(resolve_extension(Some("Csv".to_string()), "rapor.txt"), "csv");
    assert_eq!(resolve_extension(None, ".bashrc"), "txt");
}

#[test]
fn dialog_filter_labels() {
    assert_eq!(filter_label("txt"), "Metin dosyasi (*.txt)");
    assert_eq!(filter_label("csv"), "CSV tablosu (*.csv)");
    assert_eq!(filter_label("fdx"), "Final Draft senaryo (*.fdx)");
    assert_eq!(filter_label("html"), "HTML dosyasi (*.html)");
    assert_eq!(filter_label("pdf"), "Dosya");
    assert_eq!(filter_label("TXT"), "Dosya");
}

#[test]
fn crlf_conversion() {
    assert_eq!(to_crlf("a\nb\r\nc"), "a\r\nb\r\nc");
    assert_eq!(to_crlf("\n\n"), "\r\n\r\n");
    assert_eq!(to_crlf("a\rb"), "a\rb");
    assert_eq!(to_crlf("a\r\r\nb"), "a\r\r\nb");
    assert_eq!(to_crlf(""), "");
}

#[test]
fn crlf_conversion_is_idempotent() {
    for s in ["a\nb", "a\r\nb\n", "\r\n\r", "x\r\r\n\n\ry"] {
        let once = to_crlf(s);
        assert_eq!(to_crlf(&once), once);
    }
}

#[test]
fn crlf_conversion_leaves_no_bare_line_feed() {
    let out = to_crlf("a\nb\r\n\nc\r");
    let chars: Vec<char> = out.chars().collect();
    for (i, c) in chars.iter().enumerate() {
        if *c == '\n' {
            assert!(i > 0 && chars[i - 1] == '\r');
        }
    }
}

#[test]
fn saved_bytes_with_and_without_bom() {
    assert_eq!(file_bytes("é", Some(true)), vec![0xEF, 0xBB, 0xBF, 0xC3, 0xA9]);
    assert_eq!(file_bytes("é", Some(false)), vec![0xC3, 0xA9]);
    assert_eq!(file_bytes("ab", None), vec![b'a', b'b']);
    assert_eq!(file_bytes("", Some(true)), vec![0xEF, 0xBB, 0xBF]);
}

#[test]
fn file_urls() {
    assert_eq!(
        file_url("C:\\Users\\Ayşe Yılmaz\\doc.html"),
        "file:///C:/Users/Ay%C5%9Fe%20Y%C4%B1lmaz/doc.html"
    );
    assert_eq!(
        file_url("/tmp/plotica-print/a b.html"),
        "file:///tmp/plotica-print/a%20b.html"
    );
    assert_eq!(file_url("relative.html"), "file:///relative.html");
    // only a leading drive is left unencoded
    assert_eq!(file_url("/x/C:/y"), "file:///x/C%3A/y");
    assert_eq!(file_url(""), "file:///");
}

#[test]
fn auto_print_goes_before_the_last_body_end() {
    let html = "<html><body>a</body>b</body></html>";
    let expected = format!("<html><body>a</body>b{}</body></html>", AUTO_PRINT);
    assert_eq!(insert_auto_print(html), expected);
    assert_eq!(insert_auto_print("<p>x</p>"), format!("<p>x</p>{}", AUTO_PRINT));
}

#[test]
fn removing_the_script_gives_the_page_back() {
    for html in ["<html><body>x</body></html>", "plain", ""] {
        let out = insert_auto_print(html);
        assert_eq!(out.replacen(AUTO_PRINT, "", 1), html);
    }
}

#[test]
fn printable_page_declares_charset() {
    let html = "<html><head><title>t</title></head><body>x</body></html>";
    let expected = format!(
        "<html><head><meta charset=\"utf-8\"><title>t</title></head><body>x{}</body></html>",
        AUTO_PRINT
    );
    assert_eq!(printable_page(html), expected);
}

#[test]
fn printable_page_keeps_a_declared_charset() {
    let html = "<html><head><meta charset=\"iso-8859-9\"></head><body></body></html>";
    let expected = format!(
        "<html><head><meta charset=\"iso-8859-9\"></head><body>{}</body></html>",
        AUTO_PRINT
    );
    assert_eq!(printable_page(html), expected);
    // without a <head> nothing is added
    assert_eq!(printable_page("<p>x</p>"), format!("<p>x</p>{}", AUTO_PRINT));
}

#[test]
fn print_file_names() {
    assert_eq!(print_file_name(Some("Senaryo: 1".to_string()), 5), "Senaryo_ 1.html");
    assert_eq!(print_file_name(Some("...".to_string()), 5), "plotica_5.html");
    assert_eq!(print_file_name(Some("Adsiz".to_string()), 7), "plotica_7.html");
    assert_eq!(print_file_name(None, 1700000000123), "plotica_1700000000123.html");
}

#[test]
fn pdf_names() {
    assert_eq!(pdf_page_file_name(42), "pdf_42.html");
    assert_eq!(pdf_window_label(0), "pdfprint_0");
    assert_eq!(
        pdf_window_label(u128::MAX),
        "pdfprint_340282366920938463463374607431768211455"
    );
}

#[test]
fn pdf_completion() {
    assert_eq!(print_completion(Ok(()), true), Ok(()));
    assert_eq!(print_completion(Ok(()), false), Err("PDF yazilamadi".to_string()));
    assert_eq!(
        print_completion(Err("0x80004005".to_string()), true),
        Err("PrintToPdf: 0x80004005".to_string())
    );
}

#[test]
fn pdf_answer() {
    assert_eq!(
        pdf_export_answer(Some(Ok(())), "C:\\out.pdf".to_string()),
        Ok(Some("C:\\out.pdf".to_string()))
    );
    assert_eq!(
        pdf_export_answer(Some(Err("PDF yazilamadi".to_string())), "x".to_string()),
        Err("PDF yazilamadi".to_string())
    );
    assert_eq!(
        pdf_export_answer(None, "x".to_string()),
        Err("PDF olusturma zaman asimina ugradi".to_string())
    );
}

#[test]
fn links() {
    assert_eq!(check_link("https://plotica.app"), Ok(()));
    assert_eq!(check_link("http://example.com"), Ok(()));
    assert_eq!(check_link("mailto:destek@plotica.app"), Ok(()));
    assert_eq!(check_link("ftp://example.com"), Err("gecersiz url".to_string()));
    assert_eq!(check_link("javascript:alert(1)"), Err("gecersiz url".to_string()));
    assert_eq!(check_link("HTTPS://example.com"), Err("gecersiz url".to_string()));
    assert_eq!(check_link(""), Err("gecersiz url".to_string()));
}

#[test]
fn file_urls_are_ascii_without_spaces() {
    for p in ["C:\\Belgeler\\Şehir Işıkları\\sahne 1.html", "/home/gül/ö ü/ç.html", "a\tb/c d"] {
        let u = file_url(p);
        assert!(u.is_ascii());
        assert!(!u.chars().any(|c| c.is_whitespace()));
    }
    // a leading ASCII character and a colon count as a drive, unless blank
    assert_eq!(file_url(" :/x"), "file:///%20%3A/x");
    assert_eq!(file_url("1:"), "file:///1:");
    assert_eq!(file_url("1:/x"), "file:///1:/x");
    assert_eq!(file_url("%:/x"), "file:///%:/x");
    assert_eq!(file_url("d:/x"), "file:///d:/x");
    assert_eq!(file_url("ş:/x"), "file:///%C5%9F%3A/x");
}

#[test]
fn sanitize_replaces_control_characters() {
    assert_eq!(sanitize_file_name("a\u{1}b"), "a_b");
    assert_eq!(sanitize_file_name("\u{b}x\u{c}"), "_x_");
    assert_eq!(sanitize_file_name("a\u{1f}\u{0}"), "a__");
    // DEL is allowed in Windows file names
    assert_eq!(sanitize_file_name("a\u{7f}"), "a\u{7f}");
    let out = sanitize_file_name("x\u{2}\u{3}\r\n\ty");
    assert!(!out.chars().any(|c| (c as u32) < 32));
}

#[test]
fn extension_of_suggested_names() {
    assert_eq!(resolve_extension(None, "Sahne.FDX"), "fdx");
    assert_eq!(resolve_extension(Some(String::new()), "Sahne"), "txt");
    assert_eq!(resolve_extension(Some("CSV".to_string()), "a.txt"), "csv");
    assert_eq!(resolve_extension(None, "a."), "");
    assert_eq!(resolve_extension(None, "..."), "");
    assert_eq!(resolve_extension(None, ".."), "txt");
    assert_eq!(resolve_extension(None, ".gizli.Txt"), "txt");
    assert_eq!(resolve_extension(None, "Sahne: 1.fdx"), "fdx");
    assert_eq!(resolve_extension(None, "Sahne: 1"), "txt");
}

#[test]
fn stale_print_files() {
    assert!(!is_stale_print_file(None));
    assert!(!is_stale_print_file(Some(86_400)));
    assert!(is_stale_print_file(Some(86_401)));
    assert!(!is_stale_print_file(Some(0)));
}

#[test]
fn file_url_segments_decode_back() {
    for p in ["C:\\Belgeler\\Şehir Işıkları\\sahne 1.html", "/tmp/a%20b/ü ?#&.html", "x//y", "%:/y", "1:"] {
        let u = file_url(p);
        let body = u.strip_prefix("file:///").unwrap();
        let decoded: Vec<String> =
            body.split('/').map(|g| urlencoding::decode(g).unwrap().into_owned()).collect();
        let expected = p.replace('\\', "/");
        assert_eq!(decoded.join("/"), expected.trim_start_matches('/'));
    }
}
