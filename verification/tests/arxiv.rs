//! Identifiers of papers, and the sources behind them.

use ratex::arxiv::{id_from_url, id_is_valid, looks_like_url, parse_id, ArxivError, UrlParts};
use ratex::source::{
    check_status, looks_like_tar, parse_tar_checksum, source_of, source_url, unpack_source,
    DownloadError, Source,
};
use std::io::Write;

#[test]
fn parses_abs_url() {
    assert_eq!(
        parse_id("https://arxiv.org/abs/2301.00001").unwrap(),
        "2301.00001"
    );
}

#[test]
fn parses_pdf_url() {
    assert_eq!(
        parse_id("https://arxiv.org/pdf/2602.21340").unwrap(),
        "2602.21340"
    );
}

#[test]
fn parses_pdf_url_with_pdf_extension() {
    assert_eq!(
        parse_id("https://arxiv.org/pdf/2602.21340.pdf").unwrap(),
        "2602.21340"
    );
}

#[test]
fn parses_html_url_with_version() {
    assert_eq!(
        parse_id("https://arxiv.org/html/2510.26912v1").unwrap(),
        "2510.26912v1"
    );
}

#[test]
fn parses_e_print_url() {
    assert_eq!(
        parse_id("https://arxiv.org/e-print/2301.00001v3").unwrap(),
        "2301.00001v3"
    );
}

#[test]
fn parses_old_style_url() {
    assert_eq!(
        parse_id("https://arxiv.org/abs/hep-th/0601001v2").unwrap(),
        "hep-th/0601001v2"
    );
}

#[test]
fn parses_old_style_with_subject_class() {
    assert_eq!(
        parse_id("https://arxiv.org/abs/math.GT/0309136").unwrap(),
        "math.GT/0309136"
    );
    assert_eq!(
        parse_id("https://arxiv.org/abs/cond-mat.mes-hall/0601001v2").unwrap(),
        "cond-mat.mes-hall/0601001v2"
    );
    assert_eq!(parse_id("math.GT/0309136").unwrap(), "math.GT/0309136");
}

#[test]
fn rejects_id_with_trailing_junk() {
    // Without the boundary anchor, these would silently truncate to
    // 2602.21340 / 2301.00001.
    assert!(parse_id("https://arxiv.org/pdf/2602.21340vfoo").is_err());
    assert!(parse_id("https://arxiv.org/abs/2301.00001extra").is_err());
}

#[test]
fn url_with_query_or_fragment_still_parses() {
    assert_eq!(
        parse_id("https://arxiv.org/abs/2301.00001?context=foo").unwrap(),
        "2301.00001"
    );
    assert_eq!(
        parse_id("https://arxiv.org/html/2510.26912v1#section.2").unwrap(),
        "2510.26912v1"
    );
}

#[test]
fn parses_bare_new_style_id() {
    assert_eq!(parse_id("2510.26912").unwrap(), "2510.26912");
    assert_eq!(parse_id("2510.26912v1").unwrap(), "2510.26912v1");
}

#[test]
fn parses_bare_old_style_id() {
    assert_eq!(parse_id("hep-th/0601001").unwrap(), "hep-th/0601001");
}

#[test]
fn url_with_trailing_slash() {
    assert_eq!(
        parse_id("https://arxiv.org/html/2510.26912v1/").unwrap(),
        "2510.26912v1"
    );
}

#[test]
fn rejects_garbage_input() {
    assert!(parse_id("not-an-arxiv-id").is_err());
    assert!(parse_id("https://example.com/abs/2301.00001").is_err());
}

#[test]
fn rejects_look_alike_hosts() {
    assert!(parse_id("https://notarxiv.org/abs/2301.00001").is_err());
    assert!(parse_id("xhttps://arxiv.org/abs/2301.00001").is_err());
    assert!(parse_id("evil.com/arxiv.org/abs/2301.00001").is_err());
}

#[test]
fn accepts_protocol_and_www_variants() {
    assert_eq!(
        parse_id("http://arxiv.org/abs/2301.00001").unwrap(),
        "2301.00001"
    );
    assert_eq!(
        parse_id("https://www.arxiv.org/abs/2301.00001").unwrap(),
        "2301.00001"
    );
    assert_eq!(parse_id("arxiv.org/abs/2301.00001").unwrap(), "2301.00001");
}

#[test]
fn scheme_and_host_are_case_insensitive() {
    // `arXiv.org` is a real-world citation form.
    assert_eq!(
        parse_id("https://arXiv.org/abs/2301.00001").unwrap(),
        "2301.00001"
    );
    assert_eq!(
        parse_id("HTTP://ARXIV.ORG/abs/2301.00001").unwrap(),
        "2301.00001"
    );
    assert_eq!(
        parse_id("https://WWW.arxiv.org/html/2510.26912v1").unwrap(),
        "2510.26912v1"
    );
}

#[test]
fn plain_tex_is_not_detected_as_tar() {
    let tex =
        "\\documentclass{article}\n\\begin{document}\nhello\n\\end{document}\n".repeat(50);
    assert!(!looks_like_tar(tex.as_bytes()));
}

#[test]
fn valid_tar_header_is_detected() {
    let mut builder = tar::Builder::new(Vec::new());
    let mut header = tar::Header::new_gnu();
    let content = b"hello";
    header.set_size(content.len() as u64);
    header.set_cksum();
    builder
        .append_data(&mut header, "main.tex", &content[..])
        .unwrap();
    let archive = builder.into_inner().unwrap();

    assert!(looks_like_tar(&archive));
}

fn refused(input: &str) -> String {
    parse_id(input).unwrap_err().message()
}

#[test]
fn surrounding_space_and_slashes_are_ignored() {
    assert_eq!(parse_id("  2510.26912v1/ \n").unwrap(), "2510.26912v1");
    assert_eq!(parse_id("\u{3000}2510.26912//").unwrap(), "2510.26912");
    assert_eq!(
        parse_id(" https://arxiv.org/abs/math.GT/0309136// ").unwrap(),
        "math.GT/0309136"
    );
}

#[test]
fn every_form_of_address_gives_the_identifier() {
    for id in ["2301.00001", "2301.0001v12", "hep-th/0601001", "cond-mat.mes-hall/0601001v2"] {
        for front in ["http://", "https://", "HTTPS://", ""] {
            for host in ["arxiv.org", "www.arxiv.org", "arXiv.ORG"] {
                for kind in ["abs", "pdf", "e-print", "html", "format"] {
                    for ending in ["", ".pdf"] {
                        for tail in ["", "/", "//", "?context=foo", "#section.2", "?a=b/#c/"] {
                            let input = format!("{front}{host}/{kind}/{id}{ending}{tail}");
                            assert_eq!(parse_id(&input).unwrap(), id, "{input}");
                        }
                    }
                }
            }
        }
    }
}

#[test]
fn address_without_scheme_and_a_scheme_behind_it_is_refused() {
    assert_eq!(
        refused("arxiv.org/abs/2301.00001?u=http://x"),
        "Invalid URL: arxiv.org/abs/2301.00001?u=http://x"
    );
}

#[test]
fn identifier_that_reads_like_a_host_is_an_address() {
    assert!(id_is_valid("arxiv.org/0601001"));
    assert_eq!(
        refused("arxiv.org/0601001"),
        "Unsupported arXiv path '/0601001/': expected one of abs, pdf, e-print, html, format"
    );
}

#[test]
fn every_refusal_says_why() {
    assert_eq!(
        refused("not-an-arxiv-id/"),
        "Cannot parse arXiv ID from 'not-an-arxiv-id'. Expected a URL like https://arxiv.org/abs/2301.00001 or a bare ID like 2301.00001"
    );
    assert_eq!(refused("https://"), "Cannot parse arXiv ID from 'https:'. Expected a URL like https://arxiv.org/abs/2301.00001 or a bare ID like 2301.00001");
    assert_eq!(refused("https://[x"), "Invalid URL: https://[x");
    assert_eq!(
        refused("ftp://arxiv.org/abs/2301.00001"),
        "Unsupported URL scheme 'ftp': expected http or https"
    );
    assert_eq!(
        refused("https://example.com/abs/2301.00001"),
        "Not an arXiv URL: host is 'example.com'"
    );
    assert_eq!(
        refused("https://arxiv.org"),
        "URL path is empty (expected /abs/, /pdf/, /e-print/, /html/, or /format/)"
    );
    assert_eq!(
        refused("https://arxiv.org/list/2301.00001"),
        "Unsupported arXiv path '/list/': expected one of abs, pdf, e-print, html, format"
    );
    assert_eq!(refused("https://arxiv.org/abs/"), "URL has no paper ID");
    assert_eq!(
        refused("https://arxiv.org/abs/2301.00001.pdf.pdf"),
        "'2301.00001.pdf' doesn't look like an arXiv ID"
    );
}

#[test]
fn parts_of_an_address_are_judged_one_by_one() {
    let parts = |scheme: &str, host: Option<&str>, segments: Option<Vec<&str>>| UrlParts {
        scheme: scheme.to_string(),
        host: host.map(String::from),
        segments: segments.map(|list| list.into_iter().map(String::from).collect()),
    };
    assert!(matches!(
        id_from_url("x", None),
        Err(ArxivError::InvalidUrl { .. })
    ));
    assert!(matches!(
        id_from_url("x", Some(parts("https", None, None))),
        Err(ArxivError::NoHost { .. })
    ));
    assert!(matches!(
        id_from_url("x", Some(parts("https", Some("arxiv.org"), None))),
        Err(ArxivError::NoPath { .. })
    ));
    assert_eq!(
        id_from_url(
            "x",
            Some(parts(
                "http",
                Some("www.arxiv.org"),
                Some(vec!["", "pdf", "", "math.GT", "0309136.pdf", ""])
            ))
        )
        .unwrap(),
        "math.GT/0309136"
    );
}

#[test]
fn identifiers_have_exact_shapes() {
    for id in ["2301.0001", "2301.00001", "2301.00001v1", "a-b/0000000", "math.GT/0309136v10"] {
        assert!(id_is_valid(id), "{id}");
    }
    for id in [
        "", "2301.001", "2301.000001", "2301.00001v", "2301.00001 ", "230.00001", "2301.00001\n",
        "Math/0309136", "math./0309136", "math/030913", "math/03091360", "math/0309136v",
        "math.G.T/0309136", "/0309136",
    ] {
        assert!(!id_is_valid(id), "{id}");
    }
    // Decimal digits of other scripts count as digits.
    assert!(id_is_valid("٢٣٠١.٠٠٠٠١"));
    assert!(!id_is_valid("２３０１.ab"));
}

#[test]
fn addresses_are_told_from_identifiers() {
    assert!(looks_like_url("x://y"));
    assert!(looks_like_url("ArXiv.org/abs/1"));
    assert!(looks_like_url("WWW.arxiv.org/"));
    assert!(!looks_like_url("arxiv.org"));
    assert!(!looks_like_url("hep-th/0601001"));
}

#[test]
fn checksum_fields_hold_octal_numbers() {
    assert_eq!(parse_tar_checksum(b"0012345\0"), Some(5349));
    assert_eq!(parse_tar_checksum(b" 17 \0  \t\n"), Some(15));
    assert_eq!(parse_tar_checksum(b"+7"), Some(7));
    assert_eq!(parse_tar_checksum(b"37777777777"), Some(u32::MAX));
    assert_eq!(parse_tar_checksum(b"000000000000000037777777777"), Some(u32::MAX));
    for field in [&b""[..], b"  \0", b"+", b"-7", b"8", b"1 2", b"40000000000", b"\xff", b"++1"] {
        assert_eq!(parse_tar_checksum(field), None, "{field:?}");
    }
    assert_eq!(parse_tar_checksum("\u{3000}17\u{a0}".as_bytes()), Some(15));
}

#[test]
fn archives_start_with_a_checked_block() {
    assert!(looks_like_tar(&[0; 512]));
    assert!(!looks_like_tar(&[0; 511]));
    let mut block = vec![b'a'; 600];
    let sum: u32 = 504 * 97 + 256;
    block[148..156].copy_from_slice(format!("{sum:06o}\0 ").as_bytes());
    assert!(looks_like_tar(&block));
    block[0] = b'b';
    assert!(!looks_like_tar(&block));
}

fn gzip(content: &[u8]) -> Vec<u8> {
    let mut encoder = flate2::write::GzEncoder::new(Vec::new(), flate2::Compression::default());
    encoder.write_all(content).unwrap();
    encoder.finish().unwrap()
}

#[test]
fn sources_are_unpacked_and_told_apart() {
    match unpack_source(&gzip(b"\\documentclass{article}")).unwrap() {
        Source::SingleFile(bytes) => assert_eq!(bytes, b"\\documentclass{article}"),
        Source::Archive(_) => panic!("not an archive"),
    }
    match unpack_source(&gzip(&[0; 1024])).unwrap() {
        Source::Archive(bytes) => assert_eq!(bytes, vec![0; 1024]),
        Source::SingleFile(_) => panic!("an archive"),
    }
    let error = unpack_source(b"\\documentclass{article}").unwrap_err();
    assert_eq!(error.message(), "Failed to decompress source (may not be gzipped)");
    let whole = gzip(b"some content");
    assert!(unpack_source(&whole[..whole.len() - 1]).is_err());
    assert!(matches!(source_of(vec![0; 512]), Source::Archive(_)));
    assert!(matches!(source_of(vec![0; 100]), Source::SingleFile(_)));
}

#[test]
fn statuses_of_arxiv_are_judged() {
    assert_eq!(source_url("hep-th/0601001"), "https://arxiv.org/e-print/hep-th/0601001");
    assert!(check_status("x", 200).is_ok());
    assert!(check_status("x", 301).is_ok());
    assert!(check_status("x", 600).is_ok());
    let missing = check_status("2301.00001", 404).unwrap_err();
    assert_eq!(
        missing.message(),
        "Paper '2301.00001' not found on arXiv. Verify the paper ID."
    );
    for status in [400, 403, 429, 500, 599] {
        assert!(matches!(
            check_status("x", status),
            Err(DownloadError::Refused { status: s }) if s == status
        ));
    }
    assert_eq!(
        check_status("x", 503).unwrap_err().message(),
        "arXiv returned an error"
    );
}

#[test]
fn parsed_identifiers_parse_to_themselves() {
    for input in [
        "https://arxiv.org/abs/2301.00001v2",
        "  http://www.arxiv.org/pdf/math.GT/0309136.pdf ",
        "hep-th/0601001/",
        "٢٣٠١.٠٠٠٠١",
    ] {
        let id = parse_id(input).unwrap();
        assert_eq!(parse_id(&id).unwrap(), id, "{input}");
    }
    assert_eq!(parse_id(" ٢٣٠١.٠٠٠٠١\n").unwrap(), "٢٣٠١.٠٠٠٠١");
}
