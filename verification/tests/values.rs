use auto_sitemap::{
    content_hash, DateTimeSerde, ImportSource, Page, PageContent, Sitemap, SitemapError, UrlSerde,
};

#[test]
fn test_url_is_held_in_canonical_form() {
    let u = UrlSerde::parse("HTTPS://Example.COM:443/a/../b c?q=1#f").unwrap();
    assert_eq!(u.as_str(), "https://example.com/b%20c?q=1#f");
    assert_eq!(u.scheme(), "https");
    assert_eq!(u.host(), Some("example.com"));
    assert_eq!(u.port(), None);
    assert_eq!(u.path_and_after(), "/b%20c?q=1#f");
    assert_eq!(UrlSerde::parse("https://example.com").unwrap().as_str(), "https://example.com/");
    let with_port = UrlSerde::parse("http://localhost:3000/x").unwrap();
    assert_eq!(with_port.port(), Some(3000));
    assert_eq!(with_port.clone(), with_port);
}

#[test]
fn test_url_parse_failure() {
    match UrlSerde::parse("/relative/path").unwrap_err() {
        SitemapError::InvalidUrl { text, reason } => {
            assert_eq!(text, "/relative/path");
            assert_eq!(reason, "relative URL without a base");
        }
        other => panic!("unexpected failure: {:?}", other),
    }
    assert!(UrlSerde::parse("").is_err());
    assert!(UrlSerde::parse("https://").is_err());
}

#[test]
fn test_url_with_origin_of_another() {
    let page = UrlSerde::parse("http://localhost:3000/a?b#c").unwrap();
    let origin = UrlSerde::parse("https://example.com/other").unwrap();
    let moved = page.with_origin_of(&origin).unwrap();
    assert_eq!(moved.as_str(), "https://example.com/a?b#c");
    let no_host = UrlSerde::parse("mailto:a@example.com").unwrap();
    assert_eq!(page.with_origin_of(&no_host), None);
    assert_eq!(no_host.with_origin_of(&origin), None);
}

#[test]
fn test_timestamp_text() {
    let t = DateTimeSerde::from_timestamp(61).unwrap();
    assert_eq!(t.to_rfc3339(), "1970-01-01T00:01:01Z");
    assert_eq!(t.timestamp(), 61);
    assert_eq!(DateTimeSerde::from_timestamp(0).unwrap().to_rfc3339(), "1970-01-01T00:00:00Z");
    assert_eq!(DateTimeSerde::from_timestamp(-1).unwrap().to_rfc3339(), "1969-12-31T23:59:59Z");
    assert_eq!(
        DateTimeSerde::from_timestamp(253_402_300_799).unwrap().to_rfc3339(),
        "9999-12-31T23:59:59Z"
    );
    assert_eq!(t.clone(), t);
}

#[test]
fn test_timestamp_without_text() {
    assert_eq!(DateTimeSerde::from_timestamp(253_402_300_800), None);
    assert_eq!(DateTimeSerde::from_timestamp(i64::MAX), None);
    assert_eq!(DateTimeSerde::from_timestamp(i64::MIN), None);
}

#[test]
fn test_timestamp_parse() {
    assert_eq!(DateTimeSerde::parse("1970-01-01T00:01:01Z").unwrap().timestamp(), 61);
    assert_eq!(DateTimeSerde::parse("1970-01-01T01:01:01+01:00").unwrap().timestamp(), 61);
    assert_eq!(DateTimeSerde::parse("1970-01-01T00:01:01.75Z").unwrap().timestamp(), 61);
    assert_eq!(
        DateTimeSerde::parse("1970-01-01T01:01:01+01:00").unwrap().to_rfc3339(),
        "1970-01-01T00:01:01Z"
    );
    match DateTimeSerde::parse("1970-01-01").unwrap_err() {
        SitemapError::TimestampParseError { text, reason } => {
            assert_eq!(text, "1970-01-01");
            assert!(!reason.is_empty());
        }
        other => panic!("unexpected failure: {:?}", other),
    }
    assert!(DateTimeSerde::parse("9999-12-31T23:59:59-01:00").is_err());
}

#[test]
fn test_content_hash() {
    assert_eq!(content_hash("hello"), "5d41402abc4b2a76b9719d911017c592");
    assert_eq!(content_hash(""), "d41d8cd98f00b204e9800998ecf8427e");
    assert_eq!(content_hash("  hello\r\n"), content_hash("hello"));
    assert_eq!(content_hash("a\r\nb\r\n\r\nc"), content_hash("a\nb\n\nc"));
    assert_eq!(content_hash("a\r\nb"), "8cdeb44417f3c26826595d5820cf5700");
    assert_eq!(content_hash("\n a\r\nb\n\r\nc \t"), "9685365ebcf22eb26f807464db72a20e");
    assert_ne!(content_hash("a\rb"), content_hash("a\nb"));
    assert_ne!(content_hash("a b"), content_hash("ab"));
    let h = content_hash("<html>\r\n  <body>\u{e9}</body>\r\n</html>\r\n");
    assert_eq!(h, "95cab5329a143265b2d7d0c3b614f169");
    assert_eq!(h.len(), 32);
    assert!(h.chars().all(|c| c.is_ascii_digit() || ('a'..='f').contains(&c)));
}

#[test]
fn test_hex_and_line_ends() {
    assert_eq!(auto_sitemap::content::hex_string(&[0x00, 0x0f, 0xa0, 0xff, 0x3c]), "000fa0ff3c");
    assert_eq!(auto_sitemap::content::hex_string(&[]), "");
    assert_eq!(auto_sitemap::content::to_unix_lines(b"a\r\nb\r\r\n\rc\r"), b"a\nb\r\n\rc\r".to_vec());
    assert_eq!(auto_sitemap::content::to_unix_lines(b""), Vec::<u8>::new());
}

#[test]
fn test_observed_pages() {
    let first = DateTimeSerde::from_timestamp(1_700_000_000).unwrap();
    let second = DateTimeSerde::from_timestamp(1_700_000_001).unwrap();
    let contents = vec![
        PageContent {
            url: "http://localhost:3000".to_string(),
            body: "hello\r\n".to_string(),
            seen: first.clone(),
        },
        PageContent {
            url: "http://localhost:3000/a".to_string(),
            body: "".to_string(),
            seen: second.clone(),
        },
    ];
    let sitemap = Sitemap::observed(&contents).unwrap();
    assert_eq!(
        sitemap,
        Sitemap {
            pages: vec![
                Page {
                    url: UrlSerde::parse("http://localhost:3000/").unwrap(),
                    lastmod: Some(first.clone()),
                    md5_hash: Some("5d41402abc4b2a76b9719d911017c592".to_string()),
                },
                Page {
                    url: UrlSerde::parse("http://localhost:3000/a").unwrap(),
                    lastmod: Some(second.clone()),
                    md5_hash: Some("d41d8cd98f00b204e9800998ecf8427e".to_string()),
                },
            ],
        }
    );
    assert!(sitemap.is_exact());
    let broken = vec![
        contents[0].clone(),
        PageContent { url: "nowhere".to_string(), body: "x".to_string(), seen: first.clone() },
        PageContent { url: "".to_string(), body: "x".to_string(), seen: first.clone() },
    ];
    match Sitemap::observed(&broken).unwrap_err() {
        SitemapError::InvalidUrl { text, reason } => {
            assert_eq!(text, "nowhere");
            assert_eq!(reason, "relative URL without a base");
        }
        other => panic!("unexpected failure: {:?}", other),
    }
    assert_eq!(Sitemap::observed(&vec![]).unwrap(), Sitemap { pages: vec![] });
}

#[test]
fn test_import_source() {
    assert_eq!(
        ImportSource::of("http://localhost:3000/sitemap.xml"),
        ImportSource::Remote("http://localhost:3000/sitemap.xml".to_string())
    );
    assert_eq!(
        ImportSource::of("https://example.com/sitemap.xml"),
        ImportSource::Remote("https://example.com/sitemap.xml".to_string())
    );
    assert_eq!(ImportSource::of("https:/x"), ImportSource::Local("https:/x".to_string()));
    assert_eq!(ImportSource::of("HTTP://example.com"), ImportSource::Local("HTTP://example.com".to_string()));
    assert_eq!(ImportSource::of("data/sitemap.xml"), ImportSource::Local("data/sitemap.xml".to_string()));
    assert_eq!(ImportSource::of(""), ImportSource::Local(String::new()));
    assert_eq!(ImportSource::of("http://"), ImportSource::Remote("http://".to_string()));
}

#[test]
fn test_failure_messages() {
    assert_eq!(SitemapError::MissingLocation.message(), "page URL is missing");
    assert_eq!(
        SitemapError::TimestampParseError { text: "x".to_string(), reason: "bad".to_string() }.message(),
        "failed to deserialize `x`: bad"
    );
    assert_eq!(
        SitemapError::InvalidUrl { text: "x".to_string(), reason: "empty host".to_string() }.message(),
        "empty host"
    );
    assert_eq!(SitemapError::UnsupportedScheme { scheme: "ftp".to_string() }.message(), "invalid scheme: ftp");
    assert_eq!(SitemapError::XmlSyntaxError { reason: "eof".to_string() }.message(), "eof");
    assert_eq!(SitemapError::IoError { reason: "gone".to_string() }.message(), "gone");
}

#[test]
fn test_exact_pages() {
    let url = UrlSerde::parse("https://example.com/").unwrap();
    let page = |hash: Option<&str>| Page {
        url: url.clone(),
        lastmod: DateTimeSerde::from_timestamp(61),
        md5_hash: hash.map(|h| h.to_string()),
    };
    assert!(page(None).is_exact());
    assert!(page(Some("0123456789abcdef0123456789abcdef")).is_exact());
    assert!(!page(Some("0123456789abcdef0123456789abcde")).is_exact());
    assert!(!page(Some(" 123456789abcdef0123456789abcdef")).is_exact());
    assert!(!page(Some("0123456789abcdef0123456789abcde\n")).is_exact());
    assert!(!page(Some("")).is_exact());
}

#[test]
fn test_white_space_is_that_of_unicode() {
    for n in 0..=0x10FFFFu32 {
        if let Some(c) = char::from_u32(n) {
            assert_eq!(auto_sitemap::text::is_space_char(c), c.is_whitespace(), "U+{:04X}", n);
        }
    }
}

#[test]
fn test_trimming() {
    let texts = [
        "",
        " ",
        "a",
        " a",
        "a ",
        "  a b  ",
        "\t\r\n a\u{a0}b \u{3000}\u{85}",
        "\u{2003}\u{e9}t\u{e9}\u{2028}",
        "\u{200b}a\u{200b}",
        " \n\t ",
        "auto_sitemap_md5_hash",
    ];
    for text in texts {
        assert_eq!(auto_sitemap::text::trim_str(text), text.trim());
    }
    assert_eq!(auto_sitemap::text::trim_str("  a b  "), "a b");
    assert!(auto_sitemap::text::str_eq("a", "a"));
    assert!(!auto_sitemap::text::str_eq("a", "a "));
    assert!(auto_sitemap::text::str_le("", "a"));
    assert!(auto_sitemap::text::str_le("\u{e9}", "\u{4e2d}"));
}
