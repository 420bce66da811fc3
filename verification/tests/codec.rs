use auto_sitemap::{
    DateTimeSerde, Meta, Page, PageSerde, Sitemap, SitemapError, SitemapSerde, UrlSerde, XmlEvent,
};

fn url(text: &str) -> UrlSerde {
    UrlSerde::parse(text).unwrap()
}

fn at(secs: i64) -> DateTimeSerde {
    DateTimeSerde::from_timestamp(secs).unwrap()
}

fn simple_sitemap() -> Sitemap {
    Sitemap {
        pages: vec![Page {
            url: url("https://example.com"),
            lastmod: Some(at(61)),
            md5_hash: Some("0123456789abcdef0123456789abcdef".into()),
        }],
    }
}

const SIMPLE_TRIMMED: &str = "<?xml version=\"1.0\" encoding=\"utf-8\"?>
<urlset xmlns=\"http://www.sitemaps.org/schemas/sitemap/0.9\" xmlns:xhtml=\"http://www.w3.org/1999/xhtml\">
  <url>
    <loc>https://example.com/</loc>
    <lastmod>1970-01-01T00:01:01Z</lastmod>
    <xhtml:meta name=\"auto_sitemap_md5_hash\" content=\"0123456789abcdef0123456789abcdef\" />
  </url>
</urlset>";

const SIMPLE_LOOSE: &str = "
<?xml version=\"1.0\" encoding=\"utf-8\"?>\r\n<urlset
    xmlns=\"http://www.sitemaps.org/schemas/sitemap/0.9\"
    xmlns:xhtml=\"http://www.w3.org/1999/xhtml\">\r\n
  <!-- one page -->
  <url>
    <loc>
      https://example.com/
    </loc>
    <lastmod>
      1970-01-01T00:01:01Z
    </lastmod>
    <xhtml:meta
      name=\" auto_sitemap_md5_hash \"
      content=\"  0123456789abcdef0123456789abcdef  \" />
  </url>
</urlset>
";

#[test]
fn test_serialize_and_deserialize() {
    let str_representation = SIMPLE_LOOSE.trim().replace("\r\n", "\n");

    let sitemap = simple_sitemap();

    let serialized = String::from_utf8(sitemap.serialize().unwrap()).unwrap();
    let deserialized_from_written = Sitemap::deserialize(serialized.as_bytes()).unwrap();
    let deserialized_from_loose = Sitemap::deserialize(str_representation.as_bytes()).unwrap();

    let str_representation_trimmed = SIMPLE_TRIMMED.trim().replace("\r\n", "\n");

    assert_eq!(deserialized_from_loose, sitemap);
    assert_eq!(serialized, str_representation_trimmed);
    assert_eq!(deserialized_from_written, sitemap);
}

#[test]
fn test_encoding_writes_timestamp_and_hash_elements() {
    let text = String::from_utf8(simple_sitemap().serialize().unwrap()).unwrap();
    assert!(text.contains("<lastmod>1970-01-01T00:01:01Z</lastmod>"));
    assert!(text.contains(
        "<xhtml:meta name=\"auto_sitemap_md5_hash\" content=\"0123456789abcdef0123456789abcdef\" />"
    ));
    assert!(text.starts_with("<?xml version=\"1.0\" encoding=\"utf-8\"?>"));
}

#[test]
fn test_encoding_omits_absent_fields() {
    let sitemap = Sitemap {
        pages: vec![Page { url: url("https://example.com/a?x=1&y=2#top"), lastmod: None, md5_hash: None }],
    };
    let text = String::from_utf8(sitemap.serialize().unwrap()).unwrap();
    assert!(!text.contains("lastmod"));
    assert!(!text.contains("meta"));
    assert!(text.contains("<loc>https://example.com/a?x=1&amp;y=2#top</loc>"));
    assert_eq!(Sitemap::deserialize(text.as_bytes()).unwrap(), sitemap);
}

#[test]
fn test_round_trip_of_several_pages() {
    let sitemap = Sitemap {
        pages: vec![
            Page { url: url("https://example.com/"), lastmod: Some(at(0)), md5_hash: None },
            Page {
                url: url("https://example.com/b%20c"),
                lastmod: None,
                md5_hash: Some("ffffffffffffffffffffffffffffffff".into()),
            },
            Page {
                url: url("http://example.com:8080/a"),
                lastmod: Some(at(1_700_000_000)),
                md5_hash: Some("00000000000000000000000000000000".into()),
            },
        ],
    };
    let bytes = sitemap.serialize().unwrap();
    assert_eq!(Sitemap::deserialize(&bytes).unwrap(), sitemap);
    let events = sitemap.to_events();
    assert_eq!(Sitemap::from_events(&events).unwrap(), sitemap);
}

#[test]
fn test_empty_sitemap_round_trip() {
    let sitemap = Sitemap { pages: vec![] };
    let bytes = sitemap.serialize().unwrap();
    assert_eq!(Sitemap::deserialize(&bytes).unwrap(), sitemap);
}

#[test]
fn test_missing_loc_fails_whole_decode() {
    let text = "<urlset xmlns=\"http://www.sitemaps.org/schemas/sitemap/0.9\">
  <url><lastmod>1970-01-01T00:01:01Z</lastmod></url>
</urlset>";
    let e = Sitemap::deserialize(text.as_bytes()).unwrap_err();
    assert_eq!(e, SitemapError::MissingLocation);
    assert_eq!(e.message(), "page URL is missing");
}

#[test]
fn test_missing_loc_fails_even_beside_good_pages() {
    let text = "<urlset xmlns=\"http://www.sitemaps.org/schemas/sitemap/0.9\">
  <url><loc>https://example.com/</loc></url>
  <url></url>
</urlset>";
    assert_eq!(
        Sitemap::deserialize(text.as_bytes()).unwrap_err(),
        SitemapError::MissingLocation
    );
}

#[test]
fn test_malformed_lastmod_names_the_text() {
    let text = "<urlset><url><loc>https://example.com/</loc><lastmod>yesterday</lastmod></url></urlset>";
    match Sitemap::deserialize(text.as_bytes()).unwrap_err() {
        SitemapError::TimestampParseError { text, reason } => {
            assert_eq!(text, "yesterday");
            assert!(!reason.is_empty());
        }
        other => panic!("unexpected failure: {:?}", other),
    }
    let e = Sitemap::deserialize(text.as_bytes()).unwrap_err();
    assert!(e.message().starts_with("failed to deserialize `yesterday`: "));
}

#[test]
fn test_malformed_loc_is_invalid_url() {
    let text = "<urlset><url><loc>not a url</loc></url></urlset>";
    match Sitemap::deserialize(text.as_bytes()).unwrap_err() {
        SitemapError::InvalidUrl { text, reason } => {
            assert_eq!(text, "not a url");
            assert_eq!(reason, "relative URL without a base");
        }
        other => panic!("unexpected failure: {:?}", other),
    }
}

#[test]
fn test_invalid_url_comes_before_missing_loc() {
    let text = "<urlset><url></url><url><loc>not a url</loc></url></urlset>";
    assert!(matches!(
        Sitemap::deserialize(text.as_bytes()).unwrap_err(),
        SitemapError::InvalidUrl { .. }
    ));
}

#[test]
fn test_malformed_xml_is_syntax_error() {
    let text = "<urlset><url><loc>https://example.com/</loc></url>";
    assert!(matches!(
        Sitemap::deserialize(text.as_bytes()).unwrap_err(),
        SitemapError::XmlSyntaxError { .. }
    ));
    assert!(matches!(
        Sitemap::deserialize(b"").unwrap_err(),
        SitemapError::XmlSyntaxError { .. }
    ));
    assert!(matches!(
        Sitemap::deserialize(b"<urlset><url><loc></loc></url></urlset>").unwrap_err(),
        SitemapError::XmlSyntaxError { .. }
    ));
}

#[test]
fn test_foreign_root_namespace_is_refused() {
    let text = "<urlset xmlns=\"http://example.com/other\"></urlset>";
    assert!(matches!(
        Sitemap::deserialize(text.as_bytes()).unwrap_err(),
        SitemapError::XmlSyntaxError { .. }
    ));
    let plain = "<urlset></urlset>";
    assert_eq!(Sitemap::deserialize(plain.as_bytes()).unwrap(), Sitemap { pages: vec![] });
}

#[test]
fn test_unknown_elements_are_ignored() {
    let text = "<?xml version=\"1.0\"?>
<urlset xmlns=\"http://www.sitemaps.org/schemas/sitemap/0.9\">
  <generator><name>tool</name><url>ignored</url></generator>
  <url>
    <changefreq>daily</changefreq>
    <loc>https://example.com/a</loc>
    <priority><nested>0.5</nested></priority>
    <lastmod>2020-01-02T03:04:05+01:00</lastmod>
  </url>
  stray text
</urlset>";
    let sitemap = Sitemap::deserialize(text.as_bytes()).unwrap();
    assert_eq!(sitemap.pages.len(), 1);
    assert_eq!(sitemap.pages[0].url.as_str(), "https://example.com/a");
    assert_eq!(sitemap.pages[0].lastmod.as_ref().unwrap().timestamp(), 1577930645);
    assert_eq!(sitemap.pages[0].lastmod.as_ref().unwrap().to_rfc3339(), "2020-01-02T02:04:05Z");
    assert_eq!(sitemap.pages[0].md5_hash, None);
}

#[test]
fn test_last_loc_counts() {
    let text = "<urlset><url><loc>https://example.com/a</loc><loc>https://example.com/b</loc></url></urlset>";
    let sitemap = Sitemap::deserialize(text.as_bytes()).unwrap();
    assert_eq!(sitemap.pages[0].url.as_str(), "https://example.com/b");
}

fn page_with_meta(name: &str, content: &str) -> Page {
    let element = PageSerde {
        url: Some(url("https://example.com/")),
        lastmod: None,
        meta: vec![Meta::new(name.to_string(), content.to_string())],
    };
    Page::try_from(element).unwrap()
}

#[test]
fn test_hash_is_recognized_by_name_and_length() {
    let hash = "0123456789abcdef0123456789abcdef";
    assert_eq!(page_with_meta("auto_sitemap_md5_hash", hash).md5_hash.as_deref(), Some(hash));
    assert_eq!(
        page_with_meta("  auto_sitemap_md5_hash\n", " 0123456789abcdef0123456789abcdef\t").md5_hash.as_deref(),
        Some(hash)
    );
}

#[test]
fn test_hash_of_other_length_or_name_is_dropped() {
    assert_eq!(page_with_meta("auto_sitemap_md5_hash", "0123456789abcdef0123456789abcde").md5_hash, None);
    assert_eq!(page_with_meta("auto_sitemap_md5_hash", "0123456789abcdef0123456789abcdef0").md5_hash, None);
    assert_eq!(page_with_meta("auto_sitemap_md5_hash", "").md5_hash, None);
    assert_eq!(page_with_meta("description", "0123456789abcdef0123456789abcdef").md5_hash, None);
    assert_eq!(page_with_meta("auto_sitemap_md5_hash2", "0123456789abcdef0123456789abcdef").md5_hash, None);
    assert_eq!(page_with_meta("", "0123456789abcdef0123456789abcdef").md5_hash, None);
}

#[test]
fn test_hash_length_counts_characters() {
    let thirty_two = "\u{e9}".repeat(32);
    assert_eq!(
        page_with_meta("auto_sitemap_md5_hash", &thirty_two).md5_hash.as_deref(),
        Some(thirty_two.as_str())
    );
    let sixteen = "\u{e9}".repeat(16);
    assert_eq!(page_with_meta("auto_sitemap_md5_hash", &sixteen).md5_hash, None);
}

#[test]
fn test_first_qualifying_meta_wins() {
    let element = PageSerde {
        url: Some(url("https://example.com/")),
        lastmod: None,
        meta: vec![
            Meta::new("viewport".to_string(), "width=device-width".to_string()),
            Meta::new("auto_sitemap_md5_hash".to_string(), "short".to_string()),
            Meta::new("auto_sitemap_md5_hash".to_string(), "11111111111111111111111111111111".to_string()),
            Meta::new("auto_sitemap_md5_hash".to_string(), "22222222222222222222222222222222".to_string()),
        ],
    };
    assert_eq!(
        Page::try_from(element).unwrap().md5_hash.as_deref(),
        Some("11111111111111111111111111111111")
    );
}

#[test]
fn test_decoding_meta_elements_from_a_document() {
    let text = "<urlset xmlns=\"http://www.sitemaps.org/schemas/sitemap/0.9\" xmlns:h=\"http://www.w3.org/1999/xhtml\">
  <url>
    <loc>https://example.com/</loc>
    <h:meta name=\"auto_sitemap_md5_hash\" content=\"0123\" />
    <h:meta content=\"0123456789abcdef0123456789abcdef\" name=\"auto_sitemap_md5_hash\"><inner/></h:meta>
  </url>
  <url>
    <loc>https://example.com/b</loc>
    <h:meta name=\"other\" content=\"0123456789abcdef0123456789abcdef\" />
  </url>
</urlset>";
    let sitemap = Sitemap::deserialize(text.as_bytes()).unwrap();
    assert_eq!(sitemap.pages[0].md5_hash.as_deref(), Some("0123456789abcdef0123456789abcdef"));
    assert_eq!(sitemap.pages[1].md5_hash, None);
}

#[test]
fn test_elements_of_a_sitemap() {
    let elements = SitemapSerde::from(&simple_sitemap());
    assert_eq!(elements.pages.len(), 1);
    assert_eq!(elements.pages[0].url, Some(url("https://example.com/")));
    assert_eq!(elements.pages[0].lastmod, Some(at(61)));
    assert_eq!(elements.pages[0].meta.len(), 1);
    assert_eq!(elements.pages[0].meta[0].name(), "auto_sitemap_md5_hash");
    assert_eq!(elements.pages[0].meta[0].content(), "0123456789abcdef0123456789abcdef");
    assert_eq!(Sitemap::try_from(elements).unwrap(), simple_sitemap());
}

#[test]
fn test_events_of_a_sitemap() {
    let events = simple_sitemap().to_events();
    assert_eq!(events.len(), 13);
    assert_eq!(events[0], XmlEvent::StartDocument { encoding: "utf-8".to_string() });
    match &events[1] {
        XmlEvent::StartElement { name, prefix, namespaces, attributes, .. } => {
            assert_eq!(name, "urlset");
            assert_eq!(prefix, &None);
            assert_eq!(namespaces.len(), 2);
            assert!(attributes.is_empty());
        }
        other => panic!("unexpected event: {:?}", other),
    }
    assert_eq!(events[4], XmlEvent::Characters("https://example.com/".to_string()));
    assert_eq!(events[7], XmlEvent::Characters("1970-01-01T00:01:01Z".to_string()));
    assert_eq!(events[12], XmlEvent::EndElement { name: "urlset".to_string() });
}

#[test]
fn test_reading_events_of_a_document() {
    let events = auto_sitemap::read_events(b"<a x=\"1\"><!-- c --><b>t</b></a>");
    assert_eq!(events.len(), 6);
    match &events[0] {
        XmlEvent::StartElement { name, attributes, .. } => {
            assert_eq!(name, "a");
            assert_eq!(attributes.len(), 1);
            assert_eq!(attributes[0].name, "x");
            assert_eq!(attributes[0].value, "1");
        }
        other => panic!("unexpected event: {:?}", other),
    }
    assert_eq!(events[2], XmlEvent::Characters("t".to_string()));
    assert_eq!(events[5], XmlEvent::EndDocument);
    let broken = auto_sitemap::read_events(b"<a><b></a>");
    assert!(matches!(broken.last(), Some(XmlEvent::Failure(_))));
}

#[test]
fn test_writing_refuses_what_cannot_be_written() {
    let events = vec![XmlEvent::EndDocument];
    assert!(matches!(
        auto_sitemap::write_events(&events, false).unwrap_err(),
        SitemapError::XmlSyntaxError { .. }
    ));
    let failed = vec![XmlEvent::Failure("broken".to_string())];
    assert!(auto_sitemap::write_events(&failed, true).is_err());
    let unknown = vec![XmlEvent::Unexpected];
    assert!(auto_sitemap::write_events(&unknown, true).is_err());
}

#[test]
fn test_reader_delivers_what_was_written() {
    let sitemap = Sitemap {
        pages: vec![
            Page {
                url: url("https://example.com/a?x=1&y=<2>"),
                lastmod: Some(at(61)),
                md5_hash: Some("0123456789abcdef0123456789abcdef".into()),
            },
            Page { url: url("https://example.com/b"), lastmod: None, md5_hash: None },
        ],
    };
    let written = sitemap.to_events();
    let bytes = auto_sitemap::write_events(&written, true).unwrap();
    let read = auto_sitemap::read_events(&bytes);
    let mut expected: Vec<XmlEvent> = written[1..]
        .iter()
        .cloned()
        .map(|event| match event {
            XmlEvent::StartElement { name, prefix, namespace, attributes, .. } => {
                XmlEvent::StartElement { name, prefix, namespace, namespaces: vec![], attributes }
            }
            other => other,
        })
        .collect();
    expected.push(XmlEvent::EndDocument);
    assert_eq!(read, expected);
    let plain = auto_sitemap::write_events(&written, false).unwrap();
    assert_eq!(auto_sitemap::read_events(&plain), expected);
    assert!(plain.len() < bytes.len());
}

#[test]
fn test_serialize_checked_promises_the_round_trip() {
    let sitemap = Sitemap {
        pages: vec![
            Page {
                url: url("https://example.com/a?x=1&y=<2>"),
                lastmod: Some(at(61)),
                md5_hash: Some("0123456789abcdef0123456789abcdef".into()),
            },
            Page { url: url("https://example.com/b"), lastmod: None, md5_hash: None },
        ],
    };
    let bytes = sitemap.serialize_checked().unwrap();
    assert_eq!(bytes, sitemap.serialize().unwrap());
    assert_eq!(Sitemap::deserialize(&bytes).unwrap(), sitemap);
    assert_eq!(
        Sitemap { pages: vec![] }.serialize_checked(),
        Some(Sitemap { pages: vec![] }.serialize().unwrap())
    );
}

#[test]
fn test_serialize_checked_refuses_what_does_not_read_back() {
    let short = Sitemap {
        pages: vec![Page { url: url("https://example.com/"), lastmod: None, md5_hash: Some("abc".into()) }],
    };
    assert!(!short.is_exact());
    assert_eq!(short.serialize_checked(), None);
    assert!(short.serialize().is_ok());
    // White space within a hash is not white space around it, but the
    // reader does not deliver a line end in an attribute as it was written.
    let line_end = Sitemap {
        pages: vec![Page {
            url: url("https://example.com/"),
            lastmod: None,
            md5_hash: Some("0123456789abcde\n0123456789abcdef".into()),
        }],
    };
    assert!(line_end.is_exact());
    let written = String::from_utf8(line_end.serialize().unwrap()).unwrap();
    let read = Sitemap::deserialize(written.as_bytes()).unwrap();
    assert_eq!(line_end.serialize_checked().is_some(), read == line_end);
}

#[test]
fn test_writer_takes_what_is_well_nested() {
    let start = || XmlEvent::StartElement {
        name: "a".to_string(),
        prefix: None,
        namespace: None,
        namespaces: vec![],
        attributes: vec![],
    };
    let end = || XmlEvent::EndElement { name: "a".to_string() };
    let text = || XmlEvent::Characters("t".to_string());
    let declaration = || XmlEvent::StartDocument { encoding: "utf-8".to_string() };
    let refused = SitemapError::XmlSyntaxError { reason: "the writer refuses an event".to_string() };
    assert!(auto_sitemap::write_events(&vec![], false).is_ok());
    assert!(auto_sitemap::write_events(&vec![declaration()], false).is_ok());
    assert!(auto_sitemap::write_events(&vec![text()], false).is_ok());
    assert!(auto_sitemap::write_events(&vec![start(), text(), start(), end(), end(), text()], false).is_ok());
    assert!(auto_sitemap::write_events(&vec![declaration(), start(), end(), start(), end()], false).is_ok());
    assert_eq!(auto_sitemap::write_events(&vec![end()], false).unwrap_err(), refused);
    assert_eq!(auto_sitemap::write_events(&vec![start(), end(), end()], false).unwrap_err(), refused);
    assert_eq!(auto_sitemap::write_events(&vec![text(), end()], false).unwrap_err(), refused);
    assert_eq!(auto_sitemap::write_events(&vec![start(), declaration()], false).unwrap_err(), refused);
    assert_eq!(auto_sitemap::write_events(&vec![text(), declaration()], false).unwrap_err(), refused);
    assert_eq!(auto_sitemap::write_events(&vec![declaration(), declaration()], false).unwrap_err(), refused);
    assert_eq!(auto_sitemap::write_events(&vec![start(), XmlEvent::EndDocument], false).unwrap_err(), refused);
    assert_eq!(
        String::from_utf8(auto_sitemap::write_events(&vec![start(), text(), end()], false).unwrap()).unwrap(),
        "<?xml version=\"1.0\" encoding=\"UTF-8\"?><a>t</a>"
    );
}

#[test]
fn test_reasons_of_syntax_errors() {
    let reason = |text: &str| match Sitemap::deserialize(text.as_bytes()).unwrap_err() {
        SitemapError::XmlSyntaxError { reason } => reason,
        other => panic!("unexpected failure: {:?}", other),
    };
    assert_eq!(
        reason("<urlset xmlns=\"http://example.com/other\"></urlset>"),
        "bad namespace for urlset, found http://example.com/other"
    );
    assert_eq!(reason("<urlset><url><loc></loc></url></urlset>"), "Unable to parse");
    assert_eq!(reason("<urlset><url><loc/></url></urlset>"), "Unable to parse");
    assert_eq!(reason("<urlset><url><loc>  </loc></url></urlset>"), "Unable to parse");
    assert_eq!(reason("<urlset><url><lastmod></lastmod></url></urlset>"), "Unable to parse");
    assert_eq!(reason("<urlset><url><lastmod/></url></urlset>"), "Unable to parse");
    assert_eq!(reason("<urlset><url><loc><b></b>https://example.com/</loc></url></urlset>"), "Unable to parse");
    assert!(reason("<urlset><url><loc>").contains("Unexpected end of stream"));
    assert!(reason("<urlset><url>").contains("Unexpected end of stream"));
    let events = vec![XmlEvent::StartElement {
        name: "urlset".to_string(),
        prefix: None,
        namespace: None,
        namespaces: vec![],
        attributes: vec![],
    }];
    assert_eq!(
        Sitemap::from_events(&events).unwrap_err(),
        SitemapError::XmlSyntaxError { reason: "the document ends within an element".to_string() }
    );
    let mut ended = events.clone();
    ended.push(XmlEvent::EndDocument);
    assert_eq!(
        Sitemap::from_events(&ended).unwrap_err(),
        SitemapError::XmlSyntaxError { reason: "the document ends within an element".to_string() }
    );
}

#[test]
fn test_text_within_nested_elements_is_read() {
    let text = "<urlset><url><loc><b>https://example.com/a</b></loc><lastmod><i><j>1970-01-01T00:01:01Z</j></i> later</lastmod></url></urlset>";
    let sitemap = Sitemap::deserialize(text.as_bytes()).unwrap();
    assert_eq!(sitemap.pages.len(), 1);
    assert_eq!(sitemap.pages[0].url.as_str(), "https://example.com/a");
    assert_eq!(sitemap.pages[0].lastmod, Some(at(61)));
}

#[test]
fn test_missing_text_in_events() {
    let start = |name: &str| XmlEvent::StartElement {
        name: name.to_string(),
        prefix: None,
        namespace: None,
        namespaces: vec![],
        attributes: vec![],
    };
    let unable = SitemapError::XmlSyntaxError { reason: "Unable to parse".to_string() };
    for field in ["loc", "lastmod"] {
        for event in [
            XmlEvent::EndElement { name: field.to_string() },
            XmlEvent::EndDocument,
            XmlEvent::Unexpected,
            XmlEvent::StartDocument { encoding: "utf-8".to_string() },
        ] {
            let events = vec![start("urlset"), start("url"), start(field), event];
            assert_eq!(Sitemap::from_events(&events).unwrap_err(), unable);
        }
        let failed = vec![
            start("urlset"),
            start("url"),
            start(field),
            XmlEvent::Failure("1:20 Unexpected end of stream".to_string()),
        ];
        assert_eq!(
            Sitemap::from_events(&failed).unwrap_err(),
            SitemapError::XmlSyntaxError { reason: "1:20 Unexpected end of stream".to_string() }
        );
    }
}
