use auto_sitemap::{DateTimeSerde, Page, Sitemap, SitemapError, UrlSerde};

fn url(text: &str) -> UrlSerde {
    UrlSerde::parse(text).unwrap()
}

fn page(text: &str, lastmod: Option<i64>) -> Page {
    Page {
        url: url(text),
        lastmod: lastmod.map(|s| DateTimeSerde::from_timestamp(s).unwrap()),
        md5_hash: None,
    }
}

fn urls(sitemap: &Sitemap) -> Vec<String> {
    sitemap.pages.iter().map(|p| p.url.as_str().to_string()).collect()
}

#[test]
fn test_sort_by_url_orders_serializations() {
    let mut sitemap = Sitemap {
        pages: vec![
            page("https://example.com/b", None),
            page("https://example.com/", None),
            page("https://example.com/a/b", None),
            page("http://example.com/z", None),
            page("https://example.com/a", None),
            page("https://example.com/B", None),
            page("https://example.com/a?x", None),
            page("https://example.com:8080/", None),
        ],
    };
    sitemap.sort_by_url();
    assert_eq!(
        urls(&sitemap),
        vec![
            "http://example.com/z",
            "https://example.com/",
            "https://example.com/B",
            "https://example.com/a",
            "https://example.com/a/b",
            "https://example.com/a?x",
            "https://example.com/b",
            "https://example.com:8080/",
        ]
    );
}

#[test]
fn test_sort_twice_is_sort_once() {
    let mut sitemap = Sitemap {
        pages: (0..40).rev().map(|i| page(&format!("https://example.com/{}", (i * 7) % 40), Some(i))).collect(),
    };
    sitemap.sort_by_url();
    let once = urls(&sitemap);
    let mut expected = once.clone();
    expected.sort();
    assert_eq!(once, expected);
    sitemap.sort_by_url();
    assert_eq!(urls(&sitemap), once);
}

#[test]
fn test_sort_keeps_order_of_equal_urls() {
    let mut sitemap = Sitemap {
        pages: vec![
            page("https://example.com/b", Some(1)),
            page("https://example.com/a", Some(2)),
            page("https://example.com/b", Some(3)),
            page("https://example.com/a", Some(4)),
        ],
    };
    sitemap.sort_by_url();
    let stamps: Vec<i64> = sitemap.pages.iter().map(|p| p.lastmod.as_ref().unwrap().timestamp()).collect();
    assert_eq!(stamps, vec![2, 4, 1, 3]);
}

#[test]
fn test_sort_of_empty_and_single() {
    let mut empty = Sitemap { pages: vec![] };
    empty.sort_by_url();
    assert!(empty.pages.is_empty());
    let mut one = Sitemap { pages: vec![page("https://example.com/", None)] };
    one.sort_by_url();
    assert_eq!(urls(&one), vec!["https://example.com/"]);
}

#[test]
fn test_order_is_by_bytes() {
    assert!(url("https://example.com/a").le(&url("https://example.com/a")));
    assert!(url("https://example.com/a").le(&url("https://example.com/ab")));
    assert!(!url("https://example.com/ab").le(&url("https://example.com/a")));
    assert!(url("https://example.com/Z").le(&url("https://example.com/a")));
    assert!(!url("https://example.com/a").le(&url("https://example.com/Z")));
    assert!(url("https://example.com/a").same_url(&url("https://example.com/a")));
    assert!(!url("https://example.com/a").same_url(&url("https://example.com/b")));
}

#[test]
fn test_update_domain_keeps_path_query_and_fragment() {
    let mut sitemap = Sitemap {
        pages: vec![
            page("http://localhost:3000/", Some(5)),
            page("http://localhost:3000/a/b%20c?x=1&y=2#frag", None),
            page("https://user:pw@other.example:8443/p", None),
        ],
    };
    let tails: Vec<String> = sitemap.pages.iter().map(|p| p.url.path_and_after().to_string()).collect();
    sitemap.update_domain("https://example.com").unwrap();
    assert_eq!(
        urls(&sitemap),
        vec![
            "https://example.com/",
            "https://example.com/a/b%20c?x=1&y=2#frag",
            "https://user:pw@example.com/p",
        ]
    );
    for (p, tail) in sitemap.pages.iter().zip(tails.iter()) {
        assert_eq!(p.url.path_and_after(), tail);
        assert_eq!(p.url.scheme(), "https");
        assert_eq!(p.url.host(), Some("example.com"));
        assert_eq!(p.url.port(), None);
    }
    assert_eq!(sitemap.pages[0].lastmod.as_ref().unwrap().timestamp(), 5);
}

#[test]
fn test_update_domain_takes_the_port() {
    let mut sitemap = Sitemap { pages: vec![page("https://example.com/a", None)] };
    sitemap.update_domain("http://localhost:3000/ignored/path?q#f").unwrap();
    assert_eq!(urls(&sitemap), vec!["http://localhost:3000/a"]);
    assert_eq!(sitemap.pages[0].url.port(), Some(3000));
    sitemap.update_domain("http://EXAMPLE.org:80").unwrap();
    assert_eq!(urls(&sitemap), vec!["http://example.org/a"]);
}

#[test]
fn test_update_domain_refuses_other_schemes() {
    let mut sitemap = Sitemap { pages: vec![page("https://example.com/a", None)] };
    match sitemap.update_domain("ftp://example.org").unwrap_err() {
        SitemapError::UnsupportedScheme { scheme } => assert_eq!(scheme, "ftp"),
        other => panic!("unexpected failure: {:?}", other),
    }
    assert_eq!(urls(&sitemap), vec!["https://example.com/a"]);
    let e = sitemap.update_domain("ftp://example.org").unwrap_err();
    assert_eq!(e.message(), "invalid scheme: ftp");
}

#[test]
fn test_update_domain_refuses_what_is_no_url() {
    let mut sitemap = Sitemap { pages: vec![page("https://example.com/a", None)] };
    match sitemap.update_domain("example.org").unwrap_err() {
        SitemapError::InvalidUrl { text, .. } => assert_eq!(text, "example.org"),
        other => panic!("unexpected failure: {:?}", other),
    }
    assert_eq!(urls(&sitemap), vec!["https://example.com/a"]);
}

#[test]
fn test_update_domain_changes_nothing_where_a_page_cannot_move() {
    let mut sitemap = Sitemap {
        pages: vec![
            page("https://example.com/a", None),
            page("mailto:someone@example.com", None),
            page("https://example.com/b", None),
        ],
    };
    match sitemap.update_domain("http://localhost:3000").unwrap_err() {
        SitemapError::InvalidUrl { text, .. } => assert_eq!(text, "mailto:someone@example.com"),
        other => panic!("unexpected failure: {:?}", other),
    }
    assert_eq!(
        urls(&sitemap),
        vec!["https://example.com/a", "mailto:someone@example.com", "https://example.com/b"]
    );
}

#[test]
fn test_update_domain_of_empty_sitemap() {
    let mut sitemap = Sitemap { pages: vec![] };
    sitemap.update_domain("https://example.com").unwrap();
    assert!(sitemap.pages.is_empty());
    assert!(sitemap.update_domain("gopher://example.com").is_err());
}
