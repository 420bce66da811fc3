use auto_sitemap::{DateTimeSerde, Page, Sitemap, UpdateInfo, UrlSerde};

fn url(text: &str) -> UrlSerde {
    UrlSerde::parse(text).unwrap()
}

fn at(secs: i64) -> DateTimeSerde {
    DateTimeSerde::from_timestamp(secs).unwrap()
}

fn page(text: &str, lastmod: Option<i64>, hash: Option<&str>) -> Page {
    Page { url: url(text), lastmod: lastmod.map(at), md5_hash: hash.map(|h| h.to_string()) }
}

const H1: &str = "11111111111111111111111111111111";
const H2: &str = "22222222222222222222222222222222";
const H3: &str = "33333333333333333333333333333333";
const H4: &str = "44444444444444444444444444444444";
const H5: &str = "55555555555555555555555555555555";
const H6: &str = "66666666666666666666666666666666";

const OLD_SITEMAP: &str = "<?xml version=\"1.0\" encoding=\"utf-8\"?>
<urlset xmlns=\"http://www.sitemaps.org/schemas/sitemap/0.9\" xmlns:xhtml=\"http://www.w3.org/1999/xhtml\">
  <url>
    <loc>https://example.com/</loc>
    <lastmod>2001-01-01T00:00:00Z</lastmod>
    <xhtml:meta name=\"auto_sitemap_md5_hash\" content=\"11111111111111111111111111111111\" />
  </url>
  <url>
    <loc>https://example.com/a</loc>
    <lastmod>2001-01-02T00:00:00Z</lastmod>
    <xhtml:meta name=\"auto_sitemap_md5_hash\" content=\"55555555555555555555555555555555\" />
  </url>
  <url>
    <loc>https://example.com/b</loc>
    <lastmod>2001-01-03T00:00:00Z</lastmod>
  </url>
  <url>
    <loc>https://example.com/old-nonexistent-page-with-hash</loc>
    <lastmod>2001-01-04T00:00:00Z</lastmod>
    <xhtml:meta name=\"auto_sitemap_md5_hash\" content=\"66666666666666666666666666666666\" />
  </url>
  <url>
    <loc>https://example.com/old-nonexistent-page-without-hash</loc>
  </url>
</urlset>";

const START_TIME: i64 = 1_700_000_000;

fn obtain_sitemaps() -> (Sitemap, Sitemap) {
    let mut new_sitemap = Sitemap {
        pages: vec![
            page("http://localhost:3000/c", Some(START_TIME + 4), Some(H4)),
            page("http://localhost:3000/a", Some(START_TIME + 2), Some(H2)),
            page("http://localhost:3000/", Some(START_TIME + 1), Some(H1)),
            page("http://localhost:3000/b", Some(START_TIME + 3), Some(H3)),
        ],
    };
    new_sitemap.sort_by_url();
    let old_sitemap = Sitemap::deserialize(OLD_SITEMAP.as_bytes()).unwrap();
    (new_sitemap, old_sitemap)
}

#[test]
fn test_generation_and_update() {
    let start_time = at(START_TIME);
    let (mut new_sitemap, mut old_sitemap) = obtain_sitemaps();

    let correct_urls = vec![
        url("http://localhost:3000/"),
        url("http://localhost:3000/a"),
        url("http://localhost:3000/b"),
        url("http://localhost:3000/c"),
    ];
    assert_eq!(new_sitemap.pages.len(), correct_urls.len());
    for (page, correct_url) in new_sitemap.pages.iter().zip(correct_urls.iter()) {
        assert_eq!(page.url, correct_url.clone());
    }

    old_sitemap.update_domain("http://localhost:3000").unwrap();
    let info = new_sitemap.combine_with_old_sitemap(&old_sitemap);
    new_sitemap.update_domain("https://example.com").unwrap();

    let end_time = at(START_TIME + 10);

    let correct_urls = vec![
        url("https://example.com/"),
        url("https://example.com/a"),
        url("https://example.com/b"),
        url("https://example.com/c"),
    ];
    let updated_urls = vec![
        url("https://example.com/a"),
        url("https://example.com/b"),
        url("https://example.com/c"),
    ];
    assert_eq!(new_sitemap.pages.len(), correct_urls.len());
    for (page, correct_url) in new_sitemap.pages.iter().zip(correct_urls.iter()) {
        assert_eq!(page.url, correct_url.clone());
        let lastmod = page.lastmod.clone().unwrap();

        if updated_urls.contains(&page.url) {
            assert!(start_time.timestamp() < lastmod.timestamp());
            assert!(lastmod.timestamp() < end_time.timestamp());
        } else {
            assert!(lastmod.timestamp() < start_time.timestamp());
        }
    }

    let correct_info = UpdateInfo {
        new_pages: vec![url("http://localhost:3000/c")],
        removed_pages: vec![
            url("http://localhost:3000/old-nonexistent-page-with-hash"),
            url("http://localhost:3000/old-nonexistent-page-without-hash"),
        ],
        unchanged_pages: vec![url("http://localhost:3000/")],
        updated_pages: vec![url("http://localhost:3000/a"), url("http://localhost:3000/b")],
    };
    assert_eq!(info, correct_info);
}

#[test]
fn test_reconciliation_scenario() {
    let t0 = 978_307_200;
    let mut new_doc = Sitemap {
        pages: vec![
            page("https://example.com/", Some(2000), Some(H1)),
            page("https://example.com/a", Some(2001), Some(H2)),
            page("https://example.com/b", Some(2002), Some(H3)),
            page("https://example.com/c", Some(2003), Some(H4)),
        ],
    };
    let old_doc = Sitemap {
        pages: vec![
            page("https://example.com/", Some(t0), Some(H1)),
            page("https://example.com/a", Some(t0 + 1), Some(H5)),
            page("https://example.com/b", Some(t0 + 2), None),
            page("https://example.com/old1", Some(t0 + 3), Some(H6)),
            page("https://example.com/old2", None, None),
        ],
    };
    let info = new_doc.combine_with_old_sitemap(&old_doc);
    assert_eq!(info.unchanged_pages, vec![url("https://example.com/")]);
    assert_eq!(info.updated_pages, vec![url("https://example.com/a"), url("https://example.com/b")]);
    assert_eq!(info.new_pages, vec![url("https://example.com/c")]);
    assert_eq!(
        info.removed_pages,
        vec![url("https://example.com/old1"), url("https://example.com/old2")]
    );
    assert_eq!(
        new_doc,
        Sitemap {
            pages: vec![
                page("https://example.com/", Some(t0), Some(H1)),
                page("https://example.com/a", Some(2001), Some(H2)),
                page("https://example.com/b", Some(2002), Some(H3)),
                page("https://example.com/c", Some(2003), Some(H4)),
            ],
        }
    );
}

#[test]
fn test_lists_are_sorted_and_part_the_pages() {
    let mut new_doc = Sitemap {
        pages: vec![
            page("https://example.com/z", Some(10), Some(H1)),
            page("https://example.com/m", Some(11), Some(H2)),
            page("https://example.com/a", Some(12), Some(H3)),
            page("https://example.com/k", Some(13), Some(H4)),
            page("https://example.com/b", Some(14), None),
        ],
    };
    let old_doc = Sitemap {
        pages: vec![
            page("https://example.com/q", Some(1), Some(H5)),
            page("https://example.com/z", Some(2), Some(H1)),
            page("https://example.com/a", Some(3), Some(H3)),
            page("https://example.com/m", Some(4), Some(H6)),
            page("https://example.com/c", Some(5), Some(H5)),
            page("https://example.com/b", Some(6), None),
        ],
    };
    let order_before: Vec<UrlSerde> = new_doc.pages.iter().map(|p| p.url.clone()).collect();
    let info = new_doc.combine_with_old_sitemap(&old_doc);
    let order_after: Vec<UrlSerde> = new_doc.pages.iter().map(|p| p.url.clone()).collect();
    assert_eq!(order_before, order_after);
    assert_eq!(info.unchanged_pages, vec![url("https://example.com/a"), url("https://example.com/z")]);
    assert_eq!(info.updated_pages, vec![url("https://example.com/b"), url("https://example.com/m")]);
    assert_eq!(info.new_pages, vec![url("https://example.com/k")]);
    assert_eq!(info.removed_pages, vec![url("https://example.com/c"), url("https://example.com/q")]);
    let mut all: Vec<UrlSerde> = Vec::new();
    all.extend(info.new_pages.iter().cloned());
    all.extend(info.updated_pages.iter().cloned());
    all.extend(info.unchanged_pages.iter().cloned());
    assert_eq!(all.len(), new_doc.pages.len());
    for p in &new_doc.pages {
        assert_eq!(all.iter().filter(|u| **u == p.url).count(), 1);
        assert!(!info.removed_pages.contains(&p.url));
    }
    assert_eq!(new_doc.pages[0].lastmod, Some(at(2)));
    assert_eq!(new_doc.pages[1].lastmod, Some(at(11)));
    assert_eq!(new_doc.pages[2].lastmod, Some(at(3)));
    assert_eq!(new_doc.pages[3].lastmod, Some(at(13)));
    assert_eq!(new_doc.pages[4].lastmod, Some(at(14)));
}

#[test]
fn test_page_without_hash_on_either_side_is_updated() {
    let mut new_doc = Sitemap { pages: vec![page("https://example.com/", Some(20), None)] };
    let old_doc = Sitemap { pages: vec![page("https://example.com/", Some(10), None)] };
    let info = new_doc.combine_with_old_sitemap(&old_doc);
    assert_eq!(info.updated_pages, vec![url("https://example.com/")]);
    assert!(info.unchanged_pages.is_empty());
    assert_eq!(new_doc.pages[0].lastmod, Some(at(20)));
}

#[test]
fn test_same_hash_without_old_timestamp_is_updated() {
    let mut new_doc = Sitemap { pages: vec![page("https://example.com/", Some(20), Some(H1))] };
    let old_doc = Sitemap { pages: vec![page("https://example.com/", None, Some(H1))] };
    let info = new_doc.combine_with_old_sitemap(&old_doc);
    assert_eq!(info.updated_pages, vec![url("https://example.com/")]);
    assert_eq!(new_doc.pages[0].lastmod, Some(at(20)));
}

#[test]
fn test_unchanged_page_takes_old_timestamp_even_without_its_own() {
    let mut new_doc = Sitemap { pages: vec![page("https://example.com/", None, Some(H1))] };
    let old_doc = Sitemap { pages: vec![page("https://example.com/", Some(10), Some(H1))] };
    let info = new_doc.combine_with_old_sitemap(&old_doc);
    assert_eq!(info.unchanged_pages, vec![url("https://example.com/")]);
    assert_eq!(new_doc.pages[0].lastmod, Some(at(10)));
}

#[test]
fn test_empty_sides() {
    let mut new_doc = Sitemap {
        pages: vec![page("https://example.com/b", Some(1), Some(H1)), page("https://example.com/a", Some(2), None)],
    };
    let info = new_doc.combine_with_old_sitemap(&Sitemap { pages: vec![] });
    assert_eq!(info.new_pages, vec![url("https://example.com/a"), url("https://example.com/b")]);
    assert!(info.updated_pages.is_empty() && info.unchanged_pages.is_empty() && info.removed_pages.is_empty());

    let mut empty = Sitemap { pages: vec![] };
    let old_doc = Sitemap {
        pages: vec![page("https://example.com/b", Some(1), Some(H1)), page("https://example.com/a", Some(2), None)],
    };
    let info = empty.combine_with_old_sitemap(&old_doc);
    assert_eq!(info.removed_pages, vec![url("https://example.com/a"), url("https://example.com/b")]);
    assert!(info.new_pages.is_empty() && info.updated_pages.is_empty() && info.unchanged_pages.is_empty());
    assert!(empty.pages.is_empty());
}

#[test]
fn test_repeated_urls() {
    // The last earlier page with a URL stands for it; only the first fresh
    // page with a URL is matched.
    let mut new_doc = Sitemap {
        pages: vec![page("https://example.com/", Some(20), Some(H1)), page("https://example.com/", Some(21), Some(H1))],
    };
    let old_doc = Sitemap {
        pages: vec![page("https://example.com/", Some(10), Some(H2)), page("https://example.com/", Some(11), Some(H1))],
    };
    let info = new_doc.combine_with_old_sitemap(&old_doc);
    assert_eq!(info.unchanged_pages, vec![url("https://example.com/")]);
    assert_eq!(info.new_pages, vec![url("https://example.com/")]);
    assert!(info.removed_pages.is_empty());
    assert_eq!(new_doc.pages[0].lastmod, Some(at(11)));
    assert_eq!(new_doc.pages[1].lastmod, Some(at(21)));
}
