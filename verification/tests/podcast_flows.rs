use pcasts::{FixtureFetcher, Podcasts};

fn http203_xml() -> Vec<u8> {
    let xml = r#"<?xml version="1.0" encoding="UTF-8"?>
<rss version="2.0"><channel><title>HTTP 203</title><link>https://developers.google.com/web/shows/http203/podcast/</link><description>Where Surma and Jake talk about whatever crosses their minds.</description></channel></rss>"#;
    xml.as_bytes().to_vec()
}

fn syntax_xml() -> Vec<u8> {
    let xml = r#"<?xml version="1.0" encoding="UTF-8"?>
<rss version="2.0"><channel><title>Syntax - Tasty Web Development Treats</title><link>https://syntax.fm</link><description>A Tasty Treats Podcast for Web Developers.</description></channel></rss>"#;
    xml.as_bytes().to_vec()
}

fn fixtures() -> FixtureFetcher {
    let mut fetcher = FixtureFetcher::new();
    fetcher.add_fixture(
        "http://feeds.feedburner.com/Http203Podcast".to_string(),
        http203_xml(),
    );
    fetcher.add_fixture("https://feed.syntax.fm/rss".to_string(), syntax_xml());
    fetcher
}

#[test]
fn podcasts_add_single() {
    let fetcher = fixtures();
    let podcasts = Podcasts::new(&fetcher, 4);

    // An empty reader, so the headers line should be added
    let input: Vec<u8> = Vec::new();
    let requested = vec!["http://feeds.feedburner.com/Http203Podcast".to_string()];
    let expected_output = r###"id,url,rss_url,title
12772734294147401495,https://developers.google.com/web/shows/http203/podcast/,http://feeds.feedburner.com/Http203Podcast,HTTP 203
"###;

    let output = podcasts.add(&input, &requested);

    assert_eq!(std::str::from_utf8(&output).unwrap(), expected_output);
}

#[test]
fn podcasts_add_multiple() {
    let fetcher = fixtures();
    let podcasts = Podcasts::new(&fetcher, 4);

    let input: Vec<u8> = Vec::new();
    let requested = vec![
        "http://feeds.feedburner.com/Http203Podcast".to_string(),
        "https://feed.syntax.fm/rss".to_string(),
    ];
    let expected_output = r###"id,url,rss_url,title
12772734294147401495,https://developers.google.com/web/shows/http203/podcast/,http://feeds.feedburner.com/Http203Podcast,HTTP 203
15913066141282366353,https://syntax.fm,https://feed.syntax.fm/rss,Syntax - Tasty Web Development Treats
"###;

    let output = podcasts.add(&input, &requested);

    assert_eq!(std::str::from_utf8(&output).unwrap(), expected_output);
}

#[test]
fn podcasts_add_append() {
    let fetcher = fixtures();
    let podcasts = Podcasts::new(&fetcher, 4);

    let input = r###"15913066141282366353,https://syntax.fm,https://feed.syntax.fm/rss,Syntax - Tasty Web Development Treats"###;
    let input = input.as_bytes().to_vec();
    let requested = vec!["http://feeds.feedburner.com/Http203Podcast".to_string()];
    let expected_output = r###"id,url,rss_url,title
12772734294147401495,https://developers.google.com/web/shows/http203/podcast/,http://feeds.feedburner.com/Http203Podcast,HTTP 203
"###;

    let output = podcasts.add(&input, &requested);

    assert_eq!(std::str::from_utf8(&output).unwrap(), expected_output);
}

#[test]
fn podcasts_add_existing() {
    let fetcher = fixtures();
    let podcasts = Podcasts::new(&fetcher, 4);

    let input = r###"id,url,rss_url,title
12772734294147401495,https://developers.google.com/web/shows/http203/podcast/,http://feeds.feedburner.com/Http203Podcast,HTTP 203
15913066141282366353,https://syntax.fm,https://feed.syntax.fm/rss,Syntax - Tasty Web Development Treats
"###;
    let input = input.as_bytes().to_vec();
    let requested = vec![
        "http://feeds.feedburner.com/Http203Podcast".to_string(),
        "https://feed.syntax.fm/rss".to_string(),
    ];
    let expected_output = "";

    let output = podcasts.add(&input, &requested);

    assert_eq!(std::str::from_utf8(&output).unwrap(), expected_output);
}

#[test]
fn podcasts_list() {
    let fetcher = FixtureFetcher::new();
    let podcasts = Podcasts::new(&fetcher, 4);

    let input = r###"id,url,rss_url,title
12772734294147401495,https://developers.google.com/web/shows/http203/podcast/,http://feeds.feedburner.com/Http203Podcast,HTTP 203
"###;
    let input = input.as_bytes().to_vec();

    let listed = podcasts.list(&input);

    assert_eq!(listed.len(), 1);
    assert_eq!(listed[0].id, 12772734294147401495);
    assert_eq!(
        listed[0].url,
        "https://developers.google.com/web/shows/http203/podcast/"
    );
    assert_eq!(listed[0].rss_url, "http://feeds.feedburner.com/Http203Podcast");
    assert_eq!(listed[0].title, "HTTP 203");
}

#[test]
fn podcasts_list_multiple() {
    let fetcher = FixtureFetcher::new();
    let podcasts = Podcasts::new(&fetcher, 4);

    let input = r###"id,url,rss_url,title
12772734294147401495,https://developers.google.com/web/shows/http203/podcast/,http://feeds.feedburner.com/Http203Podcast,HTTP 203
15913066141282366353,https://syntax.fm,https://feed.syntax.fm/rss,Syntax - Tasty Web Development Treats
"###;
    let input = input.as_bytes().to_vec();

    let listed = podcasts.list(&input);

    assert_eq!(listed.len(), 2);
    assert_eq!(listed[0].id, 12772734294147401495);
    assert_eq!(
        listed[0].url,
        "https://developers.google.com/web/shows/http203/podcast/"
    );
    assert_eq!(listed[0].rss_url, "http://feeds.feedburner.com/Http203Podcast");
    assert_eq!(listed[0].title, "HTTP 203");
    assert_eq!(listed[1].id, 15913066141282366353);
    assert_eq!(listed[1].url, "https://syntax.fm");
    assert_eq!(listed[1].rss_url, "https://feed.syntax.fm/rss");
    assert_eq!(listed[1].title, "Syntax - Tasty Web Development Treats");
}

#[test]
fn podcasts_remove() {
    let fetcher = FixtureFetcher::new();
    let podcasts = Podcasts::new(&fetcher, 4);

    let input = r###"id,url,rss_url,title
12772734294147401495,https://developers.google.com/web/shows/http203/podcast/,http://feeds.feedburner.com/Http203Podcast,HTTP 203
15913066141282366353,https://syntax.fm,https://feed.syntax.fm/rss,Syntax - Tasty Web Development Treats
"###;
    let input = input.as_bytes().to_vec();
    let values = vec!["http://feeds.feedburner.com/Http203Podcast".to_string()];
    let expected_output = r###"id,url,rss_url,title
15913066141282366353,https://syntax.fm,https://feed.syntax.fm/rss,Syntax - Tasty Web Development Treats
"###;

    let output = podcasts.remove(&input, &values);

    assert_eq!(std::str::from_utf8(&output).unwrap(), expected_output);
}

#[test]
fn podcasts_remove_multiple() {
    let fetcher = FixtureFetcher::new();
    let podcasts = Podcasts::new(&fetcher, 4);

    let input = r###"id,url,rss_url,title
12772734294147401495,https://developers.google.com/web/shows/http203/podcast/,http://feeds.feedburner.com/Http203Podcast,HTTP 203
15913066141282366353,https://syntax.fm,https://feed.syntax.fm/rss,Syntax - Tasty Web Development Treats
"###;
    let input = input.as_bytes().to_vec();
    let values = vec![
        "http://feeds.feedburner.com/Http203Podcast".to_string(),
        "https://feed.syntax.fm/rss".to_string(),
    ];
    let expected_output = "";

    let output = podcasts.remove(&input, &values);

    assert_eq!(std::str::from_utf8(&output).unwrap(), expected_output);
}

#[test]
fn podcasts_add_trims_requested_urls() {
    let fetcher = fixtures();
    let podcasts = Podcasts::new(&fetcher, 2);

    let saved: Vec<pcasts::Podcast> = Vec::new();
    let requested = vec!["  http://feeds.feedburner.com/Http203Podcast \n".to_string()];

    let planned = podcasts.plan_add(&saved, &requested);

    assert_eq!(planned.len(), 1);
    assert_eq!(planned[0], "http://feeds.feedburner.com/Http203Podcast");
}

#[test]
fn podcasts_add_skips_repeats_and_known() {
    let fetcher = fixtures();
    let podcasts = Podcasts::new(&fetcher, 2);

    let saved = vec![pcasts::Podcast {
        id: 15913066141282366353,
        url: "https://syntax.fm".to_string(),
        rss_url: "https://feed.syntax.fm/rss".to_string(),
        title: "Syntax - Tasty Web Development Treats".to_string(),
    }];
    let requested = vec![
        "https://feed.syntax.fm/rss".to_string(),
        "http://feeds.feedburner.com/Http203Podcast".to_string(),
        "http://feeds.feedburner.com/Http203Podcast".to_string(),
    ];

    let planned = podcasts.plan_add(&saved, &requested);

    assert_eq!(planned.len(), 1);
    assert_eq!(planned[0], "http://feeds.feedburner.com/Http203Podcast");
}

#[test]
fn podcasts_add_unparsable_feed_is_dropped() {
    let mut fetcher = FixtureFetcher::new();
    fetcher.add_fixture(
        "http://feeds.feedburner.com/Http203Podcast".to_string(),
        b"this is no feed document".to_vec(),
    );
    let podcasts = Podcasts::new(&fetcher, 2);

    let input: Vec<u8> = Vec::new();
    let requested = vec!["http://feeds.feedburner.com/Http203Podcast".to_string()];

    let output = podcasts.add(&input, &requested);

    assert_eq!(output.len(), 0);
}

#[test]
fn podcasts_list_on_empty_catalog() {
    let fetcher = FixtureFetcher::new();
    let podcasts = Podcasts::new(&fetcher, 1);

    let input: Vec<u8> = Vec::new();

    let listed = podcasts.list(&input);

    assert_eq!(listed.len(), 0);
}
