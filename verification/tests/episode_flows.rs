use pcasts::{Episode, Episodes, FixtureFetcher, Podcast};

fn syntax_episode_catalog() -> Vec<u8> {
    let input = r###"guid,title,pub_date,link,podcast,podcast_id
272eca72-476b-4633-864c-a9fffa3f5976,Potluck - Beating Procrastination × Rollup vs Webpack × Leadership × Code Planning × Styled Components × More!,"Wed, 22 Jul 2020 13:00:00 +0000",https://traffic.libsyn.com/secure/syntax/Syntax268.mp3,Syntax - Tasty Web Development Treats,15913066141282366353"###;
    input.as_bytes().to_vec()
}

#[test]
fn list_episodes() {
    let fetcher = FixtureFetcher::new();
    let episodes = Episodes::new(&fetcher, 4);

    let listed = episodes.list(&syntax_episode_catalog());

    assert_eq!(listed.len(), 1);
    assert_eq!(listed[0].guid, "272eca72-476b-4633-864c-a9fffa3f5976");
    assert_eq!(
        listed[0].title,
        "Potluck - Beating Procrastination × Rollup vs Webpack × Leadership × Code Planning × Styled Components × More!"
    );
    assert_eq!(listed[0].pub_date, "Wed, 22 Jul 2020 13:00:00 +0000");
    assert_eq!(
        listed[0].link,
        "https://traffic.libsyn.com/secure/syntax/Syntax268.mp3"
    );
    assert_eq!(listed[0].podcast, "Syntax - Tasty Web Development Treats");
    assert_eq!(listed[0].podcast_id, 15913066141282366353);
}

#[test]
fn download() {
    let mut fetcher = FixtureFetcher::new();
    fetcher.add_fixture(
        "https://traffic.libsyn.com/secure/syntax/Syntax268.mp3".to_string(),
        b"Syntax episode".to_vec(),
    );
    let episodes = Episodes::new(&fetcher, 4);

    let expected_name = format!(
        "{}_{}.mp3",
        "Syntax - Tasty Web Development Treats",
        "Potluck - Beating Procrastination × Rollup vs Webpack × Leadership × Code Planning × Styled Components × More!"
    );

    let output = episodes.download(&syntax_episode_catalog(), None, None);

    assert_eq!(output.len(), 1);
    assert_eq!(output[0].0, expected_name);
    assert_eq!(output[0].1, b"Syntax episode".to_vec());
}

#[test]
fn download_by_guid() {
    let mut fetcher = FixtureFetcher::new();
    fetcher.add_fixture(
        "https://traffic.libsyn.com/secure/syntax/Syntax268.mp3".to_string(),
        b"Syntax episode".to_vec(),
    );
    let episodes = Episodes::new(&fetcher, 4);

    let guids = vec!["272eca72-476b-4633-864c-a9fffa3f5976".to_string()];
    let output = episodes.download(&syntax_episode_catalog(), Some(&guids), None);

    assert_eq!(output.len(), 1);
    assert_eq!(
        output[0].0,
        format!(
            "{}_{}.mp3",
            "Syntax - Tasty Web Development Treats",
            "Potluck - Beating Procrastination × Rollup vs Webpack × Leadership × Code Planning × Styled Components × More!"
        )
    );
    assert_eq!(output[0].1, b"Syntax episode".to_vec());
}

#[test]
fn download_unknown_guid_fetches_nothing() {
    let fetcher = FixtureFetcher::new();
    let episodes = Episodes::new(&fetcher, 4);

    let guids = vec!["no-such-guid".to_string()];
    let output = episodes.download(&syntax_episode_catalog(), Some(&guids), None);

    assert_eq!(output.len(), 0);
}

fn three_episode_catalog() -> Vec<u8> {
    let input = r###"guid,title,pub_date,link,podcast,podcast_id
g1,One,Mon,https://media.example/1.mp3,Pod,7
g2,Two,Tue,https://media.example/2.mp3,Pod,7
g3,Three,Wed,https://media.example/3.mp3,Pod,7
"###;
    input.as_bytes().to_vec()
}

#[test]
fn list_reverses_storage_order() {
    let fetcher = FixtureFetcher::new();
    let episodes = Episodes::new(&fetcher, 1);

    let listed = episodes.list(&three_episode_catalog());

    assert_eq!(listed.len(), 3);
    assert_eq!(listed[0].guid, "g3");
    assert_eq!(listed[1].guid, "g2");
    assert_eq!(listed[2].guid, "g1");
}

#[test]
fn list_on_empty_episode_catalog() {
    let fetcher = FixtureFetcher::new();
    let episodes = Episodes::new(&fetcher, 1);

    let listed = episodes.list(&Vec::new());

    assert_eq!(listed.len(), 0);
}

#[test]
fn download_count_takes_first_stored() {
    let mut fetcher = FixtureFetcher::new();
    fetcher.add_fixture("https://media.example/1.mp3".to_string(), b"one".to_vec());
    fetcher.add_fixture("https://media.example/2.mp3".to_string(), b"two".to_vec());
    let episodes = Episodes::new(&fetcher, 2);

    let output = episodes.download(&three_episode_catalog(), None, Some(2));

    assert_eq!(output.len(), 2);
    assert_eq!(output[0].0, "Pod_One.mp3");
    assert_eq!(output[0].1, b"one".to_vec());
    assert_eq!(output[1].0, "Pod_Two.mp3");
    assert_eq!(output[1].1, b"two".to_vec());
}

#[test]
fn download_deduplicates_links() {
    let mut fetcher = FixtureFetcher::new();
    fetcher.add_fixture("https://media.example/1.mp3".to_string(), b"one".to_vec());
    let episodes = Episodes::new(&fetcher, 2);

    let input = r###"guid,title,pub_date,link,podcast,podcast_id
g1,One,Mon,https://media.example/1.mp3,Pod,7
g2,Two,Tue,https://media.example/1.mp3,Pod,7
"###;
    let input = input.as_bytes().to_vec();

    let output = episodes.download(&input, None, None);

    assert_eq!(output.len(), 1);
    assert_eq!(output[0].0, "Pod_One.mp3");
    assert_eq!(output[0].1, b"one".to_vec());
}

#[test]
fn download_failed_link_is_dropped() {
    let mut fetcher = FixtureFetcher::new();
    fetcher.add_fixture("https://media.example/2.mp3".to_string(), b"two".to_vec());
    let episodes = Episodes::new(&fetcher, 2);

    // the first and third links are not served: NotFound, dropped silently
    let output = episodes.download(&three_episode_catalog(), None, None);

    assert_eq!(output.len(), 1);
    assert_eq!(output[0].0, "Pod_Two.mp3");
    assert_eq!(output[0].1, b"two".to_vec());
}

fn syntax_feed_with_items() -> Vec<u8> {
    let xml = r#"<?xml version="1.0" encoding="UTF-8"?>
<rss version="2.0"><channel><title>Syntax - Tasty Web Development Treats</title><link>https://syntax.fm</link><description>d</description><item><guid>g1</guid><title>Ep One</title><pubDate>Wed, 22 Jul 2020 13:00:00 +0000</pubDate><link>https://media.example/1.mp3</link></item><item><guid>g2</guid><title>Ep Two</title><pubDate>Thu, 23 Jul 2020 13:00:00 +0000</pubDate></item><item><title>No guid</title><pubDate>Fri, 24 Jul 2020 13:00:00 +0000</pubDate></item></channel></rss>"#;
    xml.as_bytes().to_vec()
}

#[test]
fn update_replaces_catalog_with_fresh_items() {
    let mut fetcher = FixtureFetcher::new();
    fetcher.add_fixture("https://feed.syntax.fm/rss".to_string(), syntax_feed_with_items());
    let episodes = Episodes::new(&fetcher, 4);

    let podcasts = vec![Podcast {
        id: 15913066141282366353,
        url: "https://syntax.fm".to_string(),
        rss_url: "https://feed.syntax.fm/rss".to_string(),
        title: "Syntax - Tasty Web Development Treats".to_string(),
    }];

    let result = episodes.update(&podcasts);

    assert_eq!(result.len(), 1);
    assert_eq!(result[0].0, 15913066141282366353);
    let expected = r###"guid,title,pub_date,link,podcast,podcast_id
g1,Ep One,"Wed, 22 Jul 2020 13:00:00 +0000",https://media.example/1.mp3,Syntax - Tasty Web Development Treats,15913066141282366353
g2,Ep Two,"Thu, 23 Jul 2020 13:00:00 +0000",-,Syntax - Tasty Web Development Treats,15913066141282366353
"###;
    assert_eq!(std::str::from_utf8(&result[0].1).unwrap(), expected);
}

#[test]
fn update_skips_failed_and_unparsable_feeds() {
    let mut fetcher = FixtureFetcher::new();
    fetcher.add_fixture("https://feed.a.example/rss".to_string(), b"no feed".to_vec());
    let episodes = Episodes::new(&fetcher, 4);

    let podcasts = vec![
        Podcast {
            id: 1,
            url: "https://a.example".to_string(),
            rss_url: "https://feed.a.example/rss".to_string(),
            title: "A".to_string(),
        },
        Podcast {
            id: 2,
            url: "https://b.example".to_string(),
            rss_url: "https://feed.b.example/rss".to_string(),
            title: "B".to_string(),
        },
    ];

    let result = episodes.update(&podcasts);

    assert_eq!(result.len(), 0);
}

#[test]
fn list_downloaded_matches_by_file_name() {
    let fetcher = FixtureFetcher::new();
    let episodes = Episodes::new(&fetcher, 1);

    let on_disk = vec!["Pod_One.mp3".to_string(), "Pod_Three.mp3".to_string()];

    let listed = episodes.list_downloaded(&three_episode_catalog(), &on_disk, None);

    assert_eq!(listed.len(), 2);
    assert_eq!(listed[0].guid, "g3");
    assert_eq!(listed[1].guid, "g1");

    let limited = episodes.list_downloaded(&three_episode_catalog(), &on_disk, Some(1));

    assert_eq!(limited.len(), 1);
    assert_eq!(limited[0].guid, "g3");
}

#[test]
fn episode_row_without_trailing_id_is_accepted() {
    let fetcher = FixtureFetcher::new();
    let episodes = Episodes::new(&fetcher, 1);

    let input = r###"guid,title,pub_date,link,podcast
g9,Old Form,Sat,https://media.example/9.mp3,Pod
"###;
    let input = input.as_bytes().to_vec();

    let listed = episodes.list(&input);

    assert_eq!(listed.len(), 1);
    assert_eq!(listed[0].guid, "g9");
    assert_eq!(listed[0].podcast_id, 0);
}

#[test]
fn episode_filename_joins_podcast_and_title() {
    let e = Episode {
        guid: "g".to_string(),
        title: "An Episode".to_string(),
        pub_date: "Mon".to_string(),
        link: "https://media.example/e.mp3".to_string(),
        podcast: "A Pod".to_string(),
        podcast_id: 3,
    };

    assert_eq!(pcasts::episodes::episode_filename(&e), "A Pod_An Episode.mp3");
}

#[test]
fn update_filters_by_requested_ids() {
    let podcasts = vec![
        Podcast {
            id: 1,
            url: "https://a.example".to_string(),
            rss_url: "https://feed.a.example/rss".to_string(),
            title: "A".to_string(),
        },
        Podcast {
            id: 2,
            url: "https://b.example".to_string(),
            rss_url: "https://feed.b.example/rss".to_string(),
            title: "B".to_string(),
        },
    ];

    let ids = vec![2u64];
    let picked = pcasts::episodes::filter_by_ids(&podcasts, Some(&ids));
    assert_eq!(picked.len(), 1);
    assert_eq!(picked[0].id, 2);

    let all = pcasts::episodes::filter_by_ids(&podcasts, None);
    assert_eq!(all.len(), 2);

    let none = pcasts::episodes::filter_by_ids(&podcasts, Some(&vec![9u64]));
    assert_eq!(none.len(), 0);
}
