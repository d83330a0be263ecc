use pcasts::{
    Config, Errors, FetchOutcome, FilePermissions, FileSystem, FileSystemErrors, FixtureFetcher,
    Orchestrator, Podcast, TimeoutPolicy,
};

#[test]
fn assign_is_deterministic_and_stable() {
    let a = pcasts::assign("http://feeds.feedburner.com/Http203Podcast");
    let b = pcasts::assign("http://feeds.feedburner.com/Http203Podcast");
    assert_eq!(a, b);
    assert_eq!(a, 12772734294147401495);
    assert_eq!(pcasts::assign("https://feed.syntax.fm/rss"), 15913066141282366353);
}

#[test]
fn decimal_render_and_parse_round_trip() {
    let mut out: Vec<u8> = Vec::new();
    pcasts::digits::push_u64_dec(&mut out, 0);
    assert_eq!(out, b"0".to_vec());

    let mut out: Vec<u8> = Vec::new();
    pcasts::digits::push_u64_dec(&mut out, 12772734294147401495);
    assert_eq!(out, b"12772734294147401495".to_vec());

    assert_eq!(
        pcasts::digits::parse_u64_dec(&b"18446744073709551615".to_vec()),
        Some(u64::MAX)
    );
    assert_eq!(pcasts::digits::parse_u64_dec(&b"18446744073709551616".to_vec()), None);
    assert_eq!(pcasts::digits::parse_u64_dec(&b"12x".to_vec()), None);
    assert_eq!(pcasts::digits::parse_u64_dec(&b"".to_vec()), None);
    assert_eq!(pcasts::digits::parse_u64_dec(&b"007".to_vec()), Some(7));
}

#[test]
fn catalog_quotes_fields_that_need_it() {
    let rows = vec![Podcast {
        id: 1,
        url: "https://a.example".to_string(),
        rss_url: "https://feed.a.example/rss".to_string(),
        title: "News, with \"quotes\"".to_string(),
    }];

    let bytes = pcasts::records::write_podcasts(&rows, true);
    let text = std::str::from_utf8(&bytes).unwrap();
    assert_eq!(
        text,
        "id,url,rss_url,title\n1,https://a.example,https://feed.a.example/rss,\"News, with \"\"quotes\"\"\"\n"
    );

    let parsed = pcasts::records::parse_podcasts(&bytes);
    assert_eq!(parsed.len(), 1);
    assert_eq!(parsed[0].id, 1);
    assert_eq!(parsed[0].title, "News, with \"quotes\"");
}

#[test]
fn catalog_drops_malformed_rows() {
    let input = r###"id,url,rss_url,title
not-a-number,https://a.example,https://feed.a.example/rss,A
2,https://b.example,https://feed.b.example/rss
3,https://c.example,https://feed.c.example/rss,C
"unterminated,https://d.example,https://feed.d.example/rss,D
"###;
    let parsed = pcasts::records::parse_podcasts(&input.as_bytes().to_vec());

    assert_eq!(parsed.len(), 1);
    assert_eq!(parsed[0].id, 3);
    assert_eq!(parsed[0].title, "C");
}

#[test]
fn catalog_drops_rows_with_invalid_text() {
    let mut input = b"id,url,rss_url,title\n1,a,b,".to_vec();
    input.push(0xff);
    input.push(b'\n');
    input.extend_from_slice(b"2,https://b.example,https://feed.b.example/rss,B\n");

    let parsed = pcasts::records::parse_podcasts(&input);

    assert_eq!(parsed.len(), 1);
    assert_eq!(parsed[0].id, 2);
}

#[test]
fn fetch_batch_pairs_every_url_with_one_outcome() {
    let mut fetcher = FixtureFetcher::new();
    fetcher.add_fixture("https://known.example".to_string(), b"payload".to_vec());
    let orchestrator = Orchestrator::new(&fetcher, 3);

    let urls = vec![
        "https://known.example".to_string(),
        "https://unknown.example".to_string(),
    ];
    let outcomes = orchestrator.fetch_batch(&urls, &TimeoutPolicy::Bounded(1));

    assert_eq!(outcomes.len(), 2);
    assert_eq!(outcomes[0].0, "https://known.example");
    assert_eq!(outcomes[1].0, "https://unknown.example");
    assert!(matches!(&outcomes[0].1, FetchOutcome::Success(b) if b == &b"payload".to_vec()));
    assert!(matches!(outcomes[1].1, FetchOutcome::NotFound));
}

#[test]
fn outcome_classification() {
    assert!(matches!(
        pcasts::fetch::classify_completed(404, b"ignored".to_vec()),
        FetchOutcome::NotFound
    ));
    assert!(matches!(
        pcasts::fetch::classify_completed(500, b"oops".to_vec()),
        FetchOutcome::Success(b) if b == b"oops".to_vec()
    ));
    assert!(matches!(
        pcasts::fetch::classify_completed(200, b"ok".to_vec()),
        FetchOutcome::Success(b) if b == b"ok".to_vec()
    ));
    assert!(matches!(
        pcasts::fetch::classify_failed(true, "slow".to_string()),
        FetchOutcome::Timeout
    ));
    assert!(matches!(
        pcasts::fetch::classify_failed(false, "reset".to_string()),
        FetchOutcome::TransportError(c) if c == "reset"
    ));
}

#[test]
fn outcome_errors_carry_the_url_or_cause() {
    let url = "https://a.example".to_string();

    let e = pcasts::fetch::outcome_error(&FetchOutcome::Timeout, &url).unwrap();
    assert_eq!(e.message(), "Network timeout for https://a.example");

    let e = pcasts::fetch::outcome_error(&FetchOutcome::NotFound, &url).unwrap();
    assert_eq!(e.message(), "Resource not found https://a.example");

    let e = pcasts::fetch::outcome_error(
        &FetchOutcome::TransportError("connection reset".to_string()),
        &url,
    )
    .unwrap();
    assert_eq!(e.message(), "Network error connection reset");

    assert!(pcasts::fetch::outcome_error(&FetchOutcome::Success(Vec::new()), &url).is_none());
}

#[test]
fn error_messages_match_their_variants() {
    assert_eq!(Errors::RSS.message(), "Couldn't parse RSS feed");
    assert_eq!(Errors::WrongID("9".to_string()).message(), "Invalid ID: 9");
    assert_eq!(
        Errors::Parse("bad digit".to_string()).message(),
        "Couldn't parse string as number: bad digit"
    );
    assert_eq!(Errors::IO("denied".to_string()).message(), "IO error: denied");
    assert_eq!(Errors::CSV("short row".to_string()).message(), "CSV error: short row");
    assert_eq!(
        Errors::from_file_system(FileSystemErrors::CreateFile("full".to_string())).message(),
        "IO error: full"
    );
}

#[test]
fn file_system_names_path_and_flags() {
    let fs = FileSystem::new(
        "/home/someone/.podcasts".to_string(),
        "podcast_list.csv".to_string(),
        vec![FilePermissions::Read, FilePermissions::Append],
    );

    assert_eq!(fs.path(), "/home/someone/.podcasts/podcast_list.csv");
    let flags = fs.open_flags();
    assert!(flags.read);
    assert!(!flags.write);
    assert!(!flags.truncate);
    assert!(flags.append);

    let fs = FileSystem::new(
        "/tmp/x".to_string(),
        "y".to_string(),
        vec![FilePermissions::WriteTruncate],
    );
    let flags = fs.open_flags();
    assert!(!flags.read);
    assert!(flags.write);
    assert!(flags.truncate);
    assert!(!flags.append);

    let message = FileSystemErrors::CreateDirectory("no space".to_string()).message();
    assert_eq!(message, "Can't create directory. no space");
}

#[test]
fn config_keeps_its_directories() {
    let config = Config::new(
        "/home/someone/.podcasts".to_string(),
        "/home/someone/.podcasts/episodes".to_string(),
    );

    assert_eq!(config.app_directory, "/home/someone/.podcasts");
    assert_eq!(config.download_directory, "/home/someone/.podcasts/episodes");
}

#[test]
fn episode_catalog_write_read_round_trip() {
    let rows = vec![pcasts::Episode {
        guid: "g1".to_string(),
        title: "Quotes, \"commas\" and more".to_string(),
        pub_date: "Wed, 22 Jul 2020 13:00:00 +0000".to_string(),
        link: "https://media.example/1.mp3".to_string(),
        podcast: "A Pod".to_string(),
        podcast_id: 15913066141282366353,
    }];

    let bytes = pcasts::records::write_episodes(&rows);
    let parsed = pcasts::records::parse_episodes(&bytes);

    assert_eq!(parsed.len(), 1);
    assert_eq!(parsed[0].guid, rows[0].guid);
    assert_eq!(parsed[0].title, rows[0].title);
    assert_eq!(parsed[0].pub_date, rows[0].pub_date);
    assert_eq!(parsed[0].link, rows[0].link);
    assert_eq!(parsed[0].podcast, rows[0].podcast);
    assert_eq!(parsed[0].podcast_id, rows[0].podcast_id);
}
