use autoint::fetcher::{Event, FeedEntry, Fetcher};
use autoint::watchdog::cluster_events;

fn entry(title: Option<&str>, published: Option<i64>, links: &[&str]) -> FeedEntry {
    FeedEntry {
        title: title.map(|t| t.to_string()),
        published,
        links: links.iter().map(|l| l.to_string()).collect(),
    }
}

fn event(headline: &str, published: i64, href: &str) -> Event {
    Event { headline: headline.to_string(), published, href: href.to_string() }
}

fn triples(events: &[Event]) -> Vec<(String, i64, String)> {
    events.iter().map(|e| (e.headline.clone(), e.published, e.href.clone())).collect()
}

#[test]
fn new_keeps_urls() {
    let f = Fetcher::new(vec!["https://a/rss".to_string(), "https://b/rss".to_string()]);
    assert_eq!(f.rss_urls, vec!["https://a/rss".to_string(), "https://b/rss".to_string()]);
}

#[test]
fn english_markers() {
    assert!(Fetcher::is_english(&"This is the news".to_string()));
    assert!(Fetcher::is_english(&"Storm hits coast and city".to_string()));
    assert!(Fetcher::is_english(&"Rise of prices".to_string()));
    assert!(Fetcher::is_english(&"Fire in Rome".to_string()));
    assert!(Fetcher::is_english(&"Why it matters".to_string()));
    assert!(!Fetcher::is_english(&"the news".to_string()));
    assert!(!Fetcher::is_english(&"Nachrichten aus Berlin".to_string()));
    assert!(!Fetcher::is_english(&"".to_string()));
    assert!(!Fetcher::is_english(&"Theme park opens".to_string()));
}

#[test]
fn entries_are_filtered() {
    let entries = vec![
        entry(Some("The fall of the empire"), Some(100), &["https://a/1", "https://a/2"]),
        entry(Some("Rome"), Some(101), &["https://a/3"]),
        entry(Some("Nachrichten aus Berlin"), Some(102), &["https://a/4"]),
        entry(None, Some(103), &["https://a/5"]),
        entry(Some("Storm in the north"), None, &["https://a/6"]),
        entry(Some("Storm in the south"), Some(104), &[]),
        entry(Some("Prices rise in the west"), Some(105), &["https://a/7"]),
    ];
    let events = Fetcher::events_from_entries(&entries);
    assert_eq!(
        triples(&events),
        vec![
            ("The fall of the empire".to_string(), 100, "https://a/1".to_string()),
            ("Prices rise in the west".to_string(), 105, "https://a/7".to_string()),
        ]
    );
}

#[test]
fn headlines_are_normalized() {
    let entries = vec![entry(Some("Cafe\u{301} is open in the city"), Some(1), &["https://c"])];
    let events = Fetcher::events_from_entries(&entries);
    assert_eq!(events.len(), 1);
    assert_eq!(events[0].headline, "Caf\u{e9} is open in the city");
}

#[test]
fn length_counts_bytes() {
    // " is \u{e9}" holds 5 characters but 6 bytes.
    let entries = vec![
        entry(Some(" is \u{e9}"), Some(1), &["https://d"]),
        entry(Some(" is e"), Some(2), &["https://e"]),
    ];
    let events = Fetcher::events_from_entries(&entries);
    assert_eq!(triples(&events), vec![(" is \u{e9}".to_string(), 1, "https://d".to_string())]);
}

#[test]
fn rss_document_is_read() {
    let body = r#"<?xml version="1.0"?>
<rss version="2.0"><channel><title>News</title>
<item><title>The fall of the empire</title><link>https://a/1</link><pubDate>Tue, 15 Nov 2022 20:15:04 +0000</pubDate></item>
<item><title>Rome</title><link>https://a/2</link><pubDate>Tue, 15 Nov 2022 20:15:04 +0000</pubDate></item>
<item><title>Storm in the north</title><link>https://a/3</link></item>
</channel></rss>"#;
    let events = Fetcher::extract_events(body);
    assert_eq!(
        triples(&events),
        vec![("The fall of the empire".to_string(), 1668543304, "https://a/1".to_string())]
    );
}

#[test]
fn unparsable_document_gives_nothing() {
    assert!(Fetcher::extract_events("not a feed").is_empty());
    assert!(Fetcher::extract_events("").is_empty());
}

#[test]
fn results_are_merged_in_order() {
    let results = vec![
        Some(vec![event("a", 1, "x"), event("b", 2, "y")]),
        None,
        Some(vec![]),
        Some(vec![event("c", 3, "z")]),
    ];
    let merged = Fetcher::merge_results(results);
    assert_eq!(
        triples(&merged),
        vec![
            ("a".to_string(), 1, "x".to_string()),
            ("b".to_string(), 2, "y".to_string()),
            ("c".to_string(), 3, "z".to_string()),
        ]
    );
    assert!(Fetcher::merge_results(vec![]).is_empty());
}

#[test]
fn cluster_members_are_gathered() {
    let events = vec![event("a", 1, "x"), event("b", 2, "y"), event("c", 3, "z")];
    let gathered = cluster_events(&events, &vec![2, 0, 2]);
    assert_eq!(
        triples(&gathered),
        vec![
            ("c".to_string(), 3, "z".to_string()),
            ("a".to_string(), 1, "x".to_string()),
            ("c".to_string(), 3, "z".to_string()),
        ]
    );
}

const MRSS: &str = "http://search.yahoo.com/mrss/";
const ITUNES: &str = "http://www.itunes.com/dtds/podcast-1.0.dtd";

fn media_feed(extra: &str) -> String {
    format!(
        r#"<?xml version="1.0" encoding="UTF-8"?>
<rss version="2.0" xmlns:media="{}" xmlns:itunes="{}"><channel><title>News</title>
<item><title>The fall of the empire</title><link>https://a/1</link><pubDate>Tue, 15 Nov 2022 20:15:04 +0000</pubDate>{}</item>
</channel></rss>"#,
        MRSS, ITUNES, extra
    )
}

#[test]
fn plain_documents_are_safe() {
    assert!(Fetcher::feed_is_safe("not a feed"));
    assert!(Fetcher::feed_is_safe("<rss version=\"2.0\"><channel><title>&#8217; 12345678901234567890</title></channel></rss>"));
    assert!(Fetcher::feed_is_safe("<?xml version=\"1.0\" encoding='utf-8'?><rss/>"));
}

#[test]
fn other_encodings_and_nul_are_unsafe() {
    assert!(!Fetcher::feed_is_safe("<?xml version=\"1.0\" encoding=\"ISO-8859-1\"?><rss/>"));
    assert!(!Fetcher::feed_is_safe("<rss>\u{0}</rss>"));
    assert!(Fetcher::try_extract_events("<?xml version=\"1.0\" encoding=\"latin1\"?><rss/>").is_none());
}

#[test]
fn media_documents_with_tame_numbers_are_read() {
    let body = media_feed("<itunes:duration>01:02:03</itunes:duration><media:thumbnail url=\"https://a/t.jpg\" time=\"12.5\"/>");
    assert!(Fetcher::feed_is_safe(&body));
    let events = Fetcher::try_extract_events(&body).unwrap();
    assert_eq!(
        triples(&events),
        vec![("The fall of the empire".to_string(), 1668543304, "https://a/1".to_string())]
    );
}

#[test]
fn media_documents_with_risky_numbers_are_refused() {
    assert!(!Fetcher::feed_is_safe(&media_feed("<itunes:duration>99999999999999999999999</itunes:duration>")));
    assert!(!Fetcher::feed_is_safe(&media_feed("<itunes:duration>\u{663}</itunes:duration>")));
    assert!(!Fetcher::feed_is_safe(&media_feed("<itunes:duration>&#1635;</itunes:duration>")));
    assert!(Fetcher::try_extract_events(&media_feed("<itunes:duration>1234567890123456</itunes:duration>")).is_none());
    assert!(Fetcher::feed_is_safe(&media_feed("<itunes:duration>123456789012345</itunes:duration>")));
    assert!(!Fetcher::feed_is_safe(&media_feed("<media:text start=\"12345678901234567890\">x</media:text>")));
    assert!(!Fetcher::feed_is_safe(&media_feed("<media:thumbnail url=\"https://a/t.jpg\" time = '&#1636;'/>")));
    assert!(!Fetcher::feed_is_safe(&media_feed("<itunes:duration>12<!-- c -->34</itunes:duration>")));
}

#[test]
fn encoding_outside_the_declaration_is_read() {
    let body = r#"<?xml version="1.0" encoding="UTF-8"?>
<rss version="2.0"><channel><title>News</title>
<item><title>Video encoding of the year</title><link>https://a/2</link><pubDate>Tue, 15 Nov 2022 20:15:04 +0000</pubDate><description>encoding="latin1"</description></item>
</channel></rss>"#;
    assert!(Fetcher::feed_is_safe(body));
    let events = Fetcher::try_extract_events(body).unwrap();
    assert_eq!(
        triples(&events),
        vec![("Video encoding of the year".to_string(), 1668543304, "https://a/2".to_string())]
    );
}

#[test]
fn media_documents_with_references_and_long_ids_are_read() {
    let body = format!(
        r#"<?xml version="1.0" encoding="UTF-8"?>
<rss version="2.0" xmlns:media="{}"><channel><title>News</title>
<item><title>The fall of the empire&#8217;s capital</title><link>https://a/123456789012345678901234</link><pubDate>Tue, 15 Nov 2022 20:15:04 +0000</pubDate><media:content url="https://img/98765432109876543210.jpg" medium="image"/><description>Story 11111111111111111111 &#169;</description></item>
</channel></rss>"#,
        MRSS
    );
    assert!(Fetcher::feed_is_safe(&body));
    let events = Fetcher::try_extract_events(&body).unwrap();
    assert_eq!(
        triples(&events),
        vec![(
            "The fall of the empire\u{2019}s capital".to_string(),
            1668543304,
            "https://a/123456789012345678901234".to_string()
        )]
    );
}

#[test]
fn watched_feeds() {
    let urls = autoint::watchdog::feed_urls();
    assert_eq!(urls.len(), 39);
    assert_eq!(urls[0], "https://www.9news.com/feeds/syndication/rss/news");
    assert_eq!(urls[38], "https://globalnews.ca/feed/");
}
