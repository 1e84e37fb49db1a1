use autoint::fetcher::Event;
use autoint::report::{hash_headlines, score_to_rating, total_score, CleanedCluster, Report};

fn event(headline: &str, published: i64, href: &str) -> Event {
    Event { headline: headline.to_string(), published, href: href.to_string() }
}

fn cluster(headline: &str, score: u32) -> CleanedCluster {
    CleanedCluster::new(&vec![event(headline, 0, "https://example.com")], score)
}

#[test]
fn rating_bands() {
    let cases: Vec<(u32, &str)> = vec![
        (u32::MAX, "AA"),
        (2001, "AA"),
        (2000, "AB"),
        (1000, "AB"),
        (999, "BB"),
        (500, "BB"),
        (499, "BC"),
        (200, "BC"),
        (199, "CC"),
        (100, "CC"),
        (99, "CD"),
        (80, "CD"),
        (79, "DD"),
        (60, "DD"),
        (59, "DE"),
        (40, "DE"),
        (39, "EE"),
        (20, "EE"),
        (19, "EF"),
        (10, "EF"),
        (9, "FF"),
        (0, "FF"),
    ];
    for (score, rating) in cases {
        assert_eq!(score_to_rating(score), rating, "score {}", score);
    }
}

#[test]
fn rating_is_monotone_on_examples() {
    let order = ["AA", "AB", "BB", "BC", "CC", "CD", "DD", "DE", "EE", "EF", "FF"];
    let rank = |s: String| order.iter().position(|r| *r == s).unwrap();
    let mut previous = rank(score_to_rating(0));
    for score in 1..3000u32 {
        let r = rank(score_to_rating(score));
        assert!(r <= previous);
        previous = r;
    }
}

#[test]
fn hash_of_known_inputs() {
    assert_eq!(
        hash_headlines(vec!["abc".to_string()]),
        "BA7816BF8F01CFEA414140DE5DAE2223B00361A396177A9CB410FF61F20015AD"
    );
    assert_eq!(
        hash_headlines(vec![]),
        "E3B0C44298FC1C149AFBF4C8996FB92427AE41E4649B934CA495991B7852B855"
    );
    assert_eq!(
        hash_headlines(vec!["a".to_string(), "b".to_string(), "c".to_string()]),
        hash_headlines(vec!["abc".to_string()])
    );
}

#[test]
fn cleaned_cluster_takes_first_source() {
    let sources = vec![event("First story of the day", 10, "https://a"), event("Second", 20, "https://b")];
    let c = CleanedCluster::new(&sources, 150);
    assert_eq!(c.headline, "First story of the day");
    assert_eq!(c.href, "https://a");
    assert_eq!(c.score, 150);
    assert_eq!(c.rating, "CC");
    assert_eq!(c.num_sources, 2);
}

#[test]
fn report_fields() {
    let clusters = vec![cluster("Café is open in the city", 300), cluster("The fall", 50)];
    let report = Report::new(clusters, 175, 1_700_000_000);
    assert_eq!(report.do_not_abuse, "Please see repo for self hosting.");
    assert_eq!(report.id, "B3AB81");
    assert_eq!(report.published, 1_700_000_000);
    assert_eq!(report.clusters.len(), 2);
    assert_eq!(report.clusters[0].headline, "Café is open in the city");
    assert_eq!(report.avg_rating, "CC");
}

#[test]
fn report_of_no_clusters() {
    let report = Report::new(vec![], 0, 5);
    assert_eq!(report.id, "E3B0C4");
    assert_eq!(report.avg_rating, "FF");
    assert!(report.clusters.is_empty());
}

#[test]
fn total_score_sums_and_detects_overflow() {
    assert_eq!(total_score(&vec![]), Some(0));
    assert_eq!(total_score(&vec![cluster("a", 10), cluster("b", 32)]), Some(42));
    assert_eq!(total_score(&vec![cluster("a", u32::MAX), cluster("b", 1)]), None);
    assert_eq!(total_score(&vec![cluster("a", u32::MAX - 1), cluster("b", 1)]), Some(u32::MAX));
}
