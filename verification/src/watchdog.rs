use vstd::prelude::*;
use vstd::string::StringExecFns;
use crate::fetcher::{Event, events_view, copy_event};
use crate::text::strings_view;

verus! {

/// The events that a community of indices designates, in community order.
pub fn cluster_events(events: &Vec<Event>, members: &Vec<usize>) -> (res: Vec<Event>)
    requires
        forall|k: int| 0 <= k < members.len() ==> #[trigger] members[k] < events.len(),
    ensures
        events_view(res@) == Seq::new(members@.len(), |k: int| events@[members@[k] as int]@),
{
    let mut res: Vec<Event> = Vec::new();
    let mut k: usize = 0;
    while k < members.len()
        invariant
            k <= members.len(),
            res.len() == k,
            forall|a: int| 0 <= a < members.len() ==> #[trigger] members[a] < events.len(),
            events_view(res@) == Seq::new(k as nat, |a: int| events@[members@[a] as int]@),
        decreases members.len() - k,
    {
        let ghost before = res@;
        let e = copy_event(&events[members[k]]);
        res.push(e);
        assert forall|a: int| 0 <= a < k + 1 implies #[trigger] events_view(res@)[a] == events@[members@[a] as int]@ by {
            if a < k {
                assert(res@[a] == before[a]);
                assert(events_view(before)[a] == events@[members@[a] as int]@);
            }
        }
        assert(events_view(res@) =~= Seq::new((k + 1) as nat, |a: int| events@[members@[a] as int]@));
        k = k + 1;
    }
    res
}

/// The news feeds that are watched.
pub open spec fn feed_sources() -> Seq<Seq<char>> {
    seq![
        "https://www.9news.com/feeds/syndication/rss/news"@,
        "https://content.api.nytimes.com/svc/news/v3/all/recent.rss"@,
        "https://www.independent.co.uk/news/rss"@,
        "https://www.theguardian.com/world/rss"@,
        "https://www.sbs.com.au/news/topic/latest/feed"@,
        "https://moxie.foxnews.com/google-publisher/world.xml"@,
        "https://feeds.a.dj.com/rss/RSSWorldNews.xml"@,
        "https://www.forbes.com/innovation/feed2"@,
        "https://www.forbes.com/business/feed"@,
        "http://feeds.bbci.co.uk/news/world/rss.xml"@,
        "https://www.news.com.au/content-feeds/latest-news-world/"@,
        "https://www.smh.com.au/rss/feed.xml"@,
        "https://www.heraldsun.com.au/rss"@,
        "https://www.abc.net.au/news/feed/51120/rss.xml"@,
        "https://www.thesundaily.my/rss/world"@,
        "https://feeds.washingtonpost.com/rss/politics"@,
        "http://rss.cnn.com/rss/edition.rss"@,
        "https://www.reutersagency.com/feed/?taxonomy=best-sectors&post_type=best"@,
        "https://www.yahoo.com/news/rss"@,
        "https://thehill.com/news/feed/"@,
        "https://www.economist.com/the-world-this-week/rss.xml"@,
        "https://www.theatlantic.com/feed/all/"@,
        "http://www.newsweek.com/rss"@,
        "https://www.theverge.com/rss/index.xml"@,
        "https://techcrunch.com/feed/"@,
        "http://feeds2.feedburner.com/businessinsider"@,
        "http://www.chinadaily.com.cn/rss/world_rss.xml"@,
        "https://www.thehindu.com/news/feeder/default.rss"@,
        "http://www.globaltimes.cn/rss/outbrain.xml"@,
        "https://feeds.feedburner.com/CoinDesk"@,
        "http://fortune.com/feed/"@,
        "https://www.reddit.com/r/news/.rss"@,
        "https://www.reddit.com/r/worldnews/.rss"@,
        "https://www.cbc.ca/cmlink/rss-topstories"@,
        "https://www.ctvnews.ca/rss/ctvnews-ca-top-stories-public-rss-1.822009"@,
        "https://www.france24.com/en/rss"@,
        "https://www.rt.com/rss/"@,
        "https://rss.dw.com/rdf/rss-en-all"@,
        "https://globalnews.ca/feed/"@,
    ]
}

/// The addresses of the watched news feeds, in the order they are read.
pub fn feed_urls() -> (res: Vec<String>)
    ensures
        strings_view(res@) == feed_sources(),
{
    let mut res: Vec<String> = Vec::new();
    res.push(String::from_str("https://www.9news.com/feeds/syndication/rss/news"));
    res.push(String::from_str("https://content.api.nytimes.com/svc/news/v3/all/recent.rss"));
    res.push(String::from_str("https://www.independent.co.uk/news/rss"));
    res.push(String::from_str("https://www.theguardian.com/world/rss"));
    res.push(String::from_str("https://www.sbs.com.au/news/topic/latest/feed"));
    res.push(String::from_str("https://moxie.foxnews.com/google-publisher/world.xml"));
    res.push(String::from_str("https://feeds.a.dj.com/rss/RSSWorldNews.xml"));
    res.push(String::from_str("https://www.forbes.com/innovation/feed2"));
    res.push(String::from_str("https://www.forbes.com/business/feed"));
    res.push(String::from_str("http://feeds.bbci.co.uk/news/world/rss.xml"));
    res.push(String::from_str("https://www.news.com.au/content-feeds/latest-news-world/"));
    res.push(String::from_str("https://www.smh.com.au/rss/feed.xml"));
    res.push(String::from_str("https://www.heraldsun.com.au/rss"));
    res.push(String::from_str("https://www.abc.net.au/news/feed/51120/rss.xml"));
    res.push(String::from_str("https://www.thesundaily.my/rss/world"));
    res.push(String::from_str("https://feeds.washingtonpost.com/rss/politics"));
    res.push(String::from_str("http://rss.cnn.com/rss/edition.rss"));
    res.push(String::from_str("https://www.reutersagency.com/feed/?taxonomy=best-sectors&post_type=best"));
    res.push(String::from_str("https://www.yahoo.com/news/rss"));
    res.push(String::from_str("https://thehill.com/news/feed/"));
    res.push(String::from_str("https://www.economist.com/the-world-this-week/rss.xml"));
    res.push(String::from_str("https://www.theatlantic.com/feed/all/"));
    res.push(String::from_str("http://www.newsweek.com/rss"));
    res.push(String::from_str("https://www.theverge.com/rss/index.xml"));
    res.push(String::from_str("https://techcrunch.com/feed/"));
    res.push(String::from_str("http://feeds2.feedburner.com/businessinsider"));
    res.push(String::from_str("http://www.chinadaily.com.cn/rss/world_rss.xml"));
    res.push(String::from_str("https://www.thehindu.com/news/feeder/default.rss"));
    res.push(String::from_str("http://www.globaltimes.cn/rss/outbrain.xml"));
    res.push(String::from_str("https://feeds.feedburner.com/CoinDesk"));
    res.push(String::from_str("http://fortune.com/feed/"));
    res.push(String::from_str("https://www.reddit.com/r/news/.rss"));
    res.push(String::from_str("https://www.reddit.com/r/worldnews/.rss"));
    res.push(String::from_str("https://www.cbc.ca/cmlink/rss-topstories"));
    res.push(String::from_str("https://www.ctvnews.ca/rss/ctvnews-ca-top-stories-public-rss-1.822009"));
    res.push(String::from_str("https://www.france24.com/en/rss"));
    res.push(String::from_str("https://www.rt.com/rss/"));
    res.push(String::from_str("https://rss.dw.com/rdf/rss-en-all"));
    res.push(String::from_str("https://globalnews.ca/feed/"));
    assert(strings_view(res@) =~= feed_sources());
    res
}

} // verus!
