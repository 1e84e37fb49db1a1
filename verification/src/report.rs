use vstd::prelude::*;
use vstd::string::StringExecFns;
use vstd::string::StrSliceExecFns;
use vstd::utf8::encode_utf8;
use sha2::Digest;
use crate::fetcher::Event;
use crate::text::{chars_of, push_char, strings_view};

verus! {

/// Rank of a score on the rating scale: 0 is the most important band.
pub open spec fn rating_rank(score: u32) -> nat {
    if score > 2000 {
        0
    } else if score >= 1000 {
        1
    } else if score >= 500 {
        2
    } else if score >= 200 {
        3
    } else if score >= 100 {
        4
    } else if score >= 80 {
        5
    } else if score >= 60 {
        6
    } else if score >= 40 {
        7
    } else if score >= 20 {
        8
    } else if score >= 10 {
        9
    } else {
        10
    }
}

/// Two-letter label of each rank, from most to least important.
pub open spec fn rating_label(rank: nat) -> Seq<char> {
    if rank == 0 {
        seq!['A', 'A']
    } else if rank == 1 {
        seq!['A', 'B']
    } else if rank == 2 {
        seq!['B', 'B']
    } else if rank == 3 {
        seq!['B', 'C']
    } else if rank == 4 {
        seq!['C', 'C']
    } else if rank == 5 {
        seq!['C', 'D']
    } else if rank == 6 {
        seq!['D', 'D']
    } else if rank == 7 {
        seq!['D', 'E']
    } else if rank == 8 {
        seq!['E', 'E']
    } else if rank == 9 {
        seq!['E', 'F']
    } else {
        seq!['F', 'F']
    }
}

/// The rating that a score receives.
pub open spec fn rating_of(score: u32) -> Seq<char> {
    rating_label(rating_rank(score))
}

fn label(s: &str) -> (res: String)
    ensures
        res@ == s@,
{
    String::from_str(s)
}

/// Maps a cluster score onto the two-letter rating scale
/// (AA: world altering event ... FF: updates and opinions).
pub fn score_to_rating(score: u32) -> (res: String)
    ensures
        res@ == rating_of(score),
{
    proof {
        reveal_strlit("AA");
        reveal_strlit("AB");
        reveal_strlit("BB");
        reveal_strlit("BC");
        reveal_strlit("CC");
        reveal_strlit("CD");
        reveal_strlit("DD");
        reveal_strlit("DE");
        reveal_strlit("EE");
        reveal_strlit("EF");
        reveal_strlit("FF");
    }
    if score > 2000 {
        label("AA")
    } else if score >= 1000 {
        label("AB")
    } else if score >= 500 {
        label("BB")
    } else if score >= 200 {
        label("BC")
    } else if score >= 100 {
        label("CC")
    } else if score >= 80 {
        label("CD")
    } else if score >= 60 {
        label("DD")
    } else if score >= 40 {
        label("DE")
    } else if score >= 20 {
        label("EE")
    } else if score >= 10 {
        label("EF")
    } else {
        label("FF")
    }
}

/// A higher score never receives a less important rating than a lower one.
pub proof fn lemma_rating_monotone(lower: u32, higher: u32)
    requires
        lower <= higher,
    ensures
        rating_rank(higher) <= rating_rank(lower),
{
}

/// What `sha2::Sha256::digest` yields for some bytes: their SHA-256 digest.
pub uninterp spec fn spec_sha256(data: Seq<u8>) -> Seq<u8>;

/// Computes the SHA-256 digest of `data` with `sha2::Sha256::digest`. The
/// digest is only named here, apart from its length of 32 bytes.
#[verifier::external_body]
fn sha256(data: &[u8]) -> (res: Vec<u8>)
    ensures
        res@ == spec_sha256(data@),
        res@.len() == 32,
{
    sha2::Sha256::digest(data).to_vec()
}

/// Upper-case hexadecimal digit of a value below 16.
pub open spec fn hex_digit(n: u8) -> char {
    if n < 10 {
        (48 + n) as char
    } else {
        (55 + n) as char
    }
}

/// Upper-case hexadecimal form of some bytes, two digits per byte.
pub open spec fn hex_upper(bytes: Seq<u8>) -> Seq<char>
    decreases bytes.len(),
{
    if bytes.len() == 0 {
        seq![]
    } else {
        hex_upper(bytes.drop_last()) + seq![hex_digit(bytes.last() / 16), hex_digit(bytes.last() % 16)]
    }
}

/// The strings joined end to end.
pub open spec fn concat_all(ss: Seq<Seq<char>>) -> Seq<char>
    decreases ss.len(),
{
    if ss.len() == 0 {
        seq![]
    } else {
        concat_all(ss.drop_last()) + ss.last()
    }
}

/// Fingerprint of a list of headlines: the upper-case hexadecimal SHA-256
/// digest of their UTF-8 concatenation.
pub open spec fn headlines_hash(headlines: Seq<Seq<char>>) -> Seq<char> {
    hex_upper(spec_sha256(encode_utf8(concat_all(headlines))))
}

/// Joining headlines is concatenation: joining two lists one after the
/// other gives the join of the first followed by the join of the second, a
/// single headline joins to itself, and adding a headline appends it. So the
/// fingerprint covers every headline, however many there are.
pub proof fn lemma_concat_all_append(a: Seq<Seq<char>>, b: Seq<Seq<char>>, s: Seq<char>)
    ensures
        concat_all(a + b) == concat_all(a) + concat_all(b),
        concat_all(a.push(s)) == concat_all(a) + s,
        concat_all(seq![s]) == s,
    decreases b.len(),
{
    assert(a.push(s).drop_last() =~= a);
    assert(seq![s].drop_last() =~= Seq::<Seq<char>>::empty());
    assert(concat_all(Seq::<Seq<char>>::empty()) == Seq::<char>::empty());
    assert(concat_all(seq![s]) == concat_all(seq![s].drop_last()) + s);
    assert(concat_all(seq![s]) =~= s);
    if b.len() == 0 {
        assert(a + b =~= a);
        assert(concat_all(a) + concat_all(b) =~= concat_all(a));
    } else {
        lemma_concat_all_append(a, b.drop_last(), s);
        assert((a + b).drop_last() =~= a + b.drop_last());
        assert((a + b).last() == b.last());
        assert(concat_all(a + b) =~= concat_all(a) + concat_all(b.drop_last()) + b.last());
    }
}

/// The fingerprint of two lists of headlines one after the other is the
/// upper-case hex SHA-256 of the UTF-8 form of all their headlines joined.
pub proof fn lemma_headlines_hash_covers_all(a: Seq<Seq<char>>, b: Seq<Seq<char>>)
    ensures
        headlines_hash(a + b) == hex_upper(spec_sha256(encode_utf8(concat_all(a) + concat_all(b)))),
{
    lemma_concat_all_append(a, b, seq![]);
}

proof fn lemma_hex_upper_len(bytes: Seq<u8>)
    ensures
        hex_upper(bytes).len() == 2 * bytes.len(),
    decreases bytes.len(),
{
    if bytes.len() > 0 {
        lemma_hex_upper_len(bytes.drop_last());
    }
}

fn hex_char(n: u8) -> (c: char)
    requires
        n < 16,
    ensures
        c == hex_digit(n),
{
    if n < 10 {
        (48 + n) as char
    } else {
        (55 + n) as char
    }
}

fn to_hex_upper(bytes: &Vec<u8>) -> (res: String)
    ensures
        res@ == hex_upper(bytes@),
{
    let mut res = String::new();
    let mut k: usize = 0;
    while k < bytes.len()
        invariant
            k <= bytes.len(),
            res@ == hex_upper(bytes@.take(k as int)),
        decreases bytes.len() - k,
    {
        let b: u8 = bytes[k];
        push_char(&mut res, hex_char(b / 16));
        push_char(&mut res, hex_char(b % 16));
        assert(bytes@.take(k + 1).drop_last() =~= bytes@.take(k as int));
        assert(bytes@.take(k + 1).last() == b);
        assert(res@ =~= hex_upper(bytes@.take(k + 1)));
        k = k + 1;
    }
    assert(bytes@.take(k as int) =~= bytes@);
    res
}

/// Fingerprints a list of headlines: the upper-case hexadecimal SHA-256
/// digest of their concatenation.
pub fn hash_headlines(strings: Vec<String>) -> (res: String)
    ensures
        res@ == headlines_hash(strings_view(strings@)),
        res@.len() == 64,
{
    let ghost ss = strings_view(strings@);
    let mut combined = String::new();
    let mut k: usize = 0;
    while k < strings.len()
        invariant
            k <= strings.len(),
            ss == strings_view(strings@),
            combined@ == concat_all(ss.take(k as int)),
        decreases strings.len() - k,
    {
        combined.append(strings[k].as_str());
        assert(ss.take(k + 1).drop_last() =~= ss.take(k as int));
        k = k + 1;
    }
    assert(ss.take(k as int) =~= ss);
    let digest = sha256(combined.as_str().as_bytes());
    proof {
        lemma_hex_upper_len(digest@);
    }
    to_hex_upper(&digest)
}

/// A cluster as published in a report: its leading headline and link, its
/// score and rating, and how many sources reported it.
#[derive(Clone, Debug, Hash)]
pub struct CleanedCluster {
    pub headline: String,
    pub href: String,
    pub score: u32,
    pub rating: String,
    pub num_sources: usize,
}

impl CleanedCluster {
    /// Summarizes a cluster of events (the first one leads) with its score
    /// already rounded to an integer.
    pub fn new(sources: &Vec<Event>, score: u32) -> (res: CleanedCluster)
        requires
            sources.len() > 0,
        ensures
            res.headline@ == sources[0].headline@,
            res.href@ == sources[0].href@,
            res.score == score,
            res.rating@ == rating_of(score),
            res.num_sources == sources.len(),
    {
        CleanedCluster {
            headline: sources[0].headline.clone(),
            href: sources[0].href.clone(),
            score,
            rating: score_to_rating(score),
            num_sources: sources.len(),
        }
    }
}

/// The headlines of a sequence of cleaned clusters.
pub open spec fn cluster_headlines(cs: Seq<CleanedCluster>) -> Seq<Seq<char>> {
    Seq::new(cs.len(), |i: int| cs[i].headline@)
}

/// Sum of the scores of a sequence of cleaned clusters.
pub open spec fn score_sum(cs: Seq<CleanedCluster>) -> int
    decreases cs.len(),
{
    if cs.len() == 0 {
        0
    } else {
        score_sum(cs.drop_last()) + cs.last().score
    }
}

/// Sum of the cluster scores, or `None` when it does not fit in a `u32`.
pub fn total_score(clusters: &Vec<CleanedCluster>) -> (res: Option<u32>)
    ensures
        match res {
            Some(t) => t == score_sum(clusters@),
            None => score_sum(clusters@) > u32::MAX,
        },
{
    let mut total: u32 = 0;
    let mut k: usize = 0;
    while k < clusters.len()
        invariant
            k <= clusters.len(),
            total == score_sum(clusters@.take(k as int)),
        decreases clusters.len() - k,
    {
        assert(clusters@.take(k + 1).drop_last() =~= clusters@.take(k as int));
        match total.checked_add(clusters[k].score) {
            Some(t) => total = t,
            None => {
                proof {
                    lemma_score_sum_grows(clusters@, (k + 1) as nat);
                }
                return None;
            },
        }
        k = k + 1;
    }
    assert(clusters@.take(k as int) =~= clusters@);
    Some(total)
}

proof fn lemma_score_sum_grows(cs: Seq<CleanedCluster>, k: nat)
    requires
        k <= cs.len(),
    ensures
        score_sum(cs.take(k as int)) <= score_sum(cs),
    decreases cs.len() - k,
{
    if k < cs.len() {
        lemma_score_sum_grows(cs, k + 1);
        assert(cs.take(k as int + 1).drop_last() =~= cs.take(k as int));
    } else {
        assert(cs.take(k as int) =~= cs);
    }
}

/// A published report: a notice, an identifier, the publication time, the
/// clusters, and the rating of the average score.
#[derive(Clone, Debug)]
pub struct Report {
    pub do_not_abuse: String,
    pub id: String,
    pub published: u64,
    pub clusters: Vec<CleanedCluster>,
    pub avg_rating: String,
}

impl Report {
    /// Builds a report from its clusters, the average cluster score and the
    /// publication time (Unix seconds). Its identifier is the first six
    /// characters of the fingerprint of the cluster headlines.
    pub fn new(clusters: Vec<CleanedCluster>, avg_score: u32, published: u64) -> (res: Report)
        ensures
            res.do_not_abuse@ == "Please see repo for self hosting."@,
            res.id@ == headlines_hash(cluster_headlines(clusters@)).take(6),
            res.id@.len() == 6,
            res.published == published,
            res.clusters@ == clusters@,
            res.avg_rating@ == rating_of(avg_score),
    {
        let mut headlines: Vec<String> = Vec::new();
        let mut k: usize = 0;
        while k < clusters.len()
            invariant
                k <= clusters.len(),
                headlines.len() == k,
                strings_view(headlines@) == cluster_headlines(clusters@).take(k as int),
            decreases clusters.len() - k,
        {
            let ghost before = headlines@;
            let h = clusters[k].headline.clone();
            headlines.push(h);
            assert forall|a: int| 0 <= a < k + 1 implies #[trigger] strings_view(headlines@)[a]
                == cluster_headlines(clusters@).take(k + 1)[a] by {
                if a < k {
                    assert(headlines@[a] == before[a]);
                    assert(strings_view(before)[a] == cluster_headlines(clusters@).take(k as int)[a]);
                }
            }
            assert(strings_view(headlines@) =~= cluster_headlines(clusters@).take(k + 1));
            k = k + 1;
        }
        assert(cluster_headlines(clusters@).take(k as int) =~= cluster_headlines(clusters@));
        let hash = hash_headlines(headlines);
        proof {
            lemma_hex_upper_len(spec_sha256(encode_utf8(concat_all(cluster_headlines(clusters@)))));
        }
        let id = String::from_str(hash.as_str().substring_char(0, 6));
        Report {
            do_not_abuse: String::from_str("Please see repo for self hosting."),
            id,
            published,
            clusters,
            avg_rating: score_to_rating(avg_score),
        }
    }
}

} // verus!
