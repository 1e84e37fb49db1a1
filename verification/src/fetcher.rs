use vstd::prelude::*;
use vstd::utf8::encode_utf8;
use crate::text::{chars_of, strings_view};
use unicode_normalization::UnicodeNormalization;

verus! {

/// A headline taken from a news feed.
#[derive(Clone, Debug)]
pub struct Event {
    pub headline: String,
    /// Publication time, in seconds since the Unix epoch.
    pub published: i64,
    pub href: String,
}

impl View for Event {
    type V = (Seq<char>, i64, Seq<char>);

    open spec fn view(&self) -> (Seq<char>, i64, Seq<char>) {
        (self.headline@, self.published, self.href@)
    }
}

/// The parts of a feed entry that headlines are built from.
#[derive(Clone, Debug)]
pub struct FeedEntry {
    pub title: Option<String>,
    /// Publication time, in seconds since the Unix epoch.
    pub published: Option<i64>,
    /// Targets of the entry's links, in feed order.
    pub links: Vec<String>,
}

impl View for FeedEntry {
    type V = (Option<Seq<char>>, Option<i64>, Seq<Seq<char>>);

    open spec fn view(&self) -> (Option<Seq<char>>, Option<i64>, Seq<Seq<char>>) {
        (
            match self.title {
                Some(t) => Some(t@),
                None => None,
            },
            self.published,
            strings_view(self.links@),
        )
    }
}

/// The views of a sequence of events.
pub open spec fn events_view(v: Seq<Event>) -> Seq<(Seq<char>, i64, Seq<char>)> {
    Seq::new(v.len(), |i: int| v[i]@)
}

/// The views of a sequence of feed entries.
pub open spec fn entries_view(v: Seq<FeedEntry>) -> Seq<(Option<Seq<char>>, Option<i64>, Seq<Seq<char>>)> {
    Seq::new(v.len(), |i: int| v[i]@)
}

/// The list of feeds to read.
pub struct Fetcher {
    pub rss_urls: Vec<String>,
}

/// `w` occurs in `text` as a contiguous run of characters.
pub open spec fn contains_run(text: Seq<char>, w: Seq<char>) -> bool {
    exists|i: int| 0 <= i && i + w.len() <= text.len() && #[trigger] text.subrange(i, i + w.len()) == w
}

/// A text reads as English when it holds one of a few very common words,
/// each surrounded by spaces.
pub open spec fn looks_english(text: Seq<char>) -> bool {
    ||| contains_run(text, seq![' ', 't', 'h', 'e', ' '])
    ||| contains_run(text, seq![' ', 'a', 'n', 'd', ' '])
    ||| contains_run(text, seq![' ', 'i', 's', ' '])
    ||| contains_run(text, seq![' ', 'i', 'n', ' '])
    ||| contains_run(text, seq![' ', 'i', 't', ' '])
    ||| contains_run(text, seq![' ', 'o', 'f', ' '])
}

/// A headline is kept when its UTF-8 form is longer than five bytes and it
/// reads as English.
pub open spec fn keeps_headline(h: Seq<char>) -> bool {
    encode_utf8(h).len() > 5 && looks_english(h)
}

/// The character is not a decimal digit of a non-Latin script: it lies
/// outside every non-ASCII range of Unicode's Decimal_Number category (the
/// class that a Unicode regular expression's `\d` matches).
pub open spec fn no_wide_digit(c: char) -> bool {
    let v = c as u32;
    ||| v < 0x660
    ||| 0x1C5A <= v < 0xA620
    ||| 0xAC00 <= v < 0xFF10
    ||| 0xFF1A <= v < 0x104A0
    ||| 0x1E95A <= v < 0x1FBF0
    ||| 0x1FBFA <= v
}

/// An ASCII decimal digit.
pub open spec fn is_ascii_digit(c: char) -> bool {
    '0' <= c <= '9'
}

/// Number of ASCII digits at the end of `s`.
pub open spec fn trailing_digits(s: Seq<char>) -> nat
    decreases s.len(),
{
    if s.len() == 0 {
        0
    } else if is_ascii_digit(s.last()) {
        1 + trailing_digits(s.drop_last())
    } else {
        0
    }
}

/// No run of ASCII digits in `s` is longer than fifteen digits.
pub open spec fn short_digit_runs(s: Seq<char>) -> bool {
    forall|i: int| 0 <= i <= s.len() ==> #[trigger] trailing_digits(s.take(i)) <= 15
}

/// The document declares the MediaRSS or the iTunes namespace; only then does
/// feed-rs read media and duration times, the only numbers it parses with a
/// call that panics on digits it cannot turn into a `u64`.
pub open spec fn declares_timed_media(body: Seq<char>) -> bool {
    ||| contains_run(body, "http://search.yahoo.com/mrss/"@)
    ||| contains_run(body, "http://www.itunes.com/dtds/podcast-1.0.dtd"@)
}

/// `pat` occurs in `s` at position `i`.
pub open spec fn occurs_at(s: Seq<char>, i: int, pat: Seq<char>) -> bool {
    0 <= i && i + pat.len() <= s.len() && s.subrange(i, i + pat.len()) == pat
}

/// Whether an XML declaration is open just before position `i`: the last
/// `<?xml` or `?>` that ends before `i` is a `<?xml`. quick-xml ends a
/// processing instruction at the first `?>` after its `<?`.
pub open spec fn decl_open(s: Seq<char>, i: int) -> bool
    decreases i,
{
    if i <= 0 {
        false
    } else if occurs_at(s, i - 1, "<?xml"@) {
        true
    } else if occurs_at(s, i - 1, "?>"@) {
        false
    } else {
        decl_open(s, i - 1)
    }
}

/// Every `encoding` inside an XML declaration is followed by `="UTF-8"`,
/// `="utf-8"`, `='UTF-8'` or `='utf-8'`: the declaration can then only name
/// UTF-8, the encoding in which the document is handed to feed-rs, and
/// feed-rs never switches its decoder (which may panic mid-stream).
pub open spec fn declares_only_utf8(body: Seq<char>) -> bool {
    forall|i: int| decl_open(body, i) && #[trigger] occurs_at(body, i, "encoding"@) ==> {
        ||| occurs_at(body, i + 8, "=\"UTF-8\""@)
        ||| occurs_at(body, i + 8, "=\"utf-8\""@)
        ||| occurs_at(body, i + 8, "='UTF-8'"@)
        ||| occurs_at(body, i + 8, "='utf-8'"@)
    }
}

/// A stretch of text whose numbers `parse_npt` can read without panicking:
/// no non-ASCII decimal digit, no numeric character reference (which could
/// stand for any digit) and no run of more than fifteen ASCII digits.
pub open spec fn tame(v: Seq<char>) -> bool {
    &&& forall|k: int| 0 <= k < v.len() ==> no_wide_digit(#[trigger] v[k])
    &&& !contains_run(v, seq!['&', '#'])
    &&& short_digit_runs(v)
}

/// XML white space, as quick-xml reads it.
pub open spec fn is_xml_space(c: char) -> bool {
    c == ' ' || c == '\t' || c == '\r' || c == '\n'
}

/// The first position at or after `k` that holds no XML white space.
pub open spec fn skip_space(s: Seq<char>, k: int) -> int
    decreases s.len() - k,
{
    if 0 <= k < s.len() && is_xml_space(s[k]) {
        skip_space(s, k + 1)
    } else {
        k
    }
}

/// The first position at or after `k` that holds `c`, or the length of `s`.
pub open spec fn next_of(s: Seq<char>, k: int, c: char) -> int
    decreases s.len() - k,
{
    if k < 0 || k >= s.len() {
        s.len() as int
    } else if s[k] == c {
        k
    } else {
        next_of(s, k + 1, c)
    }
}

/// The last position before `k` that holds `c`, or -1.
pub open spec fn last_of(s: Seq<char>, k: int, c: char) -> int
    decreases k,
{
    if k <= 0 {
        -1
    } else if k - 1 < s.len() && s[k - 1] == c {
        k - 1
    } else {
        last_of(s, k - 1, c)
    }
}

/// If the name of `n` characters at `i` is followed, as an XML attribute is,
/// by `=` and a quoted value (white space allowed around `=`), that value is
/// tame. Every attribute whose key is that name has this shape.
pub open spec fn attr_value_ok(s: Seq<char>, i: int, n: int) -> bool {
    let k = skip_space(s, i + n);
    (0 <= k < s.len() && s[k] == '=') ==> {
        let m = skip_space(s, k + 1);
        (0 <= m < s.len() && (s[m] == '"' || s[m] == '\'')) ==> tame(s.subrange(m + 1, next_of(s, m + 1, s[m])))
    }
}

/// Every value given to a MediaRSS `start`, `end` or `time` attribute is tame.
pub open spec fn times_ok(s: Seq<char>) -> bool {
    &&& forall|i: int| #[trigger] occurs_at(s, i, "start"@) ==> attr_value_ok(s, i, 5)
    &&& forall|i: int| #[trigger] occurs_at(s, i, "end"@) ==> attr_value_ok(s, i, 3)
    &&& forall|i: int| #[trigger] occurs_at(s, i, "time"@) ==> attr_value_ok(s, i, 4)
}

/// The stretch from the element name `duration` at `i` up to the next `<` is
/// tame, holds the `>` that closes the tag and no quote since the `<` before
/// the name (so that `>` does close the tag), and that next `<` opens neither
/// a comment, a CDATA section nor a processing instruction (across which
/// feed-rs would join the element's text). The element's text then lies in
/// the stretch.
pub open spec fn duration_ok(s: Seq<char>, i: int) -> bool {
    let e = next_of(s, i + 8, '<');
    &&& tame(s.subrange(i, e))
    &&& forall|k: int| last_of(s, i, '<') < k < e && 0 <= k ==> #[trigger] s[k] != '"' && s[k] != '\''
    &&& exists|k: int| i + 8 <= k < e && #[trigger] s[k] == '>'
    &&& (e + 1 >= s.len() || (s[e + 1] != '!' && s[e + 1] != '?'))
}

/// Every element named `duration`, with or without a namespace prefix, has a
/// tame text: `<duration` or `:duration` is followed by a `duration_ok`
/// stretch. Closing tags `</x:duration>` are held to the same test, which
/// the usual text after them meets.
pub open spec fn durations_ok(s: Seq<char>) -> bool {
    forall|i: int| #[trigger] occurs_at(s, i, "duration"@) && 1 <= i && (s[i - 1] == '<' || s[i - 1] == ':') ==> duration_ok(s, i)
}

/// Documents that feed-rs parses without panicking. A document must hold no
/// NUL character (which could make feed-rs read it as UTF-16) and its XML
/// declarations must name no encoding but UTF-8. One that declares a media
/// namespace must moreover give tame numbers to the two places where feed-rs
/// parses time values with a call that panics on digits that do not make a
/// `u64`: MediaRSS `start`, `end` and `time` attributes, and iTunes
/// `duration` elements.
pub open spec fn feed_parse_safe(body: Seq<char>) -> bool {
    &&& forall|i: int| 0 <= i < body.len() ==> #[trigger] body[i] != '\0'
    &&& declares_only_utf8(body)
    &&& declares_timed_media(body) ==> times_ok(body) && durations_ok(body)
}

/// What `unicode_normalization`'s `nfc()` yields for a string: its Unicode
/// Normalization Form C.
pub uninterp spec fn spec_nfc(s: Seq<char>) -> Seq<char>;

/// What `feed_rs::parser::parse` yields for a feed document: `None` when it
/// fails, otherwise for each entry in order its title text, its publication
/// time in Unix seconds, and the targets of its links.
pub uninterp spec fn spec_parse_feed(body: Seq<char>) -> Option<Seq<(Option<Seq<char>>, Option<i64>, Seq<Seq<char>>)>>;

/// The event that a feed entry gives, if any: entries need a title, a
/// publication time and a link; the title, normalized to NFC, must pass
/// `keeps_headline`; the first link becomes the event's link.
pub open spec fn entry_event(e: (Option<Seq<char>>, Option<i64>, Seq<Seq<char>>)) -> Option<(Seq<char>, i64, Seq<char>)> {
    match (e.0, e.1) {
        (Some(title), Some(published)) => {
            if e.2.len() > 0 && keeps_headline(spec_nfc(title)) {
                Some((spec_nfc(title), published, e.2[0]))
            } else {
                None
            }
        },
        _ => None,
    }
}

/// The events of a sequence of feed entries, in entry order.
pub open spec fn feed_events(es: Seq<(Option<Seq<char>>, Option<i64>, Seq<Seq<char>>)>) -> Seq<(Seq<char>, i64, Seq<char>)>
    decreases es.len(),
{
    if es.len() == 0 {
        seq![]
    } else {
        let before = feed_events(es.drop_last());
        match entry_event(es.last()) {
            Some(ev) => before.push(ev),
            None => before,
        }
    }
}

/// The events of the fetched feeds, in feed order; feeds that could not be
/// fetched contribute nothing.
pub open spec fn merged_events(rs: Seq<Option<Seq<(Seq<char>, i64, Seq<char>)>>>) -> Seq<(Seq<char>, i64, Seq<char>)>
    decreases rs.len(),
{
    if rs.len() == 0 {
        seq![]
    } else {
        match rs.last() {
            Some(evs) => merged_events(rs.drop_last()) + evs,
            None => merged_events(rs.drop_last()),
        }
    }
}

/// Normalizes a string to Unicode Normalization Form C with
/// `unicode_normalization::UnicodeNormalization::nfc`; the result is only
/// named here.
#[verifier::external_body]
fn nfc(s: &str) -> (res: String)
    ensures
        res@ == spec_nfc(s@),
{
    s.nfc().collect()
}

/// Parses a feed document with `feed_rs::parser::parse`, keeping of each
/// entry its title text, publication time (converted to Unix seconds with
/// chrono's `timestamp`) and link targets. The result is only named here.
/// feed-rs panics on time values whose digits do not make a `u64` (in
/// `parse_npt`, reached from iTunes durations and MediaRSS times) and may
/// panic when an XML declaration switches its decoder away from UTF-8 or the
/// document reads as UTF-16; `feed_parse_safe` rules both out.
#[verifier::external_body]
fn parse_feed(body: &str) -> (res: Option<Vec<FeedEntry>>)
    requires
        feed_parse_safe(body@),
    ensures
        spec_parse_feed(body@) == match res {
            Some(v) => Some(entries_view(v@)),
            None => None::<Seq<(Option<Seq<char>>, Option<i64>, Seq<Seq<char>>)>>,
        },
{
    match feed_rs::parser::parse(body.as_bytes()) {
        Ok(feed) => Some(feed.entries.into_iter().map(|e| FeedEntry {
            title: e.title.map(|t| t.content),
            published: e.published.map(|d| d.timestamp()),
            links: e.links.into_iter().map(|l| l.href).collect(),
        }).collect()),
        Err(_) => None,
    }
}

pub(crate) fn copy_event(e: &Event) -> (res: Event)
    ensures
        res@ == e@,
{
    Event { headline: e.headline.clone(), published: e.published, href: e.href.clone() }
}

fn occurs_at_exec(text: &Vec<char>, i: usize, pat: &Vec<char>) -> (res: bool)
    ensures
        res == occurs_at(text@, i as int, pat@),
{
    if i > text.len() || pat.len() > text.len() - i {
        return false;
    }
    let mut j: usize = 0;
    while j < pat.len()
        invariant
            i + pat.len() <= text.len(),
            j <= pat.len(),
            forall|k: int| 0 <= k < j ==> text@[i + k] == pat@[k],
        decreases pat.len() - j,
    {
        if text[i + j] != pat[j] {
            assert(text@.subrange(i as int, i + pat.len())[j as int] != pat@[j as int]);
            return false;
        }
        j = j + 1;
    }
    assert(text@.subrange(i as int, i + pat.len()) =~= pat@);
    true
}

fn declares_only_utf8_exec(text: &Vec<char>) -> (res: bool)
    ensures
        res == declares_only_utf8(text@),
{
    let word = chars_of("encoding");
    let open_mark = chars_of("<?xml");
    let close_mark = chars_of("?>");
    let l1 = chars_of("=\"UTF-8\"");
    let l2 = chars_of("=\"utf-8\"");
    let l3 = chars_of("='UTF-8'");
    let l4 = chars_of("='utf-8'");
    proof {
        reveal_strlit("encoding");
    }
    let mut open = false;
    let mut i: usize = 0;
    while i < text.len()
        invariant
            i <= text.len(),
            word@ == "encoding"@,
            word@.len() == 8,
            open_mark@ == "<?xml"@,
            close_mark@ == "?>"@,
            l1@ == "=\"UTF-8\""@,
            l2@ == "=\"utf-8\""@,
            l3@ == "='UTF-8'"@,
            l4@ == "='utf-8'"@,
            open == decl_open(text@, i as int),
            forall|k: int| 0 <= k < i && decl_open(text@, k) && #[trigger] occurs_at(text@, k, "encoding"@) ==> {
                ||| occurs_at(text@, k + 8, "=\"UTF-8\""@)
                ||| occurs_at(text@, k + 8, "=\"utf-8\""@)
                ||| occurs_at(text@, k + 8, "='UTF-8'"@)
                ||| occurs_at(text@, k + 8, "='utf-8'"@)
            },
        decreases text.len() - i,
    {
        if open && occurs_at_exec(text, i, &word) {
            if !(occurs_at_exec(text, i + 8, &l1) || occurs_at_exec(text, i + 8, &l2)
                || occurs_at_exec(text, i + 8, &l3) || occurs_at_exec(text, i + 8, &l4)) {
                return false;
            }
        }
        if occurs_at_exec(text, i, &open_mark) {
            open = true;
        } else if occurs_at_exec(text, i, &close_mark) {
            open = false;
        }
        i = i + 1;
    }
    assert forall|k: int| decl_open(text@, k) && #[trigger] occurs_at(text@, k, "encoding"@) implies {
        ||| occurs_at(text@, k + 8, "=\"UTF-8\""@)
        ||| occurs_at(text@, k + 8, "=\"utf-8\""@)
        ||| occurs_at(text@, k + 8, "='UTF-8'"@)
        ||| occurs_at(text@, k + 8, "='utf-8'"@)
    } by {
        assert(k < i);
    }
    true
}

fn segment(text: &Vec<char>, a: usize, b: usize) -> (res: Vec<char>)
    requires
        a <= b <= text.len(),
    ensures
        res@ == text@.subrange(a as int, b as int),
{
    let mut res: Vec<char> = Vec::new();
    let mut k: usize = a;
    while k < b
        invariant
            a <= k <= b,
            b <= text.len(),
            res@ == text@.subrange(a as int, k as int),
        decreases b - k,
    {
        res.push(text[k]);
        k = k + 1;
        assert(res@ =~= text@.subrange(a as int, k as int));
    }
    res
}

fn tame_exec(v: &Vec<char>) -> (res: bool)
    ensures
        res == tame(v@),
{
    if contains_chars(v, &vec!['&', '#']) {
        return false;
    }
    let ghost s = v@;
    let mut run: usize = 0;
    let mut i: usize = 0;
    assert(s.take(0).len() == 0);
    while i < v.len()
        invariant
            s == v@,
            !contains_run(s, seq!['&', '#']),
            i <= v.len(),
            run == trailing_digits(s.take(i as int)),
            run <= 15,
            forall|j: int| 0 <= j <= i ==> #[trigger] trailing_digits(s.take(j)) <= 15,
            forall|j: int| 0 <= j < i ==> no_wide_digit(#[trigger] s[j]),
        decreases v.len() - i,
    {
        let c = v[i];
        let n = c as u32;
        if !(n < 0x660 || (0x1C5A <= n && n < 0xA620) || (0xAC00 <= n && n < 0xFF10)
            || (0xFF1A <= n && n < 0x104A0) || (0x1E95A <= n && n < 0x1FBF0) || 0x1FBFA <= n) {
            assert(!no_wide_digit(s[i as int]));
            return false;
        }
        assert(s.take(i + 1).drop_last() =~= s.take(i as int));
        assert(s.take(i + 1).last() == c);
        if '0' <= c && c <= '9' {
            if run == 15 {
                assert(trailing_digits(s.take(i + 1)) == 16);
                return false;
            }
            run = run + 1;
        } else {
            run = 0;
        }
        i = i + 1;
    }
    assert forall|j: int| 0 <= j <= s.len() implies #[trigger] trailing_digits(s.take(j)) <= 15 by {}
    true
}

fn skip_space_exec(text: &Vec<char>, k: usize) -> (res: usize)
    requires
        k <= text.len(),
    ensures
        res == skip_space(text@, k as int),
        k <= res <= text.len(),
{
    let mut j: usize = k;
    while j < text.len() && (text[j] == ' ' || text[j] == '\t' || text[j] == '\r' || text[j] == '\n')
        invariant
            k <= j <= text.len(),
            skip_space(text@, j as int) == skip_space(text@, k as int),
        decreases text.len() - j,
    {
        j = j + 1;
    }
    j
}

fn next_of_exec(text: &Vec<char>, k: usize, c: char) -> (res: usize)
    requires
        k <= text.len(),
    ensures
        res == next_of(text@, k as int, c),
        k <= res <= text.len(),
{
    let mut j: usize = k;
    while j < text.len() && text[j] != c
        invariant
            k <= j <= text.len(),
            next_of(text@, j as int, c) == next_of(text@, k as int, c),
        decreases text.len() - j,
    {
        j = j + 1;
    }
    j
}

/// One past the last `<` before `k`, or 0.
fn after_last_lt(text: &Vec<char>, k: usize) -> (res: usize)
    requires
        k <= text.len(),
    ensures
        res == last_of(text@, k as int, '<') + 1,
        res <= k,
{
    let mut j: usize = k;
    while j > 0 && text[j - 1] != '<'
        invariant
            j <= k <= text.len(),
            last_of(text@, j as int, '<') == last_of(text@, k as int, '<'),
        decreases j,
    {
        j = j - 1;
    }
    j
}

fn attr_value_ok_exec(text: &Vec<char>, i: usize, n: usize) -> (res: bool)
    requires
        i + n <= text.len(),
    ensures
        res == attr_value_ok(text@, i as int, n as int),
{
    let k = skip_space_exec(text, i + n);
    if k < text.len() && text[k] == '=' {
        let m = skip_space_exec(text, k + 1);
        if m < text.len() && (text[m] == '"' || text[m] == '\'') {
            let e = next_of_exec(text, m + 1, text[m]);
            let v = segment(text, m + 1, e);
            return tame_exec(&v);
        }
    }
    true
}

fn duration_ok_exec(text: &Vec<char>, i: usize) -> (res: bool)
    requires
        i + 8 <= text.len(),
    ensures
        res == duration_ok(text@, i as int),
{
    let ghost s = text@;
    let e = next_of_exec(text, i + 8, '<');
    let v = segment(text, i, e);
    if !tame_exec(&v) {
        return false;
    }
    let p = after_last_lt(text, i);
    let mut k: usize = p;
    while k < e
        invariant
            p <= k <= e,
            p == last_of(s, i as int, '<') + 1,
            e == next_of(s, i + 8, '<'),
            tame(s.subrange(i as int, e as int)),
            e <= text.len(),
            forall|j: int| p <= j < k ==> #[trigger] s[j] != '"' && s[j] != '\'',
            s == text@,
        decreases e - k,
    {
        if text[k] == '"' || text[k] == '\'' {
            assert(last_of(s, i as int, '<') < k < e && 0 <= k);
            assert(s[k as int] == '"' || s[k as int] == '\'');
            return false;
        }
        k = k + 1;
    }
    let mut g: usize = i + 8;
    while g < e && text[g] != '>'
        invariant
            i + 8 <= g <= e,
            e <= text.len(),
            forall|j: int| i + 8 <= j < g ==> #[trigger] s[j] != '>',
            s == text@,
        decreases e - g,
    {
        g = g + 1;
    }
    if g == e {
        return false;
    }
    e >= text.len() - 1 || (text[e + 1] != '!' && text[e + 1] != '?')
}

fn contains_chars(text: &Vec<char>, w: &Vec<char>) -> (res: bool)
    ensures
        res == contains_run(text@, w@),
{
    let n: usize = text.len();
    let m: usize = w.len();
    if m > n {
        return false;
    }
    let mut i: usize = 0;
    while i <= n - m
        invariant
            n == text.len(),
            m == w.len(),
            m <= n,
            i <= n - m + 1,
            forall|k: int| 0 <= k < i ==> #[trigger] text@.subrange(k, k + m) != w@,
        decreases n + 1 - i,
    {
        let mut j: usize = 0;
        let mut same = true;
        while j < m
            invariant
                n == text.len(),
                m == w.len(),
                i + m <= n,
                j <= m,
                i <= n - m,
                same == (forall|k: int| 0 <= k < j ==> text@[i + k] == w@[k]),
            decreases m - j,
        {
            if text[i + j] != w[j] {
                same = false;
            }
            j = j + 1;
        }
        if same {
            assert(text@.subrange(i as int, i + m) =~= w@);
            return true;
        }
        proof {
            let k0 = choose|k: int| 0 <= k < m && text@[i + k] != w@[k];
            assert(text@.subrange(i as int, i + m)[k0] != w@[k0]);
        }
        i = i + 1;
    }
    assert forall|k: int| 0 <= k && k + m <= n implies #[trigger] text@.subrange(k, k + m) != w@ by {
        assert(k < i);
    }
    false
}

impl Fetcher {
    /// A fetcher for the given feed addresses.
    pub fn new(rss_urls: Vec<String>) -> (res: Fetcher)
        ensures
            res.rss_urls@ == rss_urls@,
    {
        Fetcher { rss_urls }
    }

    /// Whether a text holds one of the common English words " the ",
    /// " and ", " is ", " in ", " it " or " of ".
    pub fn is_english(text: &String) -> (res: bool)
        ensures
            res == looks_english(text@),
    {
        let chars = chars_of(text.as_str());
        contains_chars(&chars, &vec![' ', 't', 'h', 'e', ' '])
            || contains_chars(&chars, &vec![' ', 'a', 'n', 'd', ' '])
            || contains_chars(&chars, &vec![' ', 'i', 's', ' '])
            || contains_chars(&chars, &vec![' ', 'i', 'n', ' '])
            || contains_chars(&chars, &vec![' ', 'i', 't', ' '])
            || contains_chars(&chars, &vec![' ', 'o', 'f', ' '])
    }

    /// Turns parsed feed entries into events: entries with a title, a
    /// publication time and a link, whose NFC-normalized title is longer than
    /// five bytes and reads as English, in entry order.
    pub fn events_from_entries(entries: &Vec<FeedEntry>) -> (res: Vec<Event>)
        ensures
            events_view(res@) == feed_events(entries_view(entries@)),
    {
        let ghost es = entries_view(entries@);
        let mut res: Vec<Event> = Vec::new();
        let mut k: usize = 0;
        assert(es.take(0) =~= Seq::<(Option<Seq<char>>, Option<i64>, Seq<Seq<char>>)>::empty());
        assert(events_view(res@) =~= Seq::<(Seq<char>, i64, Seq<char>)>::empty());
        while k < entries.len()
            invariant
                k <= entries.len(),
                es == entries_view(entries@),
                events_view(res@) == feed_events(es.take(k as int)),
            decreases entries.len() - k,
        {
            let ghost before = res@;
            let e = &entries[k];
            assert(es.take(k + 1).drop_last() =~= es.take(k as int));
            assert(es.take(k + 1).last() == e@);
            match (&e.title, e.published) {
                (Some(title), Some(published)) => {
                    if e.links.len() > 0 {
                        let headline = nfc(title.as_str());
                        if headline.as_str().as_bytes().len() > 5 && Self::is_english(&headline) {
                            let href = e.links[0].clone();
                            assert(e@.2[0] == href@);
                            res.push(Event { headline, published, href });
                            assert(events_view(res@) =~= events_view(before).push(entry_event(e@)->Some_0));
                        } else {
                            assert(entry_event(e@) is None);
                            assert(events_view(res@) =~= events_view(before));
                        }
                    } else {
                        assert(entry_event(e@) is None);
                    }
                },
                _ => {
                    assert(entry_event(e@) is None);
                },
            }
            k = k + 1;
        }
        assert(es.take(k as int) =~= es);
        res
    }

    /// The events of one fetched feed document: nothing when the document
    /// does not parse, otherwise `events_from_entries` of its entries.
    pub fn extract_events(body: &str) -> (res: Vec<Event>)
        requires
            feed_parse_safe(body@),
        ensures
            events_view(res@) == match spec_parse_feed(body@) {
                Some(es) => feed_events(es),
                None => Seq::<(Seq<char>, i64, Seq<char>)>::empty(),
            },
    {
        match parse_feed(body) {
            Some(entries) => Self::events_from_entries(&entries),
            None => {
                let res: Vec<Event> = Vec::new();
                assert(events_view(res@) =~= Seq::<(Seq<char>, i64, Seq<char>)>::empty());
                res
            },
        }
    }

    /// Whether feed-rs can be trusted not to panic on a document
    /// (`feed_parse_safe`).
    pub fn feed_is_safe(body: &str) -> (res: bool)
        ensures
            res == feed_parse_safe(body@),
    {
        let chars = chars_of(body);
        let mut n: usize = 0;
        while n < chars.len()
            invariant
                n <= chars.len(),
                chars@ == body@,
                forall|k: int| 0 <= k < n ==> #[trigger] chars@[k] != '\0',
            decreases chars.len() - n,
        {
            if chars[n] == '\0' {
                assert(body@[n as int] == '\0');
                return false;
            }
            n = n + 1;
        }
        if !declares_only_utf8_exec(&chars) {
            return false;
        }
        let media = contains_chars(&chars, &chars_of("http://search.yahoo.com/mrss/"))
            || contains_chars(&chars, &chars_of("http://www.itunes.com/dtds/podcast-1.0.dtd"));
        if !media {
            return true;
        }
        let ghost s = chars@;
        assert(declares_timed_media(s));
        let start_w = chars_of("start");
        let end_w = chars_of("end");
        let time_w = chars_of("time");
        let duration_w = chars_of("duration");
        proof {
            reveal_strlit("start");
            reveal_strlit("end");
            reveal_strlit("time");
            reveal_strlit("duration");
        }
        let mut i: usize = 0;
        while i < chars.len()
            invariant
                s == chars@,
                s == body@,
                declares_timed_media(s),
                forall|k: int| 0 <= k < s.len() ==> #[trigger] s[k] != '\0',
                declares_only_utf8(s),
                i <= chars.len(),
                start_w@ == "start"@,
                end_w@ == "end"@,
                time_w@ == "time"@,
                duration_w@ == "duration"@,
                start_w@.len() == 5,
                end_w@.len() == 3,
                time_w@.len() == 4,
                duration_w@.len() == 8,
                forall|k: int| 0 <= k < i && #[trigger] occurs_at(s, k, "start"@) ==> attr_value_ok(s, k, 5),
                forall|k: int| 0 <= k < i && #[trigger] occurs_at(s, k, "end"@) ==> attr_value_ok(s, k, 3),
                forall|k: int| 0 <= k < i && #[trigger] occurs_at(s, k, "time"@) ==> attr_value_ok(s, k, 4),
                forall|k: int| 0 <= k < i && #[trigger] occurs_at(s, k, "duration"@) && 1 <= k && (s[k - 1] == '<' || s[k - 1] == ':') ==> duration_ok(s, k),
            decreases chars.len() - i,
        {
            if occurs_at_exec(&chars, i, &start_w) && !attr_value_ok_exec(&chars, i, 5) {
                return false;
            }
            if occurs_at_exec(&chars, i, &end_w) && !attr_value_ok_exec(&chars, i, 3) {
                return false;
            }
            if occurs_at_exec(&chars, i, &time_w) && !attr_value_ok_exec(&chars, i, 4) {
                return false;
            }
            if i >= 1 && (chars[i - 1] == '<' || chars[i - 1] == ':') && occurs_at_exec(&chars, i, &duration_w)
                && !duration_ok_exec(&chars, i) {
                return false;
            }
            i = i + 1;
        }
        assert forall|k: int| #[trigger] occurs_at(s, k, "start"@) implies attr_value_ok(s, k, 5) by {
            assert(k < i);
        }
        assert forall|k: int| #[trigger] occurs_at(s, k, "end"@) implies attr_value_ok(s, k, 3) by {
            assert(k < i);
        }
        assert forall|k: int| #[trigger] occurs_at(s, k, "time"@) implies attr_value_ok(s, k, 4) by {
            assert(k < i);
        }
        assert forall|k: int| #[trigger] occurs_at(s, k, "duration"@) && 1 <= k && (s[k - 1] == '<' || s[k - 1] == ':') implies duration_ok(s, k) by {
            assert(k < i);
        }
        true
    }

    /// The events of one fetched feed document, or `None` when feed-rs cannot
    /// be trusted not to panic on it. The test is `feed_parse_safe`; it looks
    /// only at XML declarations and, in documents that declare a media
    /// namespace, at the values that reach feed-rs's time parser, and refuses
    /// a few shapes there that feed-rs would read (a duration text that runs
    /// across a comment, quoted attributes on a duration tag).
    pub fn try_extract_events(body: &str) -> (res: Option<Vec<Event>>)
        ensures
            res is Some <==> feed_parse_safe(body@),
            res matches Some(v) ==> events_view(v@) == match spec_parse_feed(body@) {
                Some(es) => feed_events(es),
                None => Seq::<(Seq<char>, i64, Seq<char>)>::empty(),
            },
    {
        if Self::feed_is_safe(body) {
            Some(Self::extract_events(body))
        } else {
            None
        }
    }

    /// Gathers the events of all feeds in feed order; `None` stands for a
    /// feed whose fetch task failed and contributes nothing.
    pub fn merge_results(results: Vec<Option<Vec<Event>>>) -> (res: Vec<Event>)
        ensures
            events_view(res@) == merged_events(Seq::new(results@.len(), |i: int| match results@[i] {
                Some(v) => Some(events_view(v@)),
                None => None,
            })),
    {
        let ghost rs = Seq::new(results@.len(), |i: int| match results@[i] {
            Some(v) => Some(events_view(v@)),
            None => None::<Seq<(Seq<char>, i64, Seq<char>)>>,
        });
        let mut events: Vec<Event> = Vec::new();
        let mut k: usize = 0;
        assert(rs.take(0) =~= Seq::<Option<Seq<(Seq<char>, i64, Seq<char>)>>>::empty());
        assert(events_view(events@) =~= Seq::<(Seq<char>, i64, Seq<char>)>::empty());
        while k < results.len()
            invariant
                k <= results.len(),
                rs.len() == results@.len(),
                forall|i: int| 0 <= i < results@.len() ==> #[trigger] rs[i] == match results@[i] {
                    Some(v) => Some(events_view(v@)),
                    None => None::<Seq<(Seq<char>, i64, Seq<char>)>>,
                },
                events_view(events@) == merged_events(rs.take(k as int)),
            decreases results.len() - k,
        {
            assert(rs.take(k + 1).drop_last() =~= rs.take(k as int));
            assert(rs.take(k + 1).last() == rs[k as int]);
            match &results[k] {
                Some(feed) => {
                    let ghost start = events@;
                    let mut j: usize = 0;
                    while j < feed.len()
                        invariant
                            j <= feed.len(),
                            events_view(events@) == events_view(start) + events_view(feed@).take(j as int),
                        decreases feed.len() - j,
                    {
                        let ghost before = events@;
                        events.push(copy_event(&feed[j]));
                        assert(events_view(events@) =~= events_view(before).push(feed@[j as int]@));
                        assert(events_view(feed@).take(j + 1) =~= events_view(feed@).take(j as int).push(feed@[j as int]@));
                        j = j + 1;
                    }
                    assert(events_view(feed@).take(j as int) =~= events_view(feed@));
                },
                None => {},
            }
            k = k + 1;
        }
        assert(rs.take(k as int) =~= rs);
        events
    }
}

/// Every event drawn from feed entries has a headline that passes
/// `keeps_headline` and a publication time and link taken from one of the
/// entries.
pub proof fn lemma_feed_events_kept(es: Seq<(Option<Seq<char>>, Option<i64>, Seq<Seq<char>>)>)
    ensures
        forall|k: int| 0 <= k < feed_events(es).len() ==> keeps_headline(#[trigger] feed_events(es)[k].0),
        feed_events(es).len() <= es.len(),
    decreases es.len(),
{
    if es.len() > 0 {
        lemma_feed_events_kept(es.drop_last());
        let before = feed_events(es.drop_last());
        assert forall|k: int| 0 <= k < feed_events(es).len() implies keeps_headline(#[trigger] feed_events(es)[k].0) by {
            if k < before.len() {
                assert(feed_events(es)[k] == before[k]);
            }
        }
    }
}

/// A text reads as English exactly when it holds, at some position, one of
/// " the ", " and ", " is ", " in ", " it " or " of ".
pub proof fn lemma_english_markers(t: Seq<char>, i: int)
    ensures
        0 <= i && i + 5 <= t.len() && t.subrange(i, i + 5) == seq![' ', 't', 'h', 'e', ' '] ==> looks_english(t),
        0 <= i && i + 5 <= t.len() && t.subrange(i, i + 5) == seq![' ', 'a', 'n', 'd', ' '] ==> looks_english(t),
        0 <= i && i + 4 <= t.len() && t.subrange(i, i + 4) == seq![' ', 'i', 's', ' '] ==> looks_english(t),
        0 <= i && i + 4 <= t.len() && t.subrange(i, i + 4) == seq![' ', 'i', 'n', ' '] ==> looks_english(t),
        0 <= i && i + 4 <= t.len() && t.subrange(i, i + 4) == seq![' ', 'i', 't', ' '] ==> looks_english(t),
        0 <= i && i + 4 <= t.len() && t.subrange(i, i + 4) == seq![' ', 'o', 'f', ' '] ==> looks_english(t),
        looks_english(t) ==> exists|k: int, n: int| 0 <= k && k + n <= t.len() && {
            let w = #[trigger] t.subrange(k, k + n);
            ||| w == seq![' ', 't', 'h', 'e', ' ']
            ||| w == seq![' ', 'a', 'n', 'd', ' ']
            ||| w == seq![' ', 'i', 's', ' ']
            ||| w == seq![' ', 'i', 'n', ' ']
            ||| w == seq![' ', 'i', 't', ' ']
            ||| w == seq![' ', 'o', 'f', ' ']
        },
{
    if 0 <= i && i + 5 <= t.len() {
        let w5 = t.subrange(i, i + 5);
        assert(w5.len() == 5);
    }
    if 0 <= i && i + 4 <= t.len() {
        let w4 = t.subrange(i, i + 4);
        assert(w4.len() == 4);
    }
}

/// Merging is concatenation in feed order: merging two lists of results one
/// after the other gives the merge of the first followed by the merge of the
/// second.
pub proof fn lemma_merged_events_append(
    a: Seq<Option<Seq<(Seq<char>, i64, Seq<char>)>>>,
    b: Seq<Option<Seq<(Seq<char>, i64, Seq<char>)>>>,
)
    ensures
        merged_events(a + b) == merged_events(a) + merged_events(b),
    decreases b.len(),
{
    if b.len() == 0 {
        assert(a + b =~= a);
        assert(merged_events(b) =~= Seq::<(Seq<char>, i64, Seq<char>)>::empty());
        assert(merged_events(a) + merged_events(b) =~= merged_events(a));
    } else {
        lemma_merged_events_append(a, b.drop_last());
        assert((a + b).drop_last() =~= a + b.drop_last());
        assert((a + b).last() == b.last());
        match b.last() {
            Some(evs) => {
                assert(merged_events(a + b) =~= merged_events(a) + merged_events(b.drop_last()) + evs);
            },
            None => {},
        }
    }
}

/// A single fetched feed merges to exactly its events, all of them; a failed
/// feed contributes nothing.
pub proof fn lemma_merged_events_single(v: Seq<(Seq<char>, i64, Seq<char>)>)
    ensures
        merged_events(seq![Some(v)]) == v,
        merged_events(seq![None::<Seq<(Seq<char>, i64, Seq<char>)>>]) == Seq::<(Seq<char>, i64, Seq<char>)>::empty(),
{
    let one = seq![Some(v)];
    assert(one.drop_last() =~= Seq::<Option<Seq<(Seq<char>, i64, Seq<char>)>>>::empty());
    assert(merged_events(Seq::<Option<Seq<(Seq<char>, i64, Seq<char>)>>>::empty()) == Seq::<(Seq<char>, i64, Seq<char>)>::empty());
    assert(one.last() == Some(v));
    assert(merged_events(one) == merged_events(one.drop_last()) + v);
    assert(merged_events(one) =~= v);
    let none = seq![None::<Seq<(Seq<char>, i64, Seq<char>)>>];
    assert(none.drop_last() =~= Seq::<Option<Seq<(Seq<char>, i64, Seq<char>)>>>::empty());
}

} // verus!
