use vstd::prelude::*;
use vstd::hash_map::StringHashMap;
use crate::text::{chars_of, push_char, strings_view};

verus! {

/// The vocabulary key looked up for a piece of a word: pieces that continue
/// a word are prefixed with `##`.
pub open spec fn piece_key(continuing: bool, piece: Seq<char>) -> Seq<char> {
    if continuing {
        seq!['#', '#'] + piece
    } else {
        piece
    }
}

/// Length of the longest prefix of `word`, at most `i` characters long, whose
/// key is in the vocabulary.
pub open spec fn longest_piece(word: Seq<char>, i: nat, continuing: bool, vocab: Map<Seq<char>, i32>) -> Option<nat>
    decreases i,
{
    if vocab.contains_key(piece_key(continuing, word.take(i as int))) {
        Some(i)
    } else if i == 0 {
        None
    } else {
        longest_piece(word, (i - 1) as nat, continuing, vocab)
    }
}

/// Greedy longest-match-first split of a word into vocabulary pieces; `None`
/// when some remainder of the word starts with no known piece (an empty
/// continuation piece never advances, so it counts as no match).
pub open spec fn tokenize_word(word: Seq<char>, continuing: bool, vocab: Map<Seq<char>, i32>) -> Option<Seq<i32>>
    decreases word.len(), if continuing { 0int } else { 1int },
{
    if word.len() == 0 {
        Some(seq![])
    } else {
        match longest_piece(word, word.len(), continuing, vocab) {
            None => None,
            Some(j) => {
                if j > word.len() || (j == 0 && continuing) {
                    None
                } else {
                    match tokenize_word(word.skip(j as int), true, vocab) {
                        Some(rest) => Some(seq![vocab[piece_key(continuing, word.take(j as int))]] + rest),
                        None => None,
                    }
                }
            },
        }
    }
}

/// Tokens of a sequence of words, or `None` when some word cannot be split.
pub open spec fn tokenize_words(words: Seq<Seq<char>>, vocab: Map<Seq<char>, i32>) -> Option<Seq<i32>>
    decreases words.len(),
{
    if words.len() == 0 {
        Some(seq![])
    } else {
        match (tokenize_words(words.drop_last(), vocab), tokenize_word(words.last(), false, vocab)) {
            (Some(a), Some(b)) => Some(a + b),
            _ => None,
        }
    }
}

/// The greedy split of a word comes to an end: it never reaches a remainder
/// for which the only continuation piece found is the empty one (a bare
/// `##` entry), which would be taken again and again without progress.
pub open spec fn greedy_split_ends(word: Seq<char>, continuing: bool, vocab: Map<Seq<char>, i32>) -> bool
    decreases word.len(), if continuing { 0int } else { 1int },
{
    if word.len() == 0 {
        true
    } else {
        match longest_piece(word, word.len(), continuing, vocab) {
            None => true,
            Some(j) => {
                if j > word.len() {
                    true
                } else if j == 0 && continuing {
                    false
                } else {
                    greedy_split_ends(word.skip(j as int), true, vocab)
                }
            },
        }
    }
}

/// Tokenizing words in order, every word that is reached (all words before
/// it split) has a greedy split that comes to an end.
pub open spec fn words_split_end(words: Seq<Seq<char>>, vocab: Map<Seq<char>, i32>) -> bool {
    forall|i: int| 0 <= i < words.len()
        && (forall|k: int| 0 <= k < i ==> #[trigger] tokenize_word(words[k], false, vocab) is Some)
        ==> #[trigger] greedy_split_ends(words[i], false, vocab)
}

proof fn lemma_longest_piece_from(word: Seq<char>, i: nat, top: nat, continuing: bool, vocab: Map<Seq<char>, i32>)
    requires
        i <= top,
        forall|j: nat| i < j <= top ==> !vocab.contains_key(#[trigger] piece_key(continuing, word.take(j as int))),
    ensures
        longest_piece(word, top, continuing, vocab) == longest_piece(word, i, continuing, vocab),
    decreases top - i,
{
    if i < top {
        assert(!vocab.contains_key(piece_key(continuing, word.take(top as int))));
        lemma_longest_piece_from(word, i, (top - 1) as nat, continuing, vocab);
    }
}

spec fn append_tokens(done: Seq<i32>, rest: Option<Seq<i32>>) -> Option<Seq<i32>> {
    match rest {
        Some(r) => Some(done + r),
        None => None,
    }
}

fn piece_string(chars: &Vec<char>, start: usize, len: usize, continuing: bool) -> (res: String)
    requires
        start + len <= chars.len(),
    ensures
        res@ == piece_key(continuing, chars@.subrange(start as int, start + len)),
{
    let mut res = String::new();
    if continuing {
        push_char(&mut res, '#');
        push_char(&mut res, '#');
    }
    let ghost prefix = res@;
    let mut k: usize = 0;
    while k < len
        invariant
            start + len <= chars.len(),
            k <= len,
            prefix == (if continuing { seq!['#', '#'] } else { Seq::<char>::empty() }),
            res@ == prefix + chars@.subrange(start as int, start + k),
        decreases len - k,
    {
        push_char(&mut res, chars[start + k]);
        assert(chars@.subrange(start as int, start + k + 1) =~= chars@.subrange(start as int, start + k).push(chars@[start + k]));
        k = k + 1;
    }
    assert(piece_key(continuing, chars@.subrange(start as int, start + len)) =~= prefix + chars@.subrange(start as int, start + len));
    res
}

/// How the greedy split of a word turns out.
enum SplitOutcome {
    Tokens(Vec<i32>),
    NoPiece,
    Endless,
}

fn split_word(word: &String, vocab: &StringHashMap<i32>) -> (res: SplitOutcome)
    ensures
        match res {
            SplitOutcome::Tokens(t) => greedy_split_ends(word@, false, vocab@)
                && tokenize_word(word@, false, vocab@) == Some(t@),
            SplitOutcome::NoPiece => greedy_split_ends(word@, false, vocab@)
                && tokenize_word(word@, false, vocab@) is None,
            SplitOutcome::Endless => !greedy_split_ends(word@, false, vocab@),
        },
{
    let chars = chars_of(word.as_str());
    let ghost w = chars@;
    assert(w == word@);
    let n: usize = chars.len();
    let mut tokens: Vec<i32> = Vec::new();
    let mut pos: usize = 0;
    let mut i: usize = n;
    let mut continuing = false;
    assert(w.skip(0) =~= w);
    assert(append_tokens(tokens@, tokenize_word(w, false, vocab@)) =~= tokenize_word(w, false, vocab@));
    while pos < n
        invariant
            n == chars.len(),
            w == chars@,
            w == word@,
            pos <= n,
            i <= n - pos,
            forall|j: nat| i < j <= n - pos ==> !vocab@.contains_key(#[trigger] piece_key(continuing, w.skip(pos as int).take(j as int))),
            tokenize_word(w, false, vocab@) == append_tokens(tokens@, tokenize_word(w.skip(pos as int), continuing, vocab@)),
            greedy_split_ends(w, false, vocab@) == greedy_split_ends(w.skip(pos as int), continuing, vocab@),
        decreases n - pos, if continuing { 0int } else { 1int }, i,
    {
        let ghost rem = w.skip(pos as int);
        let target = piece_string(&chars, pos, i, continuing);
        assert(rem.take(i as int) =~= w.subrange(pos as int, pos + i));
        match vocab.get(target.as_str()) {
            Some(id) => {
                proof {
                    lemma_longest_piece_from(rem, i as nat, rem.len(), continuing, vocab@);
                }
                if i == 0 && continuing {
                    return SplitOutcome::Endless;
                }
                proof {
                    assert(rem.skip(i as int) =~= w.skip(pos + i));
                    assert(tokens@.push(*id) + tokenize_word(rem.skip(i as int), true, vocab@)->Some_0
                        =~= tokens@ + (seq![*id] + tokenize_word(rem.skip(i as int), true, vocab@)->Some_0));
                }
                tokens.push(*id);
                pos = pos + i;
                i = n - pos;
                continuing = true;
            },
            None => {
                if i == 0 {
                    proof {
                        lemma_longest_piece_from(rem, 0, rem.len(), continuing, vocab@);
                        assert(longest_piece(rem, 0, continuing, vocab@) is None);
                        assert(tokenize_word(rem, continuing, vocab@) is None);
                        assert(tokenize_word(w, false, vocab@) is None);
                    }
                    return SplitOutcome::NoPiece;
                }
                i = i - 1;
            },
        }
    }
    assert(w.skip(pos as int).len() == 0);
    assert(tokens@ + Seq::<i32>::empty() =~= tokens@);
    SplitOutcome::Tokens(tokens)
}

/// Splits a word into vocabulary tokens, greedily taking the longest known
/// piece first; pieces after the first are looked up with a `##` prefix.
/// Fails when some remainder of the word starts with no known piece. The
/// split must come to an end (`greedy_split_ends`).
pub fn word2tok(word: String, vocab: &StringHashMap<i32>) -> (res: Result<Vec<i32>, ()>)
    requires
        greedy_split_ends(word@, false, vocab@),
    ensures
        res is Ok <==> tokenize_word(word@, false, vocab@) is Some,
        res matches Ok(t) ==> tokenize_word(word@, false, vocab@) == Some(t@),
{
    match split_word(&word, vocab) {
        SplitOutcome::Tokens(t) => Ok(t),
        SplitOutcome::NoPiece => Err(()),
        SplitOutcome::Endless => {
            proof {
                assert(false);
            }
            Err(())
        },
    }
}

/// Whether tokenizing the words in order reaches only words whose greedy
/// split comes to an end (`words_split_end`).
pub fn words_split_end_check(words: &Vec<String>, vocab: &StringHashMap<i32>) -> (res: bool)
    ensures
        res == words_split_end(strings_view(words@), vocab@),
{
    let ghost ws = strings_view(words@);
    let mut k: usize = 0;
    while k < words.len()
        invariant
            k <= words.len(),
            ws == strings_view(words@),
            forall|a: int| #![trigger ws[a]] 0 <= a < k ==> tokenize_word(ws[a], false, vocab@) is Some
                && greedy_split_ends(ws[a], false, vocab@),
        decreases words.len() - k,
    {
        assert(ws[k as int] == words@[k as int]@);
        let outcome = split_word(&words[k], vocab);
        match outcome {
            SplitOutcome::Tokens(_) => {},
            SplitOutcome::NoPiece => {
                assert(greedy_split_ends(ws[k as int], false, vocab@));
                assert(tokenize_word(ws[k as int], false, vocab@) is None);
                assert forall|i: int| 0 <= i < ws.len()
                    && (forall|b: int| 0 <= b < i ==> #[trigger] tokenize_word(ws[b], false, vocab@) is Some)
                    implies #[trigger] greedy_split_ends(ws[i], false, vocab@) by {
                    if i > k {
                        assert(tokenize_word(ws[k as int], false, vocab@) is Some);
                    } else if i < k {
                        assert(greedy_split_ends(ws[i], false, vocab@));
                    }
                }
                return true;
            },
            SplitOutcome::Endless => {
                assert(forall|b: int| 0 <= b < k ==> #[trigger] tokenize_word(ws[b], false, vocab@) is Some);
                assert(!greedy_split_ends(ws[k as int], false, vocab@));
                return false;
            },
        }
        k = k + 1;
    }
    assert forall|i: int| 0 <= i < ws.len()
        && (forall|b: int| 0 <= b < i ==> #[trigger] tokenize_word(ws[b], false, vocab@) is Some)
        implies #[trigger] greedy_split_ends(ws[i], false, vocab@) by {
        assert(greedy_split_ends(ws[i], false, vocab@));
    }
    true
}

/// What `str::to_lowercase` returns for a string: its Unicode lowercase form.
pub uninterp spec fn spec_to_lowercase(s: Seq<char>) -> Seq<char>;

/// What the `regex` crate yields for a pattern and a text: `None` when
/// `Regex::new` rejects the pattern, otherwise the successive
/// non-overlapping matches of `Regex::find_iter`, as strings.
pub uninterp spec fn spec_regex_find_all(pattern: Seq<char>, text: Seq<char>) -> Option<Seq<Seq<char>>>;

/// Calls `str::to_lowercase` (std); its result is only named here.
#[verifier::external_body]
fn to_lowercase(s: &str) -> (res: String)
    ensures
        res@ == spec_to_lowercase(s@),
{
    s.to_lowercase()
}

/// Compiles `pattern` with `regex::Regex::new` and collects the matches of
/// `Regex::find_iter` on `text`; the result is only named here.
#[verifier::external_body]
fn regex_find_all(pattern: &str, text: &str) -> (res: Option<Vec<String>>)
    ensures
        spec_regex_find_all(pattern@, text@) == match res {
            Some(v) => Some(strings_view(v@)),
            None => None::<Seq<Seq<char>>>,
        },
{
    match regex::Regex::new(pattern) {
        Ok(re) => Some(re.find_iter(text).map(|m| m.as_str().to_string()).collect()),
        Err(_) => None,
    }
}

/// The pattern that splits a sentence into words and punctuation marks.
pub open spec fn word_pattern() -> Seq<char> {
    "[\\w'-]+|[.,!?;]"@
}

/// The words of a sentence are the matches of the regular expression
/// `[\w'-]+|[.,!?;]`: maximal runs of word characters (any Unicode letter or
/// digit, or `_`), apostrophes and hyphens, and the single marks `.`, `,`,
/// `!`, `?` and `;`. Spelled out character by character.
pub proof fn lemma_word_pattern_spelled()
    ensures
        word_pattern() == seq!['[', '\\', 'w', '\'', '-', ']', '+', '|', '[', '.', ',', '!', '?', ';', ']'],
{
    reveal_strlit("[\\w'-]+|[.,!?;]");
    assert(word_pattern() =~= seq!['[', '\\', 'w', '\'', '-', ']', '+', '|', '[', '.', ',', '!', '?', ';', ']']);
}

/// Tokenizes each word in turn and concatenates the tokens; fails when some
/// word cannot be split into vocabulary pieces.
pub fn words2tok(words: &Vec<String>, vocab: &StringHashMap<i32>) -> (res: Result<Vec<i32>, ()>)
    requires
        words_split_end(strings_view(words@), vocab@),
    ensures
        res is Ok <==> tokenize_words(strings_view(words@), vocab@) is Some,
        res matches Ok(t) ==> tokenize_words(strings_view(words@), vocab@) == Some(t@),
{
    let ghost ws = strings_view(words@);
    let mut all: Vec<i32> = Vec::new();
    let mut k: usize = 0;
    assert(ws.take(0) =~= Seq::<Seq<char>>::empty());
    while k < words.len()
        invariant
            k <= words.len(),
            ws == strings_view(words@),
            words_split_end(ws, vocab@),
            forall|a: int| 0 <= a < k ==> #[trigger] tokenize_word(ws[a], false, vocab@) is Some,
            tokenize_words(ws.take(k as int), vocab@) == Some(all@),
        decreases words.len() - k,
    {
        let word = words[k].clone();
        assert(ws.take(k + 1).drop_last() =~= ws.take(k as int));
        assert(ws.take(k + 1).last() == word@);
        assert(greedy_split_ends(ws[k as int], false, vocab@));
        match word2tok(word, vocab) {
            Ok(t) => {
                let ghost before = all@;
                let mut t = t;
                all.append(&mut t);
                assert(all@ =~= before + tokenize_word(ws[k as int], false, vocab@)->Some_0);
            },
            Err(_) => {
                proof {
                    lemma_tokenize_words_failure(ws, k as nat, vocab@);
                }
                return Err(());
            },
        }
        k = k + 1;
    }
    assert(ws.take(k as int) =~= ws);
    Ok(all)
}

proof fn lemma_tokenize_words_failure(ws: Seq<Seq<char>>, k: nat, vocab: Map<Seq<char>, i32>)
    requires
        k < ws.len(),
        tokenize_words(ws.take(k as int + 1), vocab) is None,
    ensures
        tokenize_words(ws, vocab) is None,
    decreases ws.len() - k,
{
    if k + 1 < ws.len() {
        assert(ws.take(k as int + 2).drop_last() =~= ws.take(k as int + 1));
        lemma_tokenize_words_failure(ws, k + 1, vocab);
    } else {
        assert(ws.take(k as int + 1) =~= ws);
    }
}

/// Lowercases a sentence, splits it into words and punctuation marks, and
/// tokenizes every piece.
pub fn setencen2tok(sentence: &str, vocab: &StringHashMap<i32>) -> (res: Result<Vec<i32>, ()>)
    requires
        match spec_regex_find_all(word_pattern(), spec_to_lowercase(sentence@)) {
            Some(words) => words_split_end(words, vocab@),
            None => true,
        },
    ensures
        match spec_regex_find_all(word_pattern(), spec_to_lowercase(sentence@)) {
            Some(words) => {
                &&& (res is Ok <==> tokenize_words(words, vocab@) is Some)
                &&& (res matches Ok(t) ==> tokenize_words(words, vocab@) == Some(t@))
            },
            None => res is Err,
        },
{
    let lower = to_lowercase(sentence);
    match regex_find_all("[\\w'-]+|[.,!?;]", lower.as_str()) {
        Some(words) => words2tok(&words, vocab),
        None => Err(()),
    }
}

/// A word that is itself in the vocabulary becomes the single token of that
/// entry: the whole word is the longest piece.
pub proof fn lemma_known_word_single_token(word: Seq<char>, vocab: Map<Seq<char>, i32>)
    requires
        word.len() > 0,
        vocab.contains_key(word),
    ensures
        tokenize_word(word, false, vocab) == Some(seq![vocab[word]]),
{
    assert(word.take(word.len() as int) =~= word);
    assert(piece_key(false, word.take(word.len() as int)) == word);
    assert(longest_piece(word, word.len(), false, vocab) == Some(word.len()));
    assert(word.skip(word.len() as int).len() == 0);
    assert(tokenize_word(word.skip(word.len() as int), true, vocab) == Some(Seq::<i32>::empty()));
    assert(seq![vocab[word]] + Seq::<i32>::empty() =~= seq![vocab[word]]);
}

/// Every token produced for a word is the id of some vocabulary entry.
pub proof fn lemma_tokens_are_vocab_ids(word: Seq<char>, continuing: bool, vocab: Map<Seq<char>, i32>)
    requires
        tokenize_word(word, continuing, vocab) is Some,
    ensures
        forall|k: int| 0 <= k < tokenize_word(word, continuing, vocab)->Some_0.len() ==>
            exists|key: Seq<char>| vocab.contains_key(key) && vocab[key] == #[trigger] tokenize_word(word, continuing, vocab)->Some_0[k],
    decreases word.len(), if continuing { 0int } else { 1int },
{
    if word.len() > 0 {
        let j: nat = longest_piece(word, word.len(), continuing, vocab)->Some_0;
        lemma_longest_piece_found(word, word.len(), continuing, vocab);
        let key = piece_key(continuing, word.take(j as int));
        lemma_tokens_are_vocab_ids(word.skip(j as int), true, vocab);
        let t = tokenize_word(word, continuing, vocab)->Some_0;
        let rest = tokenize_word(word.skip(j as int), true, vocab)->Some_0;
        assert forall|k: int| 0 <= k < t.len() implies
            exists|key: Seq<char>| vocab.contains_key(key) && vocab[key] == #[trigger] t[k] by {
            if k == 0 {
                assert(vocab.contains_key(key) && vocab[key] == t[0]);
            } else {
                assert(t[k] == rest[k - 1]);
            }
        }
    }
}

proof fn lemma_longest_piece_found(word: Seq<char>, i: nat, continuing: bool, vocab: Map<Seq<char>, i32>)
    requires
        longest_piece(word, i, continuing, vocab) is Some,
    ensures
        longest_piece(word, i, continuing, vocab)->Some_0 <= i,
        vocab.contains_key(piece_key(continuing, word.take(longest_piece(word, i, continuing, vocab)->Some_0 as int))),
    decreases i,
{
    if !vocab.contains_key(piece_key(continuing, word.take(i as int))) && i > 0 {
        lemma_longest_piece_found(word, (i - 1) as nat, continuing, vocab);
    }
}

/// Like `setencen2tok`, but first checks that every word the tokenization
/// reaches has a greedy split that comes to an end; `None` when one does not.
pub fn checked_setencen2tok(sentence: &str, vocab: &StringHashMap<i32>) -> (res: Option<Result<Vec<i32>, ()>>)
    ensures
        res is None <==> match spec_regex_find_all(word_pattern(), spec_to_lowercase(sentence@)) {
            Some(words) => !words_split_end(words, vocab@),
            None => false,
        },
        res matches Some(r) ==> match spec_regex_find_all(word_pattern(), spec_to_lowercase(sentence@)) {
            Some(words) => {
                &&& (r is Ok <==> tokenize_words(words, vocab@) is Some)
                &&& (r matches Ok(t) ==> tokenize_words(words, vocab@) == Some(t@))
            },
            None => r is Err,
        },
{
    let lower = to_lowercase(sentence);
    match regex_find_all("[\\w'-]+|[.,!?;]", lower.as_str()) {
        Some(words) => {
            if words_split_end_check(&words, vocab) {
                Some(setencen2tok(sentence, vocab))
            } else {
                None
            }
        },
        None => Some(setencen2tok(sentence, vocab)),
    }
}

} // verus!
