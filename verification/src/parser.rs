//! Splitting message text into hashtags and plain words.

use vstd::prelude::*;

verus! {

/// A word of a message: a hashtag, held without its `#`, or any other word.
#[derive(Debug, Clone, PartialEq, Eq)]
pub enum MessageTokens {
    Hashtag(String),
    Text(String),
}

/// The mathematical value of a token: its kind and its characters.
pub ghost enum Token {
    Hashtag(Seq<char>),
    Text(Seq<char>),
}

impl View for MessageTokens {
    type V = Token;

    open spec fn view(&self) -> Token {
        match self {
            MessageTokens::Hashtag(text) => Token::Hashtag(text@),
            MessageTokens::Text(text) => Token::Text(text@),
        }
    }
}

impl DeepView for MessageTokens {
    type V = Token;

    open spec fn deep_view(&self) -> Token {
        self@
    }
}

/// The characters that separate words: those with the Unicode property
/// `White_Space`.
pub open spec fn is_space(c: char) -> bool {
    ||| '\u{9}' <= c <= '\u{d}'
    ||| c == ' '
    ||| c == '\u{85}'
    ||| c == '\u{a0}'
    ||| c == '\u{1680}'
    ||| '\u{2000}' <= c <= '\u{200a}'
    ||| c == '\u{2028}'
    ||| c == '\u{2029}'
    ||| c == '\u{202f}'
    ||| c == '\u{205f}'
    ||| c == '\u{3000}'
}

/// The first position at or after `from` that holds a separator, or the
/// length of `s` if there is none.
pub open spec fn word_end(s: Seq<char>, from: int) -> int
    decreases s.len() - from,
{
    if 0 <= from < s.len() && !is_space(s[from]) {
        word_end(s, from + 1)
    } else {
        from
    }
}

/// The words of `s` that begin at or after `from`, in order: the maximal runs
/// of characters that are not separators.
pub open spec fn words_from(s: Seq<char>, from: int) -> Seq<Seq<char>>
    decreases s.len() - from,
    via words_from_decreases
{
    if 0 <= from < s.len() {
        if is_space(s[from]) {
            words_from(s, from + 1)
        } else {
            seq![s.subrange(from, word_end(s, from))] + words_from(s, word_end(s, from))
        }
    } else {
        Seq::empty()
    }
}

#[via_fn]
proof fn words_from_decreases(s: Seq<char>, from: int) {
    if 0 <= from < s.len() && !is_space(s[from]) {
        lemma_word_end_bounds(s, from);
    }
}

/// The words of `s`, in order.
pub open spec fn words(s: Seq<char>) -> Seq<Seq<char>> {
    words_from(s, 0)
}

/// The token that a word stands for: a word that begins with `#` is a hashtag
/// of the characters after that first `#`, any other word is text as it is.
pub open spec fn token_of(word: Seq<char>) -> Token {
    if word.len() > 0 && word[0] == '#' {
        Token::Hashtag(word.drop_first())
    } else {
        Token::Text(word)
    }
}

/// The tokens of a text: one for each of its words, in order.
pub open spec fn tokens_of(s: Seq<char>) -> Seq<Token> {
    words(s).map_values(|word: Seq<char>| token_of(word))
}

/// A word ends after it begins, within the text, at a separator or at the end
/// of the text, and holds no separator.
pub proof fn lemma_word_end_bounds(s: Seq<char>, from: int)
    requires
        0 <= from <= s.len(),
    ensures
        from <= word_end(s, from) <= s.len(),
        from < s.len() && !is_space(s[from]) ==> from < word_end(s, from),
        word_end(s, from) < s.len() ==> is_space(s[word_end(s, from)]),
        forall|i: int| from <= i < word_end(s, from) ==> !is_space(#[trigger] s[i]),
    decreases s.len() - from,
{
    if from < s.len() && !is_space(s[from]) {
        lemma_word_end_bounds(s, from + 1);
    }
}

/// Whether `word` can be a word: it holds at least one character and no
/// separator.
pub open spec fn is_word(word: Seq<char>) -> bool {
    word.len() > 0 && forall|i: int| 0 <= i < word.len() ==> !is_space(#[trigger] word[i])
}

/// Every word of a text holds at least one character and no separator.
pub proof fn lemma_words_from(s: Seq<char>, from: int)
    requires
        0 <= from <= s.len(),
    ensures
        forall|k: int|
            0 <= k < words_from(s, from).len() ==> is_word(#[trigger] words_from(s, from)[k]),
    decreases s.len() - from,
{
    if from < s.len() {
        lemma_word_end_bounds(s, from);
        if is_space(s[from]) {
            lemma_words_from(s, from + 1);
            assert(words_from(s, from) == words_from(s, from + 1));
        } else {
            let end = word_end(s, from);
            let word = s.subrange(from, end);
            lemma_words_from(s, end);
            let rest = words_from(s, end);
            let all = words_from(s, from);
            assert(all == seq![word] + rest);
            assert(is_word(word)) by {
                assert forall|i: int| 0 <= i < word.len() implies !is_space(#[trigger] word[i]) by {
                    assert(word[i] == s[from + i]);
                }
            }
            assert forall|k: int| 0 <= k < all.len() implies is_word(#[trigger] all[k]) by {
                if k == 0 {
                    assert(all[0] == word);
                } else {
                    assert(all[k] == rest[k - 1]);
                }
            }
        }
    } else {
        assert(words_from(s, from) =~= Seq::<Seq<char>>::empty());
    }
}

/// A text has as many tokens as words. Each token is made of its word alone:
/// a word that begins with `#` gives the hashtag of what follows that `#`, be
/// it nothing, and any other word gives itself as text. No text token is
/// empty or begins with `#`, and no token holds a separator.
pub proof fn lemma_tokens_of(s: Seq<char>)
    ensures
        tokens_of(s).len() == words(s).len(),
        forall|k: int|
            0 <= k < words(s).len() ==> (#[trigger] tokens_of(s)[k]) == token_of(words(s)[k]),
        forall|k: int|
            0 <= k < words(s).len() && words(s)[k][0] == '#' ==> (#[trigger] tokens_of(s)[k])
                == Token::Hashtag(words(s)[k].drop_first()),
        forall|k: int|
            0 <= k < words(s).len() && words(s)[k][0] != '#' ==> (#[trigger] tokens_of(s)[k])
                == Token::Text(words(s)[k]),
        forall|k: int|
            0 <= k < tokens_of(s).len() ==> match #[trigger] tokens_of(s)[k] {
                Token::Hashtag(text) => forall|i: int|
                    0 <= i < text.len() ==> !is_space(#[trigger] text[i]),
                Token::Text(text) => text.len() > 0 && text[0] != '#' && forall|i: int|
                    0 <= i < text.len() ==> !is_space(#[trigger] text[i]),
            },
{
    lemma_words_from(s, 0);
    assert forall|k: int| 0 <= k < tokens_of(s).len() implies match #[trigger] tokens_of(s)[k] {
        Token::Hashtag(text) => forall|i: int|
            0 <= i < text.len() ==> !is_space(#[trigger] text[i]),
        Token::Text(text) => text.len() > 0 && text[0] != '#' && forall|i: int|
            0 <= i < text.len() ==> !is_space(#[trigger] text[i]),
    } by {
        let word = words(s)[k];
        assert(word.len() > 0);
        if word[0] == '#' {
            let text = word.drop_first();
            assert forall|i: int| 0 <= i < text.len() implies !is_space(#[trigger] text[i]) by {
                assert(text[i] == word[i + 1]);
            }
        }
    }
}

/// A lone `#` is a hashtag without text.
pub proof fn lemma_lone_hash()
    ensures
        token_of(seq!['#']) == Token::Hashtag(Seq::empty()),
{
    assert(seq!['#'].drop_first() =~= Seq::<char>::empty());
}

/// Whether `c` separates words.
pub fn is_whitespace(c: char) -> (r: bool)
    ensures
        r == is_space(c),
{
    ('\u{9}' <= c && c <= '\u{d}') || c == ' ' || c == '\u{85}' || c == '\u{a0}' || c
        == '\u{1680}' || ('\u{2000}' <= c && c <= '\u{200a}') || c == '\u{2028}' || c
        == '\u{2029}' || c == '\u{202f}' || c == '\u{205f}' || c == '\u{3000}'
}

/// The characters of `text`, one by one.
pub fn chars_of(text: &str) -> (r: Vec<char>)
    ensures
        r@ == text@,
{
    let mut r: Vec<char> = Vec::new();
    for c in it: text.chars()
        invariant
            it.seq() == text@,
            r@ == text@.take(it.index() as int),
    {
        r.push(c);
        assert(text@.take(it.index() + 1) =~= text@.take(it.index() as int).push(c));
    }
    assert(text@.take(text@.len() as int) =~= text@);
    r
}

/// Splits `text` at white space into its words and tells hashtags from plain
/// text. The result holds one token for each word, in the order of the words;
/// a text without words gives no token.
pub fn parse_message(text: &str) -> (tokens: Vec<MessageTokens>)
    ensures
        tokens.deep_view() == tokens_of(text@),
        tokens.len() == words(text@).len(),
{
    let chars = chars_of(text);
    let n = chars.len();
    let mut tokens: Vec<MessageTokens> = Vec::new();
    let mut i: usize = 0;
    while i < n
        invariant
            chars@ == text@,
            n == chars.len(),
            i <= n,
            tokens.deep_view() + words_from(text@, i as int).map_values(
                |word: Seq<char>| token_of(word),
            ) == tokens_of(text@),
        decreases n - i,
    {
        if is_whitespace(chars[i]) {
            i += 1;
        } else {
            let start = i;
            proof {
                lemma_word_end_bounds(text@, start as int);
            }
            while i < n && !is_whitespace(chars[i])
                invariant
                    chars@ == text@,
                    n == chars.len(),
                    start <= i <= n,
                    word_end(text@, i as int) == word_end(text@, start as int),
                decreases n - i,
            {
                i += 1;
            }
            let ghost word = text@.subrange(start as int, i as int);
            let ghost rest = words_from(text@, i as int);
            let ghost before = tokens.deep_view();
            assert(words_from(text@, start as int) == seq![word] + rest);
            let token = if chars[start] == '#' {
                let tail = text.substring_char(start + 1, i);
                assert(tail@ =~= word.drop_first());
                MessageTokens::Hashtag(tail.to_owned())
            } else {
                MessageTokens::Text(text.substring_char(start, i).to_owned())
            };
            assert(token@ == token_of(word));
            tokens.push(token);
            assert(tokens.deep_view() =~= before.push(token_of(word)));
            assert((seq![word] + rest).map_values(|w: Seq<char>| token_of(w)) =~= seq![
                token_of(word),
            ] + rest.map_values(|w: Seq<char>| token_of(w)));
            assert(before + (seq![token_of(word)] + rest.map_values(|w: Seq<char>| token_of(w)))
                =~= before.push(token_of(word)) + rest.map_values(|w: Seq<char>| token_of(w)));
        }
    }
    assert(words_from(text@, n as int) =~= Seq::<Seq<char>>::empty());
    assert(tokens.deep_view() + Seq::<Seq<char>>::empty().map_values(
        |word: Seq<char>| token_of(word),
    ) =~= tokens.deep_view());
    tokens
}

} // verus!
