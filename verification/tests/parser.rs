use media_archiver::parser::{chars_of, is_whitespace, parse_message, MessageTokens};

fn hashtag(text: &str) -> MessageTokens {
    MessageTokens::Hashtag(text.to_owned())
}

fn text(text: &str) -> MessageTokens {
    MessageTokens::Text(text.to_owned())
}

#[test]
fn single_hashtag() {
    let result = parse_message("#text");
    assert_eq!(result, vec!(MessageTokens::Hashtag("text".to_owned())));
}

#[test]
fn single_text() {
    let result = parse_message("text");
    assert_eq!(result, vec!(MessageTokens::Text("text".to_owned())));
}

#[test]
fn two_hashtags() {
    let result = parse_message("#first #second");
    assert_eq!(
        result,
        vec!(
            MessageTokens::Hashtag("first".to_owned()),
            MessageTokens::Hashtag("second".to_owned())
        )
    );
}

#[test]
fn two_words() {
    let result = parse_message("one two");
    assert_eq!(
        result,
        vec!(
            MessageTokens::Text("one".to_owned()),
            MessageTokens::Text("two".to_owned())
        )
    );
}

#[test]
fn hashtag_and_word() {
    let result = parse_message("#hash word");
    assert_eq!(
        result,
        vec!(
            MessageTokens::Hashtag("hash".to_owned()),
            MessageTokens::Text("word".to_owned())
        )
    )
}

#[test]
fn empty_text_has_no_tokens() {
    assert_eq!(parse_message(""), vec![]);
}

#[test]
fn white_space_alone_has_no_tokens() {
    assert_eq!(parse_message(" \t\r\n  \u{a0}\u{3000} "), vec![]);
}

#[test]
fn lone_hash_is_an_empty_hashtag() {
    assert_eq!(parse_message("#"), vec![hashtag("")]);
    assert_eq!(parse_message(" # # "), vec![hashtag(""), hashtag("")]);
}

#[test]
fn only_the_leading_hash_is_removed() {
    assert_eq!(parse_message("##a"), vec![hashtag("#a")]);
    assert_eq!(parse_message("#a#b"), vec![hashtag("a#b")]);
    assert_eq!(parse_message("a#b"), vec![text("a#b")]);
}

#[test]
fn runs_of_white_space_separate_once() {
    assert_eq!(
        parse_message("  one \t\n two\u{2003}#three  "),
        vec![text("one"), text("two"), hashtag("three")]
    );
}

#[test]
fn words_are_not_normalised() {
    assert_eq!(
        parse_message("#Über ГРОЗА e\u{301}"),
        vec![hashtag("Über"), text("ГРОЗА"), text("e\u{301}")]
    );
}

#[test]
fn token_count_is_the_word_count() {
    let samples = [
        "",
        "a",
        " a ",
        "a b",
        "#pets my dog",
        "\n#x\n\ny z\t#",
        "one\u{85}two\u{1680}three\u{2028}four\u{2029}five\u{202f}six\u{205f}seven",
    ];
    for sample in samples {
        let expected: Vec<MessageTokens> = sample
            .split_whitespace()
            .map(|word| match word.strip_prefix('#') {
                Some(rest) => hashtag(rest),
                None => text(word),
            })
            .collect();
        assert_eq!(parse_message(sample), expected);
        assert_eq!(parse_message(sample).len(), sample.split_whitespace().count());
    }
}

#[test]
fn separators_are_the_white_space_of_unicode() {
    let mut code: u32 = 0;
    while code <= 0x10ffff {
        if let Some(c) = char::from_u32(code) {
            assert_eq!(is_whitespace(c), c.is_whitespace());
        }
        code += 1;
    }
}

#[test]
fn zero_width_space_is_no_separator() {
    assert_eq!(parse_message("a\u{200b}b"), vec![text("a\u{200b}b")]);
}

#[test]
fn chars_of_gives_every_character() {
    assert_eq!(chars_of(""), Vec::<char>::new());
    assert_eq!(chars_of("a#é漢"), vec!['a', '#', 'é', '漢']);
}
