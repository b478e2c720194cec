use chrono::prelude::Utc;
use chrono::{Datelike, NaiveDateTime, Timelike};
use media_archiver::download::{
    build_final_path, destination_folders, extension, file_name, file_stem, first_text_token,
    Destination,
};
use media_archiver::parser::{parse_message, MessageTokens};
use media_archiver::timestamp::Timestamp;
use std::path::{Path, PathBuf};

fn test_files() -> PathBuf {
    Path::new("resources/test/").to_path_buf()
}

/// The names in the folder of test files.
fn test_listing() -> Vec<String> {
    vec![
        "file_without_extension".to_owned(),
        "file_with_extension.txt".to_owned(),
        "file_with_extension_1.txt".to_owned(),
    ]
}

fn stamp(time: NaiveDateTime) -> Timestamp {
    Timestamp::new(
        time.year(),
        time.month(),
        time.day(),
        time.hour(),
        time.minute(),
        time.second(),
    )
    .unwrap()
}

fn some_time() -> Timestamp {
    Timestamp::new(2021, 3, 4, 5, 6, 7).unwrap()
}

fn as_path(destination: &Destination) -> PathBuf {
    let mut path = PathBuf::from(&destination.root);
    for folder in &destination.folders {
        path.push(folder);
    }
    path.push(&destination.file_name);
    path
}

fn owned(names: &[&str]) -> Vec<String> {
    names.iter().map(|name| (*name).to_owned()).collect()
}

#[test]
fn non_existing_file() {
    let expected = test_files().join("non_existing_file");
    let result = build_final_path(
        "resources/test/",
        &vec![MessageTokens::Text("non_existing_file".to_owned())],
        "non_existing_file",
        &stamp(Utc::now().naive_utc()),
        &test_listing(),
    );
    assert_eq!(as_path(&result), expected);
}

#[test]
fn file_without_extension() {
    let expected = test_files().join("file_without_extension_1");
    let result = build_final_path(
        "resources/test/",
        &vec![MessageTokens::Text("file_without_extension".to_owned())],
        "file_without_extension",
        &stamp(Utc::now().naive_utc()),
        &test_listing(),
    );
    assert_eq!(as_path(&result), expected)
}

#[test]
fn file_with_extension() {
    let expected = test_files().join("file_with_extension_2.txt");
    let result = build_final_path(
        "resources/test/",
        &vec![MessageTokens::Text("file_with_extension".to_owned())],
        "file_with_extension.txt",
        &stamp(Utc::now().naive_utc()),
        &test_listing(),
    );
    assert_eq!(as_path(&result), expected)
}

#[test]
fn file_with_hashtags() {
    let expected = test_files().join("one").join("two").join("file");
    let result = build_final_path(
        "resources/test/",
        &vec![
            MessageTokens::Hashtag("one".to_owned()),
            MessageTokens::Hashtag("two".to_owned()),
            MessageTokens::Text("file".to_owned()),
        ],
        "file",
        &stamp(Utc::now().naive_utc()),
        &vec![],
    );
    assert_eq!(as_path(&result), expected)
}

#[test]
fn file_with_hashtag_and_extension() {
    let expected = test_files().join("folder").join("parsed_file.txt");
    let result = build_final_path(
        "resources/test/",
        &vec![
            MessageTokens::Hashtag("folder".to_owned()),
            MessageTokens::Text("parsed_file".to_owned()),
        ],
        "file.txt",
        &stamp(Utc::now().naive_utc()),
        &vec![],
    );
    assert_eq!(as_path(&result), expected)
}

#[test]
fn file_withput_text_token() {
    let time = Utc::now().naive_utc();
    let expected = test_files().join("folder").join(format!(
        "file_{}",
        time.format("%Y-%m-%d_%H-%M-%S").to_string()
    ));
    let result = build_final_path(
        "resources/test/",
        &vec![MessageTokens::Hashtag("folder".to_owned())],
        "file",
        &stamp(time),
        &vec![],
    );
    assert_eq!(as_path(&result), expected)
}

#[test]
fn hashtags_become_folders_in_their_order() {
    let tokens = vec![
        MessageTokens::Hashtag("a".to_owned()),
        MessageTokens::Hashtag("b".to_owned()),
        MessageTokens::Text("c".to_owned()),
    ];
    let result = build_final_path("R", &tokens, "f.png", &some_time(), &vec![]);
    assert_eq!(
        result,
        Destination { root: "R".to_owned(), folders: owned(&["a", "b"]), file_name: "c.png".to_owned() }
    );
    assert_eq!(as_path(&result), Path::new("R/a/b/c.png"));
}

#[test]
fn hashtags_after_the_text_are_folders_too() {
    let tokens = parse_message("#a name #b other #c");
    let result = build_final_path("/data", &tokens, "x.gif", &some_time(), &vec![]);
    assert_eq!(result.folders, owned(&["a", "b", "c"]));
    assert_eq!(result.file_name, "name.gif");
}

#[test]
fn without_text_the_name_is_the_time() {
    let tokens = vec![MessageTokens::Hashtag("x".to_owned())];
    let result = build_final_path("R", &tokens, "f", &some_time(), &vec![]);
    assert_eq!(
        result,
        Destination {
            root: "R".to_owned(),
            folders: owned(&["x"]),
            file_name: "file_2021-03-04_05-06-07".to_owned(),
        }
    );
}

#[test]
fn without_text_the_name_has_the_extension() {
    let result = build_final_path("R", &vec![], "f.webp", &some_time(), &vec![]);
    assert_eq!(result.folders, Vec::<String>::new());
    assert_eq!(result.file_name, "file_2021-03-04_05-06-07.webp");
}

#[test]
fn the_extension_keeps_its_case() {
    let tokens = vec![MessageTokens::Text("name".to_owned())];
    let result = build_final_path("R", &tokens, "orig.JPEG", &some_time(), &vec![]);
    assert_eq!(result.file_name, "name.JPEG");
}

#[test]
fn photo_with_caption_and_tag_goes_below_both() {
    let mut tokens = vec![MessageTokens::Hashtag("photos".to_owned())];
    tokens.extend(parse_message("#pets my dog"));
    assert_eq!(
        tokens,
        vec![
            MessageTokens::Hashtag("photos".to_owned()),
            MessageTokens::Hashtag("pets".to_owned()),
            MessageTokens::Text("my".to_owned()),
            MessageTokens::Text("dog".to_owned()),
        ]
    );
    let result = build_final_path("/data", &tokens, "AgAD.jpg", &some_time(), &vec![]);
    assert_eq!(as_path(&result), Path::new("/data/photos/pets/my.jpg"));
}

#[test]
fn the_same_state_gives_the_same_path() {
    let tokens = parse_message("#pets dog");
    let taken = owned(&["dog.jpg", "dog_1.jpg"]);
    let first = build_final_path("/data", &tokens, "a.jpg", &some_time(), &taken);
    let second = build_final_path("/data", &tokens, "a.jpg", &some_time(), &taken);
    assert_eq!(first, second);
    assert_eq!(first.file_name, "dog_2.jpg");
}

#[test]
fn a_taken_name_is_avoided() {
    let tokens = parse_message("dog");
    let taken = owned(&["dog.jpg"]);
    let result = build_final_path("/data", &tokens, "a.jpg", &some_time(), &taken);
    assert_ne!(result.file_name, "dog.jpg");
    assert!(!taken.contains(&result.file_name));
    assert_eq!(result.file_name, "dog_1.jpg");
}

#[test]
fn the_first_free_number_is_taken() {
    let tokens = parse_message("dog");
    let taken = owned(&["dog_3", "dog", "dog_1", "dog_1", "cat", "dog_2.jpg"]);
    let result = build_final_path("/data", &tokens, "a", &some_time(), &taken);
    assert_eq!(result.file_name, "dog_2");
}

#[test]
fn a_free_name_is_kept_though_numbered_ones_are_taken() {
    let tokens = parse_message("dog");
    let taken = owned(&["dog_1.jpg", "dog_2.jpg"]);
    let result = build_final_path("/data", &tokens, "a.jpg", &some_time(), &taken);
    assert_eq!(result.file_name, "dog.jpg");
}

#[test]
fn the_number_grows_beyond_one_digit() {
    let tokens = parse_message("dog");
    let mut taken = vec!["dog.jpg".to_owned()];
    let mut n = 1;
    while n <= 120 {
        taken.push(format!("dog_{}.jpg", n));
        n += 1;
    }
    let result = build_final_path("/data", &tokens, "a.jpg", &some_time(), &taken);
    assert_eq!(result.file_name, "dog_121.jpg");
}

#[test]
fn a_taken_time_name_is_numbered() {
    let taken = owned(&["file_2021-03-04_05-06-07.png"]);
    let result = build_final_path("/data", &vec![], "a.png", &some_time(), &taken);
    assert_eq!(result.file_name, "file_2021-03-04_05-06-07_1.png");
}

#[test]
fn extension_is_what_follows_the_last_dot() {
    assert_eq!(extension("f.png"), Some("png".to_owned()));
    assert_eq!(extension("archive.tar.gz"), Some("gz".to_owned()));
    assert_eq!(extension("orig.JPEG"), Some("JPEG".to_owned()));
    assert_eq!(extension("f"), None);
    assert_eq!(extension(""), None);
    assert_eq!(extension("name."), Some("".to_owned()));
    assert_eq!(extension(".bashrc"), Some("bashrc".to_owned()));
    assert_eq!(extension("."), Some("".to_owned()));
    assert_eq!(extension("é.ö漢"), Some("ö漢".to_owned()));
}

#[test]
fn an_empty_extension_leaves_the_dot() {
    let tokens = parse_message("dog");
    let result = build_final_path("/data", &tokens, "name.", &some_time(), &owned(&["dog."]));
    assert_eq!(result.file_name, "dog_1.");
}

#[test]
fn file_name_puts_the_counter_behind_the_stem() {
    assert_eq!(file_name("stem", &None, 0), "stem");
    assert_eq!(file_name("stem", &None, 1), "stem_1");
    assert_eq!(file_name("stem", &Some("txt".to_owned()), 0), "stem.txt");
    assert_eq!(file_name("stem", &Some("txt".to_owned()), 42), "stem_42.txt");
    assert_eq!(file_name("", &Some("".to_owned()), 7), "_7.");
}

#[test]
fn file_stem_is_the_first_text() {
    let tokens = parse_message("#a one #b two");
    assert_eq!(file_stem(&tokens, &some_time()), "one");
    assert_eq!(first_text_token(&tokens), Some(&"one".to_owned()));
    let tags = parse_message("#a #b");
    assert_eq!(file_stem(&tags, &some_time()), "file_2021-03-04_05-06-07");
    assert_eq!(first_text_token(&tags), None);
}

#[test]
fn destination_folders_are_the_hashtags() {
    assert_eq!(destination_folders(&parse_message("#a one #b two #")), owned(&["a", "b", ""]));
    assert_eq!(destination_folders(&parse_message("one two")), Vec::<String>::new());
    assert_eq!(destination_folders(&vec![]), Vec::<String>::new());
}

#[test]
fn hashtags_are_not_cleaned() {
    let tokens = parse_message("#../up #a/b name");
    let result = build_final_path("/data", &tokens, "x.jpg", &some_time(), &vec![]);
    assert_eq!(result.folders, owned(&["../up", "a/b"]));
}
