//! Where a file is stored: folders from the hashtags, a name from the first
//! word or the time, and a number behind the name where the name is taken.

use crate::decimal::{decimal, decimal_digits, lemma_decimal_injective, lemma_decimal_round_trip};
use crate::parser::{chars_of, MessageTokens, Token};
use crate::settings::contains_text;
use crate::timestamp::{DateTime, Timestamp};
use vstd::prelude::*;

verus! {

/// The place of a stored file: the root folder, the folders below it from the
/// outermost to the innermost, and the file's name.
#[derive(Debug, Clone, PartialEq, Eq)]
pub struct Destination {
    pub root: String,
    pub folders: Vec<String>,
    pub file_name: String,
}

/// The mathematical value of a destination.
pub ghost struct Place {
    pub root: Seq<char>,
    pub folders: Seq<Seq<char>>,
    pub file_name: Seq<char>,
}

impl View for Destination {
    type V = Place;

    open spec fn view(&self) -> Place {
        Place {
            root: self.root@,
            folders: self.folders.deep_view(),
            file_name: self.file_name@,
        }
    }
}

/// The texts of the hashtags among `tokens`, in their order.
pub open spec fn hashtags(tokens: Seq<Token>) -> Seq<Seq<char>>
    decreases tokens.len(),
{
    if tokens.len() == 0 {
        Seq::empty()
    } else {
        match tokens.last() {
            Token::Hashtag(text) => hashtags(tokens.drop_last()).push(text),
            Token::Text(_) => hashtags(tokens.drop_last()),
        }
    }
}

/// The text of the first token that is plain text, if there is one.
pub open spec fn first_text(tokens: Seq<Token>) -> Option<Seq<char>>
    decreases tokens.len(),
{
    if tokens.len() == 0 {
        None
    } else {
        match tokens.first() {
            Token::Text(text) => Some(text),
            Token::Hashtag(_) => first_text(tokens.drop_first()),
        }
    }
}

/// What follows the last `.` of `name`; nothing where `name` has no `.`.
pub open spec fn extension_of(name: Seq<char>) -> Option<Seq<char>>
    decreases name.len(),
{
    if name.len() == 0 {
        None
    } else if name.last() == '.' {
        Some(Seq::empty())
    } else {
        match extension_of(name.drop_last()) {
            Some(extension) => Some(extension.push(name.last())),
            None => None,
        }
    }
}

/// The stem of the file's name: the first plain word among the tokens, or
/// `file_` and the time where there is no such word.
pub open spec fn stem_of(tokens: Seq<Token>, time: DateTime) -> Seq<char> {
    match first_text(tokens) {
        Some(text) => text,
        None => seq!['f', 'i', 'l', 'e', '_'] + time.text(),
    }
}

/// What stands behind the stem or the number: a `.` and the extension, where
/// there is one.
pub open spec fn suffix_of(extension: Option<Seq<char>>) -> Seq<char> {
    match extension {
        Some(extension) => seq!['.'] + extension,
        None => Seq::empty(),
    }
}

/// The `counter`-th name that is tried: the stem and the suffix, and from the
/// first retry on `_` and the counter between them.
pub open spec fn numbered_name(stem: Seq<char>, extension: Option<Seq<char>>, counter: nat) -> Seq<
    char,
> {
    if counter == 0 {
        stem + suffix_of(extension)
    } else {
        stem + seq!['_'] + decimal_digits(counter) + suffix_of(extension)
    }
}

/// Whether `counter` is the first whose name is not among `taken`.
pub open spec fn is_first_free(
    stem: Seq<char>,
    extension: Option<Seq<char>>,
    taken: Set<Seq<char>>,
    counter: nat,
) -> bool {
    &&& !taken.contains(numbered_name(stem, extension, counter))
    &&& forall|earlier: nat|
        earlier < counter ==> taken.contains(#[trigger] numbered_name(stem, extension, earlier))
}

/// Whether `place` is where a file with the given tokens, source name and
/// time is stored below `root`, when the names in `taken` are in use in the
/// folder it goes to.
pub open spec fn is_destination(
    place: Place,
    root: Seq<char>,
    tokens: Seq<Token>,
    source_name: Seq<char>,
    time: DateTime,
    taken: Set<Seq<char>>,
) -> bool {
    &&& place.root == root
    &&& place.folders == hashtags(tokens)
    &&& exists|counter: nat|
        {
            &&& is_first_free(stem_of(tokens, time), extension_of(source_name), taken, counter)
            &&& place.file_name == #[trigger] numbered_name(
                stem_of(tokens, time),
                extension_of(source_name),
                counter,
            )
        }
}

/// The extension begins behind a `.` of the name and holds none itself, and
/// a name has no extension only where it has no `.`.
pub proof fn lemma_extension_of(name: Seq<char>)
    ensures
        match extension_of(name) {
            Some(extension) => {
                &&& extension.len() < name.len()
                &&& name[name.len() - extension.len() - 1] == '.'
                &&& extension == name.skip(name.len() - extension.len())
                &&& !extension.contains('.')
            },
            None => !name.contains('.'),
        },
    decreases name.len(),
{
    if name.len() == 0 {
    } else if name.last() == '.' {
        assert(name.skip(name.len() as int) =~= Seq::<char>::empty());
    } else {
        let front = name.drop_last();
        lemma_extension_of(front);
        match extension_of(front) {
            Some(extension) => {
                let longer = extension.push(name.last());
                assert(longer =~= name.skip(name.len() - longer.len()));
                assert forall|i: int| 0 <= i < longer.len() implies longer[i] != '.' by {
                    if i < extension.len() {
                        assert(extension.contains(extension[i]));
                    }
                }
            },
            None => {
                assert forall|i: int| 0 <= i < name.len() implies name[i] != '.' by {
                    if i < front.len() {
                        assert(front[i] == name[i]);
                        assert(front.contains(front[i]));
                    }
                }
            },
        }
    }
}

/// Names with different counters differ.
pub proof fn lemma_numbered_names_differ(
    stem: Seq<char>,
    extension: Option<Seq<char>>,
    a: nat,
    b: nat,
)
    requires
        a != b,
    ensures
        numbered_name(stem, extension, a) != numbered_name(stem, extension, b),
{
    let name_a = numbered_name(stem, extension, a);
    let name_b = numbered_name(stem, extension, b);
    lemma_decimal_round_trip(a);
    lemma_decimal_round_trip(b);
    if name_a == name_b {
        assert(name_a.len() == name_b.len());
        if a == 0 || b == 0 {
            assert(false);
        } else {
            let from: int = stem.len() as int + 1;
            let digits_a = decimal_digits(a);
            let digits_b = decimal_digits(b);
            assert(digits_a.len() == digits_b.len());
            assert(name_a.subrange(from, from + digits_a.len()) =~= digits_a);
            assert(name_b.subrange(from, from + digits_b.len()) =~= digits_b);
            lemma_decimal_injective(a, b);
        }
    }
}

/// Where the names of all counters up to `last` are among finitely many, these
/// are more than `last`.
pub proof fn lemma_taken_names_counted(
    stem: Seq<char>,
    extension: Option<Seq<char>>,
    taken: Set<Seq<char>>,
    last: nat,
)
    requires
        taken.finite(),
        forall|counter: nat|
            counter <= last ==> taken.contains(#[trigger] numbered_name(stem, extension, counter)),
    ensures
        taken.len() > last,
    decreases last,
{
    let name = numbered_name(stem, extension, last);
    assert(taken.contains(name));
    if last > 0 {
        let rest = taken.remove(name);
        assert forall|counter: nat| counter <= (last - 1) as nat implies rest.contains(
            #[trigger] numbered_name(stem, extension, counter),
        ) by {
            lemma_numbered_names_differ(stem, extension, counter, last);
        }
        lemma_taken_names_counted(stem, extension, rest, (last - 1) as nat);
    } else {
        assert(taken.len() != 0) by {
            if taken.len() == 0 {
                taken.lemma_len0_is_empty();
            }
        }
    }
}

/// The same tokens, source name, time and names in use give one destination.
pub proof fn lemma_destination_unique(
    first: Place,
    second: Place,
    root: Seq<char>,
    tokens: Seq<Token>,
    source_name: Seq<char>,
    time: DateTime,
    taken: Set<Seq<char>>,
)
    requires
        is_destination(first, root, tokens, source_name, time, taken),
        is_destination(second, root, tokens, source_name, time, taken),
    ensures
        first == second,
{
    let stem = stem_of(tokens, time);
    let extension = extension_of(source_name);
    let a = choose|counter: nat|
        is_first_free(stem, extension, taken, counter) && first.file_name == #[trigger] numbered_name(
            stem,
            extension,
            counter,
        );
    let b = choose|counter: nat|
        is_first_free(stem, extension, taken, counter) && second.file_name
            == #[trigger] numbered_name(stem, extension, counter);
    if a < b {
        assert(taken.contains(numbered_name(stem, extension, a)));
    } else if b < a {
        assert(taken.contains(numbered_name(stem, extension, b)));
    }
}

/// Where the name without a number is in use, the file gets another name,
/// one that is not in use.
pub proof fn lemma_taken_name_avoided(
    place: Place,
    root: Seq<char>,
    tokens: Seq<Token>,
    source_name: Seq<char>,
    time: DateTime,
    taken: Set<Seq<char>>,
)
    requires
        is_destination(place, root, tokens, source_name, time, taken),
        taken.contains(numbered_name(stem_of(tokens, time), extension_of(source_name), 0)),
    ensures
        place.file_name != numbered_name(stem_of(tokens, time), extension_of(source_name), 0),
        !taken.contains(place.file_name),
{
}

/// Where the name without a number is free, the file gets it.
pub proof fn lemma_free_name_kept(
    place: Place,
    root: Seq<char>,
    tokens: Seq<Token>,
    source_name: Seq<char>,
    time: DateTime,
    taken: Set<Seq<char>>,
)
    requires
        is_destination(place, root, tokens, source_name, time, taken),
        !taken.contains(numbered_name(stem_of(tokens, time), extension_of(source_name), 0)),
    ensures
        place.file_name == numbered_name(stem_of(tokens, time), extension_of(source_name), 0),
{
    let stem = stem_of(tokens, time);
    let extension = extension_of(source_name);
    let counter = choose|counter: nat|
        is_first_free(stem, extension, taken, counter) && place.file_name
            == #[trigger] numbered_name(stem, extension, counter);
    if counter > 0 {
        assert(taken.contains(numbered_name(stem, extension, 0)));
    }
}

/// The extension of a source name: what follows its last `.`, if it has one.
pub fn extension(source_name: &str) -> (r: Option<String>)
    ensures
        r.deep_view() == extension_of(source_name@),
{
    let chars = chars_of(source_name);
    let n = chars.len();
    let mut i: usize = n;
    while i > 0 && chars[i - 1] != '.'
        invariant
            chars@ == source_name@,
            n == chars.len(),
            i <= n,
            forall|j: int| i <= j < n ==> chars@[j] != '.',
        decreases i,
    {
        i -= 1;
    }
    proof {
        lemma_extension_of(source_name@);
        let name = source_name@;
        match extension_of(name) {
            Some(found) => {
                let dot = name.len() - found.len() - 1;
                assert(name[dot] == '.');
                assert(dot < i);
                if dot < i - 1 {
                    assert(found[i - 1 - (dot + 1)] == name[i - 1]);
                    assert(found.contains('.'));
                }
                assert(i > 0 && i - 1 == dot);
            },
            None => {
                if i > 0 {
                    assert(name[i - 1] == '.');
                    assert(name.contains('.'));
                }
            },
        }
    }
    if i == 0 {
        None
    } else {
        let found = source_name.substring_char(i, n).to_owned();
        assert(found@ =~= source_name@.skip(i as int));
        Some(found)
    }
}

/// The folders below the root that the tokens name: one for each hashtag, in
/// the order of the hashtags.
pub fn destination_folders(tokens: &Vec<MessageTokens>) -> (r: Vec<String>)
    ensures
        r.deep_view() == hashtags(tokens.deep_view()),
{
    let mut r: Vec<String> = Vec::new();
    let mut i: usize = 0;
    assert(tokens.deep_view().take(0) =~= Seq::<Token>::empty());
    assert(r.deep_view() =~= Seq::<Seq<char>>::empty());
    while i < tokens.len()
        invariant
            i <= tokens.len(),
            r.deep_view() == hashtags(tokens.deep_view().take(i as int)),
        decreases tokens.len() - i,
    {
        let ghost before = r.deep_view();
        let ghost seen = tokens.deep_view().take(i as int + 1);
        assert(seen.drop_last() =~= tokens.deep_view().take(i as int));
        assert(seen.last() == tokens[i as int]@);
        match &tokens[i] {
            MessageTokens::Hashtag(text) => {
                r.push(text.clone());
                assert(r.deep_view() =~= before.push(text@));
            },
            MessageTokens::Text(_) => {},
        }
        i += 1;
    }
    assert(tokens.deep_view().take(tokens.len() as int) =~= tokens.deep_view());
    r
}

/// The first plain word among the tokens, if there is one.
pub fn first_text_token(tokens: &Vec<MessageTokens>) -> (r: Option<&String>)
    ensures
        r.deep_view() == first_text(tokens.deep_view()),
{
    let mut i: usize = 0;
    assert(tokens.deep_view().skip(0) =~= tokens.deep_view());
    while i < tokens.len()
        invariant
            i <= tokens.len(),
            first_text(tokens.deep_view().skip(i as int)) == first_text(tokens.deep_view()),
        decreases tokens.len() - i,
    {
        let ghost left = tokens.deep_view().skip(i as int);
        assert(left.first() == tokens[i as int]@);
        assert(left.drop_first() =~= tokens.deep_view().skip(i as int + 1));
        match &tokens[i] {
            MessageTokens::Text(text) => {
                return Some(text);
            },
            MessageTokens::Hashtag(_) => {},
        }
        i += 1;
    }
    None
}

/// The stem of the file's name: the first plain word among the tokens, or
/// `file_` and the time where there is none.
pub fn file_stem(tokens: &Vec<MessageTokens>, timestamp: &Timestamp) -> (r: String)
    ensures
        r@ == stem_of(tokens.deep_view(), timestamp@),
{
    match first_text_token(tokens) {
        Some(text) => text.clone(),
        None => {
            proof {
                reveal_strlit("file_");
            }
            let mut stem = String::from_str("file_");
            let time = timestamp.format();
            stem.append(time.as_str());
            assert(stem@ =~= seq!['f', 'i', 'l', 'e', '_'] + timestamp@.text());
            stem
        },
    }
}

/// The name that is tried at `counter`: the stem alone at zero, then the stem
/// with `_` and the counter, each time with the extension behind a `.` where
/// there is one.
pub fn file_name(stem: &str, extension: &Option<String>, counter: usize) -> (r: String)
    ensures
        r@ == numbered_name(stem@, extension.deep_view(), counter as nat),
{
    proof {
        reveal_strlit("_");
        reveal_strlit(".");
    }
    let mut name = String::from_str(stem);
    if counter != 0 {
        name.append("_");
        let digits = decimal(counter);
        name.append(digits.as_str());
    }
    match extension {
        Some(text) => {
            name.append(".");
            name.append(text.as_str());
            assert(name@ =~= numbered_name(stem@, extension.deep_view(), counter as nat));
        },
        None => {
            assert(name@ =~= numbered_name(stem@, extension.deep_view(), counter as nat));
        },
    }
    name
}

/// Decides where a file is stored. The folders are the hashtags among the
/// tokens, below `target_dir`. The name is the first plain word among the
/// tokens, or `file_` and the time where there is none, with the extension of
/// `source_name`. `taken` holds the names that are in use in the folder: where
/// the name is among them, `_1`, `_2` and so on is put behind the stem until a
/// name is free.
pub fn build_final_path(
    target_dir: &str,
    tokens: &Vec<MessageTokens>,
    source_name: &str,
    timestamp: &Timestamp,
    taken: &Vec<String>,
) -> (path: Destination)
    ensures
        is_destination(
            path@,
            target_dir@,
            tokens.deep_view(),
            source_name@,
            timestamp@,
            taken.deep_view().to_set(),
        ),
        !taken.deep_view().contains(path.file_name@),
{
    let folders = destination_folders(tokens);
    let found = extension(source_name);
    let stem = file_stem(tokens, timestamp);
    let ghost names = taken.deep_view().to_set();
    let mut counter: usize = 0;
    let mut name = file_name(stem.as_str(), &found, 0);
    proof {
        taken.deep_view().lemma_cardinality_of_set();
        vstd::seq_lib::seq_to_set_is_finite(taken.deep_view());
    }
    while contains_text(taken, &name)
        invariant
            names == taken.deep_view().to_set(),
            names.finite(),
            names.len() <= taken.len(),
            counter <= taken.len(),
            name@ == numbered_name(stem@, found.deep_view(), counter as nat),
            forall|earlier: nat|
                earlier < counter ==> names.contains(
                    #[trigger] numbered_name(stem@, found.deep_view(), earlier),
                ),
        decreases taken.len() - counter,
    {
        proof {
            lemma_taken_names_counted(stem@, found.deep_view(), names, counter as nat);
        }
        counter += 1;
        name = file_name(stem.as_str(), &found, counter);
    }
    assert(is_first_free(stem@, found.deep_view(), names, counter as nat));
    Destination { root: target_dir.to_owned(), folders, file_name: name }
}

} // verus!
