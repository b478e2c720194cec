//! What is done with a message: who may send, which image of a photo is
//! taken, which caption counts, and which tokens the file gets.

use crate::captions::{value_of, with_entry, CaptionCache};
use crate::parser::{parse_message, tokens_of, MessageTokens, Token};
use crate::settings::{Configuration, Settings};
use vstd::prelude::*;

verus! {

/// One rendition of an image: the reference under which the chat serves it,
/// and its size in bytes where the chat tells it.
#[derive(Debug, Clone, PartialEq, Eq)]
pub struct PhotoSize {
    pub file_id: String,
    pub file_size: Option<i64>,
}

/// The sender of a message.
#[derive(Debug, Clone, PartialEq, Eq)]
pub struct User {
    pub first_name: String,
    pub username: Option<String>,
}

/// What a message carries.
#[derive(Debug, Clone, PartialEq, Eq)]
pub enum MessageKind {
    Text { data: String },
    Photo { data: Vec<PhotoSize>, caption: Option<String>, media_group_id: Option<String> },
    Sticker { thumb: Option<PhotoSize> },
    Other,
}

/// A message as the chat delivers it.
#[derive(Debug, Clone, PartialEq, Eq)]
pub struct Message {
    pub from: User,
    pub kind: MessageKind,
}

/// What is to be done about a message.
#[derive(Debug, Clone, PartialEq, Eq)]
pub enum Action {
    /// Answer with this text.
    Reply(String),
    /// Fetch the file with this reference and store it by these tokens.
    Download { file_id: String, tokens: Vec<MessageTokens> },
    /// A photo without any image: note it and go on.
    SkipPhoto,
    /// A sticker without a thumbnail: note it and go on.
    SkipSticker,
    /// A message of a kind that is not archived.
    Ignore,
    /// The sender, named here, is not on the list: note it and go on.
    Reject(String),
}

/// The mathematical value of a `PhotoSize`.
pub ghost struct Photo {
    pub file_id: Seq<char>,
    pub file_size: Option<i64>,
}

/// The mathematical value of a `User`.
pub ghost struct Person {
    pub first_name: Seq<char>,
    pub username: Option<Seq<char>>,
}

/// The mathematical value of a `MessageKind`.
pub ghost enum Content {
    Text { data: Seq<char> },
    Photo { data: Seq<Photo>, caption: Option<Seq<char>>, media_group_id: Option<Seq<char>> },
    Sticker { thumb: Option<Photo> },
    Other,
}

/// The mathematical value of a `Message`.
pub ghost struct Post {
    pub from: Person,
    pub kind: Content,
}

/// The mathematical value of an `Action`.
pub ghost enum Decision {
    Reply(Seq<char>),
    Download { file_id: Seq<char>, tokens: Seq<Token> },
    SkipPhoto,
    SkipSticker,
    Ignore,
    Reject(Seq<char>),
}

impl View for PhotoSize {
    type V = Photo;

    open spec fn view(&self) -> Photo {
        Photo { file_id: self.file_id@, file_size: self.file_size }
    }
}

impl DeepView for PhotoSize {
    type V = Photo;

    open spec fn deep_view(&self) -> Photo {
        self@
    }
}

impl View for User {
    type V = Person;

    open spec fn view(&self) -> Person {
        Person { first_name: self.first_name@, username: self.username.deep_view() }
    }
}

impl View for MessageKind {
    type V = Content;

    open spec fn view(&self) -> Content {
        match self {
            MessageKind::Text { data } => Content::Text { data: data@ },
            MessageKind::Photo { data, caption, media_group_id } => Content::Photo {
                data: data.deep_view(),
                caption: caption.deep_view(),
                media_group_id: media_group_id.deep_view(),
            },
            MessageKind::Sticker { thumb } => Content::Sticker { thumb: thumb.deep_view() },
            MessageKind::Other => Content::Other,
        }
    }
}

impl View for Message {
    type V = Post;

    open spec fn view(&self) -> Post {
        Post { from: self.from@, kind: self.kind@ }
    }
}

impl View for Action {
    type V = Decision;

    open spec fn view(&self) -> Decision {
        match self {
            Action::Reply(text) => Decision::Reply(text@),
            Action::Download { file_id, tokens } => Decision::Download {
                file_id: file_id@,
                tokens: tokens.deep_view(),
            },
            Action::SkipPhoto => Decision::SkipPhoto,
            Action::SkipSticker => Decision::SkipSticker,
            Action::Ignore => Decision::Ignore,
            Action::Reject(name) => Decision::Reject(name@),
        }
    }
}

/// Whether the size `a` is above the size `b`: a size that is known is above
/// one that is not, and of two known sizes the greater number is above.
pub open spec fn outranks(a: Option<i64>, b: Option<i64>) -> bool {
    match (a, b) {
        (Some(x), Some(y)) => x > y,
        (Some(_), None) => true,
        (None, _) => false,
    }
}

/// Whether the image at `k` is the one that is taken of `images`: no image is
/// above it; where sizes are known, it is the last of those with the greatest
/// size; where none is known, it is the first image.
pub open spec fn is_biggest(images: Seq<Photo>, k: int) -> bool {
    &&& 0 <= k < images.len()
    &&& forall|j: int|
        0 <= j < images.len() ==> !outranks((#[trigger] images[j]).file_size, images[k].file_size)
    &&& images[k].file_size is None ==> k == 0
    &&& images[k].file_size is Some ==> forall|j: int|
        k < j < images.len() ==> outranks(images[k].file_size, (#[trigger] images[j]).file_size)
}

/// The position of the image that is taken of `images`.
pub open spec fn biggest(images: Seq<Photo>) -> int {
    choose|k: int| is_biggest(images, k)
}

/// At most one image is the one that is taken.
pub proof fn lemma_biggest_unique(images: Seq<Photo>, a: int, b: int)
    requires
        is_biggest(images, a),
        is_biggest(images, b),
    ensures
        a == b,
{
    if a < b {
        assert(!outranks(images[b].file_size, images[a].file_size));
        assert(!outranks(images[a].file_size, images[b].file_size));
    } else if b < a {
        assert(!outranks(images[b].file_size, images[a].file_size));
        assert(!outranks(images[a].file_size, images[b].file_size));
    }
}

/// The image that is taken of a photo: the one with the greatest size. An
/// image whose size is known is preferred to one whose size is not. Of
/// several images with the greatest size the last is taken; where no size is
/// known, the first image is.
pub fn find_biggest_image(images: &Vec<PhotoSize>) -> (r: Option<&PhotoSize>)
    ensures
        images.len() == 0 ==> r is None,
        images.len() > 0 ==> is_biggest(images.deep_view(), biggest(images.deep_view())) && r
            == Some(&images[biggest(images.deep_view())]),
{
    if images.len() == 0 {
        return None;
    }
    let mut best: usize = 0;
    let mut i: usize = 1;
    while i < images.len()
        invariant
            1 <= i <= images.len(),
            is_biggest(images.deep_view().take(i as int), best as int),
        decreases images.len() - i,
    {
        let ghost seen = images.deep_view().take(i as int);
        let ghost more = images.deep_view().take(i as int + 1);
        assert(forall|j: int| 0 <= j < i ==> more[j] == seen[j]);
        assert(more[i as int] == images[i as int]@);
        let replace = match (images[i].file_size, images[best].file_size) {
            (Some(x), Some(y)) => x >= y,
            (Some(_), None) => true,
            (None, _) => false,
        };
        if replace {
            best = i;
        }
        assert(is_biggest(more, best as int)) by {
            assert forall|j: int| 0 <= j < more.len() implies !outranks(
                (#[trigger] more[j]).file_size,
                more[best as int].file_size,
            ) by {
                if j < i {
                    assert(more[j] == seen[j]);
                }
            }
            if more[best as int].file_size is Some {
                assert forall|j: int| best < j < more.len() implies outranks(
                    more[best as int].file_size,
                    (#[trigger] more[j]).file_size,
                ) by {
                    if j < i {
                        assert(more[j] == seen[j]);
                    }
                }
            }
        }
        i += 1;
    }
    proof {
        assert(images.deep_view().take(images.len() as int) =~= images.deep_view());
        lemma_biggest_unique(images.deep_view(), best as int, biggest(images.deep_view()));
    }
    Some(&images[best])
}

/// The answer to a text message.
pub open spec fn greeting(first_name: Seq<char>, text: Seq<char>) -> Seq<char> {
    "Hi, "@ + first_name + "! You wrote '"@ + text + "'"@
}

/// What is told about a stored file.
pub open spec fn saved_notice(path: Seq<char>) -> Seq<char> {
    "Файл сохранён в "@ + path
}

/// One hashtag token for each tag, in the order of the tags.
pub open spec fn tag_tokens(tags: Seq<Seq<char>>) -> Seq<Token> {
    tags.map_values(|tag: Seq<char>| Token::Hashtag(tag))
}

/// The tokens of a caption; none where there is no caption.
pub open spec fn caption_tokens(caption: Option<Seq<char>>) -> Seq<Token> {
    match caption {
        Some(text) => tokens_of(text),
        None => Seq::empty(),
    }
}

/// The caption that counts for an item: its own, or else the one that the
/// store holds for its group.
pub open spec fn caption_for(
    entries: Seq<(Seq<char>, Seq<char>)>,
    media_group_id: Option<Seq<char>>,
    caption: Option<Seq<char>>,
) -> Option<Seq<char>> {
    match (media_group_id, caption) {
        (_, Some(text)) => Some(text),
        (Some(group), None) => value_of(entries, group),
        (None, None) => None,
    }
}

/// What the store holds after an item: the caption of an item that has both a
/// group and a caption is recorded for the group, and nothing else changes.
pub open spec fn entries_after(
    entries: Seq<(Seq<char>, Seq<char>)>,
    limit: nat,
    media_group_id: Option<Seq<char>>,
    caption: Option<Seq<char>>,
) -> Seq<(Seq<char>, Seq<char>)> {
    match (media_group_id, caption) {
        (Some(group), Some(text)) => with_entry(entries, limit, group, text),
        _ => entries,
    }
}

/// What is done about a photo with the given images, once its caption is
/// settled.
pub open spec fn photo_decision(
    images: Seq<Photo>,
    tags: Seq<Seq<char>>,
    caption: Option<Seq<char>>,
) -> Decision {
    if images.len() == 0 {
        Decision::SkipPhoto
    } else {
        Decision::Download {
            file_id: images[biggest(images)].file_id,
            tokens: tag_tokens(tags) + caption_tokens(caption),
        }
    }
}

/// What is done about a sticker.
pub open spec fn sticker_decision(thumb: Option<Photo>, tags: Seq<Seq<char>>) -> Decision {
    match thumb {
        Some(image) => Decision::Download { file_id: image.file_id, tokens: tag_tokens(tags) },
        None => Decision::SkipSticker,
    }
}

/// What is done about a message of a sender who is allowed.
pub open spec fn decision_for(
    post: Post,
    configuration: Configuration,
    entries: Seq<(Seq<char>, Seq<char>)>,
) -> Decision {
    match post.kind {
        Content::Text { data } => Decision::Reply(greeting(post.from.first_name, data)),
        Content::Photo { data, caption, media_group_id } => photo_decision(
            data,
            configuration.image_tags,
            caption_for(entries, media_group_id, caption),
        ),
        Content::Sticker { thumb } => sticker_decision(thumb, configuration.sticker_tags),
        Content::Other => Decision::Ignore,
    }
}

/// What the store holds after a message of a sender who is allowed.
pub open spec fn entries_for(post: Post, entries: Seq<(Seq<char>, Seq<char>)>, limit: nat) -> Seq<
    (Seq<char>, Seq<char>),
> {
    match post.kind {
        Content::Photo { data, caption, media_group_id } => entries_after(
            entries,
            limit,
            media_group_id,
            caption,
        ),
        _ => entries,
    }
}

/// Whether the sender may have files archived: the sender has a handle, and
/// the handle is on the list.
pub open spec fn is_allowed(person: Person, configuration: Configuration) -> bool {
    match person.username {
        Some(name) => configuration.allowed_usernames.contains(name),
        None => false,
    }
}

/// The name by which a sender is noted: the handle, or the first name of a
/// sender without one.
pub open spec fn name_of(person: Person) -> Seq<char> {
    match person.username {
        Some(name) => name,
        None => person.first_name,
    }
}

/// Whether the sender of `message` is on the list of `settings`.
pub fn is_user_allowed(message: &Message, settings: &Settings) -> (r: bool)
    ensures
        r == is_allowed(message.from@, settings@),
{
    settings.telegram.allows(&message.from.username)
}

/// The answer to a text message: a greeting by the sender's first name that
/// repeats the text.
pub fn process_text_message(first_name: &str, text: &str) -> (r: String)
    ensures
        r@ == greeting(first_name@, text@),
{
    let mut r = String::from_str("Hi, ");
    r.append(first_name);
    r.append("! You wrote '");
    r.append(text);
    r.append("'");
    r
}

/// What is told about a file that was stored at `path`.
pub fn download_reply(path: &str) -> (r: String)
    ensures
        r@ == saved_notice(path@),
{
    let mut r = String::from_str("Файл сохранён в ");
    r.append(path);
    r
}

/// One hashtag token for each of `tags`, in their order.
pub fn hashtag_tokens(tags: &Vec<String>) -> (r: Vec<MessageTokens>)
    ensures
        r.deep_view() == tag_tokens(tags.deep_view()),
{
    let mut r: Vec<MessageTokens> = Vec::new();
    let mut i: usize = 0;
    while i < tags.len()
        invariant
            i <= tags.len(),
            r.len() == i,
            forall|j: int| 0 <= j < i ==> (#[trigger] r[j])@ == Token::Hashtag(tags[j]@),
        decreases tags.len() - i,
    {
        r.push(MessageTokens::Hashtag(tags[i].clone()));
        i += 1;
    }
    assert(r.deep_view() =~= tag_tokens(tags.deep_view()));
    r
}

/// Settles the caption of an item of media. An item with a caption has that
/// caption, and where it belongs to a group, the caption is recorded for the
/// group. An item without a caption has the caption that the store holds for
/// its group, if it has a group and the store holds one.
pub fn effective_caption(
    cache: &mut CaptionCache,
    media_group_id: &Option<String>,
    caption: &Option<String>,
) -> (r: Option<String>)
    ensures
        r.deep_view() == caption_for(
            old(cache)@,
            media_group_id.deep_view(),
            caption.deep_view(),
        ),
        final(cache)@ == entries_after(
            old(cache)@,
            old(cache).limit(),
            media_group_id.deep_view(),
            caption.deep_view(),
        ),
        final(cache).limit() == old(cache).limit(),
{
    match (media_group_id, caption) {
        (Some(group), Some(text)) => {
            cache.record(group.as_str(), text.as_str());
            Some(text.clone())
        },
        (Some(group), None) => {
            match cache.lookup(group.as_str()) {
                Some(text) => Some(text.clone()),
                None => None,
            }
        },
        (None, Some(text)) => Some(text.clone()),
        (None, None) => None,
    }
}

/// What is done about a photo: its caption is settled, and the biggest of its
/// images is to be stored by the tags for images and the tokens of the
/// caption. A photo without images is passed over.
pub fn process_photo_message(
    photos: &Vec<PhotoSize>,
    caption: &Option<String>,
    media_group_id: &Option<String>,
    settings: &Settings,
    cache: &mut CaptionCache,
) -> (r: Action)
    ensures
        r@ == photo_decision(
            photos.deep_view(),
            settings@.image_tags,
            caption_for(old(cache)@, media_group_id.deep_view(), caption.deep_view()),
        ),
        final(cache)@ == entries_after(
            old(cache)@,
            old(cache).limit(),
            media_group_id.deep_view(),
            caption.deep_view(),
        ),
        final(cache).limit() == old(cache).limit(),
{
    let settled = effective_caption(cache, media_group_id, caption);
    match find_biggest_image(photos) {
        Some(image) => {
            let mut tokens = hashtag_tokens(&settings.download.image_tags);
            let ghost tags = tokens.deep_view();
            match &settled {
                Some(text) => {
                    let mut parsed = parse_message(text.as_str());
                    let ghost words = parsed.deep_view();
                    tokens.append(&mut parsed);
                    assert(tokens.deep_view() =~= tags + words);
                },
                None => {
                    assert(tokens.deep_view() =~= tags + Seq::<Token>::empty());
                },
            }
            Action::Download { file_id: image.file_id.clone(), tokens }
        },
        None => Action::SkipPhoto,
    }
}

/// What is done about a sticker: its thumbnail is to be stored by the tags
/// for stickers. A sticker without a thumbnail is passed over.
pub fn process_sticker_message(thumb: &Option<PhotoSize>, settings: &Settings) -> (r: Action)
    ensures
        r@ == sticker_decision(thumb.deep_view(), settings@.sticker_tags),
{
    match thumb {
        Some(image) => Action::Download {
            file_id: image.file_id.clone(),
            tokens: hashtag_tokens(&settings.download.sticker_tags),
        },
        None => Action::SkipSticker,
    }
}

/// What is done about a message of a sender who is allowed, by its kind.
pub fn process_message(message: &Message, settings: &Settings, cache: &mut CaptionCache) -> (r:
    Action)
    ensures
        r@ == decision_for(message@, settings@, old(cache)@),
        final(cache)@ == entries_for(message@, old(cache)@, old(cache).limit()),
        final(cache).limit() == old(cache).limit(),
{
    match &message.kind {
        MessageKind::Text { data } => Action::Reply(
            process_text_message(message.from.first_name.as_str(), data.as_str()),
        ),
        MessageKind::Photo { data, caption, media_group_id } => process_photo_message(
            data,
            caption,
            media_group_id,
            settings,
            cache,
        ),
        MessageKind::Sticker { thumb } => process_sticker_message(thumb, settings),
        MessageKind::Other => Action::Ignore,
    }
}

/// What is done about a message. A sender who is not on the list is turned
/// away, and nothing else happens; the message of any other sender is dealt
/// with by its kind.
pub fn handle_message(message: &Message, settings: &Settings, cache: &mut CaptionCache) -> (r:
    Action)
    ensures
        is_allowed(message.from@, settings@) ==> r@ == decision_for(
            message@,
            settings@,
            old(cache)@,
        ) && final(cache)@ == entries_for(message@, old(cache)@, old(cache).limit()),
        !is_allowed(message.from@, settings@) ==> r@ == Decision::Reject(name_of(message.from@))
            && final(cache)@ == old(cache)@,
        final(cache).limit() == old(cache).limit(),
{
    if is_user_allowed(message, settings) {
        process_message(message, settings, cache)
    } else {
        match &message.from.username {
            Some(name) => Action::Reject(name.clone()),
            None => Action::Reject(message.from.first_name.clone()),
        }
    }
}

/// The caption of one item of a group counts for the items of the group that
/// come after it without a caption, where the store holds anything at all.
pub proof fn lemma_caption_shared(
    entries: Seq<(Seq<char>, Seq<char>)>,
    limit: nat,
    group: Seq<char>,
    caption: Seq<char>,
)
    requires
        limit > 0,
    ensures
        caption_for(
            entries_after(entries, limit, Some(group), Some(caption)),
            Some(group),
            None,
        ) == Some(caption),
{
    crate::captions::lemma_recorded_is_found(entries, limit, group, caption);
}

} // verus!
