//! What the archive is configured with.

use vstd::prelude::*;

verus! {

/// Access to the chat: the token of the bot and the handles of the senders
/// whose messages it takes.
#[derive(Debug, Clone, PartialEq, Eq)]
pub struct TelegramConfig {
    pub token: String,
    pub allowed_usernames: Vec<String>,
}

/// Where files go: the root folder, and the hashtags that every sticker and
/// every image gets before those of its caption.
#[derive(Debug, Clone, PartialEq, Eq)]
pub struct DownloadConfig {
    pub target_dir: String,
    pub sticker_tags: Vec<String>,
    pub image_tags: Vec<String>,
}

/// The whole configuration.
#[derive(Debug, Clone, PartialEq, Eq)]
pub struct Settings {
    pub telegram: TelegramConfig,
    pub download: DownloadConfig,
}

/// The mathematical value of the configuration.
pub ghost struct Configuration {
    pub token: Seq<char>,
    pub allowed_usernames: Seq<Seq<char>>,
    pub target_dir: Seq<char>,
    pub sticker_tags: Seq<Seq<char>>,
    pub image_tags: Seq<Seq<char>>,
}

impl View for Settings {
    type V = Configuration;

    open spec fn view(&self) -> Configuration {
        Configuration {
            token: self.telegram.token@,
            allowed_usernames: self.telegram.allowed_usernames.deep_view(),
            target_dir: self.download.target_dir@,
            sticker_tags: self.download.sticker_tags.deep_view(),
            image_tags: self.download.image_tags.deep_view(),
        }
    }
}

/// Whether `text` is among `list`.
pub fn contains_text(list: &Vec<String>, text: &String) -> (r: bool)
    ensures
        r == list.deep_view().contains(text@),
{
    let mut i: usize = 0;
    while i < list.len()
        invariant
            i <= list.len(),
            forall|j: int| 0 <= j < i ==> list.deep_view()[j] != text@,
        decreases list.len() - i,
    {
        if list[i] == *text {
            assert(list.deep_view()[i as int] == text@);
            return true;
        }
        i += 1;
    }
    false
}

impl TelegramConfig {
    /// Whether messages of the sender with the handle `username` are taken:
    /// the sender has a handle, and it is on the list.
    pub fn allows(&self, username: &Option<String>) -> (r: bool)
        ensures
            r == match username {
                Some(name) => self.allowed_usernames.deep_view().contains(name@),
                None => false,
            },
    {
        match username {
            Some(name) => contains_text(&self.allowed_usernames, name),
            None => false,
        }
    }
}

} // verus!
