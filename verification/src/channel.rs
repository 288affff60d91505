//! Chat channels and the tables that identify them: the channel-type enum
//! of JoinedChatChannel / NewChatChannels events, the channel name Albion
//! sends along, the well-known runtime ids, and the labels channels are
//! shown and stored under.
use vstd::prelude::*;
use vstd::utf8::is_ascii_chars;
use crate::text::{
    ascii_lower, is_white_space, lemma_ascii_lower_idempotent, lemma_trim_fixed,
    lemma_trim_piece, chars_equal, chars_of, contains_str, has_substr, lowercase, string_of, to_lowercase, trim, trim_chars,
};

verus! {

broadcast use vstd::string::group_string_axioms;

/// A chat channel.
#[derive(Clone, Copy, Debug, PartialEq, Eq, Structural)]
pub enum ChatChannel {
    Say,
    Whisper,
    Party,
    Guild,
    Alliance,
    Global,
    Trade,
    LFG,
    Recruitment,
    Faction,
    /// Language-specific channels (English, Español, Português, ...):
    /// messages on them are dropped when decoding.
    Language,
    Unknown,
}

/// Channel for the channel-type enum carried in parameter 0 of
/// JoinedChatChannel and NewChatChannels events.
pub open spec fn channel_for_type_enum(type_enum: i64) -> ChatChannel {
    if type_enum == 1 {
        ChatChannel::Trade
    } else if type_enum == 2 {
        ChatChannel::Recruitment
    } else if type_enum == 3 {
        ChatChannel::LFG
    } else if type_enum == 5 {
        ChatChannel::Global
    } else if type_enum == 7 {
        ChatChannel::Faction
    } else if type_enum == 8 {
        ChatChannel::Language
    } else if type_enum == 24 {
        ChatChannel::Guild
    } else if type_enum == 25 {
        ChatChannel::Alliance
    } else if type_enum == 26 {
        ChatChannel::Party
    } else if type_enum == 27 {
        ChatChannel::Say
    } else {
        ChatChannel::Unknown
    }
}

/// Names of the language communities' channels.
pub open spec fn names_language(n: Seq<char>) -> bool {
    has_substr(n, "english"@) || has_substr(n, "español"@) || has_substr(n, "espanol"@)
        || has_substr(n, "spanish"@) || has_substr(n, "português"@) || has_substr(
        n,
        "portugues"@,
    ) || has_substr(n, "portuguese"@) || has_substr(n, "français"@) || has_substr(
        n,
        "francais"@,
    ) || has_substr(n, "french"@) || has_substr(n, "deutsch"@) || has_substr(n, "german"@)
        || has_substr(n, "русский"@) || has_substr(n, "russian"@) || has_substr(n, "polski"@)
        || has_substr(n, "polish"@) || has_substr(n, "türkçe"@) || has_substr(n, "turkish"@)
        || has_substr(n, "italiano"@) || has_substr(n, "italian"@) || has_substr(n, "日本語"@)
        || has_substr(n, "japanese"@) || has_substr(n, "한국어"@) || has_substr(n, "korean"@)
        || has_substr(n, "中文"@) || has_substr(n, "chinese"@) || has_substr(n, "international"@)
}

/// Channel for an already trimmed and lower-cased channel name: the first
/// matching keyword group decides.
pub open spec fn channel_for_lowered_name(n: Seq<char>) -> ChatChannel {
    if n.len() == 0 {
        ChatChannel::Unknown
    } else if has_substr(n, "lfg"@) || has_substr(n, "looking"@) {
        ChatChannel::LFG
    } else if has_substr(n, "recruit"@) {
        ChatChannel::Recruitment
    } else if has_substr(n, "trade"@) {
        ChatChannel::Trade
    } else if has_substr(n, "faction"@) {
        ChatChannel::Faction
    } else if has_substr(n, "guild"@) {
        ChatChannel::Guild
    } else if has_substr(n, "alliance"@) {
        ChatChannel::Alliance
    } else if has_substr(n, "party"@) || has_substr(n, "group"@) {
        ChatChannel::Party
    } else if names_language(n) {
        ChatChannel::Language
    } else if has_substr(n, "global"@) {
        ChatChannel::Global
    } else if has_substr(n, "say"@) || has_substr(n, "local"@) {
        ChatChannel::Say
    } else if has_substr(n, "whisper"@) {
        ChatChannel::Whisper
    } else {
        ChatChannel::Unknown
    }
}

/// Channel for the channel name of a JoinedChatChannel event (e.g. "LFG",
/// "Faction - Caerleon"): trimmed, lower-cased, then matched by keyword.
pub open spec fn channel_for_name(name: Seq<char>) -> ChatChannel {
    channel_for_lowered_name(lowercase(trim(name)))
}

/// Channel of the well-known runtime channel ids, `Unknown` for the others.
pub open spec fn static_channel(id: i64) -> ChatChannel {
    if id == 0 {
        ChatChannel::Say
    } else if id == 1 || id == 21 {
        ChatChannel::Global
    } else if id == 2 {
        ChatChannel::Language
    } else if id == 17 {
        ChatChannel::Trade
    } else if id == 18 {
        ChatChannel::Recruitment
    } else if id == 19 {
        ChatChannel::LFG
    } else if id == 3517 {
        ChatChannel::Guild
    } else if id == 1868 || (1856 <= id && id <= 1860) {
        ChatChannel::Faction
    } else {
        ChatChannel::Unknown
    }
}

/// The label a channel is shown and stored under.
pub open spec fn channel_label(c: ChatChannel) -> Seq<char> {
    match c {
        ChatChannel::Say => "Local"@,
        ChatChannel::Whisper => "Whisper"@,
        ChatChannel::Party => "Party"@,
        ChatChannel::Guild => "Guild"@,
        ChatChannel::Alliance => "Alliance"@,
        ChatChannel::Global => "Global"@,
        ChatChannel::Trade => "Trade"@,
        ChatChannel::LFG => "LFG"@,
        ChatChannel::Recruitment => "Recruitment"@,
        ChatChannel::Faction => "Faction"@,
        ChatChannel::Language => "Language"@,
        ChatChannel::Unknown => "Unknown"@,
    }
}

/// Channels whose manual mapping is worth keeping across sessions.
pub open spec fn is_persistable(c: ChatChannel) -> bool {
    c != ChatChannel::Unknown && c != ChatChannel::Language
}

/// The persistable channel stored under a label, if any.
pub open spec fn channel_for_label(label: Seq<char>) -> Option<ChatChannel> {
    if label == "Local"@ {
        Some(ChatChannel::Say)
    } else if label == "Whisper"@ {
        Some(ChatChannel::Whisper)
    } else if label == "Party"@ {
        Some(ChatChannel::Party)
    } else if label == "Guild"@ {
        Some(ChatChannel::Guild)
    } else if label == "Alliance"@ {
        Some(ChatChannel::Alliance)
    } else if label == "Global"@ {
        Some(ChatChannel::Global)
    } else if label == "Trade"@ {
        Some(ChatChannel::Trade)
    } else if label == "LFG"@ {
        Some(ChatChannel::LFG)
    } else if label == "Recruitment"@ {
        Some(ChatChannel::Recruitment)
    } else if label == "Faction"@ {
        Some(ChatChannel::Faction)
    } else {
        None
    }
}

/// Channels a user may assign by hand to an unmapped runtime id, by name.
pub open spec fn assignable_channel(name: Seq<char>) -> Option<ChatChannel> {
    if name == "Party"@ {
        Some(ChatChannel::Party)
    } else if name == "Guild"@ {
        Some(ChatChannel::Guild)
    } else if name == "Alliance"@ {
        Some(ChatChannel::Alliance)
    } else if name == "Trade"@ {
        Some(ChatChannel::Trade)
    } else if name == "Global"@ {
        Some(ChatChannel::Global)
    } else if name == "LFG"@ {
        Some(ChatChannel::LFG)
    } else if name == "Recruitment"@ {
        Some(ChatChannel::Recruitment)
    } else if name == "Faction"@ {
        Some(ChatChannel::Faction)
    } else {
        None
    }
}

fn names_language_exec(n: &Vec<char>) -> (b: bool)
    ensures
        b == names_language(n@),
{
    contains_str(n, "english") || contains_str(n, "español") || contains_str(n, "espanol")
        || contains_str(n, "spanish") || contains_str(n, "português") || contains_str(
        n,
        "portugues",
    ) || contains_str(n, "portuguese") || contains_str(n, "français") || contains_str(
        n,
        "francais",
    ) || contains_str(n, "french") || contains_str(n, "deutsch") || contains_str(n, "german")
        || contains_str(n, "русский") || contains_str(n, "russian") || contains_str(n, "polski")
        || contains_str(n, "polish") || contains_str(n, "türkçe") || contains_str(n, "turkish")
        || contains_str(n, "italiano") || contains_str(n, "italian") || contains_str(n, "日本語")
        || contains_str(n, "japanese") || contains_str(n, "한국어") || contains_str(n, "korean")
        || contains_str(n, "中文") || contains_str(n, "chinese") || contains_str(
        n,
        "international",
    )
}

impl ChatChannel {
    /// Maps the JoinedChatChannel (207) param-0 channel-type enum to a
    /// channel; unmapped enums give `Unknown`.
    pub fn from_type_enum(type_enum: i64) -> (c: ChatChannel)
        ensures
            c == channel_for_type_enum(type_enum),
    {
        if type_enum == 1 {
            ChatChannel::Trade
        } else if type_enum == 2 {
            ChatChannel::Recruitment
        } else if type_enum == 3 {
            ChatChannel::LFG
        } else if type_enum == 5 {
            ChatChannel::Global
        } else if type_enum == 7 {
            ChatChannel::Faction
        } else if type_enum == 8 {
            ChatChannel::Language
        } else if type_enum == 24 {
            ChatChannel::Guild
        } else if type_enum == 25 {
            ChatChannel::Alliance
        } else if type_enum == 26 {
            ChatChannel::Party
        } else if type_enum == 27 {
            ChatChannel::Say
        } else {
            ChatChannel::Unknown
        }
    }

    /// Last-resort channel typing from the channel name Albion sends in
    /// JoinedChatChannel param 2 (e.g. "LFG", "Faction - Caerleon").
    pub fn from_channel_name(name: &str) -> (c: ChatChannel)
        ensures
            c == channel_for_name(name@),
            is_ascii_chars(name@) ==> c == channel_for_lowered_name(ascii_lower(trim(name@))),
    {
        let chars = chars_of(name);
        let trimmed = trim_chars(&chars);
        proof {
            let (a, b) = lemma_trim_piece(name@);
            if is_ascii_chars(name@) {
                assert(is_ascii_chars(trimmed@)) by {
                    assert forall|i: int| 0 <= i < trimmed@.len() implies '\0' <= #[trigger] trimmed@[i]
                        <= '\u{7f}' by {
                        assert(trimmed@[i] == name@[a + i]);
                    }
                }
            }
        }
        let lowered = to_lowercase(string_of(&trimmed).as_str());
        Self::from_lowered_name(lowered.as_str())
    }

    /// Channel for a channel name already trimmed and lower-cased: the
    /// first matching keyword group decides.
    pub fn from_lowered_name(lowered: &str) -> (c: ChatChannel)
        ensures
            c == channel_for_lowered_name(lowered@),
    {
        let n = chars_of(lowered);
        if n.len() == 0 {
            ChatChannel::Unknown
        } else if contains_str(&n, "lfg") || contains_str(&n, "looking") {
            ChatChannel::LFG
        } else if contains_str(&n, "recruit") {
            ChatChannel::Recruitment
        } else if contains_str(&n, "trade") {
            ChatChannel::Trade
        } else if contains_str(&n, "faction") {
            ChatChannel::Faction
        } else if contains_str(&n, "guild") {
            ChatChannel::Guild
        } else if contains_str(&n, "alliance") {
            ChatChannel::Alliance
        } else if contains_str(&n, "party") || contains_str(&n, "group") {
            ChatChannel::Party
        } else if names_language_exec(&n) {
            ChatChannel::Language
        } else if contains_str(&n, "global") {
            ChatChannel::Global
        } else if contains_str(&n, "say") || contains_str(&n, "local") {
            ChatChannel::Say
        } else if contains_str(&n, "whisper") {
            ChatChannel::Whisper
        } else {
            ChatChannel::Unknown
        }
    }

    /// Channel of a well-known runtime channel id (`Unknown` otherwise).
    pub fn from_static_id(id: i64) -> (c: ChatChannel)
        ensures
            c == static_channel(id),
    {
        if id == 0 {
            ChatChannel::Say
        } else if id == 1 || id == 21 {
            ChatChannel::Global
        } else if id == 2 {
            ChatChannel::Language
        } else if id == 17 {
            ChatChannel::Trade
        } else if id == 18 {
            ChatChannel::Recruitment
        } else if id == 19 {
            ChatChannel::LFG
        } else if id == 3517 {
            ChatChannel::Guild
        } else if id == 1868 || (1856 <= id && id <= 1860) {
            ChatChannel::Faction
        } else {
            ChatChannel::Unknown
        }
    }

    /// The label the channel is shown under ("Local" for `Say`).
    pub fn label(self) -> (s: &'static str)
        ensures
            s@ == channel_label(self),
    {
        match self {
            ChatChannel::Say => "Local",
            ChatChannel::Whisper => "Whisper",
            ChatChannel::Party => "Party",
            ChatChannel::Guild => "Guild",
            ChatChannel::Alliance => "Alliance",
            ChatChannel::Global => "Global",
            ChatChannel::Trade => "Trade",
            ChatChannel::LFG => "LFG",
            ChatChannel::Recruitment => "Recruitment",
            ChatChannel::Faction => "Faction",
            ChatChannel::Language => "Language",
            ChatChannel::Unknown => "Unknown",
        }
    }

    /// The persistable channel stored under `label`, `None` for any other
    /// text (including "Language" and "Unknown").
    pub fn from_label(label: &str) -> (c: Option<ChatChannel>)
        ensures
            c == channel_for_label(label@),
    {
        let l = chars_of(label);
        if chars_equal(&l, "Local") {
            Some(ChatChannel::Say)
        } else if chars_equal(&l, "Whisper") {
            Some(ChatChannel::Whisper)
        } else if chars_equal(&l, "Party") {
            Some(ChatChannel::Party)
        } else if chars_equal(&l, "Guild") {
            Some(ChatChannel::Guild)
        } else if chars_equal(&l, "Alliance") {
            Some(ChatChannel::Alliance)
        } else if chars_equal(&l, "Global") {
            Some(ChatChannel::Global)
        } else if chars_equal(&l, "Trade") {
            Some(ChatChannel::Trade)
        } else if chars_equal(&l, "LFG") {
            Some(ChatChannel::LFG)
        } else if chars_equal(&l, "Recruitment") {
            Some(ChatChannel::Recruitment)
        } else if chars_equal(&l, "Faction") {
            Some(ChatChannel::Faction)
        } else {
            None
        }
    }

    /// The channel a user may assign by hand under `name`, `None` when the
    /// name is not one of the assignable channel types.
    pub fn from_assignable_name(name: &str) -> (c: Option<ChatChannel>)
        ensures
            c == assignable_channel(name@),
    {
        let l = chars_of(name);
        if chars_equal(&l, "Party") {
            Some(ChatChannel::Party)
        } else if chars_equal(&l, "Guild") {
            Some(ChatChannel::Guild)
        } else if chars_equal(&l, "Alliance") {
            Some(ChatChannel::Alliance)
        } else if chars_equal(&l, "Trade") {
            Some(ChatChannel::Trade)
        } else if chars_equal(&l, "Global") {
            Some(ChatChannel::Global)
        } else if chars_equal(&l, "LFG") {
            Some(ChatChannel::LFG)
        } else if chars_equal(&l, "Recruitment") {
            Some(ChatChannel::Recruitment)
        } else if chars_equal(&l, "Faction") {
            Some(ChatChannel::Faction)
        } else {
            None
        }
    }
}

/// Storing a persistable channel under its label and reading the label
/// back gives the same channel; the other channels are not read back.
pub proof fn lemma_label_roundtrip(c: ChatChannel)
    ensures
        is_persistable(c) ==> channel_for_label(channel_label(c)) == Some(c),
        !is_persistable(c) ==> channel_for_label(channel_label(c)) is None,
{
    reveal_strlit("Local");
    reveal_strlit("Whisper");
    reveal_strlit("Party");
    reveal_strlit("Guild");
    reveal_strlit("Alliance");
    reveal_strlit("Global");
    reveal_strlit("Trade");
    reveal_strlit("LFG");
    reveal_strlit("Recruitment");
    reveal_strlit("Faction");
    reveal_strlit("Language");
    reveal_strlit("Unknown");
    match c {
        ChatChannel::Say => {

        },
        ChatChannel::Whisper => {
            assert("Whisper"@.len() != "Local"@.len());
        },
        ChatChannel::Party => {
            assert("Party"@[0] != "Local"@[0]);
            assert("Party"@.len() != "Whisper"@.len());
        },
        ChatChannel::Guild => {
            assert("Guild"@[0] != "Local"@[0]);
            assert("Guild"@.len() != "Whisper"@.len());
            assert("Guild"@[0] != "Party"@[0]);
        },
        ChatChannel::Alliance => {
            assert("Alliance"@.len() != "Local"@.len());
            assert("Alliance"@.len() != "Whisper"@.len());
            assert("Alliance"@.len() != "Party"@.len());
            assert("Alliance"@.len() != "Guild"@.len());
        },
        ChatChannel::Global => {
            assert("Global"@.len() != "Local"@.len());
            assert("Global"@.len() != "Whisper"@.len());
            assert("Global"@.len() != "Party"@.len());
            assert("Global"@.len() != "Guild"@.len());
            assert("Global"@.len() != "Alliance"@.len());
        },
        ChatChannel::Trade => {
            assert("Trade"@[0] != "Local"@[0]);
            assert("Trade"@.len() != "Whisper"@.len());
            assert("Trade"@[0] != "Party"@[0]);
            assert("Trade"@[0] != "Guild"@[0]);
            assert("Trade"@.len() != "Alliance"@.len());
            assert("Trade"@.len() != "Global"@.len());
        },
        ChatChannel::LFG => {
            assert("LFG"@.len() != "Local"@.len());
            assert("LFG"@.len() != "Whisper"@.len());
            assert("LFG"@.len() != "Party"@.len());
            assert("LFG"@.len() != "Guild"@.len());
            assert("LFG"@.len() != "Alliance"@.len());
            assert("LFG"@.len() != "Global"@.len());
            assert("LFG"@.len() != "Trade"@.len());
        },
        ChatChannel::Recruitment => {
            assert("Recruitment"@.len() != "Local"@.len());
            assert("Recruitment"@.len() != "Whisper"@.len());
            assert("Recruitment"@.len() != "Party"@.len());
            assert("Recruitment"@.len() != "Guild"@.len());
            assert("Recruitment"@.len() != "Alliance"@.len());
            assert("Recruitment"@.len() != "Global"@.len());
            assert("Recruitment"@.len() != "Trade"@.len());
            assert("Recruitment"@.len() != "LFG"@.len());
        },
        ChatChannel::Faction => {
            assert("Faction"@.len() != "Local"@.len());
            assert("Faction"@[0] != "Whisper"@[0]);
            assert("Faction"@.len() != "Party"@.len());
            assert("Faction"@.len() != "Guild"@.len());
            assert("Faction"@.len() != "Alliance"@.len());
            assert("Faction"@.len() != "Global"@.len());
            assert("Faction"@.len() != "Trade"@.len());
            assert("Faction"@.len() != "LFG"@.len());
            assert("Faction"@.len() != "Recruitment"@.len());
        },
        ChatChannel::Language => {
            assert("Language"@.len() != "Local"@.len());
            assert("Language"@.len() != "Whisper"@.len());
            assert("Language"@.len() != "Party"@.len());
            assert("Language"@.len() != "Guild"@.len());
            assert("Language"@[0] != "Alliance"@[0]);
            assert("Language"@.len() != "Global"@.len());
            assert("Language"@.len() != "Trade"@.len());
            assert("Language"@.len() != "LFG"@.len());
            assert("Language"@.len() != "Recruitment"@.len());
            assert("Language"@.len() != "Faction"@.len());
        },
        ChatChannel::Unknown => {
            assert("Unknown"@.len() != "Local"@.len());
            assert("Unknown"@[0] != "Whisper"@[0]);
            assert("Unknown"@.len() != "Party"@.len());
            assert("Unknown"@.len() != "Guild"@.len());
            assert("Unknown"@.len() != "Alliance"@.len());
            assert("Unknown"@.len() != "Global"@.len());
            assert("Unknown"@.len() != "Trade"@.len());
            assert("Unknown"@.len() != "LFG"@.len());
            assert("Unknown"@.len() != "Recruitment"@.len());
            assert("Unknown"@[0] != "Faction"@[0]);
        },
    }
}

/// For ASCII channel names, neither case nor surrounding white space
/// matters: a name reads as the same channel as its trimmed, lower-cased
/// form, and a blank name reads as no channel.
pub proof fn law_channel_name_case_and_space(name: Seq<char>)
    requires
        is_ascii_chars(name),
    ensures
        is_ascii_chars(ascii_lower(trim(name))),
        channel_for_lowered_name(ascii_lower(trim(ascii_lower(trim(name)))))
            == channel_for_lowered_name(ascii_lower(trim(name))),
        trim(name).len() == 0 ==> channel_for_lowered_name(ascii_lower(trim(name)))
            == ChatChannel::Unknown,
{
    let (a, b) = lemma_trim_piece(name);
    let t = trim(name);
    let lt = ascii_lower(t);
    assert forall|i: int| 0 <= i < t.len() implies #[trigger] is_white_space(lt[i])
        == is_white_space(t[i]) && '\0' <= lt[i] <= '\u{7f}' by {
        assert(t[i] == name[a + i]);
        let c = t[i];
        if 'A' <= c <= 'Z' {
            assert(((c as u32) + 32) as char as u32 == (c as u32) + 32);
        }
    }
    if t.len() > 0 {
        assert(lt.last() == lt[t.len() - 1]);
        assert(t.last() == t[t.len() - 1]);
    }
    lemma_trim_fixed(lt);
    lemma_ascii_lower_idempotent(t);
}

/// The channel-type enum of JoinedChatChannel and NewChatChannels events:
/// 1 Trade, 2 Recruitment, 3 LFG, 5 Global, 7 Faction, 8 Language,
/// 24 Guild, 25 Alliance, 26 Party, 27 Say; every other value is Unknown.
/// The ten known enums name ten different channels.
pub proof fn law_type_enum_table(te: i64)
    ensures
        channel_for_type_enum(1) == ChatChannel::Trade,
        channel_for_type_enum(2) == ChatChannel::Recruitment,
        channel_for_type_enum(3) == ChatChannel::LFG,
        channel_for_type_enum(5) == ChatChannel::Global,
        channel_for_type_enum(7) == ChatChannel::Faction,
        channel_for_type_enum(8) == ChatChannel::Language,
        channel_for_type_enum(24) == ChatChannel::Guild,
        channel_for_type_enum(25) == ChatChannel::Alliance,
        channel_for_type_enum(26) == ChatChannel::Party,
        channel_for_type_enum(27) == ChatChannel::Say,
        !(te == 1 || te == 2 || te == 3 || te == 5 || te == 7 || te == 8 || te == 24 || te == 25
            || te == 26 || te == 27) ==> channel_for_type_enum(te) == ChatChannel::Unknown,
        forall|a: i64, b: i64|
            #![trigger channel_for_type_enum(a), channel_for_type_enum(b)]
            channel_for_type_enum(a) == channel_for_type_enum(b) && channel_for_type_enum(a)
                != ChatChannel::Unknown ==> a == b,
{
}

} // verus!
