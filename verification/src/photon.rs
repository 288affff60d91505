//! Albion Online chat decoding on top of the Photon transport.
//!
//! A UDP datagram holds a Photon header and a run of commands; reliable,
//! unreliable and (reassembled) fragment commands carry messages, and event
//! messages carry a Protocol18 parameter table.  The Albion event code rides
//! in parameter 252.  Chat events become [`ChatMessage`]s; channel events
//! keep a map from session-assigned runtime channel ids to channels.
use vstd::prelude::*;
use std::collections::HashMap;
use crate::channel::{channel_for_name, channel_for_type_enum, static_channel};
pub use crate::channel::ChatChannel;
use crate::clock::{is_clock_text, local_time_hms};
use crate::fragments::{push_fails, push_result, FragmentReassembler, SPending};
use crate::protocol18::{param_table, read_param_table, table_get, table_view, SValue, Value};
use crate::text::{hex_pair, parse_hex_pair, parse_i64, parse_i64_bytes};
use vstd::utf8::*;

verus! {

broadcast use vstd::std_specs::hash::group_hash_axioms, vstd::string::group_string_axioms;

// ---------------------------------------------------------------------------
// Reading parameters
// ---------------------------------------------------------------------------

/// A value read as an integer: booleans as 0 and 1, integers as they are,
/// text that parses as a decimal `i64`; nothing else.
pub open spec fn as_i64(v: SValue) -> Option<i64> {
    match v {
        SValue::Bool(b) => Some(if b { 1i64 } else { 0i64 }),
        SValue::Int(i) => Some(i),
        SValue::Str(s) => parse_i64_bytes(encode_utf8(s)),
        _ => None,
    }
}

/// A value read as text: only text values.
pub open spec fn as_text(v: SValue) -> Option<Seq<char>> {
    match v {
        SValue::Str(s) => Some(s),
        _ => None,
    }
}

/// Parameter `key` of a table read as an integer.
pub open spec fn param_i64(t: Seq<(u8, SValue)>, key: u8) -> Option<i64> {
    match table_get(t, key) {
        Some(v) => as_i64(v),
        None => None,
    }
}

/// Parameter `key` of a table read as text.
pub open spec fn param_text(t: Seq<(u8, SValue)>, key: u8) -> Option<Seq<char>> {
    match table_get(t, key) {
        Some(v) => as_text(v),
        None => None,
    }
}

/// Index of the entry that a lookup of `key` gives (the last with that key).
fn find_param(t: &Vec<(u8, Value)>, key: u8) -> (r: Option<usize>)
    ensures
        match r {
            Some(i) => i < t@.len() && table_get(table_view(t@), key) == Some(t@[i as int].1@),
            None => table_get(table_view(t@), key) is None,
        },
{
    let ghost tv = table_view(t@);
    let mut i: usize = t.len();
    assert(tv.take(i as int) =~= tv);
    while i > 0
        invariant
            i <= t@.len(),
            tv == table_view(t@),
            table_get(tv, key) == table_get(tv.take(i as int), key),
        decreases i,
    {
        let k = t[i - 1].0;
        assert(tv.take(i as int).last() == tv[i - 1]);
        if k == key {
            return Some(i - 1);
        }
        assert(tv.take(i as int).drop_last() =~= tv.take(i - 1));
        i -= 1;
    }
    None
}

fn value_to_i64(v: &Value) -> (r: Option<i64>)
    ensures
        r == as_i64(v@),
{
    match v {
        Value::Bool(b) => Some(if *b { 1i64 } else { 0i64 }),
        Value::Int(i) => Some(*i),
        Value::Str(s) => parse_i64(s.as_str().as_bytes()),
        _ => None,
    }
}

fn value_to_text(v: &Value) -> (r: Option<String>)
    ensures
        match r {
            Some(s) => as_text(v@) == Some(s@),
            None => as_text(v@) is None,
        },
{
    match v {
        Value::Str(s) => Some(s.clone()),
        _ => None,
    }
}

fn lookup_i64(t: &Vec<(u8, Value)>, key: u8) -> (r: Option<i64>)
    ensures
        r == param_i64(table_view(t@), key),
{
    match find_param(t, key) {
        Some(i) => value_to_i64(&t[i].1),
        None => None,
    }
}

fn lookup_text(t: &Vec<(u8, Value)>, key: u8) -> (r: Option<String>)
    ensures
        match r {
            Some(s) => param_text(table_view(t@), key) == Some(s@),
            None => param_text(table_view(t@), key) is None,
        },
{
    match find_param(t, key) {
        Some(i) => value_to_text(&t[i].1),
        None => None,
    }
}

// ---------------------------------------------------------------------------
// Channel-type enums sent as hexadecimal text
// ---------------------------------------------------------------------------

/// Whether a pair of bytes from `i` is a whole piece of UTF-8 text: it
/// neither starts nor ends inside a character.
pub open spec fn on_boundaries(b: Seq<u8>, i: int) -> bool {
    &&& !is_continuation_byte(b[i])
    &&& (i + 2 == b.len() || !is_continuation_byte(b[i + 2]))
}

/// The bytes that the hexadecimal pairs at even offsets from `i` on give:
/// a pair that ends past the text, does not lie on character boundaries or
/// is no hexadecimal number is skipped.
pub open spec fn hex_pairs_from(b: Seq<u8>, i: int) -> Seq<u8>
    decreases b.len() - i,
{
    if i < 0 || i + 2 > b.len() {
        Seq::empty()
    } else {
        let rest = hex_pairs_from(b, i + 2);
        if on_boundaries(b, i) {
            match parse_hex_pair(b[i], b[i + 1]) {
                Some(x) => seq![x] + rest,
                None => rest,
            }
        } else {
            rest
        }
    }
}

/// A channel-type enum written as hexadecimal text: four bytes read
/// little-endian, or a single byte.
pub open spec fn type_enum_from_text(s: Seq<char>) -> Option<i64> {
    let b = hex_pairs_from(encode_utf8(s), 0);
    if b.len() == 4 {
        Some((b[0] as int + b[1] as int * 0x100 + b[2] as int * 0x10000 + b[3] as int
            * 0x1000000) as i64)
    } else if b.len() == 1 {
        Some(b[0] as i64)
    } else {
        None
    }
}

fn hex_pairs(s: &str) -> (r: Vec<u8>)
    ensures
        r@ == hex_pairs_from(encode_utf8(s@), 0),
{
    let b = s.as_bytes();
    let ghost bs = encode_utf8(s@);
    let mut out: Vec<u8> = Vec::new();
    let mut i: usize = 0;
    while i < b.len()
        invariant
            b@ == bs,
            bs == encode_utf8(s@),
            i % 2 == 0,
            hex_pairs_from(bs, 0) == out@ + hex_pairs_from(bs, i as int),
        decreases b@.len() - i,
    {
        if b.len() - i >= 2 {
            let ghost rest = hex_pairs_from(bs, i + 2);
            let c0 = !(0x80 <= b[i] && b[i] <= 0xbf);
            let c1 = b.len() - i == 2 || !(0x80 <= b[i + 2] && b[i + 2] <= 0xbf);
            if c0 && c1 {
                match hex_pair(b[i], b[i + 1]) {
                    Some(x) => {
                        assert(hex_pairs_from(bs, i as int) == seq![x] + rest);
                        out.push(x);
                        assert(hex_pairs_from(bs, 0) =~= out@ + rest);
                    },
                    None => {},
                }
            }
            i += 2;
        } else {
            assert(hex_pairs_from(bs, i as int) =~= Seq::<u8>::empty());
            assert(out@ + hex_pairs_from(bs, i as int) =~= out@);
            return out;
        }
    }
    assert(hex_pairs_from(bs, i as int) =~= Seq::<u8>::empty());
    assert(out@ + hex_pairs_from(bs, i as int) =~= out@);
    out
}

fn type_enum_of_text(s: &str) -> (r: Option<i64>)
    ensures
        r == type_enum_from_text(s@),
{
    let b = hex_pairs(s);
    if b.len() == 4 {
        let v: u32 = (b[0] as u32) + (b[1] as u32) * 0x100 + (b[2] as u32) * 0x10000 + (b[3] as u32)
            * 0x1000000;
        Some(v as i64)
    } else if b.len() == 1 {
        Some(b[0] as i64)
    } else {
        None
    }
}

// ---------------------------------------------------------------------------
// Channel events
// ---------------------------------------------------------------------------

/// The integers among a sequence of values, in order.
pub open spec fn ids_from(items: Seq<SValue>) -> Seq<i64>
    decreases items.len(),
{
    if items.len() == 0 {
        Seq::empty()
    } else {
        let front = ids_from(items.drop_last());
        match as_i64(items.last()) {
            Some(x) => front.push(x),
            None => front,
        }
    }
}

/// The runtime channel ids of a NewChatChannels parameter: the integers of
/// an array, or the parameter itself as one id.
pub open spec fn runtime_ids(v: SValue) -> Seq<i64> {
    match v {
        SValue::Array(items) => ids_from(items),
        _ => match as_i64(v) {
            Some(x) => seq![x],
            None => Seq::empty(),
        },
    }
}

/// The channel-type enum of a NewChatChannels parameter: hexadecimal text,
/// or a value read as an integer.
pub open spec fn roster_type_enum(v: SValue) -> Option<i64> {
    match v {
        SValue::Str(s) => type_enum_from_text(s),
        _ => as_i64(v),
    }
}

/// `m` with every id of `ids` mapped to `c`.
pub open spec fn assign_all(m: Map<i64, ChatChannel>, ids: Seq<i64>, c: ChatChannel) -> Map<
    i64,
    ChatChannel,
>
    decreases ids.len(),
{
    if ids.len() == 0 {
        m
    } else {
        assign_all(m, ids.drop_last(), c).insert(ids.last(), c)
    }
}

/// NewChatChannels (206): every listed runtime id is mapped to the channel
/// of the channel-type enum in parameter 0; nothing changes when the enum
/// or the ids are missing.
pub open spec fn after_new_chat_channels(m: Map<i64, ChatChannel>, t: Seq<(u8, SValue)>) -> Map<
    i64,
    ChatChannel,
> {
    let type_enum = match table_get(t, 0) {
        Some(v) => roster_type_enum(v),
        None => None,
    };
    let ids = match table_get(t, 1) {
        Some(v) => runtime_ids(v),
        None => Seq::empty(),
    };
    match type_enum {
        Some(te) => if ids.len() > 0 {
            assign_all(m, ids, channel_for_type_enum(te))
        } else {
            m
        },
        None => m,
    }
}

/// The channel a JoinedChatChannel event announces: that of its
/// channel-type enum, or, for an unmapped enum, that of its name.
pub open spec fn joined_channel(type_enum: i64, name: Seq<char>) -> ChatChannel {
    let c = channel_for_type_enum(type_enum);
    if c == ChatChannel::Unknown {
        channel_for_name(name)
    } else {
        c
    }
}

/// The channel name of a JoinedChatChannel event (empty when missing).
pub open spec fn joined_name(t: Seq<(u8, SValue)>) -> Seq<char> {
    match param_text(t, 2) {
        Some(n) => n,
        None => Seq::empty(),
    }
}

/// JoinedChatChannel (207): the runtime id of parameter 1 is mapped to the
/// announced channel; nothing changes when parameter 0 or 1 is missing.
pub open spec fn after_joined_chat_channel(m: Map<i64, ChatChannel>, t: Seq<(u8, SValue)>) -> Map<
    i64,
    ChatChannel,
> {
    match (param_i64(t, 0), param_i64(t, 1)) {
        (Some(te), Some(id)) => m.insert(id, joined_channel(te, joined_name(t))),
        _ => m,
    }
}

/// LeftChatChannel (208): the runtime id of parameter 0 is forgotten.
pub open spec fn after_left_chat_channel(m: Map<i64, ChatChannel>, t: Seq<(u8, SValue)>) -> Map<
    i64,
    ChatChannel,
> {
    match param_i64(t, 0) {
        Some(id) => m.remove(id),
        None => m,
    }
}

/// The channel of a runtime id: the live mapping, else the well-known ids.
pub open spec fn resolve_channel(m: Map<i64, ChatChannel>, id: i64) -> ChatChannel {
    if m.contains_key(id) {
        m[id]
    } else {
        static_channel(id)
    }
}

fn ids_of_items(items: &Vec<Value>) -> (r: Vec<i64>)
    ensures
        r@ == ids_from(Value::Array(*items)@->Array_0),
{
    let ghost iv = Value::Array(*items)@->Array_0;
    assert(iv.len() == items@.len());
    let mut out: Vec<i64> = Vec::new();
    let mut i: usize = 0;
    while i < items.len()
        invariant
            i <= items@.len(),
            iv == Value::Array(*items)@->Array_0,
            iv.len() == items@.len(),
            out@ == ids_from(iv.take(i as int)),
        decreases items@.len() - i,
    {
        assert(iv.take(i + 1).drop_last() =~= iv.take(i as int));
        assert(iv.take(i + 1).last() == iv[i as int]);
        assert(iv[i as int] == items@[i as int]@);
        match value_to_i64(&items[i]) {
            Some(x) => out.push(x),
            None => {},
        }
        i += 1;
    }
    assert(iv.take(i as int) =~= iv);
    out
}

fn ids_of(v: &Value) -> (r: Vec<i64>)
    ensures
        r@ == runtime_ids(v@),
{
    match v {
        Value::Array(items) => ids_of_items(items),
        _ => {
            let mut out: Vec<i64> = Vec::new();
            match value_to_i64(v) {
                Some(x) => {
                    out.push(x);
                    assert(out@ =~= seq![x]);
                },
                None => {
                    assert(out@ =~= Seq::<i64>::empty());
                },
            }
            out
        },
    }
}

fn roster_type_enum_of(v: &Value) -> (r: Option<i64>)
    ensures
        r == roster_type_enum(v@),
{
    match v {
        Value::Str(s) => type_enum_of_text(s.as_str()),
        _ => value_to_i64(v),
    }
}

fn handle_new_chat_channels(channels: &mut HashMap<i64, ChatChannel>, t: &Vec<(u8, Value)>)
    ensures
        final(channels)@ == after_new_chat_channels(old(channels)@, table_view(t@)),
{
    let type_enum = match find_param(t, 0) {
        Some(i) => roster_type_enum_of(&t[i].1),
        None => None,
    };
    let ids = match find_param(t, 1) {
        Some(i) => ids_of(&t[i].1),
        None => {
            let v: Vec<i64> = Vec::new();
            assert(v@ =~= Seq::<i64>::empty());
            v
        },
    };
    let te = match type_enum {
        Some(te) => te,
        None => return,
    };
    if ids.len() == 0 {
        return;
    }
    let channel = ChatChannel::from_type_enum(te);
    let ghost m0 = channels@;
    let mut i: usize = 0;
    while i < ids.len()
        invariant
            i <= ids@.len(),
            channels@ == assign_all(m0, ids@.take(i as int), channel),
        decreases ids@.len() - i,
    {
        assert(ids@.take(i + 1).drop_last() =~= ids@.take(i as int));
        channels.insert(ids[i], channel);
        i += 1;
    }
    assert(ids@.take(i as int) =~= ids@);
}

fn handle_joined_chat_channel(channels: &mut HashMap<i64, ChatChannel>, t: &Vec<(u8, Value)>)
    ensures
        final(channels)@ == after_joined_chat_channel(old(channels)@, table_view(t@)),
{
    let type_enum = lookup_i64(t, 0);
    let runtime_id = lookup_i64(t, 1);
    let (te, id) = match (type_enum, runtime_id) {
        (Some(te), Some(id)) => (te, id),
        _ => return,
    };
    let name = match lookup_text(t, 2) {
        Some(n) => n,
        None => String::new(),
    };
    let mut channel = ChatChannel::from_type_enum(te);
    if channel == ChatChannel::Unknown {
        channel = ChatChannel::from_channel_name(name.as_str());
    }
    channels.insert(id, channel);
}

fn handle_left_chat_channel(channels: &mut HashMap<i64, ChatChannel>, t: &Vec<(u8, Value)>)
    ensures
        final(channels)@ == after_left_chat_channel(old(channels)@, table_view(t@)),
{
    match lookup_i64(t, 0) {
        Some(id) => {
            channels.remove(&id);
        },
        None => {},
    }
}

fn map_channel(channels: &HashMap<i64, ChatChannel>, id: i64) -> (c: ChatChannel)
    ensures
        c == resolve_channel(channels@, id),
{
    match channels.get(&id) {
        Some(c) => *c,
        None => ChatChannel::from_static_id(id),
    }
}

// ---------------------------------------------------------------------------
// Chat messages
// ---------------------------------------------------------------------------

/// A decoded chat message.
#[derive(Clone, Debug)]
pub struct ChatMessage {
    /// Local time of decoding, `HH:MM:SS`.
    pub timestamp: String,
    pub channel: ChatChannel,
    pub channel_id: i64,
    pub sender: String,
    pub text: String,
    /// Filled in by translation.
    pub source_lang: Option<String>,
    /// Filled in by translation.
    pub translated_text: Option<String>,
}

/// What a chat event says: channel, runtime channel id, sender and text.
pub struct ChatView {
    pub channel: ChatChannel,
    pub channel_id: i64,
    pub sender: Seq<char>,
    pub text: Seq<char>,
}

impl View for ChatMessage {
    type V = ChatView;

    open spec fn view(&self) -> ChatView {
        ChatView {
            channel: self.channel,
            channel_id: self.channel_id,
            sender: self.sender@,
            text: self.text@,
        }
    }
}

impl ChatMessage {
    /// Fresh from the decoder: stamped with a clock time, not yet
    /// translated.
    pub open spec fn is_fresh(&self) -> bool {
        &&& is_clock_text(self.timestamp@)
        &&& self.source_lang is None
        &&& self.translated_text is None
    }
}

fn new_message(channel: ChatChannel, channel_id: i64, sender: String, text: String) -> (m:
    ChatMessage)
    ensures
        m@ == (ChatView { channel, channel_id, sender: sender@, text: text@ }),
        m.is_fresh(),
{
    ChatMessage {
        timestamp: local_time_hms(),
        channel,
        channel_id,
        sender,
        text,
        source_lang: None,
        translated_text: None,
    }
}

/// ChatMessage (73): runtime channel id, sender and text in parameters 0,
/// 1 and 2; messages on language channels are dropped.
pub open spec fn chat_message_event(m: Map<i64, ChatChannel>, t: Seq<(u8, SValue)>) -> Option<
    ChatView,
> {
    match (param_i64(t, 0), param_text(t, 1), param_text(t, 2)) {
        (Some(id), Some(sender), Some(text)) => {
            let channel = resolve_channel(m, id);
            if channel == ChatChannel::Language {
                None
            } else {
                Some(ChatView { channel, channel_id: id, sender, text })
            }
        },
        _ => None,
    }
}

/// ChatSay (74) and ChatWhisper (75): sender and text in parameters 0 and
/// 1, on the given channel and id.
pub open spec fn direct_chat_event(t: Seq<(u8, SValue)>, channel: ChatChannel, id: i64) -> Option<
    ChatView,
> {
    match (param_text(t, 0), param_text(t, 1)) {
        (Some(sender), Some(text)) => Some(ChatView { channel, channel_id: id, sender, text }),
        _ => None,
    }
}

fn decode_chat_message(channels: &HashMap<i64, ChatChannel>, t: &Vec<(u8, Value)>) -> (r: Option<
    ChatMessage,
>)
    ensures
        match r {
            Some(msg) => chat_message_event(channels@, table_view(t@)) == Some(msg@)
                && msg.is_fresh(),
            None => chat_message_event(channels@, table_view(t@)) is None,
        },
{
    let id = match lookup_i64(t, 0) {
        Some(id) => id,
        None => return None,
    };
    let sender = match lookup_text(t, 1) {
        Some(s) => s,
        None => return None,
    };
    let text = match lookup_text(t, 2) {
        Some(s) => s,
        None => return None,
    };
    let channel = map_channel(channels, id);
    if channel == ChatChannel::Language {
        return None;
    }
    Some(new_message(channel, id, sender, text))
}

fn decode_direct_chat(t: &Vec<(u8, Value)>, channel: ChatChannel, id: i64) -> (r: Option<
    ChatMessage,
>)
    ensures
        match r {
            Some(msg) => direct_chat_event(table_view(t@), channel, id) == Some(msg@)
                && msg.is_fresh(),
            None => direct_chat_event(table_view(t@), channel, id) is None,
        },
{
    let sender = match lookup_text(t, 0) {
        Some(s) => s,
        None => return None,
    };
    let text = match lookup_text(t, 1) {
        Some(s) => s,
        None => return None,
    };
    Some(new_message(channel, id, sender, text))
}

// ---------------------------------------------------------------------------
// Event codes
// ---------------------------------------------------------------------------

/// The events the decoder acts on: ChatMessage, ChatSay, ChatWhisper,
/// NewChatChannels, JoinedChatChannel and LeftChatChannel.
pub open spec fn is_relevant_code(code: int) -> bool {
    code == 73 || code == 74 || code == 75 || code == 206 || code == 207 || code == 208
}

/// The Albion event code carried in a raw parameter-252 value: its low 16
/// bits when they are a relevant code; else, when the low nibble is the
/// version marker 1, the relevant code in the 12 bits above it.
pub open spec fn event_code(raw: i64) -> Option<i32> {
    let low = raw & 0xffff;
    if is_relevant_code(low as int) {
        Some(low as i32)
    } else if low & 0x0f == 1 && is_relevant_code((low >> 4) as int) {
        Some((low >> 4) as i32)
    } else {
        None
    }
}

/// The low 16 bits of a value as a signed 16-bit number.
fn to_signed_short(value: i64) -> (r: i32)
    ensures
        r as int == (if value & 0xffff >= 0x8000 {
            (value & 0xffff) - 0x10000
        } else {
            (value & 0xffff) as int
        }),
{
    let low = value & 0xffff;
    assert(0 <= low <= 0xffff) by (bit_vector)
        requires
            low == value & 0xffff,
    ;
    let mut v: i32 = low as i32;
    if v >= 0x8000 {
        v -= 0x10000;
    }
    v
}

fn is_relevant_event(code: i32) -> (b: bool)
    ensures
        b == is_relevant_code(code as int),
{
    code == 73 || code == 74 || code == 75 || code == 206 || code == 207 || code == 208
}

fn parse_event_code(raw: i64) -> (r: Option<i32>)
    ensures
        r == event_code(raw),
{
    let code = to_signed_short(raw);
    let low = raw & 0xffff;
    assert(0 <= low <= 0xffff) by (bit_vector)
        requires
            low == raw & 0xffff,
    ;
    if is_relevant_event(code) {
        return Some(code);
    }
    let wide: i64 = code as i64;
    let shifted_wide = (wide & 0xffff) >> 4;
    assert((wide & 0xffff) == low && (code & 0x0f) == (low & 0x0f) as i32) by (bit_vector)
        requires
            low == raw & 0xffff,
            0 <= low <= 0xffff,
            wide == code as i64,
            low >= 0x8000 ==> code == (low - 0x10000) as i32,
            low < 0x8000 ==> code == low as i32,
    ;
    assert(0 <= shifted_wide <= 0xfff) by (bit_vector)
        requires
            shifted_wide == (wide & 0xffff) >> 4,
    ;
    let shifted = shifted_wide as i32;
    if (code & 0x0f) == 0x01 && is_relevant_event(shifted) {
        return Some(shifted);
    }
    None
}

// ---------------------------------------------------------------------------
// Event and message steps
// ---------------------------------------------------------------------------

/// The chat view of an optional decoded message.
pub open spec fn chat_of(r: Option<ChatMessage>) -> Option<ChatView> {
    match r {
        Some(m) => Some(m@),
        None => None,
    }
}

/// An optional decoded message that, when present, is fresh.
pub open spec fn fresh_if_some(r: Option<ChatMessage>) -> bool {
    r matches Some(m) ==> m.is_fresh()
}

/// An event message body: the Photon-level event code, then a parameter
/// table.  The Albion event code is taken from parameter 252, except for
/// Photon code 3 (Move), whose code is 3.  Chat events give a message,
/// channel events change the channel map.
#[verifier::opaque]
pub open spec fn event_step(m: Map<i64, ChatChannel>, e: Seq<u8>) -> (
    Map<i64, ChatChannel>,
    Option<ChatView>,
) {
    if e.len() == 0 {
        (m, None)
    } else {
        match param_table(e, 1) {
            None => (m, None),
            Some((t, _)) => {
                let raw = if e[0] == 3 {
                    Some(3i64)
                } else {
                    param_i64(t, 252)
                };
                let code = match raw {
                    Some(r) => event_code(r),
                    None => None,
                };
                match code {
                    Some(c) => if c == 73 {
                        (m, chat_message_event(m, t))
                    } else if c == 74 {
                        (m, direct_chat_event(t, ChatChannel::Say, 0i64))
                    } else if c == 75 {
                        (m, direct_chat_event(t, ChatChannel::Whisper, -1i64))
                    } else if c == 206 {
                        (after_new_chat_channels(m, t), None)
                    } else if c == 207 {
                        (after_joined_chat_channel(m, t), None)
                    } else if c == 208 {
                        (after_left_chat_channel(m, t), None)
                    } else {
                        (m, None)
                    },
                    None => (m, None),
                }
            },
        }
    }
}

/// A Photon message: a prefix byte, the message type, then the body.  Only
/// events (type 4) are acted on.
pub open spec fn message_step(m: Map<i64, ChatChannel>, msg: Seq<u8>) -> (
    Map<i64, ChatChannel>,
    Option<ChatView>,
) {
    if msg.len() >= 2 && msg[1] == 4 {
        event_step(m, msg.subrange(2, msg.len() as int))
    } else {
        (m, None)
    }
}

fn decode_event(channels: &mut HashMap<i64, ChatChannel>, e: &[u8]) -> (r: Option<ChatMessage>)
    ensures
        (final(channels)@, chat_of(r)) == event_step(old(channels)@, e@),
        fresh_if_some(r),
{
    reveal(event_step);
    if e.len() == 0 {
        return None;
    }
    let (t, _) = match read_param_table(e, 1) {
        Some(x) => x,
        None => return None,
    };
    let raw = if e[0] == 3 {
        Some(3i64)
    } else {
        lookup_i64(&t, 252)
    };
    let code = match raw {
        Some(r) => parse_event_code(r),
        None => None,
    };
    match code {
        Some(c) => {
            if c == 73 {
                decode_chat_message(channels, &t)
            } else if c == 74 {
                decode_direct_chat(&t, ChatChannel::Say, 0)
            } else if c == 75 {
                decode_direct_chat(&t, ChatChannel::Whisper, -1)
            } else if c == 206 {
                handle_new_chat_channels(channels, &t);
                None
            } else if c == 207 {
                handle_joined_chat_channel(channels, &t);
                None
            } else if c == 208 {
                handle_left_chat_channel(channels, &t);
                None
            } else {
                None
            }
        },
        None => None,
    }
}

fn decode_message(channels: &mut HashMap<i64, ChatChannel>, msg: &[u8]) -> (r: Option<
    ChatMessage,
>)
    ensures
        (final(channels)@, chat_of(r)) == message_step(old(channels)@, msg@),
        fresh_if_some(r),
{
    if msg.len() >= 2 && msg[1] == 4 {
        decode_event(channels, &msg[2..msg.len()])
    } else {
        None
    }
}

// ---------------------------------------------------------------------------
// Commands and packets
// ---------------------------------------------------------------------------

/// Big-endian unsigned 32-bit number at `p`.
pub open spec fn be_u32(d: Seq<u8>, p: int) -> u32 {
    (d[p] as int * 0x1000000 + d[p + 1] as int * 0x10000 + d[p + 2] as int * 0x100 + d[p
        + 3] as int) as u32
}

/// Big-endian signed 32-bit number at `p`.
pub open spec fn be_i32(d: Seq<u8>, p: int) -> i32 {
    be_u32(d, p) as i32
}

fn read_be_i32(d: &[u8], p: usize) -> (r: i32)
    requires
        p + 4 <= d@.len(),
    ensures
        r == be_i32(d@, p as int),
{
    let v: u32 = (d[p] as u32) * 0x1000000 + (d[p + 1] as u32) * 0x10000 + (d[p + 2] as u32)
        * 0x100 + (d[p + 3] as u32);
    v as i32
}

/// Why a fragment cannot be taken in.
#[derive(Clone, Copy, Debug, PartialEq, Eq, Structural)]
pub enum FragmentError {
    /// The fragment's end offset does not fit in `usize`.
    OffsetOverflow,
    /// A new message announces more bytes than an allocation can hold.
    LengthTooLarge,
}

/// The decoder's state: runtime channel ids mapped to channels, and the
/// messages under reassembly.
pub struct DecoderView {
    pub channels: Map<i64, ChatChannel>,
    pub pending: Map<i32, SPending>,
}

/// What one step of decoding gives.
pub enum Outcome {
    /// Nothing to show; decoding goes on.
    Quiet,
    /// A chat message; decoding of the packet stops.
    Chat(ChatView),
    /// A fragment that cannot be taken in.
    Refused(FragmentError),
}

/// The outcome of a decode call.
pub open spec fn outcome_of(r: Result<Option<ChatMessage>, FragmentError>) -> Outcome {
    match r {
        Ok(Some(m)) => Outcome::Chat(m@),
        Ok(None) => Outcome::Quiet,
        Err(e) => Outcome::Refused(e),
    }
}

/// A message step taken on a decoder state.
pub open spec fn with_channels(
    s: DecoderView,
    step: (Map<i64, ChatChannel>, Option<ChatView>),
) -> (DecoderView, Outcome) {
    (DecoderView { channels: step.0, pending: s.pending }, match step.1 {
        Some(c) => Outcome::Chat(c),
        None => Outcome::Quiet,
    })
}

/// A fragment command body: start sequence number at 0, total length at
/// 12, fragment offset at 16 (big-endian, read as `i32` then widened), the
/// fragment from 20 on.  A completed message is decoded at once.
pub open spec fn fragment_step(s: DecoderView, p: Seq<u8>) -> (DecoderView, Outcome) {
    let seq = be_i32(p, 0);
    let total = (be_i32(p, 12) as usize) as nat;
    let off = (be_i32(p, 16) as usize) as nat;
    let frag = p.subrange(20, p.len() as int);
    if off + frag.len() > usize::MAX {
        (s, Outcome::Refused(FragmentError::OffsetOverflow))
    } else if push_fails(s.pending, seq, total, off, frag) {
        (s, Outcome::Refused(FragmentError::LengthTooLarge))
    } else {
        let (pending, done) = push_result(s.pending, seq, total, off, frag);
        let s1 = DecoderView { channels: s.channels, pending };
        match done {
            Some(msg) => with_channels(s1, message_step(s1.channels, msg)),
            None => (s1, Outcome::Quiet),
        }
    }
}

/// One command: SendReliable (6) carries a message, SendUnreliable (7) a
/// 4-byte sequence number then a message, SendFragment (8) a 20-byte
/// fragment header then a fragment; any other command is skipped.
pub open spec fn command_step(s: DecoderView, kind: u8, p: Seq<u8>) -> (DecoderView, Outcome) {
    if kind == 6 {
        with_channels(s, message_step(s.channels, p))
    } else if kind == 7 {
        if p.len() < 4 {
            (s, Outcome::Quiet)
        } else {
            with_channels(s, message_step(s.channels, p.subrange(4, p.len() as int)))
        }
    } else if kind == 8 {
        if p.len() < 20 {
            (s, Outcome::Quiet)
        } else {
            fragment_step(s, p)
        }
    } else {
        (s, Outcome::Quiet)
    }
}

/// Up to `n` commands from offset `off`.  Each has a 12-byte header whose
/// bytes 4..8 give the command's whole length (big-endian); a truncated
/// header, a length below 12 or one that runs past the packet ends the
/// walk, as does the first step that is not quiet.
pub open spec fn walk(s: DecoderView, d: Seq<u8>, off: int, n: nat) -> (DecoderView, Outcome)
    decreases n,
{
    if n == 0 || d.len() - off < 12 {
        (s, Outcome::Quiet)
    } else {
        let len = be_i32(d, off + 4);
        if len < 12 || d.len() < off + len {
            (s, Outcome::Quiet)
        } else {
            let (s1, o) = command_step(s, d[off], d.subrange(off + 12, off + len));
            match o {
                Outcome::Quiet => walk(s1, d, off + len, (n - 1) as nat),
                _ => (s1, o),
            }
        }
    }
}

/// A packet: peer id (2 bytes), flags, command count, timestamp and
/// challenge (4 bytes each), then the commands.  Packets shorter than the
/// header and encrypted packets (flags 1) are skipped.
pub open spec fn decode_step(s: DecoderView, d: Seq<u8>) -> (DecoderView, Outcome) {
    if d.len() < 12 || d[2] == 1 {
        (s, Outcome::Quiet)
    } else {
        walk(s, d, 12, d[3] as nat)
    }
}

/// Every message under reassembly is still waiting and has its buffer.
pub open spec fn decoder_ok(s: DecoderView) -> bool {
    forall|k: i32| #[trigger] s.pending.contains_key(k) ==> crate::fragments::pending_ok(s.pending[k])
}

/// Decodes Photon packets into chat messages, keeping the channel map and
/// the fragments under reassembly between packets.
#[derive(Clone, Debug)]
pub struct PhotonDecoder {
    channel_map: HashMap<i64, ChatChannel>,
    fragments: FragmentReassembler,
}

impl View for PhotonDecoder {
    type V = DecoderView;

    closed spec fn view(&self) -> DecoderView {
        DecoderView { channels: self.channel_map@, pending: self.fragments@ }
    }
}

impl PhotonDecoder {
    pub open spec fn wf(&self) -> bool {
        decoder_ok(self@)
    }

    /// A decoder with no channel mappings and nothing under reassembly.
    pub fn new() -> (r: Self)
        ensures
            r.wf(),
            r@ == (DecoderView { channels: Map::empty(), pending: Map::empty() }),
    {
        let r = PhotonDecoder { channel_map: HashMap::new(), fragments: FragmentReassembler::new() };
        assert(r@.channels =~= Map::empty());
        r
    }

    /// A decoder that starts from the given channel mappings (for
    /// mappings restored from disk or assigned by hand).
    pub fn with_channel_map(map: HashMap<i64, ChatChannel>) -> (r: Self)
        ensures
            r.wf(),
            r@ == (DecoderView { channels: map@, pending: Map::empty() }),
    {
        PhotonDecoder { channel_map: map, fragments: FragmentReassembler::new() }
    }

    /// The current channel mappings.
    pub fn channel_map(&self) -> (m: &HashMap<i64, ChatChannel>)
        ensures
            m@ == self@.channels,
    {
        &self.channel_map
    }

    /// Maps a runtime channel id to a channel by hand.
    pub fn set_channel_mapping(&mut self, channel_id: i64, channel: ChatChannel)
        requires
            old(self).wf(),
        ensures
            final(self).wf(),
            final(self)@ == (DecoderView {
                channels: old(self)@.channels.insert(channel_id, channel),
                pending: old(self)@.pending,
            }),
    {
        self.channel_map.insert(channel_id, channel);
    }

    fn fragment(&mut self, p: &[u8]) -> (r: Result<Option<ChatMessage>, FragmentError>)
        requires
            old(self).wf(),
            p@.len() >= 20,
        ensures
            final(self).wf(),
            (final(self)@, outcome_of(r)) == fragment_step(old(self)@, p@),
            r matches Ok(m) ==> fresh_if_some(m),
    {
        let seq = read_be_i32(p, 0);
        let total = read_be_i32(p, 12) as usize;
        let off = read_be_i32(p, 16) as usize;
        let frag = &p[20..p.len()];
        if off > usize::MAX - frag.len() {
            return Err(FragmentError::OffsetOverflow);
        }
        if off + frag.len() <= total && !self.fragments.is_pending(seq) && total > isize::MAX
            as usize {
            return Err(FragmentError::LengthTooLarge);
        }
        match self.fragments.push_fragment(seq, total, off, frag) {
            Some(done) => Ok(decode_message(&mut self.channel_map, done.as_slice())),
            None => Ok(None),
        }
    }

    fn command(&mut self, kind: u8, p: &[u8]) -> (r: Result<Option<ChatMessage>, FragmentError>)
        requires
            old(self).wf(),
        ensures
            final(self).wf(),
            (final(self)@, outcome_of(r)) == command_step(old(self)@, kind, p@),
            r matches Ok(m) ==> fresh_if_some(m),
    {
        if kind == 6 {
            let m = decode_message(&mut self.channel_map, p);
            assert(self@.pending == old(self)@.pending);
            Ok(m)
        } else if kind == 7 {
            if p.len() < 4 {
                Ok(None)
            } else {
                let m = decode_message(&mut self.channel_map, &p[4..p.len()]);
                assert(self@.pending == old(self)@.pending);
                Ok(m)
            }
        } else if kind == 8 {
            if p.len() < 20 {
                Ok(None)
            } else {
                self.fragment(p)
            }
        } else {
            Ok(None)
        }
    }

    /// Decodes one UDP payload.  Gives the first chat message that its
    /// commands carry, after applying the channel events before it; the
    /// error when a fragment cannot be taken in.
    pub fn try_decode(&mut self, data: &[u8]) -> (r: Result<Option<ChatMessage>, FragmentError>)
        requires
            old(self).wf(),
        ensures
            final(self).wf(),
            (final(self)@, outcome_of(r)) == decode_step(old(self)@, data@),
            r matches Ok(m) ==> fresh_if_some(m),
    {
        let n = data.len();
        if n < 12 || data[2] == 1 {
            return Ok(None);
        }
        let count = data[3];
        let mut offset: usize = 12;
        let mut i: u8 = 0;
        while i < count
            invariant
                n == data@.len(),
                12 <= offset <= n,
                i <= count,
                self.wf(),
                decode_step(old(self)@, data@) == walk(self@, data@, offset as int, (count - i) as nat),
            decreases count - i,
        {
            if n - offset < 12 {
                return Ok(None);
            }
            let len = read_be_i32(data, offset + 4);
            if len < 12 {
                return Ok(None);
            }
            let len = len as usize;
            if n - offset < len {
                return Ok(None);
            }
            let next = offset + len;
            let r = self.command(data[offset], &data[offset + 12..next]);
            match r {
                Ok(None) => {},
                _ => return r,
            }
            offset = next;
            i += 1;
        }
        Ok(None)
    }

    /// Decodes one UDP payload into the first chat message it carries, if
    /// any.  Messages on language channels are dropped, and a fragment that
    /// cannot be taken in (a negative or oversized length or offset) gives
    /// nothing.
    pub fn decode(&mut self, data: &[u8]) -> (r: Option<ChatMessage>)
        requires
            old(self).wf(),
        ensures
            final(self).wf(),
            final(self)@ == decode_step(old(self)@, data@).0,
            chat_of(r) == match decode_step(old(self)@, data@).1 {
                Outcome::Chat(c) => Some(c),
                _ => None,
            },
            fresh_if_some(r),
    {
        match self.try_decode(data) {
            Ok(m) => m,
            Err(_) => None,
        }
    }
}

// ---------------------------------------------------------------------------
// Laws
// ---------------------------------------------------------------------------

proof fn lemma_event_not_language(m: Map<i64, ChatChannel>, e: Seq<u8>)
    ensures
        event_step(m, e).1 matches Some(c) ==> c.channel != ChatChannel::Language,
{
    reveal(event_step);
}

proof fn lemma_command_not_language(s: DecoderView, kind: u8, p: Seq<u8>)
    ensures
        command_step(s, kind, p).1 matches Outcome::Chat(c) ==> c.channel != ChatChannel::Language,
{
    lemma_event_not_language(s.channels, p.subrange(2, p.len() as int));
    let q = p.subrange(4, p.len() as int);
    lemma_event_not_language(s.channels, q.subrange(2, q.len() as int));
    if kind == 8 && p.len() >= 20 {
        let seq = be_i32(p, 0);
        let total = (be_i32(p, 12) as usize) as nat;
        let off = (be_i32(p, 16) as usize) as nat;
        let frag = p.subrange(20, p.len() as int);
        let (pending, done) = push_result(s.pending, seq, total, off, frag);
        if let Some(msg) = done {
            lemma_event_not_language(s.channels, msg.subrange(2, msg.len() as int));
        }
    }
}

proof fn lemma_walk_not_language(s: DecoderView, d: Seq<u8>, off: int, n: nat)
    ensures
        walk(s, d, off, n).1 matches Outcome::Chat(c) ==> c.channel != ChatChannel::Language,
    decreases n,
{
    if n > 0 && d.len() - off >= 12 {
        let len = be_i32(d, off + 4);
        if len >= 12 && d.len() >= off + len {
            lemma_command_not_language(s, d[off], d.subrange(off + 12, off + len));
            let (s1, o) = command_step(s, d[off], d.subrange(off + 12, off + len));
            lemma_walk_not_language(s1, d, off + len, (n - 1) as nat);
        }
    }
}

/// Decoding never gives a message on a language channel: those are
/// dropped.
pub proof fn law_no_language_messages(s: DecoderView, d: Seq<u8>)
    ensures
        decode_step(s, d).1 matches Outcome::Chat(c) ==> c.channel != ChatChannel::Language,
{
    if d.len() >= 12 && d[2] != 1 {
        lemma_walk_not_language(s, d, 12, d[3] as nat);
    }
}

/// After a JoinedChatChannel event, a ChatMessage on the joined runtime id
/// is shown on the announced channel (and dropped when that is a language
/// channel), whatever the map held before.
pub proof fn law_join_then_message(
    m: Map<i64, ChatChannel>,
    join: Seq<(u8, SValue)>,
    msg: Seq<(u8, SValue)>,
    type_enum: i64,
    id: i64,
)
    requires
        param_i64(join, 0) == Some(type_enum),
        param_i64(join, 1) == Some(id),
        param_i64(msg, 0) == Some(id),
        param_text(msg, 1) is Some,
        param_text(msg, 2) is Some,
    ensures
        ({
            let c = joined_channel(type_enum, joined_name(join));
            chat_message_event(after_joined_chat_channel(m, join), msg) == if c
                == ChatChannel::Language {
                None
            } else {
                Some(
                    ChatView {
                        channel: c,
                        channel_id: id,
                        sender: param_text(msg, 1).unwrap(),
                        text: param_text(msg, 2).unwrap(),
                    },
                )
            }
        }),
{
}

/// After a LeftChatChannel event, a ChatMessage on the left runtime id
/// falls back to the well-known channel ids.
pub proof fn law_leave_then_message(
    m: Map<i64, ChatChannel>,
    leave: Seq<(u8, SValue)>,
    msg: Seq<(u8, SValue)>,
    id: i64,
)
    requires
        param_i64(leave, 0) == Some(id),
        param_i64(msg, 0) == Some(id),
    ensures
        resolve_channel(after_left_chat_channel(m, leave), id) == static_channel(id),
        chat_message_event(after_left_chat_channel(m, leave), msg) == chat_message_event(
            Map::empty(),
            msg,
        ),
{
}

proof fn lemma_assign_all(m: Map<i64, ChatChannel>, ids: Seq<i64>, c: ChatChannel, k: i64)
    ensures
        ids.contains(k) ==> assign_all(m, ids, c).contains_key(k) && assign_all(m, ids, c)[k]
            == c,
        !ids.contains(k) ==> (assign_all(m, ids, c).contains_key(k) == m.contains_key(k)
            && assign_all(m, ids, c)[k] == m[k]),
    decreases ids.len(),
{
    if ids.len() > 0 {
        lemma_assign_all(m, ids.drop_last(), c, k);
        if ids.contains(k) && k != ids.last() {
            let j = choose|j: int| 0 <= j < ids.len() && ids[j] == k;
            assert(ids.drop_last()[j] == k);
        }
        if !ids.contains(k) {
            assert forall|j: int| 0 <= j < ids.drop_last().len() implies ids.drop_last()[j] != k by {
                assert(ids.drop_last()[j] == ids[j]);
            }
        }
        assert(ids[ids.len() - 1] == ids.last());
    }
}

/// A NewChatChannels roster maps every listed runtime id to the roster's
/// channel and leaves every other id as it was.
pub proof fn law_roster_assigns_listed_ids(
    m: Map<i64, ChatChannel>,
    t: Seq<(u8, SValue)>,
    type_enum: i64,
    ids: Seq<i64>,
    k: i64,
)
    requires
        table_get(t, 0) matches Some(v) && roster_type_enum(v) == Some(type_enum),
        table_get(t, 1) matches Some(v) && runtime_ids(v) == ids,
        ids.len() > 0,
    ensures
        ids.contains(k) ==> resolve_channel(after_new_chat_channels(m, t), k)
            == channel_for_type_enum(type_enum),
        !ids.contains(k) ==> resolve_channel(after_new_chat_channels(m, t), k) == resolve_channel(
            m,
            k,
        ),
{
    lemma_assign_all(m, ids, channel_for_type_enum(type_enum), k);
}

/// A message that arrives as two fragments (the first at offset 0, the
/// second right after it, both announcing the whole length) decodes, once
/// the second arrives, exactly as if it had come whole in a reliable
/// command; the first fragment alone shows nothing and changes no channel.
pub proof fn law_fragments_decode_like_whole(s: DecoderView, p1: Seq<u8>, p2: Seq<u8>)
    requires
        p1.len() > 20,
        p2.len() > 20,
        be_i32(p1, 0) == be_i32(p2, 0),
        !s.pending.contains_key(be_i32(p1, 0)),
        (be_i32(p1, 12) as usize) as nat == (p1.len() - 20) + (p2.len() - 20),
        (be_i32(p2, 12) as usize) as nat == (p1.len() - 20) + (p2.len() - 20),
        (be_i32(p1, 16) as usize) as nat == 0,
        (be_i32(p2, 16) as usize) as nat == p1.len() - 20,
        (p1.len() - 20) + (p2.len() - 20) <= isize::MAX,
    ensures
        ({
            let (s1, o1) = command_step(s, 8, p1);
            &&& o1 is Quiet
            &&& s1.channels == s.channels
            &&& command_step(s1, 8, p2) == command_step(
                s,
                6,
                p1.subrange(20, p1.len() as int) + p2.subrange(20, p2.len() as int),
            )
        }),
{
    let a = p1.subrange(20, p1.len() as int);
    let b = p2.subrange(20, p2.len() as int);
    let seq = be_i32(p1, 0);
    crate::fragments::law_two_fragments_reassemble(s.pending, seq, a, b);
}

proof fn lemma_walk_shift(s: DecoderView, d1: Seq<u8>, o1: int, d2: Seq<u8>, o2: int, n: nat)
    requires
        0 <= o1 <= d1.len(),
        0 <= o2 <= d2.len(),
        d1.skip(o1) == d2.skip(o2),
    ensures
        walk(s, d1, o1, n) == walk(s, d2, o2, n),
    decreases n,
{
    let t = d1.skip(o1);
    assert(d1.len() - o1 == t.len() && d2.len() - o2 == t.len());
    assert forall|j: int| 0 <= j < t.len() implies d1[o1 + j] == #[trigger] t[j] && d2[o2 + j]
        == t[j] by {
        assert(d2.skip(o2)[j] == d2[o2 + j]);
    }
    if n > 0 && d1.len() - o1 >= 12 {
        assert(d1[o1 + 4] == t[4] && d1[o1 + 5] == t[5] && d1[o1 + 6] == t[6] && d1[o1 + 7] == t[7]);
        assert(d2[o2 + 4] == t[4] && d2[o2 + 5] == t[5] && d2[o2 + 6] == t[6] && d2[o2 + 7] == t[7]);
        assert(be_i32(d1, o1 + 4) == be_i32(d2, o2 + 4));
        let len = be_i32(d1, o1 + 4) as int;
        if len >= 12 && d1.len() >= o1 + len {
            assert(d1[o1 + 0] == t[0] && d2[o2 + 0] == t[0]);
            assert(d1.subrange(o1 + 12, o1 + len) =~= d2.subrange(o2 + 12, o2 + len)) by {
                assert forall|j: int| 0 <= j < len - 12 implies #[trigger] d1.subrange(o1 + 12, o1 + len)[j]
                    == d2.subrange(o2 + 12, o2 + len)[j] by {
                    assert(d1[o1 + 12 + j] == t[12 + j]);
                    assert(d2[o2 + 12 + j] == t[12 + j]);
                }
            }
            let (s1, o) = command_step(s, d1[o1], d1.subrange(o1 + 12, o1 + len));
            assert(d1.skip(o1 + len) =~= d2.skip(o2 + len)) by {
                assert forall|j: int| 0 <= j < d1.len() - o1 - len implies #[trigger] d1.skip(o1 + len)[j]
                    == d2.skip(o2 + len)[j] by {
                    assert(d1[o1 + len + j] == t[len + j]);
                    assert(d2[o2 + len + j] == t[len + j]);
                }
            }
            lemma_walk_shift(s1, d1, o1 + len, d2, o2 + len, (n - 1) as nat);
        }
    }
}

/// A well-formed first command that shows nothing does not end decoding:
/// the packet decodes as the rest of its commands would, in a packet of
/// the same header that counts one command fewer, from the state the first
/// command left.  So a chat event carried by any command within the count
/// is found when the commands before it are quiet.
pub proof fn law_quiet_command_continues(s: DecoderView, d: Seq<u8>)
    requires
        d.len() >= 24,
        d[2] != 1,
        d[3] >= 1,
        be_i32(d, 16) >= 12,
        d.len() >= 12 + be_i32(d, 16),
        command_step(s, d[12], d.subrange(24, 12 + be_i32(d, 16))).1 is Quiet,
    ensures
        ({
            let len = be_i32(d, 16) as int;
            let s1 = command_step(s, d[12], d.subrange(24, 12 + len)).0;
            let rest = d.take(12).update(3, (d[3] - 1) as u8) + d.skip(12 + len);
            decode_step(s, d) == decode_step(s1, rest)
        }),
{
    let len = be_i32(d, 16) as int;
    let s1 = command_step(s, d[12], d.subrange(24, 12 + len)).0;
    let rest = d.take(12).update(3, (d[3] - 1) as u8) + d.skip(12 + len);
    assert(rest.len() >= 12);
    assert(rest[2] == d[2]);
    assert(rest[3] == (d[3] - 1) as u8);
    assert(rest.skip(12) =~= d.skip(12 + len));
    lemma_walk_shift(s1, d, 12 + len, rest, 12, (d[3] - 1) as nat);
}

} // verus!
