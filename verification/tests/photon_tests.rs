use albion_translator::channel::ChatChannel;
use albion_translator::fragments::FragmentReassembler;
use albion_translator::photon::{FragmentError, PhotonDecoder};

#[test]
fn reassembles_fragmented_messages() {
    let mut reassembler = FragmentReassembler::new();

    // Message split into two fragments (16 bytes total)
    let fragment1 = vec![1u8; 8];
    let fragment2 = vec![2u8; 8];

    assert!(reassembler.push_fragment(100, 16, 0, &fragment1).is_none());
    let complete = reassembler
        .push_fragment(100, 16, 8, &fragment2)
        .expect("should complete");
    assert_eq!(complete.len(), 16);
    assert_eq!(&complete[0..8], &[1u8; 8]);
    assert_eq!(&complete[8..16], &[2u8; 8]);
}

#[test]
fn rejects_out_of_bounds_fragments() {
    let mut reassembler = FragmentReassembler::new();
    assert!(reassembler.push_fragment(1, 10, 8, &[1u8; 4]).is_none());
}

/// A Photon packet with a single SendUnreliable (type 7) command carrying a
/// chat event; the Albion event code is appended to the parameter table as
/// key 252.
fn build_chat_packet(event_code: u8, params: &[u8]) -> Vec<u8> {
    let mut param_table = vec![params[0] + 1]; // param count + the 252 entry
    param_table.extend_from_slice(&params[1..]);
    param_table.extend_from_slice(&[0xfc, 0x0b, event_code]); // key 252, type u8, code

    let mut msg = vec![0x00]; // prefix byte (skipped by message parser)
    msg.push(0x04); // event message
    msg.push(0x01); // photon-level code
    msg.extend_from_slice(&param_table);

    let mut pkt = Vec::new();
    pkt.extend_from_slice(&[0x00, 0x00]); // peer_id
    pkt.push(0x00); // flags (not encrypted)
    pkt.push(0x01); // command_count
    pkt.extend_from_slice(&[0x5c, 0x5f, 0x3b, 0x7e]); // timestamp
    pkt.extend_from_slice(&[0x27, 0x3f, 0xce, 0x4d]); // challenge
    pkt.push(0x07); // cmd_type = SendUnreliable
    pkt.push(0x00); // channel
    pkt.push(0x00); // cmd_flags
    pkt.push(0x00); // reserved
    let len_offset = pkt.len();
    pkt.extend_from_slice(&[0x00, 0x00, 0x00, 0x00]); // cmd_length placeholder
    pkt.extend_from_slice(&[0x00, 0x00, 0x09, 0x36]); // sequence
    pkt.extend_from_slice(&[0x00, 0x00, 0x42, 0x71]); // unreliable sequence
    pkt.extend_from_slice(&msg);

    let cmd_len = 12 + 4 + msg.len();
    pkt[len_offset..len_offset + 4].copy_from_slice(&(cmd_len as u32).to_be_bytes());
    pkt
}

#[test]
fn decodes_chat_message_event() {
    let params = [
        0x03, // param table size
        0x00, 0x0A, 0x00, // key 0, compressed i64, channel_id 0
        0x01, 0x07, 0x04, b'A', b'l', b'b', b'i', // key 1, string "Albi"
        0x02, 0x07, 0x05, b'H', b'e', b'l', b'l', b'o', // key 2, string "Hello"
    ];
    let mut decoder = PhotonDecoder::new();
    let msg = decoder.decode(&build_chat_packet(73, &params)).expect("chat message");

    assert_eq!(msg.sender, "Albi");
    assert_eq!(msg.text, "Hello");
    assert_eq!(msg.channel, ChatChannel::Say);
}

#[test]
fn decodes_chat_say_event() {
    let params = [
        0x02, // param table size
        0x00, 0x07, 0x04, b'A', b'l', b'b', b'i', // key 0, string "Albi"
        0x01, 0x07, 0x09, b'H', b'i', b' ', b't', b'h', b'e', b'r', b'e', b'!', // "Hi there!"
    ];
    let mut decoder = PhotonDecoder::new();
    let msg = decoder.decode(&build_chat_packet(74, &params)).expect("chat say");

    assert_eq!(msg.sender, "Albi");
    assert_eq!(msg.text, "Hi there!");
    assert_eq!(msg.channel, ChatChannel::Say);
}

#[test]
fn ignores_non_chat_events() {
    let params = [
        0x01, // param table size
        0x00, 0x0A, 0x05, // key 0, compressed i64, value 5
    ];
    let mut decoder = PhotonDecoder::new();
    assert!(decoder.decode(&build_chat_packet(3, &params)).is_none());
}

#[test]
fn resolves_channel_from_join_event() {
    let join_params = [
        0x02, // param table size
        0x00, 0x0B, 24, // key 0, type u8, chat_index 24 (Guild)
        0x01, 0x0A, 0x54, // key 1, compressed i64, channel_id 42
    ];
    let mut decoder = PhotonDecoder::new();
    assert!(decoder.decode(&build_chat_packet(207, &join_params)).is_none());

    let msg_params = [
        0x03, // param table size
        0x00, 0x0A, 0x54, // key 0, compressed i64, channel_id 42
        0x01, 0x07, 0x04, b'A', b'l', b'b', b'i', // key 1, string "Albi"
        0x02, 0x07, 0x05, b'H', b'e', b'l', b'l', b'o', // key 2, string "Hello"
    ];
    let msg = decoder
        .decode(&build_chat_packet(73, &msg_params))
        .expect("chat message after join");
    assert_eq!(msg.channel, ChatChannel::Guild);
}

#[test]
fn leaves_channel_falls_back_to_static_default() {
    let join_params = [
        0x02, 0x00, 0x0B, 24, 0x01, 0x0A, 0x54, // index 24 (Guild), id 42
    ];
    let mut decoder = PhotonDecoder::new();
    decoder.decode(&build_chat_packet(207, &join_params));

    let leave_params = [
        0x01, // param table size
        0x00, 0x0A, 0x54, // key 0, compressed i64, channel_id 42
    ];
    decoder.decode(&build_chat_packet(208, &leave_params));

    let msg_params = [
        0x03, 0x00, 0x0A, 0x54, 0x01, 0x07, 0x04, b'A', b'l', b'b', b'i', 0x02, 0x07, 0x05, b'H',
        b'e', b'l', b'l', b'o',
    ];
    let msg = decoder
        .decode(&build_chat_packet(73, &msg_params))
        .expect("chat message after leave");
    assert_eq!(msg.channel, ChatChannel::Unknown);
}

#[test]
fn unknown_type_enum_resolves_to_unknown() {
    let join_params = [
        0x02, 0x00, 0x0B, 30, 0x01, 0x0A, 0x54, // type enum 30 (unmapped), runtime id 42
    ];
    let mut decoder = PhotonDecoder::new();
    decoder.decode(&build_chat_packet(207, &join_params));

    let msg_params = [
        0x03, 0x00, 0x0A, 0x54, 0x01, 0x07, 0x04, b'A', b'l', b'b', b'i', 0x02, 0x07, 0x05, b'H',
        b'e', b'l', b'l', b'o',
    ];
    let msg = decoder
        .decode(&build_chat_packet(73, &msg_params))
        .expect("chat message with unmapped index");
    assert_eq!(msg.channel, ChatChannel::Unknown);
}

fn fragment_packet(msg: &[u8], fragment: &[u8], offset: usize) -> Vec<u8> {
    let mut p = Vec::new();
    p.extend_from_slice(&[0x00, 0x00]); // peer_id
    p.push(0x00); // flags
    p.push(0x01); // command_count
    p.extend_from_slice(&[0x5c, 0x5f, 0x3b, 0x7e]); // timestamp
    p.extend_from_slice(&[0x27, 0x3f, 0xce, 0x4d]); // challenge
    p.push(0x08); // cmd_type = SendFragment
    p.push(0x00); // channel
    p.push(0x00); // cmd_flags
    p.push(0x00); // reserved
    let len_offset = p.len();
    p.extend_from_slice(&[0x00, 0x00, 0x00, 0x00]); // cmd_length placeholder
    p.extend_from_slice(&[0x00, 0x00, 0x00, 0x2A]); // command sequence
    p.extend_from_slice(&[0x00, 0x00, 0x00, 0x2A]); // start_sequence_number
    p.extend_from_slice(&[0x00, 0x00, 0x00, 0x00]); // (unused)
    p.extend_from_slice(&[0x00, 0x00, 0x00, 0x00]); // (unused)
    p.extend_from_slice(&(msg.len() as u32).to_be_bytes()); // total_length
    p.extend_from_slice(&(offset as u32).to_be_bytes()); // fragment_offset
    p.extend_from_slice(fragment);
    let cmd_len = 12 + 20 + fragment.len();
    p[len_offset..len_offset + 4].copy_from_slice(&(cmd_len as u32).to_be_bytes());
    p
}

#[test]
fn decodes_fragmented_chat_event() {
    let params = [
        0x04, 0x00, 0x0A, 0x00, 0x01, 0x07, 0x04, b'A', b'l', b'b', b'i', 0x02, 0x07, 0x05, b'H',
        b'e', b'l', b'l', b'o', 0xfc, 0x0b, 73,
    ];
    let msg = {
        let mut m = vec![0x00]; // prefix
        m.push(0x04); // event message
        m.push(0x01); // photon-level code
        m.extend_from_slice(&params);
        m
    };
    let (first, second) = msg.split_at(10);

    let mut decoder = PhotonDecoder::new();
    // First fragment: not complete yet
    assert!(decoder.decode(&fragment_packet(&msg, first, 0)).is_none());
    // Second fragment completes the message
    let decoded = decoder
        .decode(&fragment_packet(&msg, second, first.len()))
        .expect("fragmented chat");
    assert_eq!(decoded.sender, "Albi");
    assert_eq!(decoded.text, "Hello");
}

#[test]
fn static_id_2_is_language_dropped() {
    let msg_params = [
        0x03, 0x00, 0x0A, 0x04, 0x01, 0x07, 0x04, b'A', b'l', b'b', b'i', 0x02, 0x07, 0x05, b'H',
        b'e', b'l', b'l', b'o',
    ];
    let mut decoder = PhotonDecoder::new();
    assert!(decoder.decode(&build_chat_packet(73, &msg_params)).is_none());
}

#[test]
fn language_channel_dropped_via_join_name() {
    let join_params = [
        0x03, // param table size
        0x00, 0x0B, 30, // key 0, type u8, type enum 30 (unmapped)
        0x01, 0x0A, 0x54, // key 1, compressed i64, runtime id 42
        0x02, 0x07, 0x07, b'E', b'n', b'g', b'l', b'i', b's', b'h', // key 2, "English"
    ];
    let mut decoder = PhotonDecoder::new();
    decoder.decode(&build_chat_packet(207, &join_params));

    let msg_params = [
        0x03, 0x00, 0x0A, 0x54, 0x01, 0x07, 0x04, b'A', b'l', b'b', b'i', 0x02, 0x07, 0x05, b'H',
        b'e', b'l', b'l', b'o',
    ];
    assert!(decoder.decode(&build_chat_packet(73, &msg_params)).is_none());
}

#[test]
fn language_channel_names_detected() {
    assert_eq!(ChatChannel::from_channel_name("English"), ChatChannel::Language);
    assert_eq!(ChatChannel::from_channel_name("Español"), ChatChannel::Language);
    assert_eq!(ChatChannel::from_channel_name("Português"), ChatChannel::Language);
    assert_eq!(ChatChannel::from_channel_name("Français"), ChatChannel::Language);
    assert_eq!(ChatChannel::from_channel_name("Deutsch"), ChatChannel::Language);
    assert_eq!(ChatChannel::from_channel_name("Русский"), ChatChannel::Language);
    assert_eq!(ChatChannel::from_channel_name("International"), ChatChannel::Language);
    assert_eq!(ChatChannel::from_channel_name("Trade"), ChatChannel::Trade);
    assert_eq!(ChatChannel::from_channel_name("LFG"), ChatChannel::LFG);
    assert_eq!(ChatChannel::from_channel_name("Global"), ChatChannel::Global);
}

// ---------------------------------------------------------------------------
// Further cases
// ---------------------------------------------------------------------------

#[test]
fn whisper_event_uses_whisper_channel() {
    let params = [
        0x02, 0x00, 0x07, 0x03, b'B', b'o', b'b', 0x01, 0x07, 0x02, b'h', b'i',
    ];
    let mut decoder = PhotonDecoder::new();
    let msg = decoder.decode(&build_chat_packet(75, &params)).expect("whisper");
    assert_eq!(msg.channel, ChatChannel::Whisper);
    assert_eq!(msg.channel_id, -1);
    assert_eq!(msg.sender, "Bob");
    assert_eq!(msg.text, "hi");
    assert!(msg.source_lang.is_none());
    assert!(msg.translated_text.is_none());
}

#[test]
fn fresh_messages_carry_a_clock_timestamp() {
    let params = [
        0x02, 0x00, 0x07, 0x03, b'B', b'o', b'b', 0x01, 0x07, 0x02, b'h', b'i',
    ];
    let mut decoder = PhotonDecoder::new();
    let msg = decoder.decode(&build_chat_packet(74, &params)).expect("say");
    let t: Vec<char> = msg.timestamp.chars().collect();
    assert_eq!(t.len(), 8);
    assert_eq!(t[2], ':');
    assert_eq!(t[5], ':');
    for (i, c) in t.iter().enumerate() {
        if i != 2 && i != 5 {
            assert!(c.is_ascii_digit());
        }
    }
}

#[test]
fn short_and_encrypted_packets_are_skipped() {
    let params = [
        0x02, 0x00, 0x07, 0x03, b'B', b'o', b'b', 0x01, 0x07, 0x02, b'h', b'i',
    ];
    let mut decoder = PhotonDecoder::new();
    let mut pkt = build_chat_packet(74, &params);
    assert!(decoder.decode(&pkt[..11]).is_none());
    pkt[2] = 1; // encrypted
    assert!(decoder.decode(&pkt).is_none());
}

#[test]
fn versioned_event_code_is_recognised() {
    // (74 << 4) | 1 = 0x04a1, sent as a compressed i64 (zig-zag 0x0942).
    let mut msg = vec![0x00, 0x04, 0x01, 0x03];
    msg.extend_from_slice(&[0x00, 0x07, 0x03, b'B', b'o', b'b']);
    msg.extend_from_slice(&[0x01, 0x07, 0x02, b'h', b'i']);
    msg.extend_from_slice(&[0xfc, 0x0a, 0xc2, 0x12]);
    let mut pkt = vec![0, 0, 0, 1, 0, 0, 0, 0, 0, 0, 0, 0];
    pkt.extend_from_slice(&[0x06, 0, 0, 0]);
    pkt.extend_from_slice(&((12 + msg.len()) as u32).to_be_bytes());
    pkt.extend_from_slice(&[0, 0, 0, 1]);
    pkt.extend_from_slice(&msg);
    let mut decoder = PhotonDecoder::new();
    let m = decoder.decode(&pkt).expect("versioned say");
    assert_eq!(m.channel, ChatChannel::Say);
    assert_eq!(m.text, "hi");
}

#[test]
fn roster_event_maps_listed_ids_from_hex_type_enum() {
    // NewChatChannels (206): param 0 = "1b000000" (27 = Say), param 1 = [7, 9].
    let params = [
        0x02, 0x00, 0x07, 0x08, b'1', b'b', b'0', b'0', b'0', b'0', b'0', b'0', 0x01, 0x17, 0x02,
        0x0a, 0x0e, 0x0a, 0x12,
    ];
    let mut decoder = PhotonDecoder::new();
    assert!(decoder.decode(&build_chat_packet(206, &params)).is_none());
    assert_eq!(decoder.channel_map().get(&7), Some(&ChatChannel::Say));
    assert_eq!(decoder.channel_map().get(&9), Some(&ChatChannel::Say));
    assert_eq!(decoder.channel_map().len(), 2);
}

#[test]
fn manual_mapping_resolves_messages() {
    let mut decoder = PhotonDecoder::new();
    decoder.set_channel_mapping(25813, ChatChannel::Guild);
    // runtime id 25813 as compressed i64: zig-zag 51626 = 0xc9aa -> aa 93 03
    let msg_params = [
        0x03, 0x00, 0x0A, 0xaa, 0x93, 0x03, 0x01, 0x07, 0x01, b'A', 0x02, 0x07, 0x01, b'B',
    ];
    let msg = decoder.decode(&build_chat_packet(73, &msg_params)).expect("mapped");
    assert_eq!(msg.channel, ChatChannel::Guild);
    assert_eq!(msg.channel_id, 25813);
}

#[test]
fn out_of_range_fragment_offset_is_refused() {
    // A fragment whose offset reads as a negative i32 widens past usize.
    let mut p = vec![0, 0, 0, 1, 0, 0, 0, 0, 0, 0, 0, 0];
    p.extend_from_slice(&[0x08, 0, 0, 0]);
    p.extend_from_slice(&((12 + 20 + 4) as u32).to_be_bytes());
    p.extend_from_slice(&[0, 0, 0, 1]);
    p.extend_from_slice(&[0, 0, 0, 5]); // start sequence
    p.extend_from_slice(&[0; 8]);
    p.extend_from_slice(&[0, 0, 0, 10]); // total 10
    p.extend_from_slice(&[0xff, 0xff, 0xff, 0xff]); // offset -1
    p.extend_from_slice(&[1, 2, 3, 4]);
    let mut decoder = PhotonDecoder::new();
    assert_eq!(decoder.try_decode(&p).err(), Some(FragmentError::OffsetOverflow));
}

#[test]
fn fragment_with_conflicting_total_is_ignored() {
    let mut reassembler = FragmentReassembler::new();
    assert!(reassembler.push_fragment(7, 8, 0, &[1, 2]).is_none());
    assert!(reassembler.push_fragment(7, 9, 2, &[3, 4, 5, 6, 7, 8]).is_none());
    assert!(reassembler.is_pending(7));
    let whole = reassembler.push_fragment(7, 8, 2, &[3, 4, 5, 6, 7, 8]).expect("complete");
    assert_eq!(whole, vec![1, 2, 3, 4, 5, 6, 7, 8]);
    assert!(!reassembler.is_pending(7));
}

#[test]
fn retransmitted_fragment_does_not_complete_early() {
    let mut reassembler = FragmentReassembler::new();
    assert!(reassembler.push_fragment(100, 16, 0, &[1u8; 8]).is_none());
    assert!(reassembler.push_fragment(100, 16, 0, &[1u8; 8]).is_none());
    let complete = reassembler.push_fragment(100, 16, 8, &[2u8; 8]).expect("complete");
    assert_eq!(&complete[0..8], &[1u8; 8]);
    assert_eq!(&complete[8..16], &[2u8; 8]);
    // Fragments may come in any order, and may overlap.
    assert!(reassembler.push_fragment(5, 6, 4, &[5, 6]).is_none());
    assert!(reassembler.push_fragment(5, 6, 1, &[2, 3, 4]).is_none());
    assert_eq!(reassembler.push_fragment(5, 6, 0, &[1, 2]), Some(vec![1, 2, 3, 4, 5, 6]));
}

#[test]
fn lowered_names_are_matched_by_keyword() {
    assert_eq!(ChatChannel::from_lowered_name("faction - caerleon"), ChatChannel::Faction);
    assert_eq!(ChatChannel::from_lowered_name("FACTION"), ChatChannel::Unknown);
    assert_eq!(ChatChannel::from_lowered_name(""), ChatChannel::Unknown);
    assert_eq!(ChatChannel::from_channel_name(""), ChatChannel::Unknown);
    assert_eq!(ChatChannel::from_channel_name("  FACTION - Caerleon "), ChatChannel::Faction);
}
