use goldsrc_netmsg::bits::{BitReader, BitWriter};
use goldsrc_netmsg::bytes::Scalar;
use goldsrc_netmsg::client_data::{ClientData, ClientDataWeaponData, SvcClientData};
use goldsrc_netmsg::delta::{
    parse_delta, write_delta, Delta, DeltaEntry, DeltaValue, FieldDescriptor, FLAG_FLOAT,
    FLAG_INTEGER, FLAG_SIGNED, FLAG_STRING,
};
use goldsrc_netmsg::delta_description::SvcDeltaDescription;
use goldsrc_netmsg::error::ErrorKind;
use goldsrc_netmsg::netmsg::{
    new_session, parse_netmsg, parse_netmsg_immutable, write_netmsg, write_netmsg_along,
    write_single_netmsg,
    EngineMessage, FixedMessage, Message, Session,
};
use goldsrc_netmsg::packet_entities::{PacketEntities, PacketEntity, SvcPacketEntities};
use goldsrc_netmsg::spawn_baseline::SpawnBaseline;
use goldsrc_netmsg::user_message::UserMessage;

fn name(s: &str) -> Vec<u8> {
    let mut v = s.as_bytes().to_vec();
    v.push(0);
    v
}

fn desc(n: &str, flags: u32, bits: u32) -> FieldDescriptor {
    FieldDescriptor {
        name: name(n),
        flags,
        offset: 0,
        size: 0,
        bits,
        premultiply: 4000,
        postmultiply: 4000,
    }
}

fn delta(entries: Vec<(&str, DeltaValue)>) -> Delta {
    Delta {
        entries: entries
            .into_iter()
            .map(|(n, value)| DeltaEntry { name: name(n), value })
            .collect(),
    }
}

fn value_of<'a>(d: &'a Delta, n: &str) -> Option<&'a DeltaValue> {
    let key = name(n);
    d.entries.iter().find(|e| e.name == key).map(|e| &e.value)
}

fn unsigned(d: &Delta, n: &str) -> Option<u32> {
    match value_of(d, n) {
        Some(DeltaValue::Unsigned(x)) => Some(*x),
        _ => None,
    }
}

fn fixed(tag: u8, fields: Vec<Scalar>) -> Message {
    Message::EngineMessage(EngineMessage::Fixed(FixedMessage { tag, fields }))
}

fn server_info(max_players: u8) -> Message {
    fixed(
        11,
        vec![
            Scalar::I32(48),
            Scalar::I32(1),
            Scalar::I32(0),
            Scalar::Bytes(vec![0; 16]),
            Scalar::U8(max_players),
            Scalar::U8(1),
            Scalar::U8(0),
            Scalar::Text(b"valve".to_vec()),
            Scalar::Text(b"host".to_vec()),
            Scalar::Text(b"maps/crossfire.bsp".to_vec()),
            Scalar::Text(Vec::new()),
            Scalar::U8(0),
        ],
    )
}

fn new_user_msg(index: u8, length: i8, msg_name: &str) -> Message {
    let mut padded = msg_name.as_bytes().to_vec();
    padded.resize(16, 0);
    fixed(39, vec![Scalar::U8(index), Scalar::I8(length), Scalar::Bytes(padded)])
}

fn entity_tables(session: &mut Session) {
    session.ddt.insert(name("entity_state_player_t"), vec![desc("health", FLAG_INTEGER, 8)]);
    session.ddt.insert(name("entity_state_t"), vec![desc("frame", FLAG_INTEGER, 8)]);
    session.ddt.insert(name("custom_entity_state_t"), vec![desc("skin", FLAG_INTEGER, 8)]);
}

/// A baseline of one entity with index 1 and type 1 whose delta sets its first field to 100.
fn one_entity_baseline() -> Vec<u8> {
    let mut bw = BitWriter::new();
    bw.append_u32_range(1, 11);
    bw.append_u32_range(1, 2);
    bw.append_bit(true);
    bw.append_u32_range(1, 3);
    bw.append_u32_range(1, 8);
    bw.append_u32_range(100, 8);
    bw.append_u32_range(0, 5);
    bw.append_u32_range(0, 6);
    bw.append_u32_range(2047, 11);
    let mut out = vec![22u8];
    out.extend_from_slice(&bw.get_u8_vec());
    out
}

#[test]
fn empty_payload_decodes_to_nothing() {
    let mut session = new_session();
    let msgs = parse_netmsg(&[], &mut session).unwrap();
    assert!(msgs.is_empty());
    assert_eq!(write_netmsg(&Vec::new(), &session).unwrap(), Vec::<u8>::new());
}

#[test]
fn single_nop() {
    let mut session = new_session();
    let msgs = parse_netmsg(&[0x01], &mut session).unwrap();
    assert_eq!(msgs.len(), 1);
    match &msgs[0] {
        Message::EngineMessage(EngineMessage::Fixed(f)) => {
            assert_eq!(f.tag, 1);
            assert!(f.fields.is_empty());
        }
        _ => panic!("expected a nop"),
    }
    assert_eq!(write_netmsg(&msgs, &session).unwrap(), vec![0x01]);
}

#[test]
fn baseline_picks_player_table_within_max_players() {
    let mut session = new_session();
    entity_tables(&mut session);
    let mut payload = write_single_netmsg(&server_info(8), &session).unwrap();
    payload.extend_from_slice(&one_entity_baseline());
    let msgs = parse_netmsg(&payload, &mut session).unwrap();
    assert_eq!(session.max_players, 8);
    assert_eq!(msgs.len(), 2);
    match &msgs[1] {
        Message::EngineMessage(EngineMessage::SpawnBaseline(b)) => {
            assert_eq!(b.entities.len(), 1);
            assert_eq!(b.entities[0].index, 1);
            assert_eq!(unsigned(&b.entities[0].delta, "health"), Some(100));
            assert_eq!(unsigned(&b.entities[0].delta, "frame"), None);
        }
        _ => panic!("expected a baseline"),
    }
}

#[test]
fn baseline_picks_entity_table_without_players() {
    let mut session = new_session();
    entity_tables(&mut session);
    let mut payload = write_single_netmsg(&server_info(0), &session).unwrap();
    payload.extend_from_slice(&one_entity_baseline());
    let msgs = parse_netmsg(&payload, &mut session).unwrap();
    assert_eq!(session.max_players, 0);
    match &msgs[1] {
        Message::EngineMessage(EngineMessage::SpawnBaseline(b)) => {
            assert_eq!(unsigned(&b.entities[0].delta, "frame"), Some(100));
            assert_eq!(unsigned(&b.entities[0].delta, "health"), None);
        }
        _ => panic!("expected a baseline"),
    }
}

#[test]
fn hltv_client_data_has_no_body() {
    let mut session = new_session();
    let msgs = parse_netmsg(&[50, 1, 15], &mut session).unwrap();
    assert!(session.is_hltv);
    assert_eq!(msgs.len(), 2);
    match &msgs[1] {
        Message::EngineMessage(EngineMessage::ClientData(c)) => {
            assert!(c.delta_update_mask.is_none());
            assert!(c.client_data.entries.is_empty());
            assert!(c.weapon_data.is_empty());
        }
        _ => panic!("expected client data"),
    }
    assert_eq!(write_single_netmsg(&msgs[1], &session).unwrap(), vec![15]);
    assert_eq!(write_netmsg(&msgs, &session).unwrap(), vec![50, 1, 15]);
}

#[test]
fn variable_user_message_after_registration() {
    let mut session = new_session();
    let mut payload = write_single_netmsg(&new_user_msg(200, -1, "DeathMsg"), &session).unwrap();
    payload.extend_from_slice(&[200, 0x05, 0x01, 0x02, 0x03, 0x04, 0x05]);
    let msgs = parse_netmsg(&payload, &mut session).unwrap();
    assert_eq!(msgs.len(), 2);
    match &msgs[1] {
        Message::UserMessage(u) => {
            assert_eq!(u.id, 200);
            assert_eq!(u.payload, vec![1, 2, 3, 4, 5]);
        }
        _ => panic!("expected a user message"),
    }
    assert_eq!(write_netmsg(&msgs, &session).unwrap(), payload);
}

#[test]
fn fixed_user_message_takes_registered_length() {
    let mut session = new_session();
    let mut payload = write_single_netmsg(&new_user_msg(100, 2, "Health"), &session).unwrap();
    payload.extend_from_slice(&[100, 7, 9, 1]);
    let msgs = parse_netmsg(&payload, &mut session).unwrap();
    assert_eq!(msgs.len(), 3);
    match &msgs[1] {
        Message::UserMessage(u) => assert_eq!(u.payload, vec![7, 9]),
        _ => panic!("expected a user message"),
    }
}

#[test]
fn delta_description_defines_a_table_for_later_messages() {
    let fields = vec![desc("health", FLAG_INTEGER, 8), desc("model", FLAG_STRING, 1)];
    let describe = Message::EngineMessage(EngineMessage::DeltaDescription(SvcDeltaDescription {
        name: name("clientdata_t"),
        fields,
    }));
    let writer_session = new_session();
    let mut payload = write_single_netmsg(&describe, &writer_session).unwrap();
    // client data: no update mask, a delta with "health" = 42, no weapons
    let mut bw = BitWriter::new();
    bw.append_bit(false);
    bw.append_bit(true);
    bw.append_u32_range(1, 3);
    bw.append_u32_range(1, 8);
    bw.append_u32_range(42, 8);
    bw.append_bit(false);
    let mut client = vec![15u8];
    client.extend_from_slice(&bw.get_u8_vec());

    let mut before = new_session();
    let err = parse_netmsg(&client, &mut before).unwrap_err();
    assert_eq!(err.kind, ErrorKind::UnknownDdtKey);
    assert_eq!(err.offset, 0);

    payload.extend_from_slice(&client);
    let mut session = new_session();
    let msgs = parse_netmsg(&payload, &mut session).unwrap();
    assert_eq!(msgs.len(), 2);
    let learned = session.ddt.get(&name("clientdata_t")).unwrap();
    assert_eq!(learned.len(), 2);
    assert_eq!(learned[0].name, name("health"));
    assert_eq!(learned[0].bits, 8);
    assert_eq!(learned[1].flags, FLAG_STRING);
    match &msgs[1] {
        Message::EngineMessage(EngineMessage::ClientData(c)) => {
            assert_eq!(unsigned(&c.client_data, "health"), Some(42));
        }
        _ => panic!("expected client data"),
    }
}

#[test]
fn named_structure_is_unknown_until_described() {
    let mut session = new_session();
    assert!(session.ddt.get(&name("foo_t")).is_none());
    let describe = Message::EngineMessage(EngineMessage::DeltaDescription(SvcDeltaDescription {
        name: name("foo_t"),
        fields: vec![desc("x", FLAG_INTEGER | FLAG_SIGNED, 12)],
    }));
    let payload = write_single_netmsg(&describe, &session).unwrap();
    parse_netmsg(&payload, &mut session).unwrap();
    let foo = session.ddt.get(&name("foo_t")).unwrap();
    assert_eq!(foo.len(), 1);
    assert_eq!(foo[0].flags, FLAG_INTEGER | FLAG_SIGNED);
    assert_eq!(foo[0].bits, 12);
}

#[test]
fn junk_after_a_payload_fails() {
    let mut session = new_session();
    let err = parse_netmsg(&[0x01, 200], &mut session).unwrap_err();
    assert_eq!(err.kind, ErrorKind::UnknownUserMessage);
    assert_eq!(err.offset, 1);
}

#[test]
fn truncated_message_is_a_short_read() {
    let mut session = new_session();
    let err = parse_netmsg(&[0x01, 4, 1, 2], &mut session).unwrap_err();
    assert_eq!(err.kind, ErrorKind::ShortRead);
    assert_eq!(err.offset, 1);
}

#[test]
fn immutable_decoder_refuses_table_changes() {
    let session = new_session();
    let payload = write_single_netmsg(&server_info(4), &session).unwrap();
    let err = parse_netmsg_immutable(&payload, &session).unwrap_err();
    assert_eq!(err.kind, ErrorKind::ImmutableViolation);
    let ok = parse_netmsg_immutable(&[1, 1, 50, 3], &session).unwrap();
    assert_eq!(ok.len(), 3);
    assert!(!session.is_hltv);
}

#[test]
fn message_without_layout_is_unsupported() {
    let mut session = new_session();
    let err = parse_netmsg(&[3, 0, 0], &mut session).unwrap_err();
    assert_eq!(err.kind, ErrorKind::UnsupportedMessage);
}

#[test]
fn fixed_layout_round_trip_is_byte_exact() {
    let session = new_session();
    let msgs = vec![
        fixed(10, vec![Scalar::I16(-5), Scalar::I16(300), Scalar::I16(0)]),
        fixed(8, vec![Scalar::Text(b"hello".to_vec())]),
        fixed(7, vec![Scalar::F32(0x3f80_0000)]),
        fixed(53, vec![Scalar::U8(3), Scalar::Bytes(vec![9, 8, 7])]),
    ];
    let bytes = write_netmsg(&msgs, &session).unwrap();
    assert_eq!(
        bytes,
        vec![
            10, 0xfb, 0xff, 0x2c, 0x01, 0, 0, 8, b'h', b'e', b'l', b'l', b'o', 0, 7, 0, 0, 0x80,
            0x3f, 53, 3, 3, 0, 9, 8, 7
        ]
    );
    let mut s2 = new_session();
    let back = parse_netmsg(&bytes, &mut s2).unwrap();
    assert_eq!(write_netmsg(&back, &s2).unwrap(), bytes);
}

#[test]
fn fixed_message_with_wrong_fields_is_refused() {
    let session = new_session();
    let err = write_single_netmsg(&fixed(10, vec![Scalar::I16(1)]), &session).unwrap_err();
    assert_eq!(err, ErrorKind::ValueMismatch);
    let err = write_single_netmsg(&fixed(8, vec![Scalar::Text(vec![b'a', 0])]), &session)
        .unwrap_err();
    assert_eq!(err, ErrorKind::ValueMismatch);
}

#[test]
fn bits_come_least_significant_first() {
    let data = [0b1010_1101u8, 0b0000_0011];
    let mut br = BitReader::new(&data, 0);
    assert_eq!(br.read_1_bit(), Ok(true));
    assert_eq!(br.read_n_bit(3), Ok(0b110));
    assert_eq!(br.read_n_bit(6), Ok(0b11_1010));
    assert_eq!(br.get_consumed_bytes(), 2);
    assert_eq!(br.read_n_bit(7), Err(ErrorKind::ShortRead));
}

#[test]
fn writer_pads_the_last_byte_with_zeros() {
    let mut bw = BitWriter::new();
    bw.append_u32_range(0b101, 3);
    bw.append_u32_range(0x1ff, 9);
    assert_eq!(bw.get_u8_vec(), vec![0b1111_1101, 0b0000_1111]);
    let bytes = bw.get_u8_vec();
    let mut br = BitReader::new(&bytes, 0);
    assert_eq!(br.read_n_bit(3), Ok(5));
    assert_eq!(br.read_n_bit(9), Ok(0x1ff));
}

#[test]
fn delta_round_trip_keeps_exactly_the_given_fields() {
    let descs = vec![
        desc("origin", FLAG_FLOAT | FLAG_SIGNED, 18),
        desc("frame", FLAG_INTEGER, 8),
        desc("model", FLAG_STRING, 1),
        desc("angle", FLAG_INTEGER | FLAG_SIGNED, 16),
    ];
    let d = delta(vec![
        ("model", DeltaValue::Text(b"models/player.mdl".to_vec())),
        ("origin", DeltaValue::Signed(-1234)),
        ("angle", DeltaValue::Signed(-32768)),
    ]);
    let mut bw = BitWriter::new();
    write_delta(&d, &descs, &mut bw).unwrap();
    let bytes = bw.get_u8_vec();
    let mut br = BitReader::new(&bytes, 0);
    let back = parse_delta(&descs, &mut br).unwrap();
    assert_eq!(back.entries.len(), 3);
    assert_eq!(back.entries[0].name, name("origin"));
    assert!(matches!(value_of(&back, "origin"), Some(DeltaValue::Signed(-1234))));
    assert!(matches!(value_of(&back, "angle"), Some(DeltaValue::Signed(-32768))));
    match value_of(&back, "model") {
        Some(DeltaValue::Text(t)) => assert_eq!(t, &b"models/player.mdl".to_vec()),
        _ => panic!("expected the model"),
    }
    assert!(value_of(&back, "frame").is_none());
}

#[test]
fn delta_mask_is_one_byte_for_an_empty_delta() {
    let descs = vec![desc("frame", FLAG_INTEGER, 8)];
    let mut bw = BitWriter::new();
    write_delta(&delta(vec![]), &descs, &mut bw).unwrap();
    // has-mask bit, count 1, one zero mask byte
    assert_eq!(bw.bits, vec![true, true, false, false, false, false, false, false, false, false, false, false]);
}

#[test]
fn delta_without_mask_reads_every_field() {
    let descs = vec![desc("a", FLAG_INTEGER, 4), desc("b", FLAG_INTEGER, 4)];
    let data = [0b0110_0010u8, 0b0000_0001];
    let mut br = BitReader::new(&data, 0);
    let d = parse_delta(&descs, &mut br).unwrap();
    assert_eq!(unsigned(&d, "a"), Some(1));
    assert_eq!(unsigned(&d, "b"), Some(11));
}

#[test]
fn signed_fields_are_twos_complement() {
    let descs = vec![desc("v", FLAG_INTEGER | FLAG_SIGNED, 4)];
    // has-mask 1, count 1, mask 0b00000001, value 0b1110 (= -2)
    let mut bw = BitWriter::new();
    bw.append_bit(true);
    bw.append_u32_range(1, 3);
    bw.append_u32_range(1, 8);
    bw.append_u32_range(0b1110, 4);
    let bytes = bw.get_u8_vec();
    let mut br = BitReader::new(&bytes, 0);
    let d = parse_delta(&descs, &mut br).unwrap();
    assert!(matches!(value_of(&d, "v"), Some(DeltaValue::Signed(-2))));
}

#[test]
fn value_wider_than_its_field_is_an_overflow() {
    let descs = vec![desc("frame", FLAG_INTEGER, 8)];
    let mut bw = BitWriter::new();
    let err = write_delta(&delta(vec![("frame", DeltaValue::Unsigned(256))]), &descs, &mut bw);
    assert_eq!(err, Err(ErrorKind::EncodeOverflow));
    let err = write_delta(&delta(vec![("frame", DeltaValue::Signed(1))]), &descs, &mut bw);
    assert_eq!(err, Err(ErrorKind::ValueMismatch));
}

#[test]
fn bad_descriptor_is_refused() {
    let descs = vec![desc("frame", FLAG_INTEGER, 0), desc("odd", 3, 8)];
    // no change mask: every descriptor is read, the first one has no width
    let data = [0xfeu8, 0xff, 0xff];
    let mut br = BitReader::new(&data, 0);
    assert!(matches!(parse_delta(&descs, &mut br), Err(ErrorKind::BadDescriptor)));
    let later = vec![desc("frame", FLAG_INTEGER, 8), desc("odd", 3, 8)];
    let mut br = BitReader::new(&data, 0);
    assert!(matches!(parse_delta(&later, &mut br), Err(ErrorKind::BadDescriptor)));
}

#[test]
fn baseline_stops_at_sentinel_and_aligns() {
    let session = {
        let mut s = new_session();
        entity_tables(&mut s);
        s
    };
    let mut body = one_entity_baseline()[1..].to_vec();
    let used = body.len();
    body.extend_from_slice(&[0xff, 0xee]);
    let (m, n) = SpawnBaseline::parse(&body, &session.ddt, 0).unwrap();
    assert_eq!(n, used);
    assert_eq!(m.entities.len(), 1);
}

#[test]
fn baseline_round_trip() {
    let mut session = new_session();
    entity_tables(&mut session);
    let bytes = one_entity_baseline();
    let (m, _) = SpawnBaseline::parse(&bytes[1..], &session.ddt, 0).unwrap();
    assert_eq!(SpawnBaseline::write(&m, &session.ddt, 0).unwrap(), bytes);
}

#[test]
fn client_data_with_weapons_round_trip() {
    let mut session = new_session();
    session.ddt.insert(name("clientdata_t"), vec![desc("health", FLAG_INTEGER, 8)]);
    session.ddt.insert(name("weapon_data_t"), vec![desc("clip", FLAG_INTEGER, 6)]);
    let m = SvcClientData {
        delta_update_mask: Some(0x5a),
        client_data: delta(vec![("health", DeltaValue::Unsigned(99))]),
        weapon_data: vec![ClientDataWeaponData {
            weapon_index: 17,
            weapon_data: delta(vec![("clip", DeltaValue::Unsigned(30))]),
        }],
    };
    let bytes = ClientData::write(&m, &session.ddt, false).unwrap();
    assert_eq!(bytes[0], 15);
    let (back, n) = ClientData::parse(&bytes[1..], &session.ddt, false).unwrap();
    assert_eq!(n, bytes.len() - 1);
    assert_eq!(back.delta_update_mask, Some(0x5a));
    assert_eq!(unsigned(&back.client_data, "health"), Some(99));
    assert_eq!(back.weapon_data.len(), 1);
    assert_eq!(back.weapon_data[0].weapon_index, 17);
    assert_eq!(unsigned(&back.weapon_data[0].weapon_data, "clip"), Some(30));
}

#[test]
fn packet_entities_use_short_jumps_and_round_trip() {
    let mut session = new_session();
    entity_tables(&mut session);
    session.max_players = 4;
    let m = SvcPacketEntities {
        entity_count: 3,
        delta_sequence: Some(7),
        entities: vec![
            PacketEntity { index: 2, removed: false, custom: false, delta: delta(vec![("health", DeltaValue::Unsigned(5))]) },
            PacketEntity { index: 40, removed: true, custom: false, delta: delta(vec![]) },
            PacketEntity { index: 500, removed: false, custom: true, delta: delta(vec![("skin", DeltaValue::Unsigned(3))]) },
        ],
    };
    let bytes = PacketEntities::write(&m, &session.ddt, 4, true).unwrap();
    assert_eq!(bytes[0], 41);
    let (back, n) = PacketEntities::parse(&bytes[1..], &session.ddt, 4, true).unwrap();
    assert_eq!(n, bytes.len() - 1);
    assert_eq!(back.entity_count, 3);
    assert_eq!(back.delta_sequence, Some(7));
    assert_eq!(back.entities.len(), 3);
    assert_eq!(back.entities[0].index, 2);
    assert_eq!(unsigned(&back.entities[0].delta, "health"), Some(5));
    assert!(back.entities[1].removed);
    assert_eq!(back.entities[1].index, 40);
    assert_eq!(back.entities[2].index, 500);
    assert!(back.entities[2].custom);
    assert_eq!(unsigned(&back.entities[2].delta, "skin"), Some(3));
    assert_eq!(
        PacketEntities::write(&m, &session.ddt, 4, false),
        Err(ErrorKind::ValueMismatch)
    );
}

#[test]
fn user_message_encoding_checks_its_registration() {
    let session = new_session();
    let u = UserMessage { id: 120, payload: vec![1] };
    assert_eq!(UserMessage::write(&u, &session.custom_messages), Err(ErrorKind::UnknownUserMessage));
    let mut s2 = new_session();
    let reg = write_single_netmsg(&new_user_msg(120, -1, "Big"), &s2).unwrap();
    parse_netmsg(&reg, &mut s2).unwrap();
    let big = UserMessage { id: 120, payload: vec![0; 256] };
    assert_eq!(UserMessage::write(&big, &s2.custom_messages), Err(ErrorKind::EncodeOverflow));
}

#[test]
fn delta_description_survives_a_round_trip() {
    let session = new_session();
    let fields = vec![desc("origin", FLAG_FLOAT | FLAG_SIGNED, 18), desc("model", FLAG_STRING, 1)];
    let m = Message::EngineMessage(EngineMessage::DeltaDescription(SvcDeltaDescription {
        name: name("entity_state_t"),
        fields,
    }));
    let bytes = write_single_netmsg(&m, &session).unwrap();
    let mut s2 = new_session();
    let back = parse_netmsg(&bytes, &mut s2).unwrap();
    assert_eq!(write_netmsg(&back, &session).unwrap(), bytes);
}

#[test]
fn writing_along_the_stream_reproduces_the_payload() {
    let mut session = new_session();
    session.ddt.insert(name("clientdata_t"), vec![desc("health", FLAG_INTEGER, 8)]);
    let start = session.copy();
    // client data with a body, then an HLTV message, then client data without one
    let mut bw = BitWriter::new();
    bw.append_bit(false);
    bw.append_bit(true);
    bw.append_u32_range(1, 3);
    bw.append_u32_range(1, 8);
    bw.append_u32_range(77, 8);
    bw.append_bit(false);
    let mut payload = vec![15u8];
    payload.extend_from_slice(&bw.get_u8_vec());
    payload.extend_from_slice(&[50, 0, 15]);
    let msgs = parse_netmsg(&payload, &mut session).unwrap();
    assert_eq!(msgs.len(), 3);
    assert_eq!(write_netmsg_along(&msgs, &start).unwrap(), payload);
    // against the final session the first client data loses its body
    assert_ne!(write_netmsg(&msgs, &session).unwrap(), payload);
    assert!(!start.is_hltv);
}

#[test]
fn restore_lists_its_maps() {
    let mut session = new_session();
    let payload = vec![33, b's', 0, 2, b'a', 0, b'b', b'c', 0];
    let msgs = parse_netmsg(&payload, &mut session).unwrap();
    assert_eq!(msgs.len(), 1);
    match &msgs[0] {
        Message::EngineMessage(EngineMessage::Fixed(f)) => {
            assert_eq!(f.tag, 33);
            match &f.fields[1] {
                Scalar::TextList(ts) => assert_eq!(ts, &vec![b"a".to_vec(), b"bc".to_vec()]),
                _ => panic!("expected the map list"),
            }
        }
        _ => panic!("expected a restore message"),
    }
    assert_eq!(write_netmsg(&msgs, &session).unwrap(), payload);
    let short = parse_netmsg(&payload[..7], &mut new_session()).unwrap_err();
    assert_eq!(short.kind, ErrorKind::ShortRead);
}
