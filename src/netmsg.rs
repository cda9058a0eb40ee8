//! Messages, the session state they are read against, and the demultiplexer
//! that reads and writes whole payloads.
use vstd::prelude::*;
use vstd::slice::{slice_subrange, slice_to_vec};

use crate::bytes::{
    encode_slots, layout, layout_of, parse_slots, read_slots, scalars_view, write_slots, Scalar,
    ScalarModel,
};
use crate::client_data::{
    encode_client_data, parse_client_data, ClientData, ClientDataModel, SvcClientData,
    SVC_CLIENTDATA,
};
use crate::delta::{descs_view, DescriptorModel};
use crate::delta_description::{
    encode_delta_description, parse_delta_description, DeltaDescription, DeltaDescriptionModel,
    SvcDeltaDescription, SVC_DELTADESCRIPTION,
};
use crate::error::{ErrorKind, ParseError};
use crate::packet_entities::{
    encode_packet_entities, parse_packet_entities, PacketEntities, PacketEntitiesModel,
    SvcPacketEntities, SVC_DELTAPACKETENTITIES, SVC_PACKETENTITIES,
};
use crate::spawn_baseline::{
    encode_spawn_baseline, parse_spawn_baseline, EntityModel, SpawnBaseline, SvcSpawnBaseline,
    SVC_SPAWNBASELINE,
};
use crate::table::{
    copy_descs, delta_description_name, get_initial_delta, meta_descriptors, DeltaDecoderTable,
};
use crate::user_message::{
    encode_user_message, parse_user_message, RegModel, UserMessage, UserMessageModel,
    UserMessageRegistry, UserMsgReg,
};

verus! {

/// Type bytes from this one up are game-defined messages.
pub const SVC_MAX_ENGINE: u8 = 63;

pub const SVC_NOP: u8 = 1;

pub const SVC_SERVERINFO: u8 = 11;

pub const SVC_NEWUSERMSG: u8 = 39;

pub const SVC_HLTV: u8 = 50;

/// Where `max_players` stands among the fields of a server info message.
pub const SERVERINFO_MAX_PLAYERS: usize = 4;

/// An engine message whose body is a fixed list of fields (see `layout`).
#[derive(Debug)]
pub struct FixedMessage {
    pub tag: u8,
    pub fields: Vec<Scalar>,
}

#[derive(Debug)]
pub enum EngineMessage {
    Fixed(FixedMessage),
    DeltaDescription(SvcDeltaDescription),
    ClientData(SvcClientData),
    SpawnBaseline(SvcSpawnBaseline),
    PacketEntities(SvcPacketEntities),
    DeltaPacketEntities(SvcPacketEntities),
}

#[derive(Debug)]
pub enum Message {
    EngineMessage(EngineMessage),
    UserMessage(UserMessage),
}

pub enum MessageModel {
    Fixed(u8, Seq<ScalarModel>),
    DeltaDescription(DeltaDescriptionModel),
    ClientData(ClientDataModel),
    SpawnBaseline(Seq<EntityModel>),
    PacketEntities(PacketEntitiesModel),
    DeltaPacketEntities(PacketEntitiesModel),
    User(UserMessageModel),
}

impl View for Message {
    type V = MessageModel;

    open spec fn view(&self) -> MessageModel {
        match self {
            Message::EngineMessage(EngineMessage::Fixed(f)) => MessageModel::Fixed(
                f.tag,
                scalars_view(f.fields@),
            ),
            Message::EngineMessage(EngineMessage::DeltaDescription(d)) => MessageModel::DeltaDescription(d@),
            Message::EngineMessage(EngineMessage::ClientData(c)) => MessageModel::ClientData(c@),
            Message::EngineMessage(EngineMessage::SpawnBaseline(b)) => MessageModel::SpawnBaseline(b@),
            Message::EngineMessage(EngineMessage::PacketEntities(p)) => MessageModel::PacketEntities(p@),
            Message::EngineMessage(EngineMessage::DeltaPacketEntities(p)) => MessageModel::DeltaPacketEntities(p@),
            Message::UserMessage(u) => MessageModel::User(u@),
        }
    }
}

pub open spec fn messages_view(v: Seq<Message>) -> Seq<MessageModel> {
    v.map_values(|m: Message| m@)
}

/// The state that a stream of messages carries from one message to the next.
pub struct Session {
    pub ddt: DeltaDecoderTable,
    pub custom_messages: UserMessageRegistry,
    pub max_players: u8,
    pub is_hltv: bool,
}

pub struct SessionModel {
    pub ddt: Map<Seq<u8>, Seq<DescriptorModel>>,
    pub regs: Seq<Option<RegModel>>,
    pub max_players: u8,
    pub is_hltv: bool,
}

impl View for Session {
    type V = SessionModel;

    open spec fn view(&self) -> SessionModel {
        SessionModel {
            ddt: self.ddt.map(),
            regs: self.custom_messages@,
            max_players: self.max_players,
            is_hltv: self.is_hltv,
        }
    }
}

impl Session {
    pub open spec fn wf(&self) -> bool {
        self.ddt.wf() && self.custom_messages.wf()
    }
}

/// A fresh session: the built-in descriptor table, no game messages, no
/// players, not a spectator-relay stream.
pub fn new_session() -> (r: Session)
    ensures
        r.wf(),
        r@ == (SessionModel {
            ddt: map![delta_description_name() => meta_descriptors()],
            regs: Seq::new(256, |i: int| None::<RegModel>),
            max_players: 0,
            is_hltv: false,
        }),
{
    Session {
        ddt: get_initial_delta(),
        custom_messages: UserMessageRegistry::new(),
        max_players: 0,
        is_hltv: false,
    }
}

/// One message at the start of `b`, type byte first, and the bytes it takes.
#[verifier::opaque]
pub open spec fn parse_message(b: Seq<u8>, st: SessionModel) -> Result<(MessageModel, nat), ErrorKind> {
    if b.len() == 0 {
        Err(ErrorKind::ShortRead)
    } else {
        let tag = b[0];
        let body = b.subrange(1, b.len() as int);
        if tag >= SVC_MAX_ENGINE {
            match parse_user_message(body, tag, st.regs) {
                Ok((t, n)) => Ok((MessageModel::User(UserMessageModel { id: tag, payload: t }), 1 + n)),
                Err(e) => Err(e),
            }
        } else if tag == SVC_DELTADESCRIPTION {
            match parse_delta_description(body, st.ddt) {
                Ok((m, n)) => Ok((MessageModel::DeltaDescription(m), 1 + n)),
                Err(e) => Err(e),
            }
        } else if tag == SVC_CLIENTDATA {
            match parse_client_data(body, st.ddt, st.is_hltv) {
                Ok((m, n)) => Ok((MessageModel::ClientData(m), 1 + n)),
                Err(e) => Err(e),
            }
        } else if tag == SVC_SPAWNBASELINE {
            match parse_spawn_baseline(body, st.ddt, st.max_players) {
                Ok((m, n)) => Ok((MessageModel::SpawnBaseline(m), 1 + n)),
                Err(e) => Err(e),
            }
        } else if tag == SVC_PACKETENTITIES {
            match parse_packet_entities(body, st.ddt, st.max_players, false) {
                Ok((m, n)) => Ok((MessageModel::PacketEntities(m), 1 + n)),
                Err(e) => Err(e),
            }
        } else if tag == SVC_DELTAPACKETENTITIES {
            match parse_packet_entities(body, st.ddt, st.max_players, true) {
                Ok((m, n)) => Ok((MessageModel::DeltaPacketEntities(m), 1 + n)),
                Err(e) => Err(e),
            }
        } else {
            match layout(tag) {
                None => Err(ErrorKind::UnsupportedMessage),
                Some(l) => match parse_slots(l, body, 0, 0) {
                    Ok((fs, p)) => Ok((MessageModel::Fixed(tag, fs), 1 + p as nat)),
                    Err(e) => Err(e),
                },
            }
        }
    }
}

proof fn lemma_whole_bytes(p: int, len: int)
    requires
        0 <= p <= 8 * len,
    ensures
        (p + 7) / 8 <= len,
{
}

/// A message takes its type byte, and no more than `b` holds.
#[verifier::rlimit(100)]
pub proof fn lemma_parse_message_advances(b: Seq<u8>, st: SessionModel)
    ensures
        parse_message(b, st) matches Ok((m, n)) ==> 1 <= n <= b.len(),
        parse_message_immutable(b, st) matches Ok((m, n)) ==> 1 <= n <= b.len(),
{
    reveal(parse_message);
    if b.len() > 0 {
        let tag = b[0];
        let body = b.subrange(1, b.len() as int);
        let s = crate::bits::bytes_bits(body);
        assert(s.len() == 8 * body.len());
        if tag == SVC_DELTADESCRIPTION {
            if let Ok((nm, p1)) = crate::bytes::parse_cstr(body, 0) {
                crate::bytes::lemma_parse_cstr_bounds(body, 0);
                if let Some(m) = crate::table::map_get(st.ddt, delta_description_name()) {
                    if p1 + 2 <= body.len() {
                        crate::delta_description::lemma_parse_descriptors_bounds(
                            m,
                            s,
                            8 * (p1 + 2),
                            crate::bytes::u16_at(body, p1) as nat,
                        );
                        if let Ok((fs, p)) = crate::delta_description::parse_descriptors(
                            m,
                            s,
                            8 * (p1 + 2),
                            crate::bytes::u16_at(body, p1) as nat,
                        ) {
                            lemma_whole_bytes(p, body.len() as int);
                        }
                    }
                }
            }
        } else if tag == SVC_CLIENTDATA {
            crate::client_data::lemma_parse_client_data_bounds(body, st.ddt, st.is_hltv);
        } else if tag == SVC_SPAWNBASELINE {
            crate::spawn_baseline::lemma_parse_entities_bounds(st.ddt, st.max_players, s, 0);
            if let Ok((es, p)) = crate::spawn_baseline::parse_entities(st.ddt, st.max_players, s, 0) {
                crate::bits::lemma_take_one(s, 0);
                lemma_whole_bytes(p, body.len() as int);
            }
        } else if tag == SVC_PACKETENTITIES || tag == SVC_DELTAPACKETENTITIES {
            crate::packet_entities::lemma_parse_packet_list_bounds(
                st.ddt,
                st.max_players,
                tag == SVC_DELTAPACKETENTITIES,
                0,
                s,
                if tag == SVC_DELTAPACKETENTITIES {
                    24
                } else {
                    16
                },
            );
            if let Ok((es, p)) = crate::packet_entities::parse_packet_list(
                st.ddt,
                st.max_players,
                tag == SVC_DELTAPACKETENTITIES,
                0,
                s,
                if tag == SVC_DELTAPACKETENTITIES {
                    24
                } else {
                    16
                },
            ) {
                lemma_whole_bytes(p, body.len() as int);
            }
        } else if let Some(l) = layout(tag) {
            crate::bytes::lemma_parse_slots_bounds(l, body, 0, 0);
        }
    }
}

/// The registration that a new-user-message's fields hold.
pub open spec fn reg_of(fs: Seq<ScalarModel>) -> Option<RegModel> {
    if fs.len() == 3 {
        match (fs[0], fs[1], fs[2]) {
            (ScalarModel::U8(i), ScalarModel::I8(l), ScalarModel::Bytes(n)) => Some(
                RegModel { index: i, length: l, name: n },
            ),
            _ => None,
        }
    } else {
        None
    }
}

/// The session after message `m`: server info sets the player count, a delta
/// description sets its table entry, a new user message registers its id, and
/// an HLTV message marks the stream as a spectator relay.
#[verifier::opaque]
pub open spec fn apply(st: SessionModel, m: MessageModel) -> SessionModel {
    match m {
        MessageModel::Fixed(tag, fs) => if tag == SVC_SERVERINFO && fs.len() > SERVERINFO_MAX_PLAYERS
            && fs[SERVERINFO_MAX_PLAYERS as int] is U8 {
            SessionModel { max_players: fs[SERVERINFO_MAX_PLAYERS as int]->U8_0, ..st }
        } else if tag == SVC_NEWUSERMSG && reg_of(fs) is Some {
            SessionModel {
                regs: st.regs.update(reg_of(fs)->Some_0.index as int, reg_of(fs)),
                ..st
            }
        } else if tag == SVC_HLTV {
            SessionModel { is_hltv: true, ..st }
        } else {
            st
        },
        MessageModel::DeltaDescription(d) => SessionModel { ddt: st.ddt.insert(d.name, d.fields), ..st },
        _ => st,
    }
}

/// Messages from `pos` to the end of `b`, each read against the session that
/// the ones before it left, and the session after the last.
pub open spec fn decode_from(b: Seq<u8>, pos: int, st: SessionModel) -> Result<
    (Seq<MessageModel>, SessionModel),
    ParseError,
>
    decreases b.len() - pos,
{
    if pos < 0 || pos >= b.len() {
        Ok((seq![], st))
    } else {
        match parse_message(b.subrange(pos, b.len() as int), st) {
            Err(e) => Err(ParseError { kind: e, offset: pos as usize }),
            Ok((m, n)) => {
                proof {
                    lemma_parse_message_advances(b.subrange(pos, b.len() as int), st);
                    assert(n >= 1);
                }
                match decode_from(b, pos + n, apply(st, m)) {
                    Ok((ms, st2)) => Ok((seq![m] + ms, st2)),
                    Err(e) => Err(e),
                }
            },
        }
    }
}

/// The session after the messages from `pos` on that decode before the end or
/// the first failure: what a decode leaves behind, whether or not it fails.
pub open spec fn decode_state(b: Seq<u8>, pos: int, st: SessionModel) -> SessionModel
    decreases b.len() - pos,
{
    if pos < 0 || pos >= b.len() {
        st
    } else {
        match parse_message(b.subrange(pos, b.len() as int), st) {
            Err(_) => st,
            Ok((m, n)) => {
                proof {
                    lemma_parse_message_advances(b.subrange(pos, b.len() as int), st);
                }
                decode_state(b, pos + n, apply(st, m))
            },
        }
    }
}

/// Whether a type byte names a message that changes the session's tables.
pub open spec fn mutates_tables(tag: u8) -> bool {
    tag == SVC_SERVERINFO || tag == SVC_DELTADESCRIPTION || tag == SVC_NEWUSERMSG
}

/// One message for the read-only decoder: table-changing messages are refused.
pub open spec fn parse_message_immutable(b: Seq<u8>, st: SessionModel) -> Result<
    (MessageModel, nat),
    ErrorKind,
> {
    if b.len() > 0 && mutates_tables(b[0]) {
        Err(ErrorKind::ImmutableViolation)
    } else {
        parse_message(b, st)
    }
}

/// Messages from `pos` on, all read against the same session.
pub open spec fn decode_immutable_from(b: Seq<u8>, pos: int, st: SessionModel) -> Result<
    Seq<MessageModel>,
    ParseError,
>
    decreases b.len() - pos,
{
    if pos < 0 || pos >= b.len() {
        Ok(seq![])
    } else {
        match parse_message_immutable(b.subrange(pos, b.len() as int), st) {
            Err(e) => Err(ParseError { kind: e, offset: pos as usize }),
            Ok((m, n)) => {
                proof {
                    lemma_parse_message_advances(b.subrange(pos, b.len() as int), st);
                    assert(n >= 1);
                }
                match decode_immutable_from(b, pos + n, st) {
                    Ok(ms) => Ok(seq![m] + ms),
                    Err(e) => Err(e),
                }
            },
        }
    }
}

/// The bytes of one message, type byte first, or why it cannot be written.
#[verifier::opaque]
pub open spec fn encode_message(m: MessageModel, st: SessionModel) -> Result<Seq<u8>, ErrorKind> {
    match m {
        MessageModel::Fixed(tag, fs) => match layout(tag) {
            None => Err(ErrorKind::UnsupportedMessage),
            Some(l) => match encode_slots(l, fs, 0) {
                Ok(bs) => Ok(seq![tag] + bs),
                Err(e) => Err(e),
            },
        },
        MessageModel::DeltaDescription(d) => encode_delta_description(d, st.ddt),
        MessageModel::ClientData(c) => encode_client_data(c, st.ddt, st.is_hltv),
        MessageModel::SpawnBaseline(es) => encode_spawn_baseline(es, st.ddt, st.max_players),
        MessageModel::PacketEntities(p) => encode_packet_entities(p, st.ddt, st.max_players, false),
        MessageModel::DeltaPacketEntities(p) => encode_packet_entities(
            p,
            st.ddt,
            st.max_players,
            true,
        ),
        MessageModel::User(u) => if u.id < SVC_MAX_ENGINE {
            Err(ErrorKind::ValueMismatch)
        } else {
            encode_user_message(u, st.regs)
        },
    }
}

/// The messages from index `i` on, one after another.
pub open spec fn encode_all(ms: Seq<MessageModel>, st: SessionModel, i: int) -> Result<
    Seq<u8>,
    ErrorKind,
>
    decreases ms.len() - i,
{
    if i < 0 || i >= ms.len() {
        Ok(seq![])
    } else {
        match encode_message(ms[i], st) {
            Err(e) => Err(e),
            Ok(h) => match encode_all(ms, st, i + 1) {
                Ok(t) => Ok(h + t),
                Err(e) => Err(e),
            },
        }
    }
}


/// Each message written against the session that the ones before it leave.
pub open spec fn encode_along(ms: Seq<MessageModel>, st: SessionModel) -> Result<Seq<u8>, ErrorKind>
    decreases ms.len(),
{
    if ms.len() == 0 {
        Ok(seq![])
    } else {
        match encode_message(ms[0], st) {
            Err(e) => Err(e),
            Ok(h) => match encode_along(ms.drop_first(), apply(st, ms[0])) {
                Ok(t) => Ok(h + t),
                Err(e) => Err(e),
            },
        }
    }
}

/// The session after all of `ms`.
pub open spec fn final_session(ms: Seq<MessageModel>, st: SessionModel) -> SessionModel
    decreases ms.len(),
{
    if ms.len() == 0 {
        st
    } else {
        final_session(ms.drop_first(), apply(st, ms[0]))
    }
}

/// `acc` put in front of the messages that `r` produced.
pub open spec fn decoded_prefixed(
    acc: Seq<MessageModel>,
    r: Result<(Seq<MessageModel>, SessionModel), ParseError>,
) -> Result<(Seq<MessageModel>, SessionModel), ParseError> {
    match r {
        Ok((ms, st)) => Ok((acc + ms, st)),
        Err(e) => Err(e),
    }
}

/// Reads the message at the start of `i` against `session`; gives the bytes it took.
pub fn parse_single_netmsg(i: &[u8], session: &Session) -> (r: Result<(Message, usize), ErrorKind>)
    requires
        session.wf(),
        i@.len() * 8 <= usize::MAX,
    ensures
        match r {
            Ok((m, n)) => parse_message(i@, session@) == Ok::<_, ErrorKind>((m@, n as nat)),
            Err(e) => parse_message(i@, session@) == Err::<(MessageModel, nat), ErrorKind>(e),
        },
{
    reveal(parse_message);
    if i.len() == 0 {
        return Err(ErrorKind::ShortRead);
    }
    let tag = i[0];
    let body = slice_subrange(i, 1, i.len());
    assert(body@ == i@.subrange(1, i@.len() as int));
    if tag >= SVC_MAX_ENGINE {
        match UserMessage::parse(body, tag, &session.custom_messages) {
            Ok((m, n)) => Ok((Message::UserMessage(m), 1 + n)),
            Err(e) => Err(e),
        }
    } else if tag == SVC_DELTADESCRIPTION {
        match DeltaDescription::parse(body, &session.ddt) {
            Ok((m, n)) => Ok((Message::EngineMessage(EngineMessage::DeltaDescription(m)), 1 + n)),
            Err(e) => Err(e),
        }
    } else if tag == SVC_CLIENTDATA {
        match ClientData::parse(body, &session.ddt, session.is_hltv) {
            Ok((m, n)) => Ok((Message::EngineMessage(EngineMessage::ClientData(m)), 1 + n)),
            Err(e) => Err(e),
        }
    } else if tag == SVC_SPAWNBASELINE {
        match SpawnBaseline::parse(body, &session.ddt, session.max_players) {
            Ok((m, n)) => Ok((Message::EngineMessage(EngineMessage::SpawnBaseline(m)), 1 + n)),
            Err(e) => Err(e),
        }
    } else if tag == SVC_PACKETENTITIES {
        match PacketEntities::parse(body, &session.ddt, session.max_players, false) {
            Ok((m, n)) => Ok((Message::EngineMessage(EngineMessage::PacketEntities(m)), 1 + n)),
            Err(e) => Err(e),
        }
    } else if tag == SVC_DELTAPACKETENTITIES {
        match PacketEntities::parse(body, &session.ddt, session.max_players, true) {
            Ok((m, n)) => Ok(
                (Message::EngineMessage(EngineMessage::DeltaPacketEntities(m)), 1 + n),
            ),
            Err(e) => Err(e),
        }
    } else {
        match layout_of(tag) {
            None => Err(ErrorKind::UnsupportedMessage),
            Some(l) => match read_slots(&l, body, 0) {
                Ok((fields, p)) => {
                    proof {
                        crate::bytes::lemma_parse_slots_bounds(l@, body@, 0, 0);
                    }
                    Ok((Message::EngineMessage(EngineMessage::Fixed(FixedMessage { tag, fields })), 1 + p))
                },
                Err(e) => Err(e),
            },
        }
    }
}

/// Reads the message at the start of `i` for the read-only decoder: a
/// message that would change the session's tables is refused.
pub fn parse_single_netmsg_immutable(i: &[u8], session: &Session) -> (r: Result<
    (Message, usize),
    ErrorKind,
>)
    requires
        session.wf(),
        i@.len() * 8 <= usize::MAX,
    ensures
        match r {
            Ok((m, n)) => parse_message_immutable(i@, session@) == Ok::<_, ErrorKind>(
                (m@, n as nat),
            ),
            Err(e) => parse_message_immutable(i@, session@) == Err::<(MessageModel, nat), ErrorKind>(
                e,
            ),
        },
{
    if i.len() > 0 {
        let tag = i[0];
        if tag == SVC_SERVERINFO || tag == SVC_DELTADESCRIPTION || tag == SVC_NEWUSERMSG {
            return Err(ErrorKind::ImmutableViolation);
        }
    }
    parse_single_netmsg(i, session)
}

/// Carries out on `session` what message `m` changes in it.
pub fn apply_message(session: &mut Session, m: &Message)
    requires
        old(session).wf(),
    ensures
        final(session).wf(),
        final(session)@ == apply(old(session)@, m@),
{
    reveal(apply);
    match m {
        Message::EngineMessage(EngineMessage::Fixed(f)) => {
            if f.tag == SVC_SERVERINFO && f.fields.len() > SERVERINFO_MAX_PLAYERS {
                match &f.fields[SERVERINFO_MAX_PLAYERS] {
                    Scalar::U8(x) => {
                        session.max_players = *x;
                    },
                    _ => {},
                }
            } else if f.tag == SVC_NEWUSERMSG && f.fields.len() == 3 {
                match (&f.fields[0], &f.fields[1], &f.fields[2]) {
                    (Scalar::U8(index), Scalar::I8(length), Scalar::Bytes(name)) => {
                        let reg = UserMsgReg {
                            index: *index,
                            length: *length,
                            name: slice_to_vec(name.as_slice()),
                        };
                        session.custom_messages.register(reg);
                    },
                    _ => {},
                }
            } else if f.tag == SVC_HLTV {
                session.is_hltv = true;
            }
        },
        Message::EngineMessage(EngineMessage::DeltaDescription(d)) => {
            session.ddt.insert(slice_to_vec(d.name.as_slice()), copy_descs(&d.fields));
        },
        _ => {},
    }
}

/// Decodes a whole payload, carrying each message's changes into `session`
/// before the next message is read. Fails unless every byte belongs to a message.
pub fn parse_netmsg(i: &[u8], session: &mut Session) -> (r: Result<Vec<Message>, ParseError>)
    requires
        old(session).wf(),
        i@.len() * 8 <= usize::MAX,
    ensures
        final(session).wf(),
        final(session)@ == decode_state(i@, 0, old(session)@),
        match r {
            Ok(ms) => decode_from(i@, 0, old(session)@) == Ok::<_, ParseError>(
                (messages_view(ms@), final(session)@),
            ),
            Err(e) => decode_from(i@, 0, old(session)@) == Err::<
                (Seq<MessageModel>, SessionModel),
                ParseError,
            >(e),
        },
{
    let ghost st0 = session@;
    let mut out: Vec<Message> = Vec::new();
    let mut pos: usize = 0;
    proof {
        if let Ok((ms, st)) = decode_from(i@, 0, st0) {
            assert(messages_view(out@) + ms =~= ms);
        }
    }
    loop
        invariant
            session.wf(),
            i@.len() * 8 <= usize::MAX,
            pos <= i@.len(),
            st0 == old(session)@,
            decode_state(i@, 0, st0) == decode_state(i@, pos as int, session@),
            decode_from(i@, 0, st0) == decoded_prefixed(
                messages_view(out@),
                decode_from(i@, pos as int, session@),
            ),
        decreases i@.len() - pos,
    {
        if pos == i.len() {
            proof {
                assert(messages_view(out@) + seq![] =~= messages_view(out@));
            }
            return Ok(out);
        }
        let rest = slice_subrange(i, pos, i.len());
        let ghost before = session@;
        let (m, n) = match parse_single_netmsg(rest, session) {
            Ok(x) => x,
            Err(e) => {
                return Err(ParseError { kind: e, offset: pos });
            },
        };
        proof {
            lemma_parse_message_advances(rest@, before);
        }
        apply_message(session, &m);
        proof {
            if let Ok((ms, st)) = decode_from(i@, pos + n, session@) {
                assert(messages_view(out@) + (seq![m@] + ms) =~= messages_view(out@).push(m@) + ms);
            }
        }
        let ghost old_view = messages_view(out@);
        out.push(m);
        assert(messages_view(out@) =~= old_view.push(m@));
        pos = pos + n;
    }
}

/// Decodes a whole payload against a session that it must not change: a
/// server info, delta description or new user message is an error.
pub fn parse_netmsg_immutable(i: &[u8], session: &Session) -> (r: Result<
    Vec<Message>,
    ParseError,
>)
    requires
        session.wf(),
        i@.len() * 8 <= usize::MAX,
    ensures
        match r {
            Ok(ms) => decode_immutable_from(i@, 0, session@) == Ok::<_, ParseError>(
                messages_view(ms@),
            ),
            Err(e) => decode_immutable_from(i@, 0, session@) == Err::<Seq<MessageModel>, ParseError>(e),
        },
{
    let mut out: Vec<Message> = Vec::new();
    let mut pos: usize = 0;
    proof {
        if let Ok(ms) = decode_immutable_from(i@, 0, session@) {
            assert(messages_view(out@) + ms =~= ms);
        }
    }
    loop
        invariant
            session.wf(),
            i@.len() * 8 <= usize::MAX,
            pos <= i@.len(),
            decode_immutable_from(i@, 0, session@) == match decode_immutable_from(
                i@,
                pos as int,
                session@,
            ) {
                Ok(ms) => Ok(messages_view(out@) + ms),
                Err(e) => Err(e),
            },
        decreases i@.len() - pos,
    {
        if pos == i.len() {
            proof {
                assert(messages_view(out@) + seq![] =~= messages_view(out@));
            }
            return Ok(out);
        }
        let rest = slice_subrange(i, pos, i.len());
        let (m, n) = match parse_single_netmsg_immutable(rest, session) {
            Ok(x) => x,
            Err(e) => {
                return Err(ParseError { kind: e, offset: pos });
            },
        };
        proof {
            lemma_parse_message_advances(rest@, session@);
            if let Ok(ms) = decode_immutable_from(i@, pos + n, session@) {
                assert(messages_view(out@) + (seq![m@] + ms) =~= messages_view(out@).push(m@) + ms);
            }
        }
        let ghost old_view = messages_view(out@);
        out.push(m);
        assert(messages_view(out@) =~= old_view.push(m@));
        pos = pos + n;
    }
}

/// Encodes one message, type byte first, against `session`.
pub fn write_single_netmsg(m: &Message, session: &Session) -> (r: Result<Vec<u8>, ErrorKind>)
    requires
        session.wf(),
    ensures
        match encode_message(m@, session@) {
            Ok(bs) => r is Ok && r->Ok_0@ == bs,
            Err(e) => r == Err::<Vec<u8>, ErrorKind>(e),
        },
{
    reveal(encode_message);
    match m {
        Message::EngineMessage(EngineMessage::Fixed(f)) => match layout_of(f.tag) {
            None => Err(ErrorKind::UnsupportedMessage),
            Some(l) => {
                let mut out: Vec<u8> = Vec::new();
                out.push(f.tag);
                match write_slots(&l, &f.fields, &mut out) {
                    Ok(_) => Ok(out),
                    Err(e) => Err(e),
                }
            },
        },
        Message::EngineMessage(EngineMessage::DeltaDescription(d)) => DeltaDescription::write(
            d,
            &session.ddt,
        ),
        Message::EngineMessage(EngineMessage::ClientData(c)) => ClientData::write(
            c,
            &session.ddt,
            session.is_hltv,
        ),
        Message::EngineMessage(EngineMessage::SpawnBaseline(b)) => SpawnBaseline::write(
            b,
            &session.ddt,
            session.max_players,
        ),
        Message::EngineMessage(EngineMessage::PacketEntities(p)) => PacketEntities::write(
            p,
            &session.ddt,
            session.max_players,
            false,
        ),
        Message::EngineMessage(EngineMessage::DeltaPacketEntities(p)) => PacketEntities::write(
            p,
            &session.ddt,
            session.max_players,
            true,
        ),
        Message::UserMessage(u) => {
            if u.id < SVC_MAX_ENGINE {
                return Err(ErrorKind::ValueMismatch);
            }
            UserMessage::write(u, &session.custom_messages)
        },
    }
}

/// Encodes messages one after another against `session`, which it does not change.
pub fn write_netmsg(i: &Vec<Message>, session: &Session) -> (r: Result<Vec<u8>, ErrorKind>)
    requires
        session.wf(),
    ensures
        match encode_all(messages_view(i@), session@, 0) {
            Ok(bs) => r is Ok && r->Ok_0@ == bs,
            Err(e) => r == Err::<Vec<u8>, ErrorKind>(e),
        },
{
    let ghost ms = messages_view(i@);
    let mut res: Vec<u8> = Vec::new();
    let mut k: usize = 0;
    proof {
        if let Ok(all) = encode_all(ms, session@, 0) {
            assert(res@ + all =~= all);
        }
    }
    while k < i.len()
        invariant
            session.wf(),
            ms == messages_view(i@),
            k <= i@.len(),
            match encode_all(ms, session@, 0) {
                Ok(all) => encode_all(ms, session@, k as int) is Ok && all == res@ + encode_all(
                    ms,
                    session@,
                    k as int,
                )->Ok_0,
                Err(e) => encode_all(ms, session@, k as int) == Err::<Seq<u8>, ErrorKind>(e),
            },
        decreases i@.len() - k,
    {
        let one = match write_single_netmsg(&i[k], session) {
            Ok(b) => b,
            Err(e) => {
                return Err(e);
            },
        };
        let ghost before = res@;
        crate::bytes::append_bytes(&mut res, one.as_slice());
        proof {
            if let Ok(rest) = encode_all(ms, session@, k + 1) {
                assert(before + (one@ + rest) =~= res@ + rest);
            }
        }
        k = k + 1;
    }
    proof {
        if let Ok(all) = encode_all(ms, session@, 0) {
            assert(res@ + seq![] =~= res@);
        }
    }
    Ok(res)
}


impl UserMsgReg {
    pub fn copy(&self) -> (r: Self)
        ensures
            r@ == self@,
    {
        UserMsgReg { index: self.index, length: self.length, name: slice_to_vec(self.name.as_slice()) }
    }
}

impl Session {
    /// An independent copy of the session.
    pub fn copy(&self) -> (r: Session)
        requires
            self.wf(),
        ensures
            r.wf(),
            r@ == self@,
    {
        let mut entries: Vec<crate::table::DdtEntry> = Vec::new();
        let mut k: usize = 0;
        while k < self.ddt.entries.len()
            invariant
                k <= self.ddt@.len(),
                self.ddt@.len() == self.ddt.entries@.len(),
                entries@.len() == k,
                forall|j: int|
                    0 <= j < k ==> (#[trigger] entries@[j]).name@ == self.ddt.entries@[j].name@
                        && descs_view(entries@[j].fields@) == descs_view(
                        self.ddt.entries@[j].fields@,
                    ),
            decreases self.ddt@.len() - k,
        {
            let e = &self.ddt.entries[k];
            let c = crate::table::DdtEntry {
                name: slice_to_vec(e.name.as_slice()),
                fields: copy_descs(&e.fields),
            };
            entries.push(c);
            k = k + 1;
        }
        let ddt = crate::table::DeltaDecoderTable { entries };
        assert(ddt@ =~= self.ddt@);
        let mut regs: Vec<Option<UserMsgReg>> = Vec::new();
        let mut i: usize = 0;
        while i < self.custom_messages.regs.len()
            invariant
                i <= 256,
                self.custom_messages.regs@.len() == 256,
                regs@.len() == i,
                forall|j: int|
                    0 <= j < i ==> #[trigger] crate::user_message::reg_view(regs@[j])
                        == self.custom_messages@[j],
            decreases 256 - i,
        {
            let r = match &self.custom_messages.regs[i] {
                Some(x) => Some(x.copy()),
                None => None,
            };
            regs.push(r);
            i = i + 1;
        }
        let custom_messages = UserMessageRegistry { regs };
        assert(custom_messages@ =~= self.custom_messages@);
        Session {
            ddt,
            custom_messages,
            max_players: self.max_players,
            is_hltv: self.is_hltv,
        }
    }
}

/// Encodes messages one after another, each against the session that the
/// messages before it leave, starting from a copy of `session`, which is not changed.
pub fn write_netmsg_along(i: &Vec<Message>, session: &Session) -> (r: Result<Vec<u8>, ErrorKind>)
    requires
        session.wf(),
    ensures
        match encode_along(messages_view(i@), session@) {
            Ok(bs) => r is Ok && r->Ok_0@ == bs,
            Err(e) => r == Err::<Vec<u8>, ErrorKind>(e),
        },
{
    let ghost ms = messages_view(i@);
    let mut st = session.copy();
    let mut res: Vec<u8> = Vec::new();
    let mut k: usize = 0;
    proof {
        assert(ms.subrange(0, ms.len() as int) =~= ms);
        if let Ok(all) = encode_along(ms, session@) {
            assert(res@ + all =~= all);
        }
    }
    while k < i.len()
        invariant
            st.wf(),
            ms == messages_view(i@),
            k <= i@.len(),
            match encode_along(ms, session@) {
                Ok(all) => encode_along(ms.subrange(k as int, ms.len() as int), st@) is Ok && all
                    == res@ + encode_along(ms.subrange(k as int, ms.len() as int), st@)->Ok_0,
                Err(e) => encode_along(ms.subrange(k as int, ms.len() as int), st@) == Err::<
                    Seq<u8>,
                    ErrorKind,
                >(e),
            },
        decreases i@.len() - k,
    {
        let ghost tail = ms.subrange(k as int, ms.len() as int);
        assert(tail[0] == i@[k as int]@);
        assert(tail.drop_first() =~= ms.subrange(k + 1, ms.len() as int));
        let one = match write_single_netmsg(&i[k], &st) {
            Ok(b) => b,
            Err(e) => {
                return Err(e);
            },
        };
        let ghost before = res@;
        crate::bytes::append_bytes(&mut res, one.as_slice());
        apply_message(&mut st, &i[k]);
        proof {
            if let Ok(rest) = encode_along(ms.subrange(k + 1, ms.len() as int), st@) {
                assert(before + (one@ + rest) =~= res@ + rest);
            }
        }
        k = k + 1;
    }
    proof {
        assert(ms.subrange(k as int, ms.len() as int) =~= seq![]);
        if let Ok(all) = encode_along(ms, session@) {
            assert(res@ + seq![] =~= res@);
        }
    }
    Ok(res)
}

} // verus!
