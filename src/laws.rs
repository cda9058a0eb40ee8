//! Laws that tie the codec's parts together, proved over their specifications.
use vstd::prelude::*;

use crate::client_data::{empty_client_data, ClientDataModel, SVC_CLIENTDATA};
use crate::netmsg::{
    apply, decode_from, encode_message, parse_message, MessageModel, SessionModel, SVC_HLTV,
    SVC_MAX_ENGINE,
};
use crate::bits::{bytes_bits, take_bits};
use crate::spawn_baseline::{parse_entities, parse_entity_body, parse_spawn_baseline, BASELINE_END};
use crate::user_message::UserMessageModel;

verus! {

/// Once a session is on a spectator-relay stream it stays there, whatever message comes next.
pub proof fn law_hltv_sticks(st: SessionModel, m: MessageModel)
    requires
        st.is_hltv,
    ensures
        apply(st, m).is_hltv,
{
    reveal(apply);
}

/// An HLTV message puts the session on a spectator-relay stream.
pub proof fn law_hltv_sets(st: SessionModel, fs: Seq<crate::bytes::ScalarModel>)
    ensures
        apply(st, MessageModel::Fixed(SVC_HLTV, fs)).is_hltv,
{
    reveal(apply);
}

/// On a spectator-relay stream a client data message has no body: it is read
/// from its type byte alone as the empty form, and any client data is written
/// as that byte alone.
pub proof fn law_hltv_client_data(st: SessionModel, b: Seq<u8>, c: ClientDataModel)
    requires
        st.is_hltv,
        b.len() > 0,
        b[0] == SVC_CLIENTDATA,
    ensures
        parse_message(b, st) == Ok::<_, crate::error::ErrorKind>(
            (MessageModel::ClientData(empty_client_data()), 1nat),
        ),
        encode_message(MessageModel::ClientData(c), st) == Ok::<_, crate::error::ErrorKind>(
            seq![SVC_CLIENTDATA],
        ),
{
    reveal(parse_message);
    reveal(encode_message);
}

/// After an HLTV message, every client data message in the rest of a decoded
/// payload is the empty form, and the session that comes out is still on a
/// spectator-relay stream.
pub proof fn law_hltv_suppression(b: Seq<u8>, pos: int, st: SessionModel)
    requires
        st.is_hltv,
    ensures
        decode_from(b, pos, st) matches Ok((ms, st2)) ==> st2.is_hltv && forall|k: int|
            0 <= k < ms.len() && #[trigger] ms[k] is ClientData ==> ms[k]
                == MessageModel::ClientData(empty_client_data()),
    decreases b.len() - pos,
{
    if 0 <= pos < b.len() {
        let rest = b.subrange(pos, b.len() as int);
        crate::netmsg::lemma_parse_message_advances(rest, st);
        if let Ok((m, n)) = parse_message(rest, st) {
            law_hltv_sticks(st, m);
            law_hltv_suppression(b, pos + n, apply(st, m));
            if m is ClientData {
                reveal(parse_message);
                assert(rest[0] == SVC_CLIENTDATA);
                law_hltv_client_data(st, rest, empty_client_data());
            }
            if let Ok((ms, st2)) = decode_from(b, pos, st) {
                let tail = decode_from(b, pos + n, apply(st, m))->Ok_0.0;
                assert(ms == seq![m] + tail);
                assert forall|k: int|
                    0 <= k < ms.len() && #[trigger] ms[k] is ClientData implies ms[k]
                        == MessageModel::ClientData(empty_client_data()) by {
                    if k > 0 {
                        assert(ms[k] == tail[k - 1]);
                    }
                }
            }
        }
    }
}

/// A delta description takes effect at once: the rest of the payload is read
/// against a session whose table holds its fields under its name.
pub proof fn law_descriptor_update(b: Seq<u8>, pos: int, st: SessionModel)
    requires
        0 <= pos < b.len(),
        parse_message(b.subrange(pos, b.len() as int), st) matches Ok((m, n)) && m is DeltaDescription,
    ensures
        ({
            let (m, n) = parse_message(b.subrange(pos, b.len() as int), st)->Ok_0;
            let d = m->DeltaDescription_0;
            let next = apply(st, m);
            &&& next.ddt.contains_key(d.name)
            &&& next.ddt[d.name] == d.fields
            &&& decode_from(b, pos, st) == match decode_from(b, pos + n, next) {
                Ok((ms, st2)) => Ok((seq![m] + ms, st2)),
                Err(e) => Err(e),
            }
        }),
{
    reveal(apply);
}

/// A game message takes its type byte and then exactly its registered length,
/// or, for a variable one, a length byte and as many bytes as that byte says.
pub proof fn law_user_message_length(b: Seq<u8>, st: SessionModel)
    requires
        b.len() > 0,
        b[0] >= SVC_MAX_ENGINE,
        parse_message(b, st) is Ok,
    ensures
        st.regs[b[0] as int] is Some,
        ({
            let reg = st.regs[b[0] as int]->Some_0;
            let (m, n) = parse_message(b, st)->Ok_0;
            let len: int = if reg.length >= 0 {
                reg.length as int
            } else {
                b[1] as int
            };
            let start: int = if reg.length >= 0 {
                1
            } else {
                2
            };
            &&& n == start + len
            &&& m == MessageModel::User(
                UserMessageModel { id: b[0], payload: b.subrange(start, start + len) },
            )
        }),
{
    reveal(parse_message);
    let body = b.subrange(1, b.len() as int);
    let reg = st.regs[b[0] as int]->Some_0;
    if reg.length >= 0 {
        assert(body.subrange(0, reg.length as int) =~= b.subrange(1, 1 + reg.length));
    } else {
        assert(body.subrange(1, 1 + body[0]) =~= b.subrange(2, 2 + b[1]));
    }
}


proof fn lemma_decode_extend(p: Seq<u8>, j: Seq<u8>, pos: int, st: SessionModel)
    requires
        0 <= pos <= p.len(),
        decode_from(p, pos, st) is Ok,
    ensures
        ({
            let (ms, st2) = decode_from(p, pos, st)->Ok_0;
            decode_from(p + j, pos, st) == match decode_from(p + j, p.len() as int, st2) {
                Ok((ms2, st3)) => Ok((ms + ms2, st3)),
                Err(e) => Err(e),
            }
        }),
    decreases p.len() - pos,
{
    let pj = p + j;
    if pos == p.len() {
        let (ms, st2) = decode_from(p, pos, st)->Ok_0;
        assert(ms == Seq::<MessageModel>::empty());
        if let Ok((ms2, st3)) = decode_from(pj, p.len() as int, st2) {
            assert(ms + ms2 =~= ms2);
        }
    } else {
        let rest = p.subrange(pos, p.len() as int);
        assert(pj.subrange(pos, pj.len() as int) =~= rest + j);
        crate::prefix::lemma_message_extend(rest, j, st);
        crate::netmsg::lemma_parse_message_advances(rest, st);
        let (m, n) = parse_message(rest, st)->Ok_0;
        lemma_decode_extend(p, j, pos + n, apply(st, m));
        let (tail, st2) = decode_from(p, pos + n, apply(st, m))->Ok_0;
        if let Ok((ms2, st3)) = decode_from(pj, p.len() as int, st2) {
            assert(seq![m] + (tail + ms2) =~= (seq![m] + tail) + ms2);
        }
    }
}

/// Decoding reads a payload whole: it succeeds only once the messages have
/// covered every byte. A payload followed by more bytes reads as the
/// payload's messages and then whatever the extra bytes decode to from the
/// session the payload left, so extra bytes that are no messages make the
/// whole decode fail.
pub proof fn law_exhaustive_consumption(p: Seq<u8>, j: Seq<u8>, st: SessionModel)
    requires
        decode_from(p, 0, st) is Ok,
    ensures
        ({
            let (ms, st2) = decode_from(p, 0, st)->Ok_0;
            &&& decode_from(p + j, 0, st) == match decode_from(p + j, p.len() as int, st2) {
                Ok((ms2, st3)) => Ok((ms + ms2, st3)),
                Err(e) => Err(e),
            }
            &&& decode_from(p + j, p.len() as int, st2) is Err ==> decode_from(p + j, 0, st) is Err
        }),
{
    lemma_decode_extend(p, j, 0, st);
}

proof fn lemma_entities_end_at_sentinel(
    t: Map<Seq<u8>, Seq<crate::delta::DescriptorModel>>,
    max_players: u8,
    s: Seq<bool>,
    pos: int,
)
    requires
        parse_entities(t, max_players, s, pos) is Ok,
    ensures
        ({
            let p = parse_entities(t, max_players, s, pos)->Ok_0.1;
            take_bits(s, p - 11, 11) == Some(BASELINE_END as nat)
        }),
    decreases s.len() - pos,
{
    let index = take_bits(s, pos, 11)->Some_0;
    if index != BASELINE_END {
        crate::spawn_baseline::lemma_parse_entity_body_bounds(t, max_players, index, s, pos + 11);
        let p = parse_entity_body(t, max_players, index, s, pos + 11)->Ok_0.1;
        lemma_entities_end_at_sentinel(t, max_players, s, p);
    }
}

/// A spawn baseline list ends at the first sentinel index, whatever bytes
/// follow the message: the body reads the same with any bytes after it, its
/// last eleven bits read are the sentinel, and it takes the bytes up to and
/// including the one that holds the sentinel's last bit.
pub proof fn law_baseline_terminator(
    b: Seq<u8>,
    j: Seq<u8>,
    t: Map<Seq<u8>, Seq<crate::delta::DescriptorModel>>,
    max_players: u8,
)
    requires
        parse_spawn_baseline(b, t, max_players) is Ok,
    ensures
        parse_spawn_baseline(b + j, t, max_players) == parse_spawn_baseline(b, t, max_players),
        ({
            let s = bytes_bits(b);
            let p = parse_entities(t, max_players, s, 0)->Ok_0.1;
            &&& take_bits(s, p - 11, 11) == Some(BASELINE_END as nat)
            &&& parse_spawn_baseline(b, t, max_players)->Ok_0.1 == (p + 7) / 8
        }),
{
    crate::prefix::lemma_spawn_baseline_extend(b, j, t, max_players);
    lemma_entities_end_at_sentinel(t, max_players, bytes_bits(b), 0);
}

} // verus!
