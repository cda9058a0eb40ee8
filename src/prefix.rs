//! What a parser reads does not depend on the bytes after what it took: each
//! parser gives the same result on any extension of its input.
use vstd::prelude::*;

use crate::bits::{bytes_bits, take_bits};
use crate::bytes::{parse_cstr, parse_slot, parse_slots, take_bytes, Slot};
use crate::client_data::{parse_client_data, parse_client_data_bits, parse_weapons};
use crate::delta::{
    kind_of, mask_presence, parse_delta_spec, parse_field, parse_fields, parse_text,
    DescriptorModel, FieldKind,
};
use crate::delta_description::{parse_delta_description, parse_descriptors};
use crate::netmsg::{decode_from, parse_message, SessionModel};
use crate::packet_entities::{
    parse_packet_entities, parse_packet_entity, parse_packet_index, parse_packet_list,
};
use crate::spawn_baseline::{parse_entities, parse_entity_body, parse_extra, parse_spawn_baseline};
use crate::user_message::parse_user_message;

verus! {

pub proof fn lemma_bytes_bits_append(b: Seq<u8>, j: Seq<u8>)
    ensures
        bytes_bits(b + j) == bytes_bits(b) + bytes_bits(j),
{
    let l = bytes_bits(b + j);
    let r = bytes_bits(b) + bytes_bits(j);
    assert forall|i: int| 0 <= i < l.len() implies l[i] == r[i] by {
        if i >= 8 * b.len() {
            assert((i - 8 * b.len()) / 8 == i / 8 - b.len());
            assert((i - 8 * b.len()) % 8 == i % 8);
        }
    }
    assert(l =~= r);
}

pub proof fn lemma_take_extend(s: Seq<bool>, t: Seq<bool>, pos: int, n: nat)
    requires
        take_bits(s, pos, n) is Some,
    ensures
        take_bits(s + t, pos, n) == take_bits(s, pos, n),
{
    assert((s + t).subrange(pos, pos + n) =~= s.subrange(pos, pos + n));
}

pub proof fn lemma_text_extend(s: Seq<bool>, t: Seq<bool>, pos: int)
    requires
        parse_text(s, pos) is Ok,
    ensures
        parse_text(s + t, pos) == parse_text(s, pos),
    decreases s.len() - pos,
{
    lemma_take_extend(s, t, pos, 8);
    if take_bits(s, pos, 8) != Some(0nat) {
        lemma_text_extend(s, t, pos + 8);
    }
}

pub proof fn lemma_field_extend(d: DescriptorModel, s: Seq<bool>, t: Seq<bool>, pos: int)
    requires
        parse_field(d, s, pos) is Ok,
    ensures
        parse_field(d, s + t, pos) == parse_field(d, s, pos),
{
    if kind_of(d.flags) == Some(FieldKind::Text) {
        lemma_text_extend(s, t, pos);
    } else {
        lemma_take_extend(s, t, pos, crate::delta::field_width(d));
    }
}

pub proof fn lemma_fields_extend(
    descs: Seq<DescriptorModel>,
    present: Seq<bool>,
    s: Seq<bool>,
    t: Seq<bool>,
    pos: int,
    i: int,
)
    requires
        parse_fields(descs, present, s, pos, i) is Ok,
    ensures
        parse_fields(descs, present, s + t, pos, i) == parse_fields(descs, present, s, pos, i),
    decreases descs.len() - i,
{
    if 0 <= i < descs.len() {
        if !present[i] {
            lemma_fields_extend(descs, present, s, t, pos, i + 1);
        } else {
            lemma_field_extend(descs[i], s, t, pos);
            let p = parse_field(descs[i], s, pos)->Ok_0.1;
            lemma_fields_extend(descs, present, s, t, p, i + 1);
        }
    }
}

pub proof fn lemma_delta_extend(descs: Seq<DescriptorModel>, s: Seq<bool>, t: Seq<bool>, pos: int)
    requires
        parse_delta_spec(descs, s, pos) is Ok,
    ensures
        parse_delta_spec(descs, s + t, pos) == parse_delta_spec(descs, s, pos),
{
    reveal(parse_delta_spec);
    lemma_take_extend(s, t, pos, 1);
    if take_bits(s, pos, 1) == Some(1nat) {
        lemma_take_extend(s, t, pos + 1, 3);
        let c = take_bits(s, pos + 1, 3)->Some_0;
        assert((s + t).subrange(pos + 4, pos + 4 + 8 * c) =~= s.subrange(pos + 4, pos + 4 + 8 * c));
        lemma_fields_extend(
            descs,
            mask_presence(descs.len(), true, s.subrange(pos + 4, pos + 4 + 8 * c)),
            s,
            t,
            pos + 4 + 8 * c,
            0,
        );
    } else {
        lemma_fields_extend(
            descs,
            mask_presence(descs.len(), false, seq![]),
            s,
            t,
            pos + 1,
            0,
        );
    }
}

pub proof fn lemma_weapons_extend(
    w: Option<Seq<DescriptorModel>>,
    s: Seq<bool>,
    t: Seq<bool>,
    pos: int,
)
    requires
        parse_weapons(w, s, pos) is Ok,
    ensures
        parse_weapons(w, s + t, pos) == parse_weapons(w, s, pos),
    decreases s.len() - pos,
{
    lemma_take_extend(s, t, pos, 1);
    if take_bits(s, pos, 1) != Some(0nat) {
        lemma_take_extend(s, t, pos + 1, 6);
        let descs = w->Some_0;
        lemma_delta_extend(descs, s, t, pos + 7);
        crate::delta::lemma_parse_delta_bounds(descs, s, pos + 7);
        let p = parse_delta_spec(descs, s, pos + 7)->Ok_0.1;
        lemma_weapons_extend(w, s, t, p);
    }
}

pub proof fn lemma_client_data_extend(
    b: Seq<u8>,
    j: Seq<u8>,
    t: Map<Seq<u8>, Seq<DescriptorModel>>,
    is_hltv: bool,
)
    requires
        parse_client_data(b, t, is_hltv) is Ok,
    ensures
        parse_client_data(b + j, t, is_hltv) == parse_client_data(b, t, is_hltv),
{
    if !is_hltv {
        let s = bytes_bits(b);
        let u = bytes_bits(j);
        lemma_bytes_bits_append(b, j);
        lemma_take_extend(s, u, 0, 1);
        let h = take_bits(s, 0, 1)->Some_0;
        if h == 1 {
            lemma_take_extend(s, u, 1, 8);
        }
        let p0: int = if h == 1 {
            9
        } else {
            1
        };
        let cd = crate::table::map_get(t, crate::table::clientdata_name())->Some_0;
        lemma_delta_extend(cd, s, u, p0);
        let p1 = parse_delta_spec(cd, s, p0)->Ok_0.1;
        lemma_weapons_extend(crate::table::map_get(t, crate::table::weapon_data_name()), s, u, p1);
        assert(parse_client_data_bits(t, s + u) == parse_client_data_bits(t, s));
    }
}

pub proof fn lemma_extra_extend(
    es: Option<Seq<DescriptorModel>>,
    s: Seq<bool>,
    t: Seq<bool>,
    pos: int,
    n: nat,
)
    requires
        parse_extra(es, s, pos, n) is Ok,
    ensures
        parse_extra(es, s + t, pos, n) == parse_extra(es, s, pos, n),
    decreases n,
{
    if n > 0 {
        let d = es->Some_0;
        lemma_delta_extend(d, s, t, pos);
        let p = parse_delta_spec(d, s, pos)->Ok_0.1;
        lemma_extra_extend(es, s, t, p, (n - 1) as nat);
    }
}

pub proof fn lemma_entity_body_extend(
    t: Map<Seq<u8>, Seq<DescriptorModel>>,
    max_players: u8,
    index: nat,
    s: Seq<bool>,
    u: Seq<bool>,
    pos: int,
)
    requires
        parse_entity_body(t, max_players, index, s, pos) is Ok,
    ensures
        parse_entity_body(t, max_players, index, s + u, pos) == parse_entity_body(
            t,
            max_players,
            index,
            s,
            pos,
        ),
{
    lemma_take_extend(s, u, pos, 2);
    let ty = take_bits(s, pos, 2)->Some_0;
    let d = crate::table::map_get(
        t,
        crate::spawn_baseline::entity_descs_name(index, ty, max_players),
    )->Some_0;
    lemma_delta_extend(d, s, u, pos + 2);
    let p1 = parse_delta_spec(d, s, pos + 2)->Ok_0.1;
    lemma_take_extend(s, u, p1, 5);
    lemma_take_extend(s, u, p1 + 5, 6);
    let n = take_bits(s, p1 + 5, 6)->Some_0;
    lemma_extra_extend(
        crate::table::map_get(t, crate::table::entity_state_name()),
        s,
        u,
        p1 + 11,
        n,
    );
}

pub proof fn lemma_entities_extend(
    t: Map<Seq<u8>, Seq<DescriptorModel>>,
    max_players: u8,
    s: Seq<bool>,
    u: Seq<bool>,
    pos: int,
)
    requires
        parse_entities(t, max_players, s, pos) is Ok,
    ensures
        parse_entities(t, max_players, s + u, pos) == parse_entities(t, max_players, s, pos),
    decreases s.len() - pos,
{
    lemma_take_extend(s, u, pos, 11);
    let index = take_bits(s, pos, 11)->Some_0;
    if index != crate::spawn_baseline::BASELINE_END {
        lemma_entity_body_extend(t, max_players, index, s, u, pos + 11);
        crate::spawn_baseline::lemma_parse_entity_body_bounds(t, max_players, index, s, pos + 11);
        let p = parse_entity_body(t, max_players, index, s, pos + 11)->Ok_0.1;
        lemma_entities_extend(t, max_players, s, u, p);
    }
}

pub proof fn lemma_packet_entity_extend(
    t: Map<Seq<u8>, Seq<DescriptorModel>>,
    max_players: u8,
    is_delta: bool,
    prev: nat,
    s: Seq<bool>,
    u: Seq<bool>,
    pos: int,
)
    requires
        parse_packet_entity(t, max_players, is_delta, prev, s, pos) is Ok,
    ensures
        parse_packet_entity(t, max_players, is_delta, prev, s + u, pos) == parse_packet_entity(
            t,
            max_players,
            is_delta,
            prev,
            s,
            pos,
        ),
{
    if is_delta {
        lemma_take_extend(s, u, pos, 1);
    }
    let p0 = if is_delta {
        pos + 1
    } else {
        pos
    };
    lemma_take_extend(s, u, p0, 1);
    let absolute = take_bits(s, p0, 1)->Some_0;
    let w: nat = if absolute == 1 {
        11
    } else {
        6
    };
    lemma_take_extend(s, u, p0 + 1, w);
    assert(parse_packet_index(is_delta, prev, s + u, pos) == parse_packet_index(
        is_delta,
        prev,
        s,
        pos,
    ));
    let (removed, index, p1) = parse_packet_index(is_delta, prev, s, pos)->Some_0;
    if !removed {
        lemma_take_extend(s, u, p1, 1);
        let c = take_bits(s, p1, 1)->Some_0;
        let d = crate::table::map_get(
            t,
            crate::packet_entities::packet_descs_name(index, c == 1, max_players),
        )->Some_0;
        lemma_delta_extend(d, s, u, p1 + 1);
    }
}

pub proof fn lemma_packet_list_extend(
    t: Map<Seq<u8>, Seq<DescriptorModel>>,
    max_players: u8,
    is_delta: bool,
    prev: nat,
    s: Seq<bool>,
    u: Seq<bool>,
    pos: int,
)
    requires
        parse_packet_list(t, max_players, is_delta, prev, s, pos) is Ok,
    ensures
        parse_packet_list(t, max_players, is_delta, prev, s + u, pos) == parse_packet_list(
            t,
            max_players,
            is_delta,
            prev,
            s,
            pos,
        ),
    decreases s.len() - pos,
{
    lemma_take_extend(s, u, pos, 16);
    if take_bits(s, pos, 16) != Some(0nat) {
        lemma_packet_entity_extend(t, max_players, is_delta, prev, s, u, pos);
        crate::packet_entities::lemma_parse_packet_entity_bounds(
            t,
            max_players,
            is_delta,
            prev,
            s,
            pos,
        );
        let (e, p) = parse_packet_entity(t, max_players, is_delta, prev, s, pos)->Ok_0;
        lemma_packet_list_extend(t, max_players, is_delta, e.index as nat, s, u, p);
    }
}

pub proof fn lemma_descriptors_extend(
    m: Seq<DescriptorModel>,
    s: Seq<bool>,
    t: Seq<bool>,
    pos: int,
    n: nat,
)
    requires
        parse_descriptors(m, s, pos, n) is Ok,
    ensures
        parse_descriptors(m, s + t, pos, n) == parse_descriptors(m, s, pos, n),
    decreases n,
{
    if n > 0 {
        lemma_delta_extend(m, s, t, pos);
        let p = parse_delta_spec(m, s, pos)->Ok_0.1;
        lemma_descriptors_extend(m, s, t, p, (n - 1) as nat);
    }
}

pub proof fn lemma_cstr_extend(b: Seq<u8>, j: Seq<u8>, pos: int)
    requires
        parse_cstr(b, pos) is Ok,
    ensures
        parse_cstr(b + j, pos) == parse_cstr(b, pos),
    decreases b.len() - pos,
{
    if b[pos] != 0 {
        lemma_cstr_extend(b, j, pos + 1);
    }
}

pub proof fn lemma_cstrs_extend(b: Seq<u8>, j: Seq<u8>, pos: int, n: nat)
    requires
        crate::bytes::parse_cstrs(b, pos, n) is Ok,
    ensures
        crate::bytes::parse_cstrs(b + j, pos, n) == crate::bytes::parse_cstrs(b, pos, n),
    decreases n,
{
    if n > 0 {
        lemma_cstr_extend(b, j, pos);
        let p = parse_cstr(b, pos)->Ok_0.1;
        lemma_cstrs_extend(b, j, p, (n - 1) as nat);
    }
}

pub proof fn lemma_slots_extend(slots: Seq<Slot>, b: Seq<u8>, j: Seq<u8>, pos: int, i: int)
    requires
        parse_slots(slots, b, pos, i) is Ok,
    ensures
        parse_slots(slots, b + j, pos, i) == parse_slots(slots, b, pos, i),
    decreases slots.len() - i,
{
    if 0 <= i < slots.len() {
        let bj = b + j;
        let slot = slots[i];
        if slot == Slot::Text {
            lemma_cstr_extend(b, j, pos);
        }
        if slot == Slot::TextList {
            lemma_cstrs_extend(b, j, pos + 1, b[pos] as nat);
        }
        match slot {
            Slot::Fixed(n) => {
                assert(bj.subrange(pos, pos + n) =~= b.subrange(pos, pos + n));
            },
            Slot::U8Len => {
                assert(bj.subrange(pos + 1, pos + 1 + b[pos]) =~= b.subrange(pos + 1, pos + 1 + b[pos]));
            },
            Slot::U16Len => {
                let n = crate::bytes::u16_at(b, pos) as int;
                assert(bj.subrange(pos + 2, pos + 2 + n) =~= b.subrange(pos + 2, pos + 2 + n));
            },
            _ => {},
        }
        assert(parse_slot(slot, bj, pos) == parse_slot(slot, b, pos));
        let p = parse_slot(slot, b, pos)->Ok_0.1;
        lemma_slots_extend(slots, b, j, p, i + 1);
    }
}

pub proof fn lemma_user_extend(
    body: Seq<u8>,
    j: Seq<u8>,
    tag: u8,
    regs: Seq<Option<crate::user_message::RegModel>>,
)
    requires
        parse_user_message(body, tag, regs) is Ok,
    ensures
        parse_user_message(body + j, tag, regs) == parse_user_message(body, tag, regs),
{
    let reg = regs[tag as int]->Some_0;
    if reg.length >= 0 {
        assert((body + j).subrange(0, reg.length as int) =~= body.subrange(0, reg.length as int));
    } else {
        assert((body + j).subrange(1, 1 + body[0]) =~= body.subrange(1, 1 + body[0]));
    }
}

pub proof fn lemma_delta_description_extend(
    body: Seq<u8>,
    j: Seq<u8>,
    t: Map<Seq<u8>, Seq<DescriptorModel>>,
)
    requires
        parse_delta_description(body, t) is Ok,
    ensures
        parse_delta_description(body + j, t) == parse_delta_description(body, t),
{
    lemma_bytes_bits_append(body, j);
    lemma_cstr_extend(body, j, 0);
    let p1 = parse_cstr(body, 0)->Ok_0.1;
    crate::bytes::lemma_parse_cstr_bounds(body, 0);
    assert(p1 + 2 <= body.len());
    assert((body + j)[p1] == body[p1]);
    assert((body + j)[p1 + 1] == body[p1 + 1]);
    let m = crate::table::map_get(t, crate::table::delta_description_name())->Some_0;
    assert(crate::bytes::u16_at(body + j, p1) == crate::bytes::u16_at(body, p1));
    lemma_descriptors_extend(
        m,
        bytes_bits(body),
        bytes_bits(j),
        8 * (p1 + 2),
        crate::bytes::u16_at(body, p1) as nat,
    );
}

pub proof fn lemma_spawn_baseline_extend(
    body: Seq<u8>,
    j: Seq<u8>,
    t: Map<Seq<u8>, Seq<DescriptorModel>>,
    max_players: u8,
)
    requires
        parse_spawn_baseline(body, t, max_players) is Ok,
    ensures
        parse_spawn_baseline(body + j, t, max_players) == parse_spawn_baseline(body, t, max_players),
{
    lemma_bytes_bits_append(body, j);
    lemma_entities_extend(t, max_players, bytes_bits(body), bytes_bits(j), 0);
}

pub proof fn lemma_packet_entities_extend(
    body: Seq<u8>,
    j: Seq<u8>,
    t: Map<Seq<u8>, Seq<DescriptorModel>>,
    max_players: u8,
    is_delta: bool,
)
    requires
        parse_packet_entities(body, t, max_players, is_delta) is Ok,
    ensures
        parse_packet_entities(body + j, t, max_players, is_delta) == parse_packet_entities(
            body,
            t,
            max_players,
            is_delta,
        ),
{
    lemma_bytes_bits_append(body, j);
    let s = bytes_bits(body);
    let u = bytes_bits(j);
    lemma_take_extend(s, u, 0, 16);
    if is_delta {
        lemma_take_extend(s, u, 16, 8);
    }
    let start: int = if is_delta {
        24
    } else {
        16
    };
    lemma_packet_list_extend(t, max_players, is_delta, 0, s, u, start);
}

/// A message reads the same on any extension of the bytes it was read from.
#[verifier::rlimit(100)]
pub proof fn lemma_message_extend(b: Seq<u8>, j: Seq<u8>, st: SessionModel)
    requires
        parse_message(b, st) is Ok,
    ensures
        parse_message(b + j, st) == parse_message(b, st),
{
    reveal(parse_message);
    let bj = b + j;
    let tag = b[0];
    let body = b.subrange(1, b.len() as int);
    assert(bj.subrange(1, bj.len() as int) =~= body + j);
    assert(bj[0] == tag);
    if tag >= crate::netmsg::SVC_MAX_ENGINE {
        lemma_user_extend(body, j, tag, st.regs);
    } else if tag == crate::delta_description::SVC_DELTADESCRIPTION {
        lemma_delta_description_extend(body, j, st.ddt);
    } else if tag == crate::client_data::SVC_CLIENTDATA {
        lemma_client_data_extend(body, j, st.ddt, st.is_hltv);
    } else if tag == crate::spawn_baseline::SVC_SPAWNBASELINE {
        lemma_spawn_baseline_extend(body, j, st.ddt, st.max_players);
    } else if tag == crate::packet_entities::SVC_PACKETENTITIES {
        lemma_packet_entities_extend(body, j, st.ddt, st.max_players, false);
    } else if tag == crate::packet_entities::SVC_DELTAPACKETENTITIES {
        lemma_packet_entities_extend(body, j, st.ddt, st.max_players, true);
    } else {
        let l = crate::bytes::layout(tag)->Some_0;
        lemma_slots_extend(l, body, j, 0, 0);
    }
}

} // verus!
