//! Every kind of message that the codec writes reads back as itself.
use vstd::arithmetic::power2::{lemma2_to64, pow2};
use vstd::prelude::*;

use crate::bits::{bits_of, bytes_bits, lemma_bits_value_of, take_bits, zero_bits};
use crate::client_data::{
    client_data_bits, empty_client_data, encode_client_data, encode_weapons,
    parse_client_data, parse_client_data_bits, parse_weapons, ClientDataModel,
};
use crate::delta::{encode_delta_spec, parse_delta_spec, DeltaModel, DescriptorModel};
use crate::delta_laws::{lemma_delta_reads_back_at, present_entries};
use crate::error::ErrorKind;
use crate::netmsg::{
    apply, decode_from, encode_along, encode_message, final_session, parse_message, MessageModel,
    SessionModel,
};
use crate::packet_entities::{
    encode_packet_entities, encode_packet_entity, encode_packet_list, packet_descs_name,
    parse_packet_entities, parse_packet_entity, parse_packet_index, parse_packet_list, prev_index,
    PacketEntitiesModel, PacketEntityModel,
};
use crate::spawn_baseline::{
    encode_entities, encode_entity, encode_extra, encode_spawn_baseline, entity_descs_name,
    parse_entities, parse_entity_body, parse_extra, parse_spawn_baseline, EntityModel,
    BASELINE_END,
};
use crate::delta::{lookup, ValueModel};
use crate::delta_description::{
    delta_of, descriptor_of, encode_delta_description, encode_descriptors, name_ok,
    parse_delta_description, parse_descriptors, text_of, uint_of, DeltaDescriptionModel,
};
use crate::delta_laws::{lemma_present_lookup, lemma_read_delta_canonical, names_unique};
use crate::table::{
    clientdata_name, delta_description_name, entity_state_name, field_name_name,
    field_offset_name, field_size_name, field_type_name, map_get, postmultiply_name,
    premultiply_name, significant_bits_name, weapon_data_name,
};

verus! {

/// `x` stands in `s` at `pos`.
pub open spec fn bits_at(s: Seq<bool>, pos: int, x: Seq<bool>) -> bool {
    0 <= pos && pos + x.len() <= s.len() && s.subrange(pos, pos + x.len()) == x
}

pub proof fn lemma_bits_at_split(s: Seq<bool>, pos: int, a: Seq<bool>, b: Seq<bool>)
    requires
        bits_at(s, pos, a + b),
    ensures
        bits_at(s, pos, a),
        bits_at(s, pos + a.len(), b),
{
    let ab = a + b;
    assert forall|k: int| 0 <= k < a.len() implies s.subrange(pos, pos + a.len())[k] == a[k] by {
        assert(s.subrange(pos, pos + ab.len())[k] == ab[k]);
    }
    assert(s.subrange(pos, pos + a.len()) =~= a);
    assert forall|k: int| 0 <= k < b.len() implies s.subrange(pos + a.len(), pos + a.len() + b.len())[k]
        == b[k] by {
        assert(s.subrange(pos, pos + ab.len())[a.len() + k] == ab[a.len() + k]);
    }
    assert(s.subrange(pos + a.len(), pos + a.len() + b.len()) =~= b);
}

pub proof fn lemma_take_written(s: Seq<bool>, pos: int, v: nat, w: nat)
    requires
        bits_at(s, pos, bits_of(v, w)),
        v < pow2(w),
    ensures
        take_bits(s, pos, w) == Some(v),
{
    lemma_bits_value_of(v, w);
}

pub proof fn lemma_delta_at(descs: Seq<DescriptorModel>, d: DeltaModel, s: Seq<bool>, pos: int)
    requires
        encode_delta_spec(descs, d) is Ok,
        bits_at(s, pos, encode_delta_spec(descs, d)->Ok_0),
        present_entries(descs, d, 0) == d,
    ensures
        parse_delta_spec(descs, s, pos) == Ok::<_, ErrorKind>(
            (d, pos + encode_delta_spec(descs, d)->Ok_0.len()),
        ),
{
    lemma_delta_reads_back_at(descs, d, s, pos);
}

/// Every delta in a client data message lists its fields in descriptor order;
/// on a spectator-relay stream the message is the empty form.
pub open spec fn client_data_canonical(m: ClientDataModel, t: Map<Seq<u8>, Seq<DescriptorModel>>, is_hltv: bool) -> bool {
    &&& is_hltv ==> m == empty_client_data()
    &&& map_get(t, clientdata_name()) is Some ==> present_entries(
        map_get(t, clientdata_name())->Some_0,
        m.client_data,
        0,
    ) == m.client_data
    &&& map_get(t, weapon_data_name()) is Some ==> forall|k: int|
        0 <= k < m.weapon_data.len() ==> present_entries(
            map_get(t, weapon_data_name())->Some_0,
            #[trigger] m.weapon_data[k].1,
            0,
        ) == m.weapon_data[k].1
}

proof fn lemma_weapons_round_trip(
    w: Option<Seq<DescriptorModel>>,
    ws: Seq<(u8, DeltaModel)>,
    i: int,
    s: Seq<bool>,
    pos: int,
)
    requires
        0 <= i <= ws.len(),
        encode_weapons(w, ws, i) is Ok,
        bits_at(s, pos, encode_weapons(w, ws, i)->Ok_0),
        w is Some ==> forall|k: int|
            0 <= k < ws.len() ==> present_entries(w->Some_0, #[trigger] ws[k].1, 0) == ws[k].1,
    ensures
        parse_weapons(w, s, pos) == Ok::<_, ErrorKind>(
            (ws.subrange(i, ws.len() as int), pos + encode_weapons(w, ws, i)->Ok_0.len()),
        ),
    decreases ws.len() - i,
{
    lemma2_to64();
    let wb = encode_weapons(w, ws, i)->Ok_0;
    if i == ws.len() {
        assert(wb == seq![false]);
        assert(s[pos] == wb[0]) by {
            assert(s.subrange(pos, pos + 1)[0] == wb[0]);
        }
        crate::bits::lemma_take_one(s, pos);
        assert(ws.subrange(i, ws.len() as int) =~= seq![]);
    } else {
        let descs = w->Some_0;
        let db = encode_delta_spec(descs, ws[i].1)->Ok_0;
        let rest = encode_weapons(w, ws, i + 1)->Ok_0;
        let head = seq![true] + bits_of(ws[i].0 as nat, 6);
        assert(wb == head + db + rest);
        assert(wb =~= seq![true] + (bits_of(ws[i].0 as nat, 6) + (db + rest)));
        lemma_bits_at_split(s, pos, seq![true], bits_of(ws[i].0 as nat, 6) + (db + rest));
        lemma_bits_at_split(s, pos + 1, bits_of(ws[i].0 as nat, 6), db + rest);
        lemma_bits_at_split(s, pos + 7, db, rest);
        assert(s[pos] == true) by {
            assert(s.subrange(pos, pos + 1)[0] == true);
        }
        crate::bits::lemma_take_one(s, pos);
        lemma_take_written(s, pos + 1, ws[i].0 as nat, 6);
        lemma_delta_at(descs, ws[i].1, s, pos + 7);
        lemma_weapons_round_trip(w, ws, i + 1, s, pos + 7 + db.len());
        assert(seq![(ws[i].0, ws[i].1)] + ws.subrange(i + 1, ws.len() as int) =~= ws.subrange(
            i,
            ws.len() as int,
        ));
    }
}

proof fn lemma_client_data_bits_round_trip(
    m: ClientDataModel,
    t: Map<Seq<u8>, Seq<DescriptorModel>>,
    s: Seq<bool>,
)
    requires
        client_data_canonical(m, t, false),
        client_data_bits(m, t) is Ok,
        bits_at(s, 0, client_data_bits(m, t)->Ok_0),
    ensures
        parse_client_data_bits(t, s) == Ok::<_, ErrorKind>(
            (m, client_data_bits(m, t)->Ok_0.len() as int),
        ),
{
    lemma2_to64();
    let bits = client_data_bits(m, t)->Ok_0;
    let head = match m.delta_update_mask {
        Some(x) => seq![true] + bits_of(x as nat, 8),
        None => seq![false],
    };
    let cd = map_get(t, clientdata_name())->Some_0;
    let db = encode_delta_spec(cd, m.client_data)->Ok_0;
    let wb = encode_weapons(map_get(t, weapon_data_name()), m.weapon_data, 0)->Ok_0;
    assert(bits == head + db + wb);
    lemma_bits_at_split(s, 0, head + db, wb);
    lemma_bits_at_split(s, 0, head, db);
    match m.delta_update_mask {
        Some(x) => {
            lemma_bits_at_split(s, 0, seq![true], bits_of(x as nat, 8));
            assert(s[0] == true) by {
                assert(s.subrange(0, 1)[0] == true);
            }
            lemma_take_written(s, 1, x as nat, 8);
        },
        None => {
            assert(s[0] == false) by {
                assert(s.subrange(0, 1)[0] == false);
            }
        },
    }
    crate::bits::lemma_take_one(s, 0);
    lemma_delta_at(cd, m.client_data, s, head.len() as int);
    lemma_weapons_round_trip(
        map_get(t, weapon_data_name()),
        m.weapon_data,
        0,
        s,
        (head.len() + db.len()) as int,
    );
    assert(m.weapon_data.subrange(0, m.weapon_data.len() as int) =~= m.weapon_data);
}

/// Bits packed into bytes, with any bytes after them, read back as the bits first.
pub proof fn lemma_packed_at(bits: Seq<bool>, rest: Seq<u8>)
    ensures
        bits_at(bytes_bits(crate::bits::pack_bits(bits) + rest), 0, bits),
        crate::bits::pack_bits(bits).len() == (bits.len() + 7) / 8,
{
    let packed = crate::bits::pack_bits(bits);
    crate::bits::lemma_pack_bits(bits);
    crate::prefix::lemma_bytes_bits_append(packed, rest);
    let s = bytes_bits(packed + rest);
    let pad = zero_bits((8 * ((bits.len() + 7) / 8) - bits.len()) as nat);
    assert(s == bits + pad + bytes_bits(rest));
    assert(s.subrange(0, bits.len() as int) =~= bits);
}

/// A client data message written against a table reads back as itself.
pub proof fn lemma_client_data_round_trip(
    m: ClientDataModel,
    t: Map<Seq<u8>, Seq<DescriptorModel>>,
    is_hltv: bool,
    rest: Seq<u8>,
)
    requires
        client_data_canonical(m, t, is_hltv),
        encode_client_data(m, t, is_hltv) is Ok,
    ensures
        ({
            let e = encode_client_data(m, t, is_hltv)->Ok_0;
            let body = e.subrange(1, e.len() as int) + rest;
            parse_client_data(body, t, is_hltv) == Ok::<_, ErrorKind>((m, (e.len() - 1) as nat))
        }),
{
    let e = encode_client_data(m, t, is_hltv)->Ok_0;
    if !is_hltv {
        let bits = client_data_bits(m, t)->Ok_0;
        let packed = crate::bits::pack_bits(bits);
        assert(e.subrange(1, e.len() as int) =~= packed);
        lemma_packed_at(bits, rest);
        lemma_client_data_bits_round_trip(m, t, bytes_bits(packed + rest));
    }
}


/// Every delta of every entity lists its fields in descriptor order.
pub open spec fn baseline_canonical(
    es: Seq<EntityModel>,
    t: Map<Seq<u8>, Seq<DescriptorModel>>,
    max_players: u8,
) -> bool {
    forall|k: int|
        0 <= k < es.len() ==> {
            let e = #[trigger] es[k];
            &&& map_get(t, entity_descs_name(e.index as nat, e.type_ as nat, max_players)) is Some
                ==> present_entries(
                map_get(t, entity_descs_name(e.index as nat, e.type_ as nat, max_players))->Some_0,
                e.delta,
                0,
            ) == e.delta
            &&& map_get(t, entity_state_name()) is Some ==> forall|x: int|
                0 <= x < e.extra_data.len() ==> present_entries(
                    map_get(t, entity_state_name())->Some_0,
                    #[trigger] e.extra_data[x],
                    0,
                ) == e.extra_data[x]
        }
}

proof fn lemma_extra_round_trip(
    es: Option<Seq<DescriptorModel>>,
    xs: Seq<DeltaModel>,
    i: int,
    s: Seq<bool>,
    pos: int,
)
    requires
        0 <= i <= xs.len(),
        encode_extra(es, xs, i) is Ok,
        bits_at(s, pos, encode_extra(es, xs, i)->Ok_0),
        es is Some ==> forall|x: int|
            0 <= x < xs.len() ==> present_entries(es->Some_0, #[trigger] xs[x], 0) == xs[x],
    ensures
        parse_extra(es, s, pos, (xs.len() - i) as nat) == Ok::<_, ErrorKind>(
            (xs.subrange(i, xs.len() as int), pos + encode_extra(es, xs, i)->Ok_0.len()),
        ),
    decreases xs.len() - i,
{
    if i == xs.len() {
        assert(xs.subrange(i, xs.len() as int) =~= seq![]);
    } else {
        let d = es->Some_0;
        let db = encode_delta_spec(d, xs[i])->Ok_0;
        let rest = encode_extra(es, xs, i + 1)->Ok_0;
        lemma_bits_at_split(s, pos, db, rest);
        lemma_delta_at(d, xs[i], s, pos);
        lemma_extra_round_trip(es, xs, i + 1, s, pos + db.len());
        assert(seq![xs[i]] + xs.subrange(i + 1, xs.len() as int) =~= xs.subrange(i, xs.len() as int));
    }
}

proof fn lemma_entity_round_trip(
    t: Map<Seq<u8>, Seq<DescriptorModel>>,
    max_players: u8,
    es: Seq<EntityModel>,
    k: int,
    s: Seq<bool>,
    pos: int,
)
    requires
        0 <= k < es.len(),
        baseline_canonical(es, t, max_players),
        encode_entity(t, max_players, es[k]) is Ok,
        bits_at(s, pos, encode_entity(t, max_players, es[k])->Ok_0),
    ensures
        take_bits(s, pos, 11) == Some(es[k].index as nat),
        parse_entity_body(t, max_players, es[k].index as nat, s, pos + 11) == Ok::<_, ErrorKind>(
            (es[k], pos + encode_entity(t, max_players, es[k])->Ok_0.len()),
        ),
{
    lemma2_to64();
    let e = es[k];
    let d = map_get(t, entity_descs_name(e.index as nat, e.type_ as nat, max_players))->Some_0;
    let db = encode_delta_spec(d, e.delta)->Ok_0;
    let xb = encode_extra(map_get(t, entity_state_name()), e.extra_data, 0)->Ok_0;
    let a = bits_of(e.index as nat, 11);
    let b = bits_of(e.type_ as nat, 2);
    let f = bits_of(e.footer as nat, 5);
    let c = bits_of(e.extra_data.len(), 6);
    let all = encode_entity(t, max_players, e)->Ok_0;
    assert(all == a + b + db + f + c + xb);
    lemma_bits_at_split(s, pos, a + b + db + f + c, xb);
    lemma_bits_at_split(s, pos, a + b + db + f, c);
    lemma_bits_at_split(s, pos, a + b + db, f);
    lemma_bits_at_split(s, pos, a + b, db);
    lemma_bits_at_split(s, pos, a, b);
    lemma_take_written(s, pos, e.index as nat, 11);
    lemma_take_written(s, pos + 11, e.type_ as nat, 2);
    lemma_delta_at(d, e.delta, s, pos + 13);
    let p1 = pos + 13 + db.len();
    lemma_take_written(s, p1, e.footer as nat, 5);
    lemma_take_written(s, p1 + 5, e.extra_data.len(), 6);
    lemma_extra_round_trip(map_get(t, entity_state_name()), e.extra_data, 0, s, p1 + 11);
    assert(e.extra_data.subrange(0, e.extra_data.len() as int) =~= e.extra_data);
}

proof fn lemma_entities_round_trip(
    t: Map<Seq<u8>, Seq<DescriptorModel>>,
    max_players: u8,
    es: Seq<EntityModel>,
    i: int,
    s: Seq<bool>,
    pos: int,
)
    requires
        0 <= i <= es.len(),
        baseline_canonical(es, t, max_players),
        encode_entities(t, max_players, es, i) is Ok,
        bits_at(s, pos, encode_entities(t, max_players, es, i)->Ok_0),
    ensures
        parse_entities(t, max_players, s, pos) == Ok::<_, ErrorKind>(
            (es.subrange(i, es.len() as int), pos + encode_entities(t, max_players, es, i)->Ok_0.len()),
        ),
    decreases es.len() - i,
{
    lemma2_to64();
    if i == es.len() {
        lemma_take_written(s, pos, BASELINE_END as nat, 11);
        assert(es.subrange(i, es.len() as int) =~= seq![]);
    } else {
        let eb = encode_entity(t, max_players, es[i])->Ok_0;
        let rest = encode_entities(t, max_players, es, i + 1)->Ok_0;
        lemma_bits_at_split(s, pos, eb, rest);
        lemma_entity_round_trip(t, max_players, es, i, s, pos);
        lemma_entities_round_trip(t, max_players, es, i + 1, s, pos + eb.len());
        assert(seq![es[i]] + es.subrange(i + 1, es.len() as int) =~= es.subrange(i, es.len() as int));
    }
}

/// A spawn baseline message written against a table reads back as itself.
pub proof fn lemma_spawn_baseline_round_trip(
    es: Seq<EntityModel>,
    t: Map<Seq<u8>, Seq<DescriptorModel>>,
    max_players: u8,
    rest: Seq<u8>,
)
    requires
        baseline_canonical(es, t, max_players),
        encode_spawn_baseline(es, t, max_players) is Ok,
    ensures
        ({
            let e = encode_spawn_baseline(es, t, max_players)->Ok_0;
            let body = e.subrange(1, e.len() as int) + rest;
            parse_spawn_baseline(body, t, max_players) == Ok::<_, ErrorKind>(
                (es, (e.len() - 1) as nat),
            )
        }),
{
    let e = encode_spawn_baseline(es, t, max_players)->Ok_0;
    let bits = encode_entities(t, max_players, es, 0)->Ok_0;
    let packed = crate::bits::pack_bits(bits);
    assert(e.subrange(1, e.len() as int) =~= packed);
    lemma_packed_at(bits, rest);
    lemma_entities_round_trip(t, max_players, es, 0, bytes_bits(packed + rest), 0);
    assert(es.subrange(0, es.len() as int) =~= es);
}


/// Every delta of an entity that is not removed lists its fields in descriptor order.
pub open spec fn packet_canonical(
    es: Seq<PacketEntityModel>,
    t: Map<Seq<u8>, Seq<DescriptorModel>>,
    max_players: u8,
) -> bool {
    forall|k: int|
        0 <= k < es.len() ==> {
            let e = #[trigger] es[k];
            !e.removed && map_get(t, packet_descs_name(e.index as nat, e.custom, max_players))
                is Some ==> present_entries(
                map_get(t, packet_descs_name(e.index as nat, e.custom, max_players))->Some_0,
                e.delta,
                0,
            ) == e.delta
        }
}

proof fn lemma_bits_value_zero(x: Seq<bool>)
    ensures
        crate::bits::bits_value(x) == 0 ==> forall|k: int| 0 <= k < x.len() ==> !x[k],
    decreases x.len(),
{
    if x.len() > 0 {
        lemma_bits_value_zero(x.drop_first());
        if crate::bits::bits_value(x) == 0 {
            assert forall|k: int| 0 <= k < x.len() implies !x[k] by {
                if k > 0 {
                    assert(x.drop_first()[k - 1] == x[k]);
                }
            }
        }
    }
}

proof fn lemma_list_len(
    t: Map<Seq<u8>, Seq<DescriptorModel>>,
    max_players: u8,
    is_delta: bool,
    es: Seq<PacketEntityModel>,
    i: int,
)
    requires
        encode_packet_list(t, max_players, is_delta, es, i) is Ok,
    ensures
        encode_packet_list(t, max_players, is_delta, es, i)->Ok_0.len() >= 16,
    decreases es.len() - i,
{
    if 0 <= i < es.len() {
        lemma_list_len(t, max_players, is_delta, es, i + 1);
    }
}

#[verifier::rlimit(50)]
proof fn lemma_packet_entity_round_trip(
    t: Map<Seq<u8>, Seq<DescriptorModel>>,
    max_players: u8,
    is_delta: bool,
    prev: nat,
    es: Seq<PacketEntityModel>,
    k: int,
    s: Seq<bool>,
    pos: int,
)
    requires
        0 <= k < es.len(),
        prev < 65536,
        packet_canonical(es, t, max_players),
        encode_packet_entity(t, max_players, is_delta, prev, es[k]) is Ok,
        bits_at(s, pos, encode_packet_entity(t, max_players, is_delta, prev, es[k])->Ok_0),
        pos + 16 <= s.len(),
    ensures
        parse_packet_entity(t, max_players, is_delta, prev, s, pos) == Ok::<_, ErrorKind>(
            (es[k], pos + encode_packet_entity(t, max_players, is_delta, prev, es[k])->Ok_0.len()),
        ),
{
    lemma2_to64();
    let e = es[k];
    let ix = e.index as nat;
    let b = encode_packet_entity(t, max_players, is_delta, prev, e)->Ok_0;
    let rb: Seq<bool> = if is_delta {
        seq![e.removed]
    } else {
        seq![]
    };
    let short = prev < ix && ix - prev <= 63;
    let ib: Seq<bool> = if short {
        seq![false] + bits_of((ix - prev) as nat, 6)
    } else {
        seq![true] + bits_of(ix, 11)
    };
    let p0 = pos + rb.len();
    let tail: Seq<bool> = if e.removed {
        seq![]
    } else {
        seq![e.custom] + encode_delta_spec(
            map_get(t, packet_descs_name(ix, e.custom, max_players))->Some_0,
            e.delta,
        )->Ok_0
    };
    assert(b =~= rb + ib + tail);
    lemma_bits_at_split(s, pos, rb + ib, tail);
    lemma_bits_at_split(s, pos, rb, ib);
    assert forall|x: int| 0 <= x < b.len() implies #[trigger] s[pos + x] == b[x] by {
        assert(s.subrange(pos, pos + b.len())[x] == s[pos + x]);
    }
    if is_delta {
        assert(s[pos + 0] == e.removed);
        crate::bits::lemma_take_one(s, pos);
    }
    if short {
        lemma_bits_at_split(s, p0, seq![false], bits_of((ix - prev) as nat, 6));
        assert(s[p0] == false) by {
            assert(s[pos + rb.len()] == b[rb.len() as int]);
        }
        crate::bits::lemma_take_one(s, p0);
        lemma_take_written(s, p0 + 1, (ix - prev) as nat, 6);
        assert((prev + (ix - prev)) % 65536 == ix);
    } else {
        lemma_bits_at_split(s, p0, seq![true], bits_of(ix, 11));
        assert(s[p0] == true) by {
            assert(s[pos + rb.len()] == b[rb.len() as int]);
        }
        crate::bits::lemma_take_one(s, p0);
        lemma_take_written(s, p0 + 1, ix, 11);
    }
    let p1 = p0 + ib.len();
    assert(parse_packet_index(is_delta, prev, s, pos) == Some((e.removed, ix, p1)));
    if e.removed {
        assert(e.delta =~= seq![]);
    } else {
        let d = map_get(t, packet_descs_name(ix, e.custom, max_players))->Some_0;
        let db = encode_delta_spec(d, e.delta)->Ok_0;
        lemma_bits_at_split(s, p1, seq![e.custom], db);
        assert(s[p1] == e.custom) by {
            assert(s.subrange(p1, p1 + 1)[0] == e.custom);
        }
        crate::bits::lemma_take_one(s, p1);
        lemma_delta_at(d, e.delta, s, p1 + 1);
    }
}

proof fn lemma_bits_value_nonzero(x: Seq<bool>)
    requires
        crate::bits::bits_value(x) != 0,
    ensures
        exists|j: int| 0 <= j < x.len() && x[j],
    decreases x.len(),
{
    if !x[0] {
        lemma_bits_value_nonzero(x.drop_first());
        let j = choose|j: int| 0 <= j < x.len() - 1 && x.drop_first()[j];
        assert(x[j + 1]);
    }
}

proof fn lemma_set_bit_not_zero(s: Seq<bool>, pos: int, j: int)
    requires
        0 <= pos,
        pos + 16 <= s.len(),
        0 <= j < 16,
        s[pos + j],
    ensures
        take_bits(s, pos, 16) != Some(0nat),
{
    let w = s.subrange(pos, pos + 16);
    lemma_bits_value_zero(w);
    assert(w[j] == s[pos + j]);
}

/// The first sixteen bits of a written entity hold a set bit, so they are no list end.
#[verifier::rlimit(50)]
proof fn lemma_entity_not_end(
    t: Map<Seq<u8>, Seq<DescriptorModel>>,
    max_players: u8,
    is_delta: bool,
    prev: nat,
    e: PacketEntityModel,
    s: Seq<bool>,
    pos: int,
)
    requires
        encode_packet_entity(t, max_players, is_delta, prev, e) is Ok,
        bits_at(s, pos, encode_packet_entity(t, max_players, is_delta, prev, e)->Ok_0),
        pos + 16 <= s.len(),
    ensures
        take_bits(s, pos, 16) != Some(0nat),
{
    lemma2_to64();
    let ix = e.index as nat;
    let b = encode_packet_entity(t, max_players, is_delta, prev, e)->Ok_0;
    let r: int = if is_delta {
        1
    } else {
        0
    };
    let short = prev < ix && ix - prev <= 63;
    let rb: Seq<bool> = if is_delta {
        seq![e.removed]
    } else {
        seq![]
    };
    let ib: Seq<bool> = if short {
        seq![false] + bits_of((ix - prev) as nat, 6)
    } else {
        seq![true] + bits_of(ix, 11)
    };
    let tail: Seq<bool> = if e.removed {
        seq![]
    } else {
        seq![e.custom] + encode_delta_spec(
            map_get(t, packet_descs_name(ix, e.custom, max_players))->Some_0,
            e.delta,
        )->Ok_0
    };
    assert(b =~= rb + ib + tail);
    assert forall|x: int| 0 <= x < b.len() implies #[trigger] s[pos + x] == b[x] by {
        assert(s.subrange(pos, pos + b.len())[x] == s[pos + x]);
    }
    if is_delta && e.removed {
        assert(b[0] == true);
        lemma_set_bit_not_zero(s, pos, 0);
    } else if short {
        let diff = bits_of((ix - prev) as nat, 6);
        lemma_bits_value_of((ix - prev) as nat, 6);
        lemma_bits_value_nonzero(diff);
        let j = choose|j: int| 0 <= j < 6 && diff[j];
        assert(b[r + 1 + j] == ib[1 + j]);
        assert(ib[1 + j] == diff[j]);
        lemma_set_bit_not_zero(s, pos, r + 1 + j);
    } else {
        assert(b[r] == true);
        lemma_set_bit_not_zero(s, pos, r);
    }
}

proof fn lemma_packet_list_round_trip(
    t: Map<Seq<u8>, Seq<DescriptorModel>>,
    max_players: u8,
    is_delta: bool,
    es: Seq<PacketEntityModel>,
    i: int,
    s: Seq<bool>,
    pos: int,
)
    requires
        0 <= i <= es.len(),
        packet_canonical(es, t, max_players),
        encode_packet_list(t, max_players, is_delta, es, i) is Ok,
        bits_at(s, pos, encode_packet_list(t, max_players, is_delta, es, i)->Ok_0),
    ensures
        parse_packet_list(t, max_players, is_delta, prev_index(es, i), s, pos) == Ok::<_, ErrorKind>(
            (
                es.subrange(i, es.len() as int),
                pos + encode_packet_list(t, max_players, is_delta, es, i)->Ok_0.len(),
            ),
        ),
    decreases es.len() - i,
{
    lemma2_to64();
    if i == es.len() {
        lemma_take_written(s, pos, 0, 16);
        assert(es.subrange(i, es.len() as int) =~= seq![]);
    } else {
        let prev = prev_index(es, i);
        let eb = encode_packet_entity(t, max_players, is_delta, prev, es[i])->Ok_0;
        let rest = encode_packet_list(t, max_players, is_delta, es, i + 1)->Ok_0;
        lemma_list_len(t, max_players, is_delta, es, i + 1);
        lemma_bits_at_split(s, pos, eb, rest);
        lemma_packet_entity_round_trip(t, max_players, is_delta, prev, es, i, s, pos);
        lemma_entity_not_end(t, max_players, is_delta, prev, es[i], s, pos);
        lemma_packet_list_round_trip(t, max_players, is_delta, es, i + 1, s, pos + eb.len());
        assert(prev_index(es, i + 1) == es[i].index as nat);
        assert(seq![es[i]] + es.subrange(i + 1, es.len() as int) =~= es.subrange(i, es.len() as int));
    }
}

/// A packet entities message written against a table reads back as itself.
#[verifier::rlimit(60)]
pub proof fn lemma_packet_entities_round_trip(
    m: PacketEntitiesModel,
    t: Map<Seq<u8>, Seq<DescriptorModel>>,
    max_players: u8,
    is_delta: bool,
    rest: Seq<u8>,
)
    requires
        packet_canonical(m.entities, t, max_players),
        encode_packet_entities(m, t, max_players, is_delta) is Ok,
    ensures
        ({
            let e = encode_packet_entities(m, t, max_players, is_delta)->Ok_0;
            let body = e.subrange(1, e.len() as int) + rest;
            parse_packet_entities(body, t, max_players, is_delta) == Ok::<_, ErrorKind>(
                (m, (e.len() - 1) as nat),
            )
        }),
{
    lemma2_to64();
    let e = encode_packet_entities(m, t, max_players, is_delta)->Ok_0;
    let head = bits_of(m.entity_count as nat, 16) + match m.delta_sequence {
        Some(q) => bits_of(q as nat, 8),
        None => seq![],
    };
    let lb = encode_packet_list(t, max_players, is_delta, m.entities, 0)->Ok_0;
    let bits = head + lb;
    let packed = crate::bits::pack_bits(bits);
    assert(e.subrange(1, e.len() as int) =~= packed);
    lemma_packed_at(bits, rest);
    let s = bytes_bits(packed + rest);
    lemma_bits_at_split(s, 0, head, lb);
    match m.delta_sequence {
        Some(q) => {
            lemma_bits_at_split(s, 0, bits_of(m.entity_count as nat, 16), bits_of(q as nat, 8));
            lemma_take_written(s, 16, q as nat, 8);
        },
        None => {
            assert(head =~= bits_of(m.entity_count as nat, 16));
        },
    }
    lemma_take_written(s, 0, m.entity_count as nat, 16);
    lemma_packet_list_round_trip(t, max_players, is_delta, m.entities, 0, s, head.len() as int);
    assert(m.entities.subrange(0, m.entities.len() as int) =~= m.entities);
}


/// `d` names a field with name `k`.
pub open spec fn names(d: Seq<DescriptorModel>, k: Seq<u8>) -> bool {
    exists|j: int| 0 <= j < d.len() && d[j].name == k
}

/// A descriptor list of descriptors with distinct names that names every
/// field a descriptor is sent with.
pub open spec fn meta_complete(m: Seq<DescriptorModel>) -> bool {
    &&& names_unique(m)
    &&& names(m, field_type_name())
    &&& names(m, field_name_name())
    &&& names(m, field_offset_name())
    &&& names(m, field_size_name())
    &&& names(m, significant_bits_name())
    &&& names(m, premultiply_name())
    &&& names(m, postmultiply_name())
}

proof fn lemma_descriptor_back(m: Seq<DescriptorModel>, f: DescriptorModel)
    requires
        meta_complete(m),
        name_ok(f.name),
    ensures
        descriptor_of(present_entries(m, delta_of(f), 0)) == f,
{
    reveal_with_fuel(lookup, 8);
    let x = present_entries(m, delta_of(f), 0);
    let d = delta_of(f);
    assert(field_type_name()[5] != field_name_name()[5]);
    assert(field_type_name().len() != field_offset_name().len());
    assert(field_type_name()[5] != field_size_name()[5]);
    assert(field_type_name().len() != significant_bits_name().len());
    assert(field_type_name().len() != premultiply_name().len());
    assert(field_type_name().len() != postmultiply_name().len());
    assert(field_name_name().len() != field_offset_name().len());
    assert(field_name_name()[5] != field_size_name()[5]);
    assert(field_name_name().len() != significant_bits_name().len());
    assert(field_name_name().len() != premultiply_name().len());
    assert(field_name_name().len() != postmultiply_name().len());
    assert(field_offset_name().len() != field_size_name().len());
    assert(field_offset_name().len() != significant_bits_name().len());
    assert(field_offset_name()[0] != premultiply_name()[0]);
    assert(field_offset_name().len() != postmultiply_name().len());
    assert(field_size_name().len() != significant_bits_name().len());
    assert(field_size_name().len() != premultiply_name().len());
    assert(field_size_name().len() != postmultiply_name().len());
    assert(significant_bits_name().len() != premultiply_name().len());
    assert(significant_bits_name().len() != postmultiply_name().len());
    assert(premultiply_name().len() != postmultiply_name().len());
    lemma_present_lookup(m, d, 0, field_type_name());
    lemma_present_lookup(m, d, 0, field_name_name());
    lemma_present_lookup(m, d, 0, field_offset_name());
    lemma_present_lookup(m, d, 0, field_size_name());
    lemma_present_lookup(m, d, 0, significant_bits_name());
    lemma_present_lookup(m, d, 0, premultiply_name());
    lemma_present_lookup(m, d, 0, postmultiply_name());
    assert(lookup(d, field_type_name()) == Some(ValueModel::Unsigned(f.flags)));
    assert(lookup(d, field_name_name()) == Some(ValueModel::Text(f.name.drop_last())));
    assert(lookup(d, field_offset_name()) == Some(ValueModel::Unsigned(f.offset)));
    assert(lookup(d, field_size_name()) == Some(ValueModel::Unsigned(f.size)));
    assert(lookup(d, significant_bits_name()) == Some(ValueModel::Unsigned(f.bits)));
    assert(lookup(d, premultiply_name()) == Some(ValueModel::Unsigned(f.premultiply)));
    assert(lookup(d, postmultiply_name()) == Some(ValueModel::Unsigned(f.postmultiply)));
    assert(f.name.drop_last().push(0) =~= f.name);
}

proof fn lemma_descriptors_round_trip(
    m: Seq<DescriptorModel>,
    fs: Seq<DescriptorModel>,
    i: int,
    s: Seq<bool>,
    pos: int,
)
    requires
        0 <= i <= fs.len(),
        meta_complete(m),
        encode_descriptors(m, fs, i) is Ok,
        bits_at(s, pos, encode_descriptors(m, fs, i)->Ok_0),
    ensures
        parse_descriptors(m, s, pos, (fs.len() - i) as nat) == Ok::<_, ErrorKind>(
            (fs.subrange(i, fs.len() as int), pos + encode_descriptors(m, fs, i)->Ok_0.len()),
        ),
    decreases fs.len() - i,
{
    if i == fs.len() {
        assert(fs.subrange(i, fs.len() as int) =~= seq![]);
    } else {
        let db = encode_delta_spec(m, delta_of(fs[i]))->Ok_0;
        let rest = encode_descriptors(m, fs, i + 1)->Ok_0;
        lemma_bits_at_split(s, pos, db, rest);
        lemma_delta_reads_back_at(m, delta_of(fs[i]), s, pos);
        lemma_descriptor_back(m, fs[i]);
        lemma_descriptors_round_trip(m, fs, i + 1, s, pos + db.len());
        assert(seq![fs[i]] + fs.subrange(i + 1, fs.len() as int) =~= fs.subrange(i, fs.len() as int));
    }
}

proof fn lemma_bits_at_shift(u: Seq<bool>, t: Seq<bool>, x: Seq<bool>)
    requires
        bits_at(t, 0, x),
    ensures
        bits_at(u + t, u.len() as int, x),
{
    assert((u + t).subrange(u.len() as int, (u.len() + x.len()) as int) =~= t.subrange(0, x.len() as int));
}

/// A delta description written against a table whose descriptor list for
/// descriptors is complete reads back as itself.
#[verifier::rlimit(60)]
pub proof fn lemma_delta_description_round_trip(
    dm: DeltaDescriptionModel,
    t: Map<Seq<u8>, Seq<DescriptorModel>>,
    rest: Seq<u8>,
)
    requires
        map_get(t, delta_description_name()) is Some,
        meta_complete(map_get(t, delta_description_name())->Some_0),
        encode_delta_description(dm, t) is Ok,
    ensures
        ({
            let e = encode_delta_description(dm, t)->Ok_0;
            let body = e.subrange(1, e.len() as int) + rest;
            parse_delta_description(body, t) == Ok::<_, ErrorKind>((dm, (e.len() - 1) as nat))
        }),
{
    let m = map_get(t, delta_description_name())->Some_0;
    let e = encode_delta_description(dm, t)->Ok_0;
    let bits = encode_descriptors(m, dm.fields, 0)->Ok_0;
    let packed = crate::bits::pack_bits(bits);
    let count = crate::bytes::u16_bytes(dm.fields.len() as u16);
    let front = dm.name + count;
    let body = e.subrange(1, e.len() as int) + rest;
    assert(body =~= front + (packed + rest));
    let nm = dm.name.drop_last();
    assert(nm.push(0) =~= dm.name);
    assert(body.subrange(0, (nm.len() + 1) as int) =~= nm.push(0));
    crate::roundtrip::lemma_cstr_round_trip(nm, body, 0);
    let p1 = dm.name.len() as int;
    crate::roundtrip::lemma_u16_round_trip(dm.fields.len() as u16);
    assert(body[p1] == count[0]);
    assert(body[p1 + 1] == count[1]);
    assert(crate::bytes::u16_at(body, p1) == dm.fields.len());
    lemma_packed_at(bits, rest);
    crate::prefix::lemma_bytes_bits_append(front, packed + rest);
    lemma_bits_at_shift(bytes_bits(front), bytes_bits(packed + rest), bits);
    assert(bytes_bits(front).len() == 8 * (p1 + 2));
    lemma_descriptors_round_trip(m, dm.fields, 0, bytes_bits(body), 8 * (p1 + 2));
    assert(dm.fields.subrange(0, dm.fields.len() as int) =~= dm.fields);
    let p = 8 * (p1 + 2) + bits.len();
    assert((p + 7) / 8 == p1 + 2 + (bits.len() + 7) / 8);
}


/// A message that the codec can write back exactly: its deltas list their
/// fields in descriptor order, a client data message on a spectator-relay
/// stream is the empty form, and a delta description is written with a
/// complete descriptor list for descriptors.
pub open spec fn well_formed(m: MessageModel, st: SessionModel) -> bool {
    &&& st.regs.len() == 256
    &&& match m {
        MessageModel::ClientData(c) => client_data_canonical(c, st.ddt, st.is_hltv),
        MessageModel::SpawnBaseline(es) => baseline_canonical(es, st.ddt, st.max_players),
        MessageModel::PacketEntities(p) => packet_canonical(p.entities, st.ddt, st.max_players),
        MessageModel::DeltaPacketEntities(p) => packet_canonical(
            p.entities,
            st.ddt,
            st.max_players,
        ),
        MessageModel::DeltaDescription(_) => map_get(st.ddt, delta_description_name()) is Some
            && meta_complete(map_get(st.ddt, delta_description_name())->Some_0),
        _ => true,
    }
}

/// A well-formed message written against a session reads back, from its
/// bytes with anything after them, as the same message, and takes exactly the
/// bytes that were written.
#[verifier::rlimit(60)]
pub proof fn law_message_round_trip(m: MessageModel, st: SessionModel, rest: Seq<u8>)
    requires
        well_formed(m, st),
        encode_message(m, st) is Ok,
    ensures
        parse_message(encode_message(m, st)->Ok_0 + rest, st) == Ok::<_, ErrorKind>(
            (m, encode_message(m, st)->Ok_0.len()),
        ),
{
    if m is Fixed || m is User {
        crate::roundtrip::law_simple_message_round_trip(m, st, rest);
    } else {
        reveal(encode_message);
        reveal(parse_message);
        let e = encode_message(m, st)->Ok_0;
        let b = e + rest;
        assert(b.subrange(1, b.len() as int) =~= e.subrange(1, e.len() as int) + rest);
        assert(b[0] == e[0]);
        match m {
            MessageModel::ClientData(c) => {
                lemma_client_data_round_trip(c, st.ddt, st.is_hltv, rest);
            },
            MessageModel::SpawnBaseline(es) => {
                lemma_spawn_baseline_round_trip(es, st.ddt, st.max_players, rest);
            },
            MessageModel::PacketEntities(p) => {
                lemma_packet_entities_round_trip(p, st.ddt, st.max_players, false, rest);
            },
            MessageModel::DeltaPacketEntities(p) => {
                lemma_packet_entities_round_trip(p, st.ddt, st.max_players, true, rest);
            },
            MessageModel::DeltaDescription(d) => {
                lemma_delta_description_round_trip(d, st.ddt, rest);
            },
            _ => {},
        }
    }
}


/// Every descriptor list in a table has distinct names.
pub open spec fn tables_distinct(t: Map<Seq<u8>, Seq<DescriptorModel>>) -> bool {
    forall|k: Seq<u8>| t.contains_key(k) ==> names_unique(#[trigger] t[k])
}

proof fn lemma_present_empty(descs: Seq<DescriptorModel>, i: int)
    ensures
        present_entries(descs, seq![], i) == Seq::<(Seq<u8>, ValueModel)>::empty(),
    decreases descs.len() - i,
{
    if 0 <= i < descs.len() {
        lemma_present_empty(descs, i + 1);
    }
}

proof fn lemma_read_weapons_canonical(
    w: Option<Seq<DescriptorModel>>,
    s: Seq<bool>,
    pos: int,
)
    requires
        w is Some ==> names_unique(w->Some_0),
        parse_weapons(w, s, pos) is Ok,
    ensures
        w is Some ==> forall|k: int|
            0 <= k < parse_weapons(w, s, pos)->Ok_0.0.len() ==> present_entries(
                w->Some_0,
                #[trigger] parse_weapons(w, s, pos)->Ok_0.0[k].1,
                0,
            ) == parse_weapons(w, s, pos)->Ok_0.0[k].1,
    decreases s.len() - pos,
{
    if take_bits(s, pos, 1) != Some(0nat) {
        let descs = w->Some_0;
        lemma_read_delta_canonical(descs, s, pos + 7);
        crate::delta::lemma_parse_delta_bounds(descs, s, pos + 7);
        let (d, p) = parse_delta_spec(descs, s, pos + 7)->Ok_0;
        lemma_read_weapons_canonical(w, s, p);
        let ws = parse_weapons(w, s, pos)->Ok_0.0;
        let tail = parse_weapons(w, s, p)->Ok_0.0;
        assert forall|k: int| 0 <= k < ws.len() implies present_entries(
            descs,
            #[trigger] ws[k].1,
            0,
        ) == ws[k].1 by {
            if k > 0 {
                assert(ws[k] == tail[k - 1]);
            }
        }
    }
}

proof fn lemma_read_client_data_canonical(
    b: Seq<u8>,
    t: Map<Seq<u8>, Seq<DescriptorModel>>,
    is_hltv: bool,
)
    requires
        tables_distinct(t),
        parse_client_data(b, t, is_hltv) is Ok,
    ensures
        client_data_canonical(parse_client_data(b, t, is_hltv)->Ok_0.0, t, is_hltv),
{
    let m = parse_client_data(b, t, is_hltv)->Ok_0.0;
    if is_hltv {
        if map_get(t, clientdata_name()) is Some {
            lemma_present_empty(map_get(t, clientdata_name())->Some_0, 0);
        }
    } else {
        let s = bytes_bits(b);
        let h = take_bits(s, 0, 1)->Some_0;
        let p0: int = if h == 1 {
            9
        } else {
            1
        };
        let cd = map_get(t, clientdata_name())->Some_0;
        lemma_read_delta_canonical(cd, s, p0);
        let p1 = parse_delta_spec(cd, s, p0)->Ok_0.1;
        lemma_read_weapons_canonical(map_get(t, weapon_data_name()), s, p1);
    }
}

proof fn lemma_read_extra_canonical(
    es: Option<Seq<DescriptorModel>>,
    s: Seq<bool>,
    pos: int,
    n: nat,
)
    requires
        es is Some ==> names_unique(es->Some_0),
        parse_extra(es, s, pos, n) is Ok,
    ensures
        es is Some ==> forall|x: int|
            0 <= x < parse_extra(es, s, pos, n)->Ok_0.0.len() ==> present_entries(
                es->Some_0,
                #[trigger] parse_extra(es, s, pos, n)->Ok_0.0[x],
                0,
            ) == parse_extra(es, s, pos, n)->Ok_0.0[x],
    decreases n,
{
    if n > 0 {
        let d = es->Some_0;
        lemma_read_delta_canonical(d, s, pos);
        let (x0, p) = parse_delta_spec(d, s, pos)->Ok_0;
        lemma_read_extra_canonical(es, s, p, (n - 1) as nat);
        let xs = parse_extra(es, s, pos, n)->Ok_0.0;
        let tail = parse_extra(es, s, p, (n - 1) as nat)->Ok_0.0;
        assert forall|x: int| 0 <= x < xs.len() implies present_entries(d, #[trigger] xs[x], 0)
            == xs[x] by {
            if x > 0 {
                assert(xs[x] == tail[x - 1]);
            }
        }
    }
}

proof fn lemma_read_entities_canonical(
    t: Map<Seq<u8>, Seq<DescriptorModel>>,
    max_players: u8,
    s: Seq<bool>,
    pos: int,
)
    requires
        tables_distinct(t),
        parse_entities(t, max_players, s, pos) is Ok,
    ensures
        baseline_canonical(parse_entities(t, max_players, s, pos)->Ok_0.0, t, max_players),
    decreases s.len() - pos,
{
    lemma2_to64();
    let index = take_bits(s, pos, 11)->Some_0;
    if index != BASELINE_END {
        crate::bits::lemma_bits_value_bound(s.subrange(pos, pos + 11));
        crate::spawn_baseline::lemma_parse_entity_body_bounds(t, max_players, index, s, pos + 11);
        let (e, p) = parse_entity_body(t, max_players, index, s, pos + 11)->Ok_0;
        let ty = take_bits(s, pos + 11, 2)->Some_0;
        crate::bits::lemma_bits_value_bound(s.subrange(pos + 11, pos + 13));
        let d = map_get(t, entity_descs_name(index, ty, max_players))->Some_0;
        lemma_read_delta_canonical(d, s, pos + 13);
        let p1 = parse_delta_spec(d, s, pos + 13)->Ok_0.1;
        let n = take_bits(s, p1 + 5, 6)->Some_0;
        if map_get(t, entity_state_name()) is Some {
            lemma_read_extra_canonical(map_get(t, entity_state_name()), s, p1 + 11, n);
        }
        assert(e.index as nat == index);
        assert(e.type_ as nat == ty);
        lemma_read_entities_canonical(t, max_players, s, p);
        let es = parse_entities(t, max_players, s, pos)->Ok_0.0;
        let tail = parse_entities(t, max_players, s, p)->Ok_0.0;
        assert(es == seq![e] + tail);
        assert forall|k: int| 0 <= k < es.len() implies {
            let e = #[trigger] es[k];
            &&& map_get(t, entity_descs_name(e.index as nat, e.type_ as nat, max_players)) is Some
                ==> present_entries(
                map_get(t, entity_descs_name(e.index as nat, e.type_ as nat, max_players))->Some_0,
                e.delta,
                0,
            ) == e.delta
            &&& map_get(t, entity_state_name()) is Some ==> forall|x: int|
                0 <= x < e.extra_data.len() ==> present_entries(
                    map_get(t, entity_state_name())->Some_0,
                    #[trigger] e.extra_data[x],
                    0,
                ) == e.extra_data[x]
        } by {
            if k > 0 {
                assert(es[k] == tail[k - 1]);
            }
        }
    }
}

proof fn lemma_read_packet_list_canonical(
    t: Map<Seq<u8>, Seq<DescriptorModel>>,
    max_players: u8,
    is_delta: bool,
    prev: nat,
    s: Seq<bool>,
    pos: int,
)
    requires
        tables_distinct(t),
        parse_packet_list(t, max_players, is_delta, prev, s, pos) is Ok,
    ensures
        packet_canonical(
            parse_packet_list(t, max_players, is_delta, prev, s, pos)->Ok_0.0,
            t,
            max_players,
        ),
    decreases s.len() - pos,
{
    lemma2_to64();
    if take_bits(s, pos, 16) != Some(0nat) {
        crate::packet_entities::lemma_parse_packet_entity_bounds(
            t,
            max_players,
            is_delta,
            prev,
            s,
            pos,
        );
        let (e, p) = parse_packet_entity(t, max_players, is_delta, prev, s, pos)->Ok_0;
        let (removed, index, p1) = parse_packet_index(is_delta, prev, s, pos)->Some_0;
        let p0 = if is_delta {
            pos + 1
        } else {
            pos
        };
        let absolute = take_bits(s, p0, 1)->Some_0;
        if absolute == 1 {
            crate::bits::lemma_bits_value_bound(s.subrange(p0 + 1, p0 + 12));
        }
        assert(index < 65536);
        assert(e.index as nat == index);
        if !removed {
            let c = take_bits(s, p1, 1)->Some_0;
            let d = map_get(t, packet_descs_name(index, c == 1, max_players))->Some_0;
            lemma_read_delta_canonical(d, s, p1 + 1);
        }
        lemma_read_packet_list_canonical(t, max_players, is_delta, e.index as nat, s, p);
        let es = parse_packet_list(t, max_players, is_delta, prev, s, pos)->Ok_0.0;
        let tail = parse_packet_list(t, max_players, is_delta, e.index as nat, s, p)->Ok_0.0;
        assert(es == seq![e] + tail);
        assert forall|k: int| 0 <= k < es.len() implies {
            let e = #[trigger] es[k];
            !e.removed && map_get(t, packet_descs_name(e.index as nat, e.custom, max_players))
                is Some ==> present_entries(
                map_get(t, packet_descs_name(e.index as nat, e.custom, max_players))->Some_0,
                e.delta,
                0,
            ) == e.delta
        } by {
            if k > 0 {
                assert(es[k] == tail[k - 1]);
            }
        }
    }
}


/// A session whose tables the codec can write back from: a registry slot for
/// every id, distinct names in every descriptor list, and a complete list for
/// descriptors.
pub open spec fn tables_ok(st: SessionModel) -> bool {
    &&& st.regs.len() == 256
    &&& tables_distinct(st.ddt)
    &&& map_get(st.ddt, delta_description_name()) is Some
    &&& meta_complete(map_get(st.ddt, delta_description_name())->Some_0)
}

/// A message read against a session whose tables are in order is well-formed.
#[verifier::rlimit(60)]
pub proof fn lemma_read_well_formed(b: Seq<u8>, st: SessionModel)
    requires
        tables_ok(st),
        parse_message(b, st) is Ok,
    ensures
        well_formed(parse_message(b, st)->Ok_0.0, st),
{
    reveal(parse_message);
    let tag = b[0];
    let body = b.subrange(1, b.len() as int);
    let s = bytes_bits(body);
    if tag == crate::client_data::SVC_CLIENTDATA {
        lemma_read_client_data_canonical(body, st.ddt, st.is_hltv);
    } else if tag == crate::spawn_baseline::SVC_SPAWNBASELINE {
        lemma_read_entities_canonical(st.ddt, st.max_players, s, 0);
    } else if tag == crate::packet_entities::SVC_PACKETENTITIES {
        lemma_read_packet_list_canonical(st.ddt, st.max_players, false, 0, s, 16);
    } else if tag == crate::packet_entities::SVC_DELTAPACKETENTITIES {
        lemma_read_packet_list_canonical(st.ddt, st.max_players, true, 0, s, 24);
    }
}

/// The tables are in order before each message of `ms`.
pub open spec fn tables_ok_along(ms: Seq<MessageModel>, st: SessionModel) -> bool
    decreases ms.len(),
{
    ms.len() == 0 || (tables_ok(st) && tables_ok_along(ms.drop_first(), apply(st, ms[0])))
}

/// Each message of `ms` is well-formed against the session it is read with.
pub open spec fn well_formed_along(ms: Seq<MessageModel>, st: SessionModel) -> bool
    decreases ms.len(),
{
    ms.len() == 0 || (well_formed(ms[0], st) && well_formed_along(ms.drop_first(), apply(st, ms[0])))
}

proof fn lemma_decoded_along(b: Seq<u8>, pos: int, st: SessionModel)
    requires
        0 <= pos,
        decode_from(b, pos, st) is Ok,
    ensures
        ({
            let (ms, st2) = decode_from(b, pos, st)->Ok_0;
            &&& st2 == final_session(ms, st)
            &&& tables_ok_along(ms, st) ==> well_formed_along(ms, st)
        }),
    decreases b.len() - pos,
{
    let (ms, st2) = decode_from(b, pos, st)->Ok_0;
    if pos < b.len() {
        let rest = b.subrange(pos, b.len() as int);
        crate::netmsg::lemma_parse_message_advances(rest, st);
        let (m, n) = parse_message(rest, st)->Ok_0;
        lemma_decoded_along(b, pos + n, apply(st, m));
        let tail = decode_from(b, pos + n, apply(st, m))->Ok_0.0;
        assert(ms == seq![m] + tail);
        assert(ms.drop_first() =~= tail);
        if tables_ok_along(ms, st) {
            lemma_read_well_formed(rest, st);
        }
    } else {
        assert(ms =~= seq![]);
    }
}

proof fn lemma_decode_shift(x: Seq<u8>, y: Seq<u8>, pos: int, st: SessionModel)
    requires
        0 <= pos,
        decode_from(y, pos, st) is Ok,
    ensures
        decode_from(x + y, x.len() + pos, st) == decode_from(y, pos, st),
    decreases y.len() - pos,
{
    let xy = x + y;
    if pos < y.len() {
        let rest = y.subrange(pos, y.len() as int);
        assert(xy.subrange(x.len() + pos, xy.len() as int) =~= rest);
        crate::netmsg::lemma_parse_message_advances(rest, st);
        let (m, n) = parse_message(rest, st)->Ok_0;
        lemma_decode_shift(x, y, pos + n, apply(st, m));
    }
}

proof fn lemma_encoded_decodes(ms: Seq<MessageModel>, st: SessionModel)
    requires
        well_formed_along(ms, st),
        encode_along(ms, st) is Ok,
    ensures
        decode_from(encode_along(ms, st)->Ok_0, 0, st) == Ok::<_, crate::error::ParseError>(
            (ms, final_session(ms, st)),
        ),
    decreases ms.len(),
{
    let e = encode_along(ms, st)->Ok_0;
    if ms.len() == 0 {
        assert(e =~= seq![]);
        assert(ms =~= seq![]);
    } else {
        let m = ms[0];
        let h = encode_message(m, st)->Ok_0;
        let t = encode_along(ms.drop_first(), apply(st, m))->Ok_0;
        assert(e == h + t);
        law_message_round_trip(m, st, t);
        assert(e.subrange(0, e.len() as int) =~= h + t);
        lemma_encoded_decodes(ms.drop_first(), apply(st, m));
        lemma_decode_shift(h, t, 0, apply(st, m));
        assert(h.len() >= 1) by {
            crate::netmsg::lemma_parse_message_advances(h + t, st);
        }
        assert(seq![m] + ms.drop_first() =~= ms);
    }
}

/// Round trip: when a payload decodes against a session whose tables stay in
/// order before each message, writing each decoded message against the
/// session it was read with gives bytes that decode, from the same starting
/// session, to the same messages and the same final session.
pub proof fn law_round_trip(p: Seq<u8>, st: SessionModel)
    requires
        decode_from(p, 0, st) is Ok,
        tables_ok_along(decode_from(p, 0, st)->Ok_0.0, st),
        encode_along(decode_from(p, 0, st)->Ok_0.0, st) is Ok,
    ensures
        decode_from(encode_along(decode_from(p, 0, st)->Ok_0.0, st)->Ok_0, 0, st) == decode_from(
            p,
            0,
            st,
        ),
{
    lemma_decoded_along(p, 0, st);
    lemma_encoded_decodes(decode_from(p, 0, st)->Ok_0.0, st);
}

} // verus!
