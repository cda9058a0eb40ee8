//! The packet entities messages: a list of entity deltas, absolute or against
//! an earlier frame, with indices coded as jumps from the previous one.
use vstd::prelude::*;

use crate::bits::{bits_of, pack_bits, take_bits, BitReader, BitWriter};
use crate::delta::{
    bits_prefixed, encode_delta_spec, parse_delta, parse_delta_spec, prefixed, write_delta, Delta,
    DeltaModel, DescriptorModel,
};
use crate::error::ErrorKind;
use crate::spawn_baseline::is_player;
use crate::table::{
    custom_entity_state_name, custom_entity_state_name_bytes, entity_state_name,
    entity_state_name_bytes, entity_state_player_name, entity_state_player_name_bytes, map_get,
    DeltaDecoderTable,
};

verus! {

pub const SVC_PACKETENTITIES: u8 = 40;

pub const SVC_DELTAPACKETENTITIES: u8 = 41;

/// One entry of a packet entities list.
#[derive(Debug)]
pub struct PacketEntity {
    pub index: u16,
    /// Only in the delta form: the entity left the frame, and no delta follows.
    pub removed: bool,
    pub custom: bool,
    pub delta: Delta,
}

pub struct PacketEntityModel {
    pub index: u16,
    pub removed: bool,
    pub custom: bool,
    pub delta: DeltaModel,
}

impl View for PacketEntity {
    type V = PacketEntityModel;

    open spec fn view(&self) -> PacketEntityModel {
        PacketEntityModel {
            index: self.index,
            removed: self.removed,
            custom: self.custom,
            delta: self.delta@,
        }
    }
}

pub open spec fn packet_entities_view(v: Seq<PacketEntity>) -> Seq<PacketEntityModel> {
    v.map_values(|e: PacketEntity| e@)
}

/// The body of a packet entities message; `delta_sequence` is there exactly in the delta form.
#[derive(Debug)]
pub struct SvcPacketEntities {
    pub entity_count: u16,
    pub delta_sequence: Option<u8>,
    pub entities: Vec<PacketEntity>,
}

pub struct PacketEntitiesModel {
    pub entity_count: u16,
    pub delta_sequence: Option<u8>,
    pub entities: Seq<PacketEntityModel>,
}

impl View for SvcPacketEntities {
    type V = PacketEntitiesModel;

    open spec fn view(&self) -> PacketEntitiesModel {
        PacketEntitiesModel {
            entity_count: self.entity_count,
            delta_sequence: self.delta_sequence,
            entities: packet_entities_view(self.entities@),
        }
    }
}

/// The structure an entity's delta is read with.
pub open spec fn packet_descs_name(index: nat, custom: bool, max_players: u8) -> Seq<u8> {
    if custom {
        custom_entity_state_name()
    } else if is_player(index, max_players) {
        entity_state_player_name()
    } else {
        entity_state_name()
    }
}

/// The removed flag (delta form only) and the index of an entity after `prev`,
/// with the position after them; none when the stream ends first.
pub open spec fn parse_packet_index(is_delta: bool, prev: nat, s: Seq<bool>, pos: int) -> Option<
    (bool, nat, int),
> {
    let rm: Option<nat> = if is_delta {
        take_bits(s, pos, 1)
    } else {
        Some(0)
    };
    let p0 = if is_delta {
        pos + 1
    } else {
        pos
    };
    match rm {
        None => None,
        Some(removed) => match take_bits(s, p0, 1) {
            None => None,
            Some(absolute) => {
                let w: nat = if absolute == 1 {
                    11
                } else {
                    6
                };
                match take_bits(s, p0 + 1, w) {
                    None => None,
                    Some(v) => Some(
                        (
                            removed == 1,
                            if absolute == 1 {
                                v
                            } else {
                                (prev + v) % 65536
                            },
                            p0 + 1 + w,
                        ),
                    ),
                }
            },
        },
    }
}

/// One entity after the previous index `prev`.
pub open spec fn parse_packet_entity(
    t: Map<Seq<u8>, Seq<DescriptorModel>>,
    max_players: u8,
    is_delta: bool,
    prev: nat,
    s: Seq<bool>,
    pos: int,
) -> Result<(PacketEntityModel, int), ErrorKind> {
    match parse_packet_index(is_delta, prev, s, pos) {
        None => Err(ErrorKind::ShortRead),
        Some((removed, index, p1)) => if removed {
            Ok(
                (
                    PacketEntityModel {
                        index: index as u16,
                        removed: true,
                        custom: false,
                        delta: seq![],
                    },
                    p1,
                ),
            )
        } else {
            match take_bits(s, p1, 1) {
                None => Err(ErrorKind::ShortRead),
                Some(c) => match map_get(t, packet_descs_name(index, c == 1, max_players)) {
                    None => Err(ErrorKind::UnknownDdtKey),
                    Some(d) => match parse_delta_spec(d, s, p1 + 1) {
                        Err(e) => Err(e),
                        Ok((delta, p2)) => Ok(
                            (
                                PacketEntityModel {
                                    index: index as u16,
                                    removed: false,
                                    custom: c == 1,
                                    delta,
                                },
                                p2,
                            ),
                        ),
                    },
                },
            }
        },
    }
}

pub proof fn lemma_parse_packet_entity_bounds(
    t: Map<Seq<u8>, Seq<DescriptorModel>>,
    max_players: u8,
    is_delta: bool,
    prev: nat,
    s: Seq<bool>,
    pos: int,
)
    requires
        0 <= pos,
    ensures
        parse_packet_entity(t, max_players, is_delta, prev, s, pos) matches Ok((e, p)) ==> pos < p
            <= s.len(),
{
    if let Some((removed, index, p1)) = parse_packet_index(is_delta, prev, s, pos) {
        if let Some(c) = take_bits(s, p1, 1) {
            if let Some(d) = map_get(t, packet_descs_name(index, c == 1, max_players)) {
                crate::delta::lemma_parse_delta_bounds(d, s, p1 + 1);
            }
        }
    }
}

/// Entities up to a 16-bit run of zero bits.
pub open spec fn parse_packet_list(
    t: Map<Seq<u8>, Seq<DescriptorModel>>,
    max_players: u8,
    is_delta: bool,
    prev: nat,
    s: Seq<bool>,
    pos: int,
) -> Result<(Seq<PacketEntityModel>, int), ErrorKind>
    decreases s.len() - pos,
{
    match take_bits(s, pos, 16) {
        None => Err(ErrorKind::ShortRead),
        Some(v) => if v == 0 {
            Ok((seq![], pos + 16))
        } else {
            match parse_packet_entity(t, max_players, is_delta, prev, s, pos) {
                Err(e) => Err(e),
                Ok((e, p)) => {
                    proof {
                        lemma_parse_packet_entity_bounds(t, max_players, is_delta, prev, s, pos);
                    }
                    prefixed(
                        seq![e],
                        parse_packet_list(t, max_players, is_delta, e.index as nat, s, p),
                    )
                },
            }
        },
    }
}

pub proof fn lemma_parse_packet_list_bounds(
    t: Map<Seq<u8>, Seq<DescriptorModel>>,
    max_players: u8,
    is_delta: bool,
    prev: nat,
    s: Seq<bool>,
    pos: int,
)
    ensures
        parse_packet_list(t, max_players, is_delta, prev, s, pos) matches Ok((es, p)) ==> pos < p
            <= s.len(),
    decreases s.len() - pos,
{
    if let Some(v) = take_bits(s, pos, 16) {
        if v != 0 && pos >= 0 {
            lemma_parse_packet_entity_bounds(t, max_players, is_delta, prev, s, pos);
            if let Ok((e, p)) = parse_packet_entity(t, max_players, is_delta, prev, s, pos) {
                lemma_parse_packet_list_bounds(t, max_players, is_delta, e.index as nat, s, p);
            }
        }
    }
}

/// A packet entities body and the bytes it takes: the entity count, in the
/// delta form the sequence it is against, then the list.
pub open spec fn parse_packet_entities(
    b: Seq<u8>,
    t: Map<Seq<u8>, Seq<DescriptorModel>>,
    max_players: u8,
    is_delta: bool,
) -> Result<(PacketEntitiesModel, nat), ErrorKind> {
    let s = crate::bits::bytes_bits(b);
    match take_bits(s, 0, 16) {
        None => Err(ErrorKind::ShortRead),
        Some(count) => {
            let sq: Option<nat> = if is_delta {
                take_bits(s, 16, 8)
            } else {
                Some(0)
            };
            match sq {
                None => Err(ErrorKind::ShortRead),
                Some(q) => {
                    let start: int = if is_delta {
                        24
                    } else {
                        16
                    };
                    match parse_packet_list(t, max_players, is_delta, 0, s, start) {
                        Err(e) => Err(e),
                        Ok((es, p)) => Ok(
                            (
                                PacketEntitiesModel {
                                    entity_count: count as u16,
                                    delta_sequence: if is_delta {
                                        Some(q as u8)
                                    } else {
                                        None
                                    },
                                    entities: es,
                                },
                                ((p + 7) / 8) as nat,
                            ),
                        ),
                    }
                },
            }
        },
    }
}

/// The bits of one entity after the previous index `prev`: a jump of 1..=63
/// takes the short form, any other index the absolute one.
pub open spec fn encode_packet_entity(
    t: Map<Seq<u8>, Seq<DescriptorModel>>,
    max_players: u8,
    is_delta: bool,
    prev: nat,
    e: PacketEntityModel,
) -> Result<Seq<bool>, ErrorKind> {
    let ix = e.index as nat;
    if !is_delta && e.removed {
        Err(ErrorKind::ValueMismatch)
    } else if e.removed && (e.custom || e.delta.len() > 0) {
        Err(ErrorKind::ValueMismatch)
    } else if !(prev < ix && ix - prev <= 63) && ix >= 2048 {
        Err(ErrorKind::EncodeOverflow)
    } else {
        let rb: Seq<bool> = if is_delta {
            seq![e.removed]
        } else {
            seq![]
        };
        let ib: Seq<bool> = if prev < ix && ix - prev <= 63 {
            seq![false] + bits_of((ix - prev) as nat, 6)
        } else {
            seq![true] + bits_of(ix, 11)
        };
        if e.removed {
            Ok(rb + ib)
        } else {
            match map_get(t, packet_descs_name(ix, e.custom, max_players)) {
                None => Err(ErrorKind::UnknownDdtKey),
                Some(d) => match encode_delta_spec(d, e.delta) {
                    Err(err) => Err(err),
                    Ok(db) => Ok(rb + ib + seq![e.custom] + db),
                },
            }
        }
    }
}

pub open spec fn prev_index(es: Seq<PacketEntityModel>, i: int) -> nat {
    if i <= 0 {
        0
    } else {
        es[i - 1].index as nat
    }
}

/// The entities from index `i` on, then sixteen zero bits.
pub open spec fn encode_packet_list(
    t: Map<Seq<u8>, Seq<DescriptorModel>>,
    max_players: u8,
    is_delta: bool,
    es: Seq<PacketEntityModel>,
    i: int,
) -> Result<Seq<bool>, ErrorKind>
    decreases es.len() - i,
{
    if i < 0 || i >= es.len() {
        Ok(bits_of(0, 16))
    } else {
        match encode_packet_entity(t, max_players, is_delta, prev_index(es, i), es[i]) {
            Err(e) => Err(e),
            Ok(b) => bits_prefixed(b, encode_packet_list(t, max_players, is_delta, es, i + 1)),
        }
    }
}

/// The whole message, type byte first.
pub open spec fn encode_packet_entities(
    m: PacketEntitiesModel,
    t: Map<Seq<u8>, Seq<DescriptorModel>>,
    max_players: u8,
    is_delta: bool,
) -> Result<Seq<u8>, ErrorKind> {
    if is_delta != (m.delta_sequence is Some) {
        Err(ErrorKind::ValueMismatch)
    } else {
        let head = bits_of(m.entity_count as nat, 16) + match m.delta_sequence {
            Some(q) => bits_of(q as nat, 8),
            None => seq![],
        };
        let tag = if is_delta {
            SVC_DELTAPACKETENTITIES
        } else {
            SVC_PACKETENTITIES
        };
        match encode_packet_list(t, max_players, is_delta, m.entities, 0) {
            Err(e) => Err(e),
            Ok(lb) => Ok(seq![tag] + pack_bits(head + lb)),
        }
    }
}

fn packet_descs_name_bytes(index: u16, custom: bool, max_players: u8) -> (r: Vec<u8>)
    ensures
        r@ == packet_descs_name(index as nat, custom, max_players),
{
    if custom {
        custom_entity_state_name_bytes()
    } else if 1 <= index && index <= max_players as u16 {
        entity_state_player_name_bytes()
    } else {
        entity_state_name_bytes()
    }
}

fn read_packet_index(br: &mut BitReader, is_delta: bool, prev: u16) -> (r: Result<
    (bool, u16),
    ErrorKind,
>)
    requires
        old(br).wf(),
    ensures
        final(br).wf(),
        final(br).data@ == old(br).data@,
        match r {
            Ok((removed, index)) => parse_packet_index(
                is_delta,
                prev as nat,
                old(br).bits(),
                old(br).pos as int,
            ) == Some((removed, index as nat, final(br).pos as int)),
            Err(e) => e == ErrorKind::ShortRead && parse_packet_index(
                is_delta,
                prev as nat,
                old(br).bits(),
                old(br).pos as int,
            ) is None,
        },
{
    let ghost s = br.bits();
    let ghost pos = br.pos as int;
    proof {
        vstd::arithmetic::power2::lemma2_to64();
    }
    let removed = if is_delta {
        match br.read_1_bit() {
            Ok(b) => b,
            Err(e) => {
                return Err(e);
            },
        }
    } else {
        false
    };
    proof {
        if is_delta {
            crate::bits::lemma_take_one(s, pos);
        }
    }
    let ghost p0 = br.pos as int;
    let absolute = match br.read_1_bit() {
        Ok(b) => b,
        Err(e) => {
            return Err(e);
        },
    };
    proof {
        crate::bits::lemma_take_one(s, p0);
    }
    let index: u16 = if absolute {
        match br.read_n_bit(11) {
            Ok(v) => v as u16,
            Err(e) => {
                return Err(e);
            },
        }
    } else {
        match br.read_n_bit(6) {
            Ok(v) => ((prev as u32 + v) % 65536) as u16,
            Err(e) => {
                return Err(e);
            },
        }
    };
    Ok((removed, index))
}

fn read_packet_entity(
    br: &mut BitReader,
    delta_decoders: &DeltaDecoderTable,
    max_players: u8,
    is_delta: bool,
    prev: u16,
) -> (r: Result<PacketEntity, ErrorKind>)
    requires
        old(br).wf(),
        delta_decoders.wf(),
    ensures
        final(br).wf(),
        final(br).data@ == old(br).data@,
        match r {
            Ok(e) => parse_packet_entity(
                delta_decoders.map(),
                max_players,
                is_delta,
                prev as nat,
                old(br).bits(),
                old(br).pos as int,
            ) == Ok::<_, ErrorKind>((e@, final(br).pos as int)),
            Err(e) => parse_packet_entity(
                delta_decoders.map(),
                max_players,
                is_delta,
                prev as nat,
                old(br).bits(),
                old(br).pos as int,
            ) == Err::<(PacketEntityModel, int), ErrorKind>(e),
        },
{
    let ghost s = br.bits();
    let (removed, index) = match read_packet_index(br, is_delta, prev) {
        Ok(x) => x,
        Err(e) => {
            return Err(e);
        },
    };
    if removed {
        let e = PacketEntity {
            index,
            removed: true,
            custom: false,
            delta: Delta { entries: Vec::new() },
        };
        assert(e@.delta =~= seq![]);
        return Ok(e);
    }
    let ghost p1 = br.pos as int;
    let custom = match br.read_1_bit() {
        Ok(b) => b,
        Err(e) => {
            return Err(e);
        },
    };
    proof {
        crate::bits::lemma_take_one(s, p1);
    }
    let name = packet_descs_name_bytes(index, custom, max_players);
    let d = match delta_decoders.get(name.as_slice()) {
        Some(f) => f,
        None => {
            return Err(ErrorKind::UnknownDdtKey);
        },
    };
    let delta = match parse_delta(d, br) {
        Ok(x) => x,
        Err(e) => {
            return Err(e);
        },
    };
    Ok(PacketEntity { index, removed: false, custom, delta })
}

#[verifier::rlimit(40)]
fn write_packet_entity(
    e: &PacketEntity,
    delta_decoders: &DeltaDecoderTable,
    max_players: u8,
    is_delta: bool,
    prev: u16,
    bw: &mut BitWriter,
) -> (r: Result<(), ErrorKind>)
    requires
        delta_decoders.wf(),
    ensures
        match encode_packet_entity(delta_decoders.map(), max_players, is_delta, prev as nat, e@) {
            Ok(b) => r is Ok && final(bw).bits@ == old(bw).bits@ + b,
            Err(err) => r == Err::<(), ErrorKind>(err),
        },
{
    let ix = e.index;
    if !is_delta && e.removed {
        return Err(ErrorKind::ValueMismatch);
    }
    if e.removed && (e.custom || e.delta.entries.len() > 0) {
        return Err(ErrorKind::ValueMismatch);
    }
    let short = prev < ix && ix - prev <= 63;
    if !short && ix >= 2048 {
        return Err(ErrorKind::EncodeOverflow);
    }
    let mut name: Vec<u8> = Vec::new();
    let mut d_opt: Option<&Vec<crate::delta::FieldDescriptor>> = None;
    if !e.removed {
        name = packet_descs_name_bytes(ix, e.custom, max_players);
        match delta_decoders.get(name.as_slice()) {
            Some(f) => {
                d_opt = Some(f);
            },
            None => {
                return Err(ErrorKind::UnknownDdtKey);
            },
        }
    }
    let ghost start = bw.bits@;
    if is_delta {
        bw.append_bit(e.removed);
    }
    if short {
        bw.append_bit(false);
        bw.append_u32_range((ix - prev) as u32, 6);
    } else {
        bw.append_bit(true);
        bw.append_u32_range(ix as u32, 11);
    }
    let ghost head = bw.bits@;
    proof {
        let rb: Seq<bool> = if is_delta {
            seq![e.removed]
        } else {
            seq![]
        };
        let ib: Seq<bool> = if short {
            seq![false] + bits_of((ix - prev) as nat, 6)
        } else {
            seq![true] + bits_of(ix as nat, 11)
        };
        assert(head =~= start + (rb + ib));
    }
    if e.removed {
        return Ok(());
    }
    bw.append_bit(e.custom);
    match d_opt {
        Some(d) => {
            match write_delta(&e.delta, d, bw) {
                Ok(_) => {},
                Err(err) => {
                    return Err(err);
                },
            }
            proof {
                if let Ok(db) = encode_delta_spec(crate::delta::descs_view(d@), e@.delta) {
                    assert(bw.bits@ =~= head + seq![e.custom] + db);
                    let rb: Seq<bool> = if is_delta {
                        seq![e.removed]
                    } else {
                        seq![]
                    };
                    let ib: Seq<bool> = if short {
                        seq![false] + bits_of((ix - prev) as nat, 6)
                    } else {
                        seq![true] + bits_of(ix as nat, 11)
                    };
                    assert(bw.bits@ =~= start + (rb + ib + seq![e.custom] + db));
                }
            }
            Ok(())
        },
        None => Err(ErrorKind::UnknownDdtKey),
    }
}


/// Codec of the packet entities messages, absolute (`is_delta` false) and delta.
pub struct PacketEntities {}

impl PacketEntities {
    /// Reads a packet entities body from the start of `i`; gives the bytes it took.
    pub fn parse(
        i: &[u8],
        delta_decoders: &DeltaDecoderTable,
        max_players: u8,
        is_delta: bool,
    ) -> (r: Result<(SvcPacketEntities, usize), ErrorKind>)
        requires
            i@.len() * 8 <= usize::MAX,
            delta_decoders.wf(),
        ensures
            match r {
                Ok((m, n)) => parse_packet_entities(
                    i@,
                    delta_decoders.map(),
                    max_players,
                    is_delta,
                ) == Ok::<_, ErrorKind>((m@, n as nat)) && n <= i@.len(),
                Err(e) => parse_packet_entities(i@, delta_decoders.map(), max_players, is_delta)
                    == Err::<(PacketEntitiesModel, nat), ErrorKind>(e),
            },
    {
        proof {
            vstd::arithmetic::power2::lemma2_to64();
        }
        let ghost t = delta_decoders.map();
        let mut br = BitReader::new(i, 0);
        let ghost s = br.bits();
        let entity_count = match br.read_n_bit(16) {
            Ok(v) => v as u16,
            Err(e) => {
                return Err(e);
            },
        };
        let delta_sequence = if is_delta {
            match br.read_n_bit(8) {
                Ok(v) => Some(v as u8),
                Err(e) => {
                    return Err(e);
                },
            }
        } else {
            None
        };
        let ghost start = br.pos as int;
        let ghost whole = parse_packet_list(t, max_players, is_delta, 0, s, start);
        assert(parse_packet_entities(i@, t, max_players, is_delta) == match whole {
            Err(e) => Err(e),
            Ok((es, p)) => Ok::<_, ErrorKind>(
                (
                    PacketEntitiesModel {
                        entity_count: entity_count,
                        delta_sequence: delta_sequence,
                        entities: es,
                    },
                    ((p + 7) / 8) as nat,
                ),
            ),
        });
        let mut entities: Vec<PacketEntity> = Vec::new();
        let mut prev: u16 = 0;
        assert(packet_entities_view(entities@) + whole->Ok_0.0 =~= whole->Ok_0.0);
        loop
            invariant
                br.wf(),
                br.data@ == i@,
                s == br.bits(),
                t == delta_decoders.map(),
                delta_decoders.wf(),
                whole == parse_packet_list(t, max_players, is_delta, 0, s, start),
                parse_packet_entities(i@, t, max_players, is_delta) == match whole {
                    Err(e) => Err(e),
                    Ok((es, p)) => Ok::<_, ErrorKind>(
                        (
                            PacketEntitiesModel {
                                entity_count: entity_count,
                                delta_sequence: delta_sequence,
                                entities: es,
                            },
                            ((p + 7) / 8) as nat,
                        ),
                    ),
                },
                whole == prefixed(
                    packet_entities_view(entities@),
                    parse_packet_list(t, max_players, is_delta, prev as nat, s, br.pos as int),
                ),
            decreases s.len() - br.pos,
        {
            let here = br.pos;
            let v = match br.read_n_bit(16) {
                Ok(v) => v,
                Err(e) => {
                    return Err(e);
                },
            };
            if v == 0 {
                assert(packet_entities_view(entities@) + seq![] =~= packet_entities_view(
                    entities@,
                ));
                let n = br.get_consumed_bytes();
                return Ok((SvcPacketEntities { entity_count, delta_sequence, entities }, n));
            }
            br.pos = here;
            let e = match read_packet_entity(&mut br, delta_decoders, max_players, is_delta, prev) {
                Ok(e) => e,
                Err(e) => {
                    return Err(e);
                },
            };
            proof {
                lemma_parse_packet_entity_bounds(t, max_players, is_delta, prev as nat, s, here as int);
                crate::delta::lemma_prefixed_push(
                    packet_entities_view(entities@),
                    e@,
                    parse_packet_list(t, max_players, is_delta, e.index as nat, s, br.pos as int),
                );
            }
            prev = e.index;
            let ghost before = packet_entities_view(entities@);
            entities.push(e);
            assert(packet_entities_view(entities@) =~= before.push(e@));
        }
    }

    /// The message, type byte first.
    pub fn write(
        i: &SvcPacketEntities,
        delta_decoders: &DeltaDecoderTable,
        max_players: u8,
        is_delta: bool,
    ) -> (r: Result<Vec<u8>, ErrorKind>)
        requires
            delta_decoders.wf(),
        ensures
            match encode_packet_entities(i@, delta_decoders.map(), max_players, is_delta) {
                Ok(bs) => r is Ok && r->Ok_0@ == bs,
                Err(e) => r == Err::<Vec<u8>, ErrorKind>(e),
            },
    {
        let ghost t = delta_decoders.map();
        let ghost es = i@.entities;
        if is_delta != i.delta_sequence.is_some() {
            return Err(ErrorKind::ValueMismatch);
        }
        let mut bw = BitWriter::new();
        bw.append_u32_range(i.entity_count as u32, 16);
        match i.delta_sequence {
            Some(q) => {
                bw.append_u32_range(q as u32, 8);
            },
            None => {},
        }
        let ghost head = bw.bits@;
        assert(head =~= bits_of(i.entity_count as nat, 16) + match i.delta_sequence {
            Some(q) => bits_of(q as nat, 8),
            None => seq![],
        });
        let mut k: usize = 0;
        let mut prev: u16 = 0;
        assert(head + seq![] =~= head);
        while k < i.entities.len()
            invariant
                t == delta_decoders.map(),
                delta_decoders.wf(),
                es == i@.entities,
                es.len() == i.entities@.len(),
                k <= es.len(),
                is_delta == (i@.delta_sequence is Some),
                head == bits_of(i.entity_count as nat, 16) + match i.delta_sequence {
                    Some(q) => bits_of(q as nat, 8),
                    None => seq![],
                },
                prev as nat == prev_index(es, k as int),
                bits_prefixed(head, encode_packet_list(t, max_players, is_delta, es, 0))
                    == bits_prefixed(
                    bw.bits@,
                    encode_packet_list(t, max_players, is_delta, es, k as int),
                ),
            decreases es.len() - k,
        {
            let ghost before = bw.bits@;
            match write_packet_entity(
                &i.entities[k],
                delta_decoders,
                max_players,
                is_delta,
                prev,
                &mut bw,
            ) {
                Ok(_) => {},
                Err(e) => {
                    return Err(e);
                },
            }
            proof {
                if let Ok(b) = encode_packet_entity(t, max_players, is_delta, prev as nat, es[k as int]) {
                    if let Ok(rest) = encode_packet_list(t, max_players, is_delta, es, k + 1) {
                        assert(before + (b + rest) =~= bw.bits@ + rest);
                    }
                }
            }
            prev = i.entities[k].index;
            k = k + 1;
        }
        bw.append_u32_range(0, 16);
        proof {
            if let Ok(lb) = encode_packet_list(t, max_players, is_delta, es, 0) {
                assert(bw.bits@ == head + lb);
            }
        }
        let packed = bw.get_u8_vec();
        let mut out: Vec<u8> = Vec::new();
        out.push(
            if is_delta {
                SVC_DELTAPACKETENTITIES
            } else {
                SVC_PACKETENTITIES
            },
        );
        crate::bytes::append_bytes(&mut out, packed.as_slice());
        Ok(out)
    }
}

} // verus!
