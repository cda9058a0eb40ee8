//! The spawn baseline message: the starting delta of each entity, up to an
//! 11-bit sentinel.
use vstd::prelude::*;

use crate::bits::{bits_of, pack_bits, take_bits, BitReader, BitWriter};
use crate::delta::{
    bits_prefixed, descs_view, encode_delta_spec, parse_delta, parse_delta_spec, prefixed,
    write_delta, Delta, DeltaModel, DescriptorModel,
};
use crate::error::ErrorKind;
use crate::table::{
    custom_entity_state_name, custom_entity_state_name_bytes, entity_state_name,
    entity_state_name_bytes, entity_state_player_name, entity_state_player_name_bytes, map_get,
    DeltaDecoderTable,
};

verus! {

pub const SVC_SPAWNBASELINE: u8 = 22;

/// The index that ends the entity list.
pub const BASELINE_END: u32 = 2047;

/// The baseline of one entity.
#[derive(Debug)]
pub struct EntityS {
    pub index: u16,
    pub type_: u8,
    pub delta: Delta,
    pub footer: u8,
    pub extra_data: Vec<Delta>,
}

pub struct EntityModel {
    pub index: u16,
    pub type_: u8,
    pub delta: DeltaModel,
    pub footer: u8,
    pub extra_data: Seq<DeltaModel>,
}

pub open spec fn deltas_view(v: Seq<Delta>) -> Seq<DeltaModel> {
    v.map_values(|d: Delta| d@)
}

impl View for EntityS {
    type V = EntityModel;

    open spec fn view(&self) -> EntityModel {
        EntityModel {
            index: self.index,
            type_: self.type_,
            delta: self.delta@,
            footer: self.footer,
            extra_data: deltas_view(self.extra_data@),
        }
    }
}

/// The body of a spawn baseline message.
#[derive(Debug)]
pub struct SvcSpawnBaseline {
    pub entities: Vec<EntityS>,
}

pub open spec fn entities_view(v: Seq<EntityS>) -> Seq<EntityModel> {
    v.map_values(|e: EntityS| e@)
}

impl View for SvcSpawnBaseline {
    type V = Seq<EntityModel>;

    open spec fn view(&self) -> Seq<EntityModel> {
        entities_view(self.entities@)
    }
}

/// Whether an entity index belongs to a player.
pub open spec fn is_player(index: nat, max_players: u8) -> bool {
    1 <= index <= max_players
}

/// The structure an entity's delta is read with: players and other entities
/// when bit 0 of the type is set, custom entities when it is clear.
pub open spec fn entity_descs_name(index: nat, type_: nat, max_players: u8) -> Seq<u8> {
    if type_ % 2 == 1 {
        if is_player(index, max_players) {
            entity_state_player_name()
        } else {
            entity_state_name()
        }
    } else {
        custom_entity_state_name()
    }
}

/// `n` deltas read with `es` one after another.
pub open spec fn parse_extra(es: Option<Seq<DescriptorModel>>, s: Seq<bool>, pos: int, n: nat) -> Result<
    (Seq<DeltaModel>, int),
    ErrorKind,
>
    decreases n,
{
    if n == 0 {
        Ok((seq![], pos))
    } else {
        match es {
            None => Err(ErrorKind::UnknownDdtKey),
            Some(d) => match parse_delta_spec(d, s, pos) {
                Err(e) => Err(e),
                Ok((x, p)) => prefixed(seq![x], parse_extra(es, s, p, (n - 1) as nat)),
            },
        }
    }
}

/// An entity after its index: type, delta, footer, extra deltas.
pub open spec fn parse_entity_body(
    t: Map<Seq<u8>, Seq<DescriptorModel>>,
    max_players: u8,
    index: nat,
    s: Seq<bool>,
    pos: int,
) -> Result<(EntityModel, int), ErrorKind> {
    match take_bits(s, pos, 2) {
        None => Err(ErrorKind::ShortRead),
        Some(ty) => match map_get(t, entity_descs_name(index, ty, max_players)) {
            None => Err(ErrorKind::UnknownDdtKey),
            Some(d) => match parse_delta_spec(d, s, pos + 2) {
                Err(e) => Err(e),
                Ok((delta, p1)) => match take_bits(s, p1, 5) {
                    None => Err(ErrorKind::ShortRead),
                    Some(footer) => match take_bits(s, p1 + 5, 6) {
                        None => Err(ErrorKind::ShortRead),
                        Some(n) => match parse_extra(map_get(t, entity_state_name()), s, p1 + 11, n) {
                            Err(e) => Err(e),
                            Ok((extra, p2)) => Ok(
                                (
                                    EntityModel {
                                        index: index as u16,
                                        type_: ty as u8,
                                        delta,
                                        footer: footer as u8,
                                        extra_data: extra,
                                    },
                                    p2,
                                ),
                            ),
                        },
                    },
                },
            },
        },
    }
}

pub proof fn lemma_parse_extra_bounds(
    es: Option<Seq<DescriptorModel>>,
    s: Seq<bool>,
    pos: int,
    n: nat,
)
    requires
        0 <= pos <= s.len(),
    ensures
        parse_extra(es, s, pos, n) matches Ok((x, p)) ==> pos <= p <= s.len(),
    decreases n,
{
    if n > 0 {
        if let Some(d) = es {
            crate::delta::lemma_parse_delta_bounds(d, s, pos);
            if let Ok((x, p)) = parse_delta_spec(d, s, pos) {
                lemma_parse_extra_bounds(es, s, p, (n - 1) as nat);
            }
        }
    }
}

pub proof fn lemma_parse_entity_body_bounds(
    t: Map<Seq<u8>, Seq<DescriptorModel>>,
    max_players: u8,
    index: nat,
    s: Seq<bool>,
    pos: int,
)
    requires
        0 <= pos,
    ensures
        parse_entity_body(t, max_players, index, s, pos) matches Ok((e, p)) ==> pos < p <= s.len(),
{
    if let Some(ty) = take_bits(s, pos, 2) {
        if let Some(d) = map_get(t, entity_descs_name(index, ty, max_players)) {
            crate::delta::lemma_parse_delta_bounds(d, s, pos + 2);
            if let Ok((delta, p1)) = parse_delta_spec(d, s, pos + 2) {
                if let Some(n) = take_bits(s, p1 + 5, 6) {
                    lemma_parse_extra_bounds(map_get(t, entity_state_name()), s, p1 + 11, n);
                }
            }
        }
    }
}

/// Entities up to the sentinel index, which ends the list whatever follows it.
pub open spec fn parse_entities(
    t: Map<Seq<u8>, Seq<DescriptorModel>>,
    max_players: u8,
    s: Seq<bool>,
    pos: int,
) -> Result<(Seq<EntityModel>, int), ErrorKind>
    decreases s.len() - pos,
{
    match take_bits(s, pos, 11) {
        None => Err(ErrorKind::ShortRead),
        Some(index) => if index == BASELINE_END {
            Ok((seq![], pos + 11))
        } else {
            match parse_entity_body(t, max_players, index, s, pos + 11) {
                Err(e) => Err(e),
                Ok((e, p)) => {
                    proof {
                        lemma_parse_entity_body_bounds(t, max_players, index, s, pos + 11);
                    }
                    prefixed(seq![e], parse_entities(t, max_players, s, p))
                },
            }
        },
    }
}

pub proof fn lemma_parse_entities_bounds(
    t: Map<Seq<u8>, Seq<DescriptorModel>>,
    max_players: u8,
    s: Seq<bool>,
    pos: int,
)
    ensures
        parse_entities(t, max_players, s, pos) matches Ok((es, p)) ==> pos < p <= s.len(),
    decreases s.len() - pos,
{
    if let Some(index) = take_bits(s, pos, 11) {
        if index != BASELINE_END {
            lemma_parse_entity_body_bounds(t, max_players, index, s, pos + 11);
            if let Ok((e, p)) = parse_entity_body(t, max_players, index, s, pos + 11) {
                lemma_parse_entities_bounds(t, max_players, s, p);
            }
        }
    }
}

/// A spawn baseline body and the bytes it takes, up to the byte that holds the sentinel's last bit.
pub open spec fn parse_spawn_baseline(
    b: Seq<u8>,
    t: Map<Seq<u8>, Seq<DescriptorModel>>,
    max_players: u8,
) -> Result<(Seq<EntityModel>, nat), ErrorKind> {
    match parse_entities(t, max_players, crate::bits::bytes_bits(b), 0) {
        Ok((es, p)) => Ok((es, ((p + 7) / 8) as nat)),
        Err(e) => Err(e),
    }
}

/// The extra deltas from index `i` on.
pub open spec fn encode_extra(es: Option<Seq<DescriptorModel>>, xs: Seq<DeltaModel>, i: int) -> Result<
    Seq<bool>,
    ErrorKind,
>
    decreases xs.len() - i,
{
    if i < 0 || i >= xs.len() {
        Ok(seq![])
    } else {
        match es {
            None => Err(ErrorKind::UnknownDdtKey),
            Some(d) => match encode_delta_spec(d, xs[i]) {
                Err(e) => Err(e),
                Ok(db) => bits_prefixed(db, encode_extra(es, xs, i + 1)),
            },
        }
    }
}

/// One entity's bits, or why it cannot be written.
pub open spec fn encode_entity(
    t: Map<Seq<u8>, Seq<DescriptorModel>>,
    max_players: u8,
    e: EntityModel,
) -> Result<Seq<bool>, ErrorKind> {
    if e.index >= BASELINE_END || e.type_ >= 4 || e.footer >= 32 || e.extra_data.len() >= 64 {
        Err(ErrorKind::EncodeOverflow)
    } else {
        match map_get(t, entity_descs_name(e.index as nat, e.type_ as nat, max_players)) {
            None => Err(ErrorKind::UnknownDdtKey),
            Some(d) => match encode_delta_spec(d, e.delta) {
                Err(err) => Err(err),
                Ok(db) => bits_prefixed(
                    bits_of(e.index as nat, 11) + bits_of(e.type_ as nat, 2) + db + bits_of(
                        e.footer as nat,
                        5,
                    ) + bits_of(e.extra_data.len(), 6),
                    encode_extra(map_get(t, entity_state_name()), e.extra_data, 0),
                ),
            },
        }
    }
}

/// The entities from index `i` on, then the sentinel.
pub open spec fn encode_entities(
    t: Map<Seq<u8>, Seq<DescriptorModel>>,
    max_players: u8,
    es: Seq<EntityModel>,
    i: int,
) -> Result<Seq<bool>, ErrorKind>
    decreases es.len() - i,
{
    if i < 0 || i >= es.len() {
        Ok(bits_of(BASELINE_END as nat, 11))
    } else {
        match encode_entity(t, max_players, es[i]) {
            Err(e) => Err(e),
            Ok(b) => bits_prefixed(b, encode_entities(t, max_players, es, i + 1)),
        }
    }
}

/// The whole message, type byte first.
pub open spec fn encode_spawn_baseline(
    es: Seq<EntityModel>,
    t: Map<Seq<u8>, Seq<DescriptorModel>>,
    max_players: u8,
) -> Result<Seq<u8>, ErrorKind> {
    match encode_entities(t, max_players, es, 0) {
        Ok(bits) => Ok(seq![SVC_SPAWNBASELINE] + pack_bits(bits)),
        Err(e) => Err(e),
    }
}

fn descs_name_bytes(index: u32, type_: u32, max_players: u8) -> (r: Vec<u8>)
    ensures
        r@ == entity_descs_name(index as nat, type_ as nat, max_players),
{
    if type_ % 2 == 1 {
        if 1 <= index && index <= max_players as u32 {
            entity_state_player_name_bytes()
        } else {
            entity_state_name_bytes()
        }
    } else {
        custom_entity_state_name_bytes()
    }
}

fn read_extra(br: &mut BitReader, delta_decoders: &DeltaDecoderTable, n: u32) -> (r: Result<
    Vec<Delta>,
    ErrorKind,
>)
    requires
        old(br).wf(),
        delta_decoders.wf(),
    ensures
        final(br).wf(),
        final(br).data@ == old(br).data@,
        match r {
            Ok(xs) => parse_extra(
                map_get(delta_decoders.map(), entity_state_name()),
                old(br).bits(),
                old(br).pos as int,
                n as nat,
            ) == Ok::<_, ErrorKind>((deltas_view(xs@), final(br).pos as int)),
            Err(e) => parse_extra(
                map_get(delta_decoders.map(), entity_state_name()),
                old(br).bits(),
                old(br).pos as int,
                n as nat,
            ) == Err::<(Seq<DeltaModel>, int), ErrorKind>(e),
        },
{
    let ghost es = map_get(delta_decoders.map(), entity_state_name());
    let ghost s = br.bits();
    let ghost p0 = br.pos as int;
    let name = entity_state_name_bytes();
    let mut out: Vec<Delta> = Vec::new();
    let mut k: u32 = 0;
    assert(deltas_view(out@) + parse_extra(es, s, p0, n as nat)->Ok_0.0 =~= parse_extra(
        es,
        s,
        p0,
        n as nat,
    )->Ok_0.0);
    while k < n
        invariant
            br.wf(),
            br.data@ == old(br).data@,
            s == br.bits(),
            p0 == old(br).pos,
            name@ == entity_state_name(),
            es == map_get(delta_decoders.map(), entity_state_name()),
            delta_decoders.wf(),
            k <= n,
            parse_extra(es, s, p0, n as nat) == prefixed(
                deltas_view(out@),
                parse_extra(es, s, br.pos as int, (n - k) as nat),
            ),
        decreases n - k,
    {
        let d = match delta_decoders.get(name.as_slice()) {
            Some(f) => f,
            None => {
                return Err(ErrorKind::UnknownDdtKey);
            },
        };
        let x = match parse_delta(d, br) {
            Ok(x) => x,
            Err(e) => {
                return Err(e);
            },
        };
        proof {
            crate::delta::lemma_prefixed_push(
                deltas_view(out@),
                x@,
                parse_extra(es, s, br.pos as int, (n - k - 1) as nat),
            );
        }
        let ghost before = deltas_view(out@);
        out.push(x);
        assert(deltas_view(out@) =~= before.push(x@));
        k = k + 1;
    }
    assert(deltas_view(out@) + seq![] =~= deltas_view(out@));
    Ok(out)
}

fn read_entity_body(
    br: &mut BitReader,
    delta_decoders: &DeltaDecoderTable,
    max_players: u8,
    index: u32,
) -> (r: Result<EntityS, ErrorKind>)
    requires
        old(br).wf(),
        delta_decoders.wf(),
        index < 2048,
    ensures
        final(br).wf(),
        final(br).data@ == old(br).data@,
        match r {
            Ok(e) => parse_entity_body(
                delta_decoders.map(),
                max_players,
                index as nat,
                old(br).bits(),
                old(br).pos as int,
            ) == Ok::<_, ErrorKind>((e@, final(br).pos as int)),
            Err(e) => parse_entity_body(
                delta_decoders.map(),
                max_players,
                index as nat,
                old(br).bits(),
                old(br).pos as int,
            ) == Err::<(EntityModel, int), ErrorKind>(e),
        },
{
    proof {
        vstd::arithmetic::power2::lemma2_to64();
    }
    let type_ = match br.read_n_bit(2) {
        Ok(x) => x,
        Err(e) => {
            return Err(e);
        },
    };
    let name = descs_name_bytes(index, type_, max_players);
    let d = match delta_decoders.get(name.as_slice()) {
        Some(f) => f,
        None => {
            return Err(ErrorKind::UnknownDdtKey);
        },
    };
    let delta = match parse_delta(d, br) {
        Ok(x) => x,
        Err(e) => {
            return Err(e);
        },
    };
    let footer = match br.read_n_bit(5) {
        Ok(x) => x,
        Err(e) => {
            return Err(e);
        },
    };
    let n = match br.read_n_bit(6) {
        Ok(x) => x,
        Err(e) => {
            return Err(e);
        },
    };
    let extra_data = match read_extra(br, delta_decoders, n) {
        Ok(x) => x,
        Err(e) => {
            return Err(e);
        },
    };
    Ok(EntityS { index: index as u16, type_: type_ as u8, delta, footer: footer as u8, extra_data })
}

fn write_extra(xs: &Vec<Delta>, delta_decoders: &DeltaDecoderTable, bw: &mut BitWriter) -> (r:
    Result<(), ErrorKind>)
    requires
        delta_decoders.wf(),
    ensures
        match encode_extra(
            map_get(delta_decoders.map(), entity_state_name()),
            deltas_view(xs@),
            0,
        ) {
            Ok(b) => r is Ok && final(bw).bits@ == old(bw).bits@ + b,
            Err(e) => r == Err::<(), ErrorKind>(e),
        },
{
    let ghost es = map_get(delta_decoders.map(), entity_state_name());
    let ghost xv = deltas_view(xs@);
    let ghost start = bw.bits@;
    let name = entity_state_name_bytes();
    let mut k: usize = 0;
    assert(start + seq![] =~= start);
    while k < xs.len()
        invariant
            name@ == entity_state_name(),
            es == map_get(delta_decoders.map(), entity_state_name()),
            delta_decoders.wf(),
            xv == deltas_view(xs@),
            k <= xs@.len(),
            bits_prefixed(start, encode_extra(es, xv, 0)) == bits_prefixed(
                bw.bits@,
                encode_extra(es, xv, k as int),
            ),
        decreases xs@.len() - k,
    {
        let d = match delta_decoders.get(name.as_slice()) {
            Some(f) => f,
            None => {
                return Err(ErrorKind::UnknownDdtKey);
            },
        };
        let ghost before = bw.bits@;
        match write_delta(&xs[k], d, bw) {
            Ok(_) => {},
            Err(e) => {
                return Err(e);
            },
        }
        proof {
            if let Ok(db) = encode_delta_spec(es->Some_0, xv[k as int]) {
                if let Ok(rest) = encode_extra(es, xv, k + 1) {
                    assert(before + (db + rest) =~= bw.bits@ + rest);
                }
            }
        }
        k = k + 1;
    }
    proof {
        if let Ok(b) = encode_extra(es, xv, 0) {
            assert(bw.bits@ + seq![] =~= bw.bits@);
        }
    }
    Ok(())
}

fn write_entity(
    e: &EntityS,
    delta_decoders: &DeltaDecoderTable,
    max_players: u8,
    bw: &mut BitWriter,
) -> (r: Result<(), ErrorKind>)
    requires
        delta_decoders.wf(),
    ensures
        match encode_entity(delta_decoders.map(), max_players, e@) {
            Ok(b) => r is Ok && final(bw).bits@ == old(bw).bits@ + b,
            Err(err) => r == Err::<(), ErrorKind>(err),
        },
{
    if e.index as u32 >= BASELINE_END || e.type_ >= 4 || e.footer >= 32 || e.extra_data.len()
        >= 64 {
        return Err(ErrorKind::EncodeOverflow);
    }
    let name = descs_name_bytes(e.index as u32, e.type_ as u32, max_players);
    let d = match delta_decoders.get(name.as_slice()) {
        Some(f) => f,
        None => {
            return Err(ErrorKind::UnknownDdtKey);
        },
    };
    let ghost start = bw.bits@;
    bw.append_u32_range(e.index as u32, 11);
    bw.append_u32_range(e.type_ as u32, 2);
    match write_delta(&e.delta, d, bw) {
        Ok(_) => {},
        Err(err) => {
            return Err(err);
        },
    }
    bw.append_u32_range(e.footer as u32, 5);
    bw.append_u32_range(e.extra_data.len() as u32, 6);
    let ghost mid = bw.bits@;
    match write_extra(&e.extra_data, delta_decoders, bw) {
        Ok(_) => {},
        Err(err) => {
            return Err(err);
        },
    }
    proof {
        if let Ok(db) = encode_delta_spec(descs_view(d@), e@.delta) {
            let h = bits_of(e.index as nat, 11) + bits_of(e.type_ as nat, 2) + db + bits_of(
                e.footer as nat,
                5,
            ) + bits_of(e.extra_data@.len(), 6);
            assert(mid =~= start + h);
            if let Ok(xb) = encode_extra(
                map_get(delta_decoders.map(), entity_state_name()),
                e@.extra_data,
                0,
            ) {
                assert(bw.bits@ =~= start + (h + xb));
            }
        }
    }
    Ok(())
}

/// Codec of the spawn baseline message.
pub struct SpawnBaseline {}

impl SpawnBaseline {
    /// Reads a spawn baseline body from the start of `i`; gives the bytes it took.
    pub fn parse(i: &[u8], delta_decoders: &DeltaDecoderTable, max_players: u8) -> (r: Result<
        (SvcSpawnBaseline, usize),
        ErrorKind,
    >)
        requires
            i@.len() * 8 <= usize::MAX,
            delta_decoders.wf(),
        ensures
            match r {
                Ok((m, n)) => parse_spawn_baseline(i@, delta_decoders.map(), max_players) == Ok::<
                    _,
                    ErrorKind,
                >((m@, n as nat)) && n <= i@.len(),
                Err(e) => parse_spawn_baseline(i@, delta_decoders.map(), max_players) == Err::<
                    (Seq<EntityModel>, nat),
                    ErrorKind,
                >(e),
            },
    {
        let ghost t = delta_decoders.map();
        let mut br = BitReader::new(i, 0);
        let ghost s = br.bits();
        let mut entities: Vec<EntityS> = Vec::new();
        assert(entities_view(entities@) + parse_entities(t, max_players, s, 0)->Ok_0.0
            =~= parse_entities(t, max_players, s, 0)->Ok_0.0);
        loop
            invariant
                br.wf(),
                br.data@ == i@,
                s == br.bits(),
                t == delta_decoders.map(),
                delta_decoders.wf(),
                parse_entities(t, max_players, s, 0) == prefixed(
                    entities_view(entities@),
                    parse_entities(t, max_players, s, br.pos as int),
                ),
            decreases s.len() - br.pos,
        {
            let ghost here = br.pos as int;
            let index = match br.read_n_bit(11) {
                Ok(x) => x,
                Err(e) => {
                    return Err(e);
                },
            };
            if index == BASELINE_END {
                assert(entities_view(entities@) + seq![] =~= entities_view(entities@));
                let n = br.get_consumed_bytes();
                return Ok((SvcSpawnBaseline { entities }, n));
            }
            proof {
                vstd::arithmetic::power2::lemma2_to64();
            }
            let e = match read_entity_body(&mut br, delta_decoders, max_players, index) {
                Ok(e) => e,
                Err(e) => {
                    return Err(e);
                },
            };
            proof {
                lemma_parse_entity_body_bounds(t, max_players, index as nat, s, here + 11);
                crate::delta::lemma_prefixed_push(
                    entities_view(entities@),
                    e@,
                    parse_entities(t, max_players, s, br.pos as int),
                );
            }
            let ghost before = entities_view(entities@);
            entities.push(e);
            assert(entities_view(entities@) =~= before.push(e@));
        }
    }

    /// The message, type byte first: each entity, the sentinel, zero bits up to a whole byte.
    pub fn write(i: &SvcSpawnBaseline, delta_decoders: &DeltaDecoderTable, max_players: u8) -> (r:
        Result<Vec<u8>, ErrorKind>)
        requires
            delta_decoders.wf(),
        ensures
            match encode_spawn_baseline(i@, delta_decoders.map(), max_players) {
                Ok(bs) => r is Ok && r->Ok_0@ == bs,
                Err(e) => r == Err::<Vec<u8>, ErrorKind>(e),
            },
    {
        let ghost t = delta_decoders.map();
        let ghost es = i@;
        let mut bw = BitWriter::new();
        let mut k: usize = 0;
        assert(bw.bits@ + seq![] =~= bw.bits@);
        while k < i.entities.len()
            invariant
                t == delta_decoders.map(),
                delta_decoders.wf(),
                es == i@,
                es.len() == i.entities@.len(),
                k <= es.len(),
                bits_prefixed(seq![], encode_entities(t, max_players, es, 0)) == bits_prefixed(
                    bw.bits@,
                    encode_entities(t, max_players, es, k as int),
                ),
            decreases es.len() - k,
        {
            let ghost before = bw.bits@;
            match write_entity(&i.entities[k], delta_decoders, max_players, &mut bw) {
                Ok(_) => {},
                Err(e) => {
                    return Err(e);
                },
            }
            proof {
                if let Ok(b) = encode_entity(t, max_players, es[k as int]) {
                    if let Ok(rest) = encode_entities(t, max_players, es, k + 1) {
                        assert(before + (b + rest) =~= bw.bits@ + rest);
                    }
                }
            }
            k = k + 1;
        }
        bw.append_u32_range(BASELINE_END, 11);
        proof {
            if let Ok(all) = encode_entities(t, max_players, es, 0) {
                assert(seq![] + all =~= all);
            }
        }
        let packed = bw.get_u8_vec();
        let mut out: Vec<u8> = Vec::new();
        out.push(SVC_SPAWNBASELINE);
        crate::bytes::append_bytes(&mut out, packed.as_slice());
        Ok(out)
    }
}

} // verus!
