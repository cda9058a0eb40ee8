//! The client data message: the local player's `clientdata_t` delta and the
//! deltas of their weapons.
use vstd::prelude::*;

use crate::bits::{bits_of, pack_bits, take_bits, BitReader, BitWriter};
use crate::delta::{
    bits_prefixed, encode_delta_spec, parse_delta, parse_delta_spec, prefixed, write_delta, Delta,
    DeltaModel, DescriptorModel,
};
use crate::error::ErrorKind;
use crate::table::{
    clientdata_name, clientdata_name_bytes, map_get, weapon_data_name, weapon_data_name_bytes,
    DeltaDecoderTable,
};

verus! {

pub const SVC_CLIENTDATA: u8 = 15;

/// The delta of one weapon.
#[derive(Debug)]
pub struct ClientDataWeaponData {
    pub weapon_index: u8,
    pub weapon_data: Delta,
}

/// The body of a client data message.
#[derive(Debug)]
pub struct SvcClientData {
    pub delta_update_mask: Option<u8>,
    pub client_data: Delta,
    pub weapon_data: Vec<ClientDataWeaponData>,
}

pub struct ClientDataModel {
    pub delta_update_mask: Option<u8>,
    pub client_data: DeltaModel,
    pub weapon_data: Seq<(u8, DeltaModel)>,
}

pub open spec fn weapons_view(v: Seq<ClientDataWeaponData>) -> Seq<(u8, DeltaModel)> {
    v.map_values(|w: ClientDataWeaponData| (w.weapon_index, w.weapon_data@))
}

impl View for SvcClientData {
    type V = ClientDataModel;

    open spec fn view(&self) -> ClientDataModel {
        ClientDataModel {
            delta_update_mask: self.delta_update_mask,
            client_data: self.client_data@,
            weapon_data: weapons_view(self.weapon_data@),
        }
    }
}

/// What a client data message holds on a spectator-relay stream: nothing.
pub open spec fn empty_client_data() -> ClientDataModel {
    ClientDataModel { delta_update_mask: None, client_data: seq![], weapon_data: seq![] }
}

/// Weapon entries, each behind a set bit, up to a clear bit.
pub open spec fn parse_weapons(w: Option<Seq<DescriptorModel>>, s: Seq<bool>, pos: int) -> Result<
    (Seq<(u8, DeltaModel)>, int),
    ErrorKind,
>
    decreases s.len() - pos,
{
    match take_bits(s, pos, 1) {
        None => Err(ErrorKind::ShortRead),
        Some(b) => if b == 0 {
            Ok((seq![], pos + 1))
        } else {
            match take_bits(s, pos + 1, 6) {
                None => Err(ErrorKind::ShortRead),
                Some(index) => match w {
                    None => Err(ErrorKind::UnknownDdtKey),
                    Some(descs) => match parse_delta_spec(descs, s, pos + 7) {
                        Err(e) => Err(e),
                        Ok((d, p)) => {
                            proof {
                                crate::delta::lemma_parse_delta_bounds(descs, s, pos + 7);
                            }
                            prefixed(seq![(index as u8, d)], parse_weapons(w, s, p))
                        },
                    },
                },
            }
        },
    }
}

pub proof fn lemma_parse_weapons_bounds(w: Option<Seq<DescriptorModel>>, s: Seq<bool>, pos: int)
    ensures
        parse_weapons(w, s, pos) matches Ok((ws, p)) ==> pos < p <= s.len(),
    decreases s.len() - pos,
{
    if let Some(b) = take_bits(s, pos, 1) {
        if b != 0 {
            if let Some(descs) = w {
                crate::delta::lemma_parse_delta_bounds(descs, s, pos + 7);
                if let Ok((d, p)) = parse_delta_spec(descs, s, pos + 7) {
                    lemma_parse_weapons_bounds(w, s, p);
                }
            }
        }
    }
}

/// The body's bits: the update-mask flag and mask, the `clientdata_t` delta, the weapons.
pub open spec fn parse_client_data_bits(t: Map<Seq<u8>, Seq<DescriptorModel>>, s: Seq<bool>) -> Result<
    (ClientDataModel, int),
    ErrorKind,
> {
    match take_bits(s, 0, 1) {
        None => Err(ErrorKind::ShortRead),
        Some(h) => if h == 1 && take_bits(s, 1, 8) is None {
            Err(ErrorKind::ShortRead)
        } else {
            let mask: Option<u8> = if h == 1 {
                Some(take_bits(s, 1, 8)->Some_0 as u8)
            } else {
                None
            };
            let p0: int = if h == 1 {
                9
            } else {
                1
            };
            match map_get(t, clientdata_name()) {
                None => Err(ErrorKind::UnknownDdtKey),
                Some(cd) => match parse_delta_spec(cd, s, p0) {
                    Err(e) => Err(e),
                    Ok((d, p1)) => match parse_weapons(map_get(t, weapon_data_name()), s, p1) {
                        Err(e) => Err(e),
                        Ok((ws, p2)) => Ok(
                            (
                                ClientDataModel {
                                    delta_update_mask: mask,
                                    client_data: d,
                                    weapon_data: ws,
                                },
                                p2,
                            ),
                        ),
                    },
                },
            }
        },
    }
}

pub proof fn lemma_parse_client_data_bounds(
    b: Seq<u8>,
    t: Map<Seq<u8>, Seq<DescriptorModel>>,
    is_hltv: bool,
)
    ensures
        parse_client_data(b, t, is_hltv) matches Ok((m, n)) ==> n <= b.len(),
{
    let s = crate::bits::bytes_bits(b);
    if !is_hltv {
        if let Some(h) = take_bits(s, 0, 1) {
            let p0: int = if h == 1 {
                9
            } else {
                1
            };
            if let Some(cd) = map_get(t, clientdata_name()) {
                crate::delta::lemma_parse_delta_bounds(cd, s, p0);
                if let Ok((d, p1)) = parse_delta_spec(cd, s, p0) {
                    lemma_parse_weapons_bounds(map_get(t, weapon_data_name()), s, p1);
                    if let Ok((ws, p2)) = parse_weapons(map_get(t, weapon_data_name()), s, p1) {
                        assert(0 <= p2 <= 8 * b.len());
                        assert((p2 + 7) / 8 <= b.len());
                    }
                }
            }
        }
    }
}

/// A client data body and the bytes it takes; none on a spectator-relay stream.
pub open spec fn parse_client_data(
    b: Seq<u8>,
    t: Map<Seq<u8>, Seq<DescriptorModel>>,
    is_hltv: bool,
) -> Result<(ClientDataModel, nat), ErrorKind> {
    if is_hltv {
        Ok((empty_client_data(), 0))
    } else {
        match parse_client_data_bits(t, crate::bits::bytes_bits(b)) {
            Ok((m, p)) => Ok((m, ((p + 7) / 8) as nat)),
            Err(e) => Err(e),
        }
    }
}

/// The weapon entries from index `i` on, then the closing clear bit.
pub open spec fn encode_weapons(
    w: Option<Seq<DescriptorModel>>,
    ws: Seq<(u8, DeltaModel)>,
    i: int,
) -> Result<Seq<bool>, ErrorKind>
    decreases ws.len() - i,
{
    if i < 0 || i >= ws.len() {
        Ok(seq![false])
    } else if ws[i].0 >= 64 {
        Err(ErrorKind::EncodeOverflow)
    } else {
        match w {
            None => Err(ErrorKind::UnknownDdtKey),
            Some(descs) => match encode_delta_spec(descs, ws[i].1) {
                Err(e) => Err(e),
                Ok(db) => bits_prefixed(
                    seq![true] + bits_of(ws[i].0 as nat, 6) + db,
                    encode_weapons(w, ws, i + 1),
                ),
            },
        }
    }
}

pub open spec fn client_data_bits(m: ClientDataModel, t: Map<Seq<u8>, Seq<DescriptorModel>>) -> Result<
    Seq<bool>,
    ErrorKind,
> {
    let head = match m.delta_update_mask {
        Some(x) => seq![true] + bits_of(x as nat, 8),
        None => seq![false],
    };
    match map_get(t, clientdata_name()) {
        None => Err(ErrorKind::UnknownDdtKey),
        Some(cd) => match encode_delta_spec(cd, m.client_data) {
            Err(e) => Err(e),
            Ok(db) => bits_prefixed(
                head + db,
                encode_weapons(map_get(t, weapon_data_name()), m.weapon_data, 0),
            ),
        },
    }
}

/// The whole message, type byte first; only the type byte on a spectator-relay stream.
pub open spec fn encode_client_data(
    m: ClientDataModel,
    t: Map<Seq<u8>, Seq<DescriptorModel>>,
    is_hltv: bool,
) -> Result<Seq<u8>, ErrorKind> {
    if is_hltv {
        Ok(seq![SVC_CLIENTDATA])
    } else {
        match client_data_bits(m, t) {
            Ok(bits) => Ok(seq![SVC_CLIENTDATA] + pack_bits(bits)),
            Err(e) => Err(e),
        }
    }
}

fn read_weapons(br: &mut BitReader, delta_decoders: &DeltaDecoderTable) -> (r: Result<
    Vec<ClientDataWeaponData>,
    ErrorKind,
>)
    requires
        old(br).wf(),
        delta_decoders.wf(),
    ensures
        final(br).wf(),
        final(br).data@ == old(br).data@,
        match r {
            Ok(ws) => parse_weapons(
                map_get(delta_decoders.map(), weapon_data_name()),
                old(br).bits(),
                old(br).pos as int,
            ) == Ok::<_, ErrorKind>((weapons_view(ws@), final(br).pos as int)),
            Err(e) => parse_weapons(
                map_get(delta_decoders.map(), weapon_data_name()),
                old(br).bits(),
                old(br).pos as int,
            ) == Err::<(Seq<(u8, DeltaModel)>, int), ErrorKind>(e),
        },
{
    let ghost t = delta_decoders.map();
    let ghost s = br.bits();
    let ghost p1 = br.pos as int;
    let ghost w = map_get(t, weapon_data_name());
    let wd_name = weapon_data_name_bytes();
    let mut weapon_data: Vec<ClientDataWeaponData> = Vec::new();
    assert(weapons_view(weapon_data@) + parse_weapons(w, s, p1)->Ok_0.0 =~= parse_weapons(
        w,
        s,
        p1,
    )->Ok_0.0);
    loop
        invariant
            br.wf(),
            br.data@ == old(br).data@,
            s == br.bits(),
            p1 == old(br).pos,
            wd_name@ == weapon_data_name(),
            w == map_get(t, weapon_data_name()),
            t == delta_decoders.map(),
            delta_decoders.wf(),
            parse_weapons(w, s, p1) == prefixed(
                weapons_view(weapon_data@),
                parse_weapons(w, s, br.pos as int),
            ),
        decreases s.len() - br.pos,
    {
        let ghost here = br.pos as int;
        let more = match br.read_1_bit() {
            Ok(b) => b,
            Err(e) => {
                return Err(e);
            },
        };
        proof {
            crate::bits::lemma_take_one(s, here);
        }
        if !more {
            assert(weapons_view(weapon_data@) + seq![] =~= weapons_view(weapon_data@));
            return Ok(weapon_data);
        }
        let weapon_index = match br.read_n_bit(6) {
            Ok(x) => {
                proof {
                    vstd::arithmetic::power2::lemma2_to64();
                }
                x as u8
            },
            Err(e) => {
                return Err(e);
            },
        };
        let wd = match delta_decoders.get(wd_name.as_slice()) {
            Some(f) => f,
            None => {
                return Err(ErrorKind::UnknownDdtKey);
            },
        };
        let ghost dstart = br.pos as int;
        let d = match parse_delta(wd, br) {
            Ok(d) => d,
            Err(e) => {
                return Err(e);
            },
        };
        proof {
            crate::delta::lemma_parse_delta_bounds(crate::delta::descs_view(wd@), s, dstart);
        }
        let entry = ClientDataWeaponData { weapon_index, weapon_data: d };
        proof {
            crate::delta::lemma_prefixed_push(
                weapons_view(weapon_data@),
                (entry.weapon_index, entry.weapon_data@),
                parse_weapons(w, s, br.pos as int),
            );
        }
        let ghost before = weapons_view(weapon_data@);
        weapon_data.push(entry);
        assert(weapons_view(weapon_data@) =~= before.push(
            (entry.weapon_index, entry.weapon_data@),
        ));
    }
}

/// Codec of the client data message.
pub struct ClientData {}

impl ClientData {
    /// Reads a client data body from the start of `i`; gives the bytes it took.
    pub fn parse(i: &[u8], delta_decoders: &DeltaDecoderTable, is_hltv: bool) -> (r: Result<
        (SvcClientData, usize),
        ErrorKind,
    >)
        requires
            i@.len() * 8 <= usize::MAX,
            delta_decoders.wf(),
        ensures
            match r {
                Ok((m, n)) => parse_client_data(i@, delta_decoders.map(), is_hltv) == Ok::<
                    _,
                    ErrorKind,
                >((m@, n as nat)) && n <= i@.len(),
                Err(e) => parse_client_data(i@, delta_decoders.map(), is_hltv) == Err::<
                    (ClientDataModel, nat),
                    ErrorKind,
                >(e),
            },
    {
        if is_hltv {
            let m = SvcClientData {
                delta_update_mask: None,
                client_data: Delta { entries: Vec::new() },
                weapon_data: Vec::new(),
            };
            assert(m@.client_data =~= seq![]);
            assert(m@.weapon_data =~= seq![]);
            return Ok((m, 0));
        }
        let ghost t = delta_decoders.map();
        let mut br = BitReader::new(i, 0);
        let ghost s = br.bits();
        let has_mask = match br.read_1_bit() {
            Ok(b) => b,
            Err(e) => {
                return Err(e);
            },
        };
        proof {
            crate::bits::lemma_take_one(s, 0);
        }
        let delta_update_mask = if has_mask {
            match br.read_n_bit(8) {
                Ok(x) => {
                    proof {
                        vstd::arithmetic::power2::lemma2_to64();
                    }
                    Some(x as u8)
                },
                Err(e) => {
                    return Err(e);
                },
            }
        } else {
            None
        };
        let cd_name = clientdata_name_bytes();
        let cd = match delta_decoders.get(cd_name.as_slice()) {
            Some(f) => f,
            None => {
                return Err(ErrorKind::UnknownDdtKey);
            },
        };
        let client_data = match parse_delta(cd, &mut br) {
            Ok(d) => d,
            Err(e) => {
                return Err(e);
            },
        };
        let ghost p1 = br.pos as int;
        let weapon_data = match read_weapons(&mut br, delta_decoders) {
            Ok(ws) => ws,
            Err(e) => {
                return Err(e);
            },
        };
        let n = br.get_consumed_bytes();
        Ok((SvcClientData { delta_update_mask, client_data, weapon_data }, n))
    }

    /// The message, type byte first.
    pub fn write(i: &SvcClientData, delta_decoders: &DeltaDecoderTable, is_hltv: bool) -> (r:
        Result<Vec<u8>, ErrorKind>)
        requires
            delta_decoders.wf(),
        ensures
            match encode_client_data(i@, delta_decoders.map(), is_hltv) {
                Ok(bs) => r is Ok && r->Ok_0@ == bs,
                Err(e) => r == Err::<Vec<u8>, ErrorKind>(e),
            },
    {
        let mut out: Vec<u8> = Vec::new();
        out.push(SVC_CLIENTDATA);
        if is_hltv {
            return Ok(out);
        }
        let ghost t = delta_decoders.map();
        let mut bw = BitWriter::new();
        match i.delta_update_mask {
            Some(x) => {
                bw.append_bit(true);
                bw.append_u32_range(x as u32, 8);
            },
            None => {
                bw.append_bit(false);
            },
        }
        let ghost head = bw.bits@;
        assert(head =~= match i.delta_update_mask {
            Some(x) => seq![true] + bits_of(x as nat, 8),
            None => seq![false],
        });
        let cd_name = clientdata_name_bytes();
        let cd = match delta_decoders.get(cd_name.as_slice()) {
            Some(f) => f,
            None => {
                return Err(ErrorKind::UnknownDdtKey);
            },
        };
        match write_delta(&i.client_data, cd, &mut bw) {
            Ok(_) => {},
            Err(e) => {
                return Err(e);
            },
        }
        let ghost w = map_get(t, weapon_data_name());
        let ghost ws = i@.weapon_data;
        let ghost after_cd = bw.bits@;
        let wd_name = weapon_data_name_bytes();
        assert(client_data_bits(i@, t) == bits_prefixed(after_cd, encode_weapons(w, ws, 0)));
        let mut k: usize = 0;
        while k < i.weapon_data.len()
            invariant
                wd_name@ == weapon_data_name(),
                w == map_get(t, weapon_data_name()),
                t == delta_decoders.map(),
                delta_decoders.wf(),
                ws == i@.weapon_data,
                ws.len() == i.weapon_data@.len(),
                !is_hltv,
                client_data_bits(i@, t) == bits_prefixed(after_cd, encode_weapons(w, ws, 0)),
                k <= ws.len(),
                bits_prefixed(after_cd, encode_weapons(w, ws, 0)) == bits_prefixed(
                    bw.bits@,
                    encode_weapons(w, ws, k as int),
                ),
            decreases ws.len() - k,
        {
            let entry = &i.weapon_data[k];
            if entry.weapon_index >= 64 {
                return Err(ErrorKind::EncodeOverflow);
            }
            let wd = match delta_decoders.get(wd_name.as_slice()) {
                Some(f) => f,
                None => {
                    return Err(ErrorKind::UnknownDdtKey);
                },
            };
            let ghost before = bw.bits@;
            bw.append_bit(true);
            bw.append_u32_range(entry.weapon_index as u32, 6);
            match write_delta(&entry.weapon_data, wd, &mut bw) {
                Ok(_) => {},
                Err(e) => {
                    return Err(e);
                },
            }
            proof {
                if let Ok(db) = encode_delta_spec(w->Some_0, ws[k as int].1) {
                    let h = seq![true] + bits_of(entry.weapon_index as nat, 6) + db;
                    assert(bw.bits@ =~= before + h);
                    if let Ok(rest) = encode_weapons(w, ws, k + 1) {
                        assert(before + (h + rest) =~= bw.bits@ + rest);
                    }
                }
            }
            k = k + 1;
        }
        bw.append_bit(false);
        proof {
            if let Ok(db) = encode_delta_spec(map_get(t, clientdata_name())->Some_0, i@.client_data) {
                assert(after_cd =~= head + db);
                if let Ok(wb) = encode_weapons(w, ws, 0) {
                    assert(bw.bits@ =~= (head + db) + wb);
                }
            }
        }
        let packed = bw.get_u8_vec();
        crate::bytes::append_bytes(&mut out, packed.as_slice());
        Ok(out)
    }
}

} // verus!
