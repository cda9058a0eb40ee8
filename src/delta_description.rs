//! The delta description message, which teaches the decoder table a new
//! descriptor list; each descriptor is itself sent as a delta.
use vstd::prelude::*;
use vstd::slice::{slice_subrange, slice_to_vec};

use crate::bits::{bytes_bits, pack_bits, BitReader, BitWriter};
use crate::bytes::{append_bytes, append_u16, parse_cstr, read_cstr, u16_at, u16_bytes};
use crate::delta::{
    bits_prefixed, has_nul, lookup, parse_delta, parse_delta_spec, prefixed, write_delta, Delta,
    DeltaEntry, DeltaModel, DeltaValue, DescriptorModel, FieldDescriptor, ValueModel,
    encode_delta_spec, descs_view,
};
use crate::error::ErrorKind;
use crate::table::{
    delta_description_name, delta_description_name_bytes, field_name_name, field_name_name_bytes,
    field_offset_name, field_offset_name_bytes, field_size_name, field_size_name_bytes,
    field_type_name, field_type_name_bytes, map_get, postmultiply_name, postmultiply_name_bytes,
    premultiply_name, premultiply_name_bytes, significant_bits_name, significant_bits_name_bytes,
    DeltaDecoderTable,
};

verus! {

pub const SVC_DELTADESCRIPTION: u8 = 14;

/// The body of a delta description: the structure's name, with its NUL, and its descriptors.
#[derive(Debug)]
pub struct SvcDeltaDescription {
    pub name: Vec<u8>,
    pub fields: Vec<FieldDescriptor>,
}

pub struct DeltaDescriptionModel {
    pub name: Seq<u8>,
    pub fields: Seq<DescriptorModel>,
}

impl View for SvcDeltaDescription {
    type V = DeltaDescriptionModel;

    open spec fn view(&self) -> DeltaDescriptionModel {
        DeltaDescriptionModel { name: self.name@, fields: descs_view(self.fields@) }
    }
}

/// The unsigned number under `k`; 0 when there is none.
pub open spec fn uint_of(d: DeltaModel, k: Seq<u8>) -> u32 {
    match lookup(d, k) {
        Some(ValueModel::Unsigned(x)) => x,
        _ => 0,
    }
}

/// The text under `k`; empty when there is none.
pub open spec fn text_of(d: DeltaModel, k: Seq<u8>) -> Seq<u8> {
    match lookup(d, k) {
        Some(ValueModel::Text(t)) => t,
        _ => seq![],
    }
}

/// The descriptor that a delta read with the descriptor list of descriptors stands for.
pub open spec fn descriptor_of(d: DeltaModel) -> DescriptorModel {
    DescriptorModel {
        name: text_of(d, field_name_name()).push(0),
        flags: uint_of(d, field_type_name()),
        offset: uint_of(d, field_offset_name()),
        size: uint_of(d, field_size_name()),
        bits: uint_of(d, significant_bits_name()),
        premultiply: uint_of(d, premultiply_name()),
        postmultiply: uint_of(d, postmultiply_name()),
    }
}

/// The delta that a descriptor is sent as.
pub open spec fn delta_of(d: DescriptorModel) -> DeltaModel {
    seq![
        (field_type_name(), ValueModel::Unsigned(d.flags)),
        (field_name_name(), ValueModel::Text(d.name.drop_last())),
        (field_offset_name(), ValueModel::Unsigned(d.offset)),
        (field_size_name(), ValueModel::Unsigned(d.size)),
        (significant_bits_name(), ValueModel::Unsigned(d.bits)),
        (premultiply_name(), ValueModel::Unsigned(d.premultiply)),
        (postmultiply_name(), ValueModel::Unsigned(d.postmultiply)),
    ]
}

/// Whether a name ends in its only NUL.
pub open spec fn name_ok(n: Seq<u8>) -> bool {
    n.len() >= 1 && n.last() == 0 && !has_nul(n.drop_last())
}

/// `n` descriptors, each a delta read with `m`.
pub open spec fn parse_descriptors(m: Seq<DescriptorModel>, s: Seq<bool>, pos: int, n: nat) -> Result<
    (Seq<DescriptorModel>, int),
    ErrorKind,
>
    decreases n,
{
    if n == 0 {
        Ok((seq![], pos))
    } else {
        match parse_delta_spec(m, s, pos) {
            Err(e) => Err(e),
            Ok((d, p)) => prefixed(seq![descriptor_of(d)], parse_descriptors(m, s, p, (n - 1) as nat)),
        }
    }
}

pub proof fn lemma_parse_descriptors_bounds(m: Seq<DescriptorModel>, s: Seq<bool>, pos: int, n: nat)
    requires
        0 <= pos <= s.len(),
    ensures
        parse_descriptors(m, s, pos, n) matches Ok((fs, p)) ==> pos <= p <= s.len(),
    decreases n,
{
    if n > 0 {
        crate::delta::lemma_parse_delta_bounds(m, s, pos);
        if let Ok((d, p)) = parse_delta_spec(m, s, pos) {
            lemma_parse_descriptors_bounds(m, s, p, (n - 1) as nat);
        }
    }
}

/// A delta description body and the bytes it takes: the name, a 16-bit count,
/// then that many descriptor deltas in a bit stream.
pub open spec fn parse_delta_description(b: Seq<u8>, t: Map<Seq<u8>, Seq<DescriptorModel>>) -> Result<
    (DeltaDescriptionModel, nat),
    ErrorKind,
> {
    match parse_cstr(b, 0) {
        Err(e) => Err(e),
        Ok((nm, p1)) => if p1 + 2 > b.len() {
            Err(ErrorKind::ShortRead)
        } else {
            match map_get(t, delta_description_name()) {
                None => Err(ErrorKind::UnknownDdtKey),
                Some(m) => match parse_descriptors(
                    m,
                    bytes_bits(b),
                    8 * (p1 + 2),
                    u16_at(b, p1) as nat,
                ) {
                    Err(e) => Err(e),
                    Ok((fs, p)) => Ok(
                        (DeltaDescriptionModel { name: nm.push(0), fields: fs }, ((p + 7) / 8) as nat),
                    ),
                },
            }
        },
    }
}

/// The descriptors from index `i` on, each as a delta written with `m`.
pub open spec fn encode_descriptors(m: Seq<DescriptorModel>, fs: Seq<DescriptorModel>, i: int) -> Result<
    Seq<bool>,
    ErrorKind,
>
    decreases fs.len() - i,
{
    if i < 0 || i >= fs.len() {
        Ok(seq![])
    } else if !name_ok(fs[i].name) {
        Err(ErrorKind::ValueMismatch)
    } else {
        match encode_delta_spec(m, delta_of(fs[i])) {
            Err(e) => Err(e),
            Ok(db) => bits_prefixed(db, encode_descriptors(m, fs, i + 1)),
        }
    }
}

/// The whole message, type byte first.
pub open spec fn encode_delta_description(
    dm: DeltaDescriptionModel,
    t: Map<Seq<u8>, Seq<DescriptorModel>>,
) -> Result<Seq<u8>, ErrorKind> {
    if !name_ok(dm.name) {
        Err(ErrorKind::ValueMismatch)
    } else if dm.fields.len() > 65535 {
        Err(ErrorKind::EncodeOverflow)
    } else {
        match map_get(t, delta_description_name()) {
            None => Err(ErrorKind::UnknownDdtKey),
            Some(m) => match encode_descriptors(m, dm.fields, 0) {
                Err(e) => Err(e),
                Ok(bits) => Ok(
                    seq![SVC_DELTADESCRIPTION] + dm.name + u16_bytes(dm.fields.len() as u16)
                        + pack_bits(bits),
                ),
            },
        }
    }
}

fn uint_value(d: &Delta, k: &[u8]) -> (r: u32)
    ensures
        r == uint_of(d@, k@),
{
    match d.position(k) {
        Some(i) => match &d.entries[i].value {
            DeltaValue::Unsigned(x) => *x,
            _ => 0,
        },
        None => 0,
    }
}

fn text_value(d: &Delta, k: &[u8]) -> (r: Vec<u8>)
    ensures
        r@ == text_of(d@, k@),
{
    match d.position(k) {
        Some(i) => match &d.entries[i].value {
            DeltaValue::Text(t) => slice_to_vec(t.as_slice()),
            _ => Vec::new(),
        },
        None => Vec::new(),
    }
}

/// The descriptor that a delta stands for.
pub fn descriptor_from_delta(d: &Delta) -> (r: FieldDescriptor)
    ensures
        r@ == descriptor_of(d@),
{
    let mut name = text_value(d, field_name_name_bytes().as_slice());
    name.push(0);
    FieldDescriptor {
        name,
        flags: uint_value(d, field_type_name_bytes().as_slice()),
        offset: uint_value(d, field_offset_name_bytes().as_slice()),
        size: uint_value(d, field_size_name_bytes().as_slice()),
        bits: uint_value(d, significant_bits_name_bytes().as_slice()),
        premultiply: uint_value(d, premultiply_name_bytes().as_slice()),
        postmultiply: uint_value(d, postmultiply_name_bytes().as_slice()),
    }
}

fn entry(name: Vec<u8>, value: DeltaValue) -> (r: DeltaEntry)
    ensures
        r.name@ == name@,
        r.value@ == value@,
{
    DeltaEntry { name, value }
}

/// The delta that a descriptor is sent as.
pub fn delta_from_descriptor(d: &FieldDescriptor) -> (r: Delta)
    requires
        d.name@.len() >= 1,
    ensures
        r@ == delta_of(d@),
{
    let text = slice_to_vec(slice_subrange(d.name.as_slice(), 0, d.name.len() - 1));
    let r = Delta {
        entries: vec![
            entry(field_type_name_bytes(), DeltaValue::Unsigned(d.flags)),
            entry(field_name_name_bytes(), DeltaValue::Text(text)),
            entry(field_offset_name_bytes(), DeltaValue::Unsigned(d.offset)),
            entry(field_size_name_bytes(), DeltaValue::Unsigned(d.size)),
            entry(significant_bits_name_bytes(), DeltaValue::Unsigned(d.bits)),
            entry(premultiply_name_bytes(), DeltaValue::Unsigned(d.premultiply)),
            entry(postmultiply_name_bytes(), DeltaValue::Unsigned(d.postmultiply)),
        ],
    };
    assert(text@ =~= d.name@.drop_last());
    assert(r@ =~= delta_of(d@));
    r
}

fn name_valid(n: &Vec<u8>) -> (r: bool)
    ensures
        r == name_ok(n@),
{
    if n.len() == 0 || n[n.len() - 1] != 0 {
        return false;
    }
    let mut i: usize = 0;
    while i < n.len() - 1
        invariant
            n@.len() >= 1,
            i <= n@.len() - 1,
            forall|k: int| 0 <= k < i ==> n@[k] != 0,
        decreases n@.len() - 1 - i,
    {
        if n[i] == 0 {
            assert(n@.drop_last()[i as int] == 0);
            return false;
        }
        i = i + 1;
    }
    assert(!has_nul(n@.drop_last()));
    true
}

/// Codec of the delta description message.
pub struct DeltaDescription {}

impl DeltaDescription {
    /// Reads a delta description body from the start of `i`; gives the bytes it took.
    pub fn parse(i: &[u8], delta_decoders: &DeltaDecoderTable) -> (r: Result<
        (SvcDeltaDescription, usize),
        ErrorKind,
    >)
        requires
            i@.len() * 8 <= usize::MAX,
            delta_decoders.wf(),
        ensures
            match r {
                Ok((m, n)) => parse_delta_description(i@, delta_decoders.map()) == Ok::<
                    _,
                    ErrorKind,
                >((m@, n as nat)) && n <= i@.len(),
                Err(e) => parse_delta_description(i@, delta_decoders.map()) == Err::<
                    (DeltaDescriptionModel, nat),
                    ErrorKind,
                >(e),
            },
    {
        let ghost t = delta_decoders.map();
        let (mut name, p1) = match read_cstr(i, 0) {
            Ok(x) => x,
            Err(e) => {
                return Err(e);
            },
        };
        if p1 > i.len() || i.len() - p1 < 2 {
            return Err(ErrorKind::ShortRead);
        }
        let total = i[p1] as u32 + 256 * i[p1 + 1] as u32;
        let meta_name = delta_description_name_bytes();
        let meta = match delta_decoders.get(meta_name.as_slice()) {
            Some(f) => f,
            None => {
                return Err(ErrorKind::UnknownDdtKey);
            },
        };
        let ghost m = descs_view(meta@);
        let mut br = BitReader::new(i, 8 * (p1 + 2));
        let ghost s = br.bits();
        let ghost start = br.pos as int;
        let ghost whole = parse_descriptors(m, s, start, total as nat);
        let ghost nm = name@;
        assert(parse_delta_description(i@, t) == match whole {
            Err(e) => Err(e),
            Ok((fs, p)) => Ok::<_, ErrorKind>(
                (DeltaDescriptionModel { name: nm.push(0), fields: fs }, ((p + 7) / 8) as nat),
            ),
        });
        let mut fields: Vec<FieldDescriptor> = Vec::new();
        let mut k: u32 = 0;
        assert(descs_view(fields@) + whole->Ok_0.0 =~= whole->Ok_0.0);
        while k < total
            invariant
                br.wf(),
                br.data@ == i@,
                s == br.bits(),
                m == descs_view(meta@),
                k <= total,
                whole == parse_descriptors(m, s, start, total as nat),
                t == delta_decoders.map(),
                parse_delta_description(i@, t) == match whole {
                    Err(e) => Err(e),
                    Ok((fs, p)) => Ok::<_, ErrorKind>(
                        (DeltaDescriptionModel { name: nm.push(0), fields: fs }, ((p + 7) / 8) as nat),
                    ),
                },
                whole == prefixed(
                    descs_view(fields@),
                    parse_descriptors(m, s, br.pos as int, (total - k) as nat),
                ),
            decreases total - k,
        {
            let d = match parse_delta(meta, &mut br) {
                Ok(d) => d,
                Err(e) => {
                    return Err(e);
                },
            };
            let f = descriptor_from_delta(&d);
            proof {
                crate::delta::lemma_prefixed_push(
                    descs_view(fields@),
                    f@,
                    parse_descriptors(m, s, br.pos as int, (total - k - 1) as nat),
                );
            }
            let ghost before = descs_view(fields@);
            fields.push(f);
            assert(descs_view(fields@) =~= before.push(f@));
            k = k + 1;
        }
        assert(descs_view(fields@) + seq![] =~= descs_view(fields@));
        name.push(0);
        let n = br.get_consumed_bytes();
        Ok((SvcDeltaDescription { name, fields }, n))
    }

    /// The message, type byte first.
    pub fn write(i: &SvcDeltaDescription, delta_decoders: &DeltaDecoderTable) -> (r: Result<
        Vec<u8>,
        ErrorKind,
    >)
        requires
            delta_decoders.wf(),
        ensures
            match encode_delta_description(i@, delta_decoders.map()) {
                Ok(bs) => r is Ok && r->Ok_0@ == bs,
                Err(e) => r == Err::<Vec<u8>, ErrorKind>(e),
            },
    {
        let ghost t = delta_decoders.map();
        if !name_valid(&i.name) {
            return Err(ErrorKind::ValueMismatch);
        }
        if i.fields.len() > 65535 {
            return Err(ErrorKind::EncodeOverflow);
        }
        let meta_name = delta_description_name_bytes();
        let meta = match delta_decoders.get(meta_name.as_slice()) {
            Some(f) => f,
            None => {
                return Err(ErrorKind::UnknownDdtKey);
            },
        };
        let ghost m = descs_view(meta@);
        let ghost fs = i@.fields;
        let ghost header = seq![SVC_DELTADESCRIPTION] + i@.name + u16_bytes(fs.len() as u16);
        assert(encode_delta_description(i@, t) == match encode_descriptors(m, fs, 0) {
            Err(e) => Err(e),
            Ok(bits) => Ok::<_, ErrorKind>(header + pack_bits(bits)),
        });
        let mut bw = BitWriter::new();
        let mut k: usize = 0;
        assert(bw.bits@ + seq![] =~= bw.bits@);
        while k < i.fields.len()
            invariant
                m == descs_view(meta@),
                fs == i@.fields,
                fs.len() == i.fields@.len(),
                k <= fs.len(),
                t == delta_decoders.map(),
                encode_delta_description(i@, t) == match encode_descriptors(m, fs, 0) {
                    Err(e) => Err(e),
                    Ok(bits) => Ok::<_, ErrorKind>(header + pack_bits(bits)),
                },
                bits_prefixed(seq![], encode_descriptors(m, fs, 0)) == bits_prefixed(
                    bw.bits@,
                    encode_descriptors(m, fs, k as int),
                ),
            decreases fs.len() - k,
        {
            if !name_valid(&i.fields[k].name) {
                return Err(ErrorKind::ValueMismatch);
            }
            let d = delta_from_descriptor(&i.fields[k]);
            let ghost before = bw.bits@;
            match write_delta(&d, meta, &mut bw) {
                Ok(_) => {},
                Err(e) => {
                    return Err(e);
                },
            }
            proof {
                if let Ok(db) = encode_delta_spec(m, delta_of(fs[k as int])) {
                    if let Ok(rest) = encode_descriptors(m, fs, k + 1) {
                        assert(before + (db + rest) =~= bw.bits@ + rest);
                    }
                }
            }
            k = k + 1;
        }
        proof {
            if let Ok(all) = encode_descriptors(m, fs, 0) {
                assert(seq![] + all =~= all);
            }
        }
        let packed = bw.get_u8_vec();
        let mut out: Vec<u8> = Vec::new();
        out.push(SVC_DELTADESCRIPTION);
        append_bytes(&mut out, i.name.as_slice());
        append_u16(&mut out, i.fields.len() as u16);
        append_bytes(&mut out, packed.as_slice());
        assert(out@ =~= seq![SVC_DELTADESCRIPTION] + i@.name + u16_bytes(fs.len() as u16)
            + packed@);
        Ok(out)
    }
}

} // verus!
