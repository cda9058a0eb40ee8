//! Field descriptors, delta values, the delta decoder table, and the codec that
//! reads and writes a delta against a descriptor list.
use vstd::arithmetic::power2::{lemma2_to64, lemma_pow2_pos, lemma_pow2_unfold, pow2};
use vstd::prelude::*;
use vstd::slice::slice_to_vec;

use crate::bits::{bits_of, bytes_bits, take_bits, BitReader, BitWriter};
use crate::error::ErrorKind;

verus! {

pub const FLAG_BYTE: u32 = 1;

pub const FLAG_SHORT: u32 = 2;

pub const FLAG_FLOAT: u32 = 4;

pub const FLAG_INTEGER: u32 = 8;

pub const FLAG_ANGLE: u32 = 16;

pub const FLAG_TIMEWINDOW_8: u32 = 32;

pub const FLAG_TIMEWINDOW_BIG: u32 = 64;

pub const FLAG_STRING: u32 = 128;

pub const FLAG_SIGNED: u32 = 0x8000_0000;

/// The value kind that a descriptor's flags select.
#[derive(Clone, Copy, Debug, PartialEq, Eq, Structural)]
pub enum FieldKind {
    Byte,
    Short,
    Float,
    Integer,
    Angle,
    TimeWindow8,
    TimeWindowBig,
    Text,
}

/// The kind named by `flags` once the sign flag is set aside; none for any other flag set.
pub open spec fn kind_of(flags: u32) -> Option<FieldKind> {
    let base = flags % FLAG_SIGNED;
    if base == FLAG_BYTE {
        Some(FieldKind::Byte)
    } else if base == FLAG_SHORT {
        Some(FieldKind::Short)
    } else if base == FLAG_FLOAT {
        Some(FieldKind::Float)
    } else if base == FLAG_INTEGER {
        Some(FieldKind::Integer)
    } else if base == FLAG_ANGLE {
        Some(FieldKind::Angle)
    } else if base == FLAG_TIMEWINDOW_8 {
        Some(FieldKind::TimeWindow8)
    } else if base == FLAG_TIMEWINDOW_BIG {
        Some(FieldKind::TimeWindowBig)
    } else if base == FLAG_STRING {
        Some(FieldKind::Text)
    } else {
        None
    }
}

pub open spec fn is_signed(flags: u32) -> bool {
    flags >= FLAG_SIGNED
}

/// One field of a delta structure. Fixed-point quantities (`premultiply`,
/// `postmultiply`) are kept as their wire integers, in units of 1/4000.
#[derive(Debug)]
pub struct FieldDescriptor {
    pub name: Vec<u8>,
    pub flags: u32,
    pub offset: u32,
    pub size: u32,
    pub bits: u32,
    pub premultiply: u32,
    pub postmultiply: u32,
}

pub struct DescriptorModel {
    pub name: Seq<u8>,
    pub flags: u32,
    pub offset: u32,
    pub size: u32,
    pub bits: u32,
    pub premultiply: u32,
    pub postmultiply: u32,
}

impl View for FieldDescriptor {
    type V = DescriptorModel;

    open spec fn view(&self) -> DescriptorModel {
        DescriptorModel {
            name: self.name@,
            flags: self.flags,
            offset: self.offset,
            size: self.size,
            bits: self.bits,
            premultiply: self.premultiply,
            postmultiply: self.postmultiply,
        }
    }
}

pub open spec fn descs_view(v: Seq<FieldDescriptor>) -> Seq<DescriptorModel> {
    v.map_values(|d: FieldDescriptor| d@)
}

/// Whether a descriptor can be read or written: known flags, and for a number
/// read at its own width, a width in 1..=32.
pub open spec fn descriptor_ok(d: DescriptorModel) -> bool {
    match kind_of(d.flags) {
        None => false,
        Some(FieldKind::Text) => true,
        Some(FieldKind::TimeWindow8) => true,
        Some(_) => 1 <= d.bits <= 32,
    }
}

/// The number of bits a numeric field takes on the wire.
pub open spec fn field_width(d: DescriptorModel) -> nat {
    if kind_of(d.flags) == Some(FieldKind::TimeWindow8) {
        8
    } else {
        d.bits as nat
    }
}

/// A value held by a delta. Numbers are the integers that stand on the wire:
/// fixed-point kinds (float, angle, time window) keep their quantized form.
#[derive(Debug)]
pub enum DeltaValue {
    Unsigned(u32),
    Signed(i32),
    Text(Vec<u8>),
}

pub enum ValueModel {
    Unsigned(u32),
    Signed(i32),
    Text(Seq<u8>),
}

impl View for DeltaValue {
    type V = ValueModel;

    open spec fn view(&self) -> ValueModel {
        match self {
            DeltaValue::Unsigned(v) => ValueModel::Unsigned(*v),
            DeltaValue::Signed(v) => ValueModel::Signed(*v),
            DeltaValue::Text(t) => ValueModel::Text(t@),
        }
    }
}

impl DeltaValue {
    pub fn copy(&self) -> (r: Self)
        ensures
            r@ == self@,
    {
        match self {
            DeltaValue::Unsigned(v) => DeltaValue::Unsigned(*v),
            DeltaValue::Signed(v) => DeltaValue::Signed(*v),
            DeltaValue::Text(t) => DeltaValue::Text(slice_to_vec(t.as_slice())),
        }
    }
}

/// One named value of a delta.
#[derive(Debug)]
pub struct DeltaEntry {
    pub name: Vec<u8>,
    pub value: DeltaValue,
}

/// A sparse record from field name to value.
#[derive(Debug)]
pub struct Delta {
    pub entries: Vec<DeltaEntry>,
}

pub type DeltaModel = Seq<(Seq<u8>, ValueModel)>;

impl View for Delta {
    type V = DeltaModel;

    open spec fn view(&self) -> DeltaModel {
        self.entries@.map_values(|e: DeltaEntry| (e.name@, e.value@))
    }
}

/// The value under `name`, the first one where a name repeats.
pub open spec fn lookup(d: DeltaModel, name: Seq<u8>) -> Option<ValueModel>
    decreases d.len(),
{
    if d.len() == 0 {
        None
    } else if d[0].0 == name {
        Some(d[0].1)
    } else {
        lookup(d.drop_first(), name)
    }
}

/// `acc` put in front of what `r` produced.
pub open spec fn prefixed<T>(acc: Seq<T>, r: Result<(Seq<T>, int), ErrorKind>) -> Result<
    (Seq<T>, int),
    ErrorKind,
> {
    match r {
        Ok((t, p)) => Ok((acc + t, p)),
        Err(e) => Err(e),
    }
}

pub proof fn lemma_prefixed_push<T>(acc: Seq<T>, x: T, r: Result<(Seq<T>, int), ErrorKind>)
    ensures
        prefixed(acc, prefixed(seq![x], r)) == prefixed(acc.push(x), r),
{
    if let Ok((t, p)) = r {
        assert(acc + (seq![x] + t) =~= acc.push(x) + t);
    }
}

/// A NUL-terminated byte string read 8 bits at a time; the NUL is not kept.
pub open spec fn parse_text(s: Seq<bool>, pos: int) -> Result<(Seq<u8>, int), ErrorKind>
    decreases s.len() - pos,
{
    match take_bits(s, pos, 8) {
        None => Err(ErrorKind::ShortRead),
        Some(c) => if c == 0 {
            Ok((seq![], pos + 8))
        } else {
            prefixed(seq![c as u8], parse_text(s, pos + 8))
        },
    }
}

/// A `w`-bit pattern read as a two's-complement number.
pub open spec fn signed_value(raw: nat, w: nat) -> int {
    if w > 0 && raw >= pow2((w - 1) as nat) {
        raw - pow2(w)
    } else {
        raw as int
    }
}

pub open spec fn number_value(d: DescriptorModel, raw: nat) -> ValueModel {
    if is_signed(d.flags) {
        ValueModel::Signed(signed_value(raw, field_width(d)) as i32)
    } else {
        ValueModel::Unsigned(raw as u32)
    }
}

/// One field as its descriptor says to read it.
pub open spec fn parse_field(d: DescriptorModel, s: Seq<bool>, pos: int) -> Result<
    (ValueModel, int),
    ErrorKind,
> {
    if !descriptor_ok(d) {
        Err(ErrorKind::BadDescriptor)
    } else if kind_of(d.flags) == Some(FieldKind::Text) {
        match parse_text(s, pos) {
            Ok((t, p)) => Ok((ValueModel::Text(t), p)),
            Err(e) => Err(e),
        }
    } else {
        match take_bits(s, pos, field_width(d)) {
            None => Err(ErrorKind::ShortRead),
            Some(raw) => Ok((number_value(d, raw), pos + field_width(d))),
        }
    }
}

/// The fields from index `i` on, each read where `present` marks it.
pub open spec fn parse_fields(
    descs: Seq<DescriptorModel>,
    present: Seq<bool>,
    s: Seq<bool>,
    pos: int,
    i: int,
) -> Result<(DeltaModel, int), ErrorKind>
    decreases descs.len() - i,
{
    if i >= descs.len() || i < 0 {
        Ok((seq![], pos))
    } else if !present[i] {
        parse_fields(descs, present, s, pos, i + 1)
    } else {
        match parse_field(descs[i], s, pos) {
            Err(e) => Err(e),
            Ok((v, p)) => prefixed(seq![(descs[i].name, v)], parse_fields(descs, present, s, p, i + 1)),
        }
    }
}

/// Which of `n` descriptors a change mask selects: all of them without a mask.
pub open spec fn mask_presence(n: nat, has_mask: bool, mask: Seq<bool>) -> Seq<bool> {
    Seq::new(n, |i: int| !has_mask || (i < mask.len() && mask[i]))
}

/// A delta: a has-mask bit, then a 3-bit byte count and that many mask bytes,
/// then each selected field in descriptor order.
#[verifier::opaque]
pub open spec fn parse_delta_spec(descs: Seq<DescriptorModel>, s: Seq<bool>, pos: int) -> Result<
    (DeltaModel, int),
    ErrorKind,
> {
    match take_bits(s, pos, 1) {
        None => Err(ErrorKind::ShortRead),
        Some(h) => if h == 1 {
            match take_bits(s, pos + 1, 3) {
                None => Err(ErrorKind::ShortRead),
                Some(c) => if pos + 4 + 8 * c > s.len() {
                    Err(ErrorKind::ShortRead)
                } else {
                    parse_fields(
                        descs,
                        mask_presence(descs.len(), true, s.subrange(pos + 4, pos + 4 + 8 * c)),
                        s,
                        pos + 4 + 8 * c,
                        0,
                    )
                },
            }
        } else {
            parse_fields(descs, mask_presence(descs.len(), false, seq![]), s, pos + 1, 0)
        },
    }
}


pub proof fn lemma_parse_text_bounds(s: Seq<bool>, pos: int)
    ensures
        parse_text(s, pos) matches Ok((t, p)) ==> 0 <= pos && pos + 8 <= p <= s.len(),
    decreases s.len() - pos,
{
    if let Some(c) = take_bits(s, pos, 8) {
        if c != 0 {
            lemma_parse_text_bounds(s, pos + 8);
        }
    }
}

pub proof fn lemma_parse_fields_bounds(
    descs: Seq<DescriptorModel>,
    present: Seq<bool>,
    s: Seq<bool>,
    pos: int,
    i: int,
)
    requires
        0 <= pos <= s.len(),
    ensures
        parse_fields(descs, present, s, pos, i) matches Ok((d, p)) ==> pos <= p <= s.len(),
    decreases descs.len() - i,
{
    if 0 <= i < descs.len() {
        if !present[i] {
            lemma_parse_fields_bounds(descs, present, s, pos, i + 1);
        } else if let Ok((v, p)) = parse_field(descs[i], s, pos) {
            if kind_of(descs[i].flags) == Some(FieldKind::Text) {
                lemma_parse_text_bounds(s, pos);
            }
            lemma_parse_fields_bounds(descs, present, s, p, i + 1);
        }
    }
}

/// A delta takes at least its has-mask bit, and no more than the stream holds.
pub proof fn lemma_parse_delta_bounds(descs: Seq<DescriptorModel>, s: Seq<bool>, pos: int)
    ensures
        parse_delta_spec(descs, s, pos) matches Ok((d, p)) ==> 0 <= pos < p <= s.len(),
{
    reveal(parse_delta_spec);
    if let Some(h) = take_bits(s, pos, 1) {
        if h == 1 {
            if let Some(c) = take_bits(s, pos + 1, 3) {
                if pos + 4 + 8 * c <= s.len() {
                    let m = mask_presence(descs.len(), true, s.subrange(pos + 4, pos + 4 + 8 * c));
                    lemma_parse_fields_bounds(descs, m, s, pos + 4 + 8 * c, 0);
                }
            }
        } else {
            lemma_parse_fields_bounds(
                descs,
                mask_presence(descs.len(), false, seq![]),
                s,
                pos + 1,
                0,
            );
        }
    }
}

pub fn kind(flags: u32) -> (r: Option<FieldKind>)
    ensures
        r == kind_of(flags),
{
    let base = flags % FLAG_SIGNED;
    if base == FLAG_BYTE {
        Some(FieldKind::Byte)
    } else if base == FLAG_SHORT {
        Some(FieldKind::Short)
    } else if base == FLAG_FLOAT {
        Some(FieldKind::Float)
    } else if base == FLAG_INTEGER {
        Some(FieldKind::Integer)
    } else if base == FLAG_ANGLE {
        Some(FieldKind::Angle)
    } else if base == FLAG_TIMEWINDOW_8 {
        Some(FieldKind::TimeWindow8)
    } else if base == FLAG_TIMEWINDOW_BIG {
        Some(FieldKind::TimeWindowBig)
    } else if base == FLAG_STRING {
        Some(FieldKind::Text)
    } else {
        None
    }
}

/// 2 to the power `w`.
pub fn pow2_u64(w: u32) -> (r: u64)
    requires
        w <= 32,
    ensures
        r == pow2(w as nat),
{
    let mut r: u64 = 1;
    let mut k: u32 = 0;
    proof {
        lemma2_to64();
    }
    while k < w
        invariant
            k <= w <= 32,
            r == pow2(k as nat),
        decreases w - k,
    {
        proof {
            lemma_pow2_unfold((k + 1) as nat);
            vstd::arithmetic::power2::lemma_pow2_strictly_increases((k + 1) as nat, 33);
            lemma2_to64();
        }
        r = r * 2;
        k = k + 1;
    }
    r
}

fn read_text(br: &mut BitReader) -> (r: Result<Vec<u8>, ErrorKind>)
    requires
        old(br).wf(),
    ensures
        final(br).wf(),
        final(br).data@ == old(br).data@,
        match r {
            Ok(t) => parse_text(old(br).bits(), old(br).pos as int) == Ok::<_, ErrorKind>((t@, final(br).pos as int)),
            Err(e) => parse_text(old(br).bits(), old(br).pos as int) == Err::<(Seq<u8>, int), ErrorKind>(e),
        },
{
    let ghost s = br.bits();
    let ghost p0 = br.pos as int;
    let mut out: Vec<u8> = Vec::new();
    loop
        invariant
            br.wf(),
            br.data@ == old(br).data@,
            s == br.bits(),
            p0 == old(br).pos,
            parse_text(s, p0) == prefixed(out@, parse_text(s, br.pos as int)),
        decreases s.len() - br.pos,
    {
        let c = match br.read_n_bit(8) {
            Ok(c) => c,
            Err(e) => {
                return Err(e);
            },
        };
        if c == 0 {
            assert(out@ + seq![] =~= out@);
            return Ok(out);
        }
        proof {
            lemma_prefixed_push(out@, c as u8, parse_text(s, br.pos as int));
        }
        out.push(c as u8);
    }
}

fn read_field(d: &FieldDescriptor, br: &mut BitReader) -> (r: Result<DeltaValue, ErrorKind>)
    requires
        old(br).wf(),
    ensures
        final(br).wf(),
        final(br).data@ == old(br).data@,
        match r {
            Ok(v) => parse_field(d@, old(br).bits(), old(br).pos as int) == Ok::<_, ErrorKind>((v@, final(br).pos as int)),
            Err(e) => parse_field(d@, old(br).bits(), old(br).pos as int) == Err::<(ValueModel, int), ErrorKind>(e),
        },
{
    let k = match kind(d.flags) {
        Some(k) => k,
        None => {
            return Err(ErrorKind::BadDescriptor);
        },
    };
    if k == FieldKind::Text {
        let t = match read_text(br) {
            Ok(t) => t,
            Err(e) => {
                return Err(e);
            },
        };
        return Ok(DeltaValue::Text(t));
    }
    let w: u32 = if k == FieldKind::TimeWindow8 {
        8
    } else {
        if d.bits < 1 || d.bits > 32 {
            return Err(ErrorKind::BadDescriptor);
        }
        d.bits
    };
    let raw = match br.read_n_bit(w) {
        Ok(v) => v,
        Err(e) => {
            return Err(e);
        },
    };
    if d.flags >= FLAG_SIGNED {
        let half = pow2_u64(w - 1);
        let full = pow2_u64(w);
        proof {
            lemma_pow2_unfold(w as nat);
            crate::bits::lemma_bits_value_bound(
                old(br).bits().subrange(old(br).pos as int, old(br).pos + w),
            );
            lemma2_to64();
        }
        if raw as u64 >= half {
            Ok(DeltaValue::Signed((raw as i64 - full as i64) as i32))
        } else {
            Ok(DeltaValue::Signed(raw as i32))
        }
    } else {
        Ok(DeltaValue::Unsigned(raw))
    }
}

/// Reads a delta against `descs`: the entries come in descriptor order.
pub fn parse_delta(descs: &Vec<FieldDescriptor>, br: &mut BitReader) -> (r: Result<
    Delta,
    ErrorKind,
>)
    requires
        old(br).wf(),
    ensures
        final(br).wf(),
        final(br).data@ == old(br).data@,
        match r {
            Ok(d) => parse_delta_spec(descs_view(descs@), old(br).bits(), old(br).pos as int) == Ok::<_, ErrorKind>(
                (d@, final(br).pos as int),
            ),
            Err(e) => parse_delta_spec(descs_view(descs@), old(br).bits(), old(br).pos as int)
                == Err::<(DeltaModel, int), ErrorKind>(e),
        },
{
    let ghost s = br.bits();
    let ghost p0 = br.pos as int;
    let ghost dv = descs_view(descs@);
    proof {
        reveal(parse_delta_spec);
    }
    let has_mask = match br.read_1_bit() {
        Ok(b) => b,
        Err(e) => {
            return Err(e);
        },
    };
    proof {
        crate::bits::lemma_take_one(s, p0);
        lemma2_to64();
    }
    let mut mask: Vec<bool> = Vec::new();
    if has_mask {
        let c = match br.read_n_bit(3) {
            Ok(c) => c,
            Err(e) => {
                return Err(e);
            },
        };
        if br.data.len() * 8 - br.pos < 8 * c as usize {
            return Err(ErrorKind::ShortRead);
        }
        let n = 8 * c as usize;
        let ghost mstart = br.pos as int;
        assert(mstart == p0 + 4);
        let mut j: usize = 0;
        while j < n
            invariant
                br.wf(),
                br.data@ == old(br).data@,
                s == br.bits(),
                n <= 56,
                0 <= mstart,
                mstart + n <= s.len(),
                br.pos == mstart + j,
                j <= n,
                mask@ == s.subrange(mstart, mstart + j),
            decreases n - j,
        {
            let b = match br.read_1_bit() {
                Ok(b) => b,
                Err(e) => {
                    return Err(e);
                },
            };
            mask.push(b);
            j = j + 1;
            assert(mask@ =~= s.subrange(mstart, mstart + j));
        }
        assert(parse_delta_spec(dv, s, p0) == parse_fields(
            dv,
            mask_presence(dv.len(), true, mask@),
            s,
            br.pos as int,
            0,
        ));
    } else {
        assert(mask@ =~= seq![]);
    }
    let ghost present = mask_presence(dv.len(), has_mask, mask@);
    let ghost fstart = br.pos as int;
    assert(parse_delta_spec(dv, s, p0) == parse_fields(dv, present, s, fstart, 0));
    let mut entries: Vec<DeltaEntry> = Vec::new();
    assert((Delta { entries })@ + parse_fields(dv, present, s, fstart, 0)->Ok_0.0 =~= parse_fields(dv, present, s, fstart, 0)->Ok_0.0);
    let mut i: usize = 0;
    while i < descs.len()
        invariant
            br.wf(),
            br.data@ == old(br).data@,
            s == br.bits(),
            dv == descs_view(descs@),
            present == mask_presence(dv.len(), has_mask, mask@),
            p0 == old(br).pos,
            parse_delta_spec(dv, s, p0) == parse_fields(dv, present, s, fstart, 0),
            i <= descs@.len(),
            parse_fields(dv, present, s, fstart, 0) == prefixed(
                (Delta { entries })@,
                parse_fields(dv, present, s, br.pos as int, i as int),
            ),
        decreases descs@.len() - i,
    {
        let sel = !has_mask || (i < mask.len() && mask[i]);
        assert(present[i as int] == sel);
        assert(dv[i as int] == descs@[i as int]@);
        if sel {
            let ghost before = br.pos as int;
            let v = match read_field(&descs[i], br) {
                Ok(v) => v,
                Err(e) => {
                    assert(parse_fields(dv, present, s, before, i as int) == Err::<
                        (DeltaModel, int),
                        ErrorKind,
                    >(e));
                    return Err(e);
                },
            };
            let ghost old_view = (Delta { entries })@;
            let e = DeltaEntry { name: slice_to_vec(descs[i].name.as_slice()), value: v };
            proof {
                lemma_prefixed_push(
                    old_view,
                    (e.name@, e.value@),
                    parse_fields(dv, present, s, br.pos as int, i + 1),
                );
            }
            entries.push(e);
            assert((Delta { entries })@ =~= old_view.push((e.name@, e.value@)));
        }
        i = i + 1;
    }
    proof {
        assert((Delta { entries })@ + seq![] =~= (Delta { entries })@);
    }
    Ok(Delta { entries })
}


/// The wire form of a text field: its bytes, then a NUL.
pub open spec fn text_bits(t: Seq<u8>) -> Seq<bool> {
    bytes_bits(t) + bits_of(0, 8)
}

pub open spec fn has_nul(t: Seq<u8>) -> bool {
    exists|k: int| 0 <= k < t.len() && t[k] == 0
}

/// The bits of one field, or why the value cannot be written under `d`.
pub open spec fn encode_field(d: DescriptorModel, v: ValueModel) -> Result<Seq<bool>, ErrorKind> {
    let w = field_width(d);
    if !descriptor_ok(d) {
        Err(ErrorKind::BadDescriptor)
    } else if kind_of(d.flags) == Some(FieldKind::Text) {
        match v {
            ValueModel::Text(t) => if has_nul(t) {
                Err(ErrorKind::ValueMismatch)
            } else {
                Ok(text_bits(t))
            },
            _ => Err(ErrorKind::ValueMismatch),
        }
    } else if is_signed(d.flags) {
        match v {
            ValueModel::Signed(x) => if -pow2((w - 1) as nat) <= x < pow2((w - 1) as nat) {
                Ok(bits_of((if x < 0 { x + pow2(w) } else { x as int }) as nat, w))
            } else {
                Err(ErrorKind::EncodeOverflow)
            },
            _ => Err(ErrorKind::ValueMismatch),
        }
    } else {
        match v {
            ValueModel::Unsigned(x) => if x < pow2(w) {
                Ok(bits_of(x as nat, w))
            } else {
                Err(ErrorKind::EncodeOverflow)
            },
            _ => Err(ErrorKind::ValueMismatch),
        }
    }
}

/// `acc` put in front of the bits that `r` produced.
pub open spec fn bits_prefixed(acc: Seq<bool>, r: Result<Seq<bool>, ErrorKind>) -> Result<
    Seq<bool>,
    ErrorKind,
> {
    match r {
        Ok(t) => Ok(acc + t),
        Err(e) => Err(e),
    }
}

/// The fields from index `i` on that `d` holds, in descriptor order.
pub open spec fn encode_fields(descs: Seq<DescriptorModel>, d: DeltaModel, i: int) -> Result<
    Seq<bool>,
    ErrorKind,
>
    decreases descs.len() - i,
{
    if i < 0 || i >= descs.len() {
        Ok(seq![])
    } else {
        match lookup(d, descs[i].name) {
            None => encode_fields(descs, d, i + 1),
            Some(v) => match encode_field(descs[i], v) {
                Err(e) => Err(e),
                Ok(b) => bits_prefixed(b, encode_fields(descs, d, i + 1)),
            },
        }
    }
}

/// Which descriptors name a key of `d`.
pub open spec fn presence(descs: Seq<DescriptorModel>, d: DeltaModel) -> Seq<bool> {
    Seq::new(descs.len(), |i: int| lookup(d, descs[i].name) is Some)
}

/// One past the index of the last marked position; 0 when none is marked.
pub open spec fn marked_extent(p: Seq<bool>) -> nat
    decreases p.len(),
{
    if p.len() == 0 {
        0
    } else if p.last() {
        p.len()
    } else {
        marked_extent(p.drop_last())
    }
}

/// The fewest mask bytes, at least one, that reach every marked position.
pub open spec fn mask_bytes(p: Seq<bool>) -> nat {
    let n = marked_extent(p);
    if n <= 8 {
        1
    } else {
        ((n + 7) / 8) as nat
    }
}

/// The change mask of `c` bytes for the marks `p`.
pub open spec fn mask_bits(p: Seq<bool>, c: nat) -> Seq<bool> {
    Seq::new(8 * c, |i: int| i < p.len() && p[i])
}

/// A delta as it is written: a set has-mask bit, the mask length, the mask,
/// then the fields.
#[verifier::opaque]
pub open spec fn encode_delta_spec(descs: Seq<DescriptorModel>, d: DeltaModel) -> Result<
    Seq<bool>,
    ErrorKind,
> {
    let p = presence(descs, d);
    let c = mask_bytes(p);
    if c > 7 {
        Err(ErrorKind::EncodeOverflow)
    } else {
        bits_prefixed(seq![true] + bits_of(c, 3) + mask_bits(p, c), encode_fields(descs, d, 0))
    }
}

/// Whether two byte strings are equal.
pub fn bytes_eq(a: &[u8], b: &[u8]) -> (r: bool)
    ensures
        r == (a@ == b@),
{
    if a.len() != b.len() {
        return false;
    }
    let mut i: usize = 0;
    while i < a.len()
        invariant
            a@.len() == b@.len(),
            i <= a@.len(),
            forall|k: int| 0 <= k < i ==> a@[k] == b@[k],
        decreases a@.len() - i,
    {
        if a[i] != b[i] {
            return false;
        }
        i = i + 1;
    }
    assert(a@ =~= b@);
    true
}

impl Delta {
    /// Where the value under `name` stands, the first one where a name repeats.
    pub fn position(&self, name: &[u8]) -> (r: Option<usize>)
        ensures
            match r {
                Some(k) => k < self@.len() && lookup(self@, name@) == Some(self@[k as int].1),
                None => lookup(self@, name@) is None,
            },
    {
        let ghost v = self@;
        let mut i: usize = 0;
        assert(v.subrange(0, v.len() as int) =~= v);
        while i < self.entries.len()
            invariant
                v == self@,
                v.len() == self.entries@.len(),
                i <= v.len(),
                lookup(v, name@) == lookup(v.subrange(i as int, v.len() as int), name@),
            decreases v.len() - i,
        {
            assert(v.subrange(i as int, v.len() as int).drop_first() =~= v.subrange(
                i + 1,
                v.len() as int,
            ));
            if bytes_eq(self.entries[i].name.as_slice(), name) {
                return Some(i);
            }
            i = i + 1;
        }
        None
    }
}

fn write_text(t: &Vec<u8>, bw: &mut BitWriter) -> (r: Result<(), ErrorKind>)
    ensures
        match r {
            Ok(_) => !has_nul(t@) && final(bw).bits@ == old(bw).bits@ + text_bits(t@),
            Err(e) => e == ErrorKind::ValueMismatch && has_nul(t@),
        },
{
    let mut i: usize = 0;
    while i < t.len()
        invariant
            i <= t@.len(),
            forall|k: int| 0 <= k < i ==> t@[k] != 0,
        decreases t@.len() - i,
    {
        if t[i] == 0 {
            return Err(ErrorKind::ValueMismatch);
        }
        i = i + 1;
    }
    let ghost start = bw.bits@;
    i = 0;
    assert(bytes_bits(t@.subrange(0, 0)) =~= seq![]);
    while i < t.len()
        invariant
            i <= t@.len(),
            bw.bits@ == start + bytes_bits(t@.subrange(0, i as int)),
        decreases t@.len() - i,
    {
        bw.append_u32_range(t[i] as u32, 8);
        proof {
            let a = t@.subrange(0, i as int);
            let b = t@.subrange(0, i + 1);
            assert forall|j: int| 0 <= j < 8 * b.len() implies #[trigger] bytes_bits(b)[j] == (
            bytes_bits(a) + bits_of(t@[i as int] as nat, 8))[j] by {
                if j >= 8 * a.len() {
                    assert(j / 8 == i);
                    assert(j % 8 == j - 8 * i);
                }
            }
            assert(bytes_bits(b) =~= bytes_bits(a) + bits_of(t@[i as int] as nat, 8));
        }
        i = i + 1;
    }
    bw.append_u32_range(0, 8);
    assert(t@.subrange(0, t@.len() as int) =~= t@);
    Ok(())
}

fn write_field(d: &FieldDescriptor, v: &DeltaValue, bw: &mut BitWriter) -> (r: Result<
    (),
    ErrorKind,
>)
    ensures
        match encode_field(d@, v@) {
            Ok(b) => r is Ok && final(bw).bits@ == old(bw).bits@ + b,
            Err(e) => r == Err::<(), ErrorKind>(e),
        },
{
    let k = match kind(d.flags) {
        Some(k) => k,
        None => {
            return Err(ErrorKind::BadDescriptor);
        },
    };
    if k == FieldKind::Text {
        return match v {
            DeltaValue::Text(t) => write_text(t, bw),
            _ => Err(ErrorKind::ValueMismatch),
        };
    }
    let w: u32 = if k == FieldKind::TimeWindow8 {
        8
    } else {
        if d.bits < 1 || d.bits > 32 {
            return Err(ErrorKind::BadDescriptor);
        }
        d.bits
    };
    let full = pow2_u64(w);
    let half = pow2_u64(w - 1);
    proof {
        lemma_pow2_unfold(w as nat);
        lemma2_to64();
        vstd::arithmetic::power2::lemma_pow2_strictly_increases((w - 1) as nat, 32);
    }
    if d.flags >= FLAG_SIGNED {
        match v {
            DeltaValue::Signed(x) => {
                let x64 = *x as i64;
                if x64 < -(half as i64) || x64 >= half as i64 {
                    return Err(ErrorKind::EncodeOverflow);
                }
                let raw: i64 = if x64 < 0 {
                    x64 + full as i64
                } else {
                    x64
                };
                bw.append_u32_range(raw as u32, w);
                Ok(())
            },
            _ => Err(ErrorKind::ValueMismatch),
        }
    } else {
        match v {
            DeltaValue::Unsigned(x) => {
                if *x as u64 >= full {
                    return Err(ErrorKind::EncodeOverflow);
                }
                bw.append_u32_range(*x, w);
                Ok(())
            },
            _ => Err(ErrorKind::ValueMismatch),
        }
    }
}


/// Writes `d` against `descs`: exactly the descriptors that name a key of `d`
/// are marked in the change mask, and written in descriptor order.
pub fn write_delta(d: &Delta, descs: &Vec<FieldDescriptor>, bw: &mut BitWriter) -> (r: Result<
    (),
    ErrorKind,
>)
    ensures
        match encode_delta_spec(descs_view(descs@), d@) {
            Ok(b) => r is Ok && final(bw).bits@ == old(bw).bits@ + b,
            Err(e) => r == Err::<(), ErrorKind>(e),
        },
{
    let ghost dv = descs_view(descs@);
    let ghost p = presence(dv, d@);
    proof {
        reveal(encode_delta_spec);
    }
    let n = descs.len();
    let mut marks: Vec<bool> = Vec::new();
    let mut extent: usize = 0;
    let mut i: usize = 0;
    while i < n
        invariant
            n == descs@.len(),
            dv == descs_view(descs@),
            p == presence(dv, d@),
            i <= n,
            marks@ == p.subrange(0, i as int),
            extent == marked_extent(p.subrange(0, i as int)),
            extent <= i,
        decreases n - i,
    {
        let found = d.position(descs[i].name.as_slice()).is_some();
        assert(descs@[i as int].name@ == dv[i as int].name);
        marks.push(found);
        if found {
            extent = i + 1;
        }
        i = i + 1;
        assert(p.subrange(0, i as int).drop_last() =~= p.subrange(0, i - 1));
        assert(marks@ =~= p.subrange(0, i as int));
    }
    assert(p.subrange(0, n as int) =~= p);
    let c: usize = if extent <= 8 {
        1
    } else {
        extent / 8 + if extent % 8 == 0 {
            0
        } else {
            1
        }
    };
    assert(c == mask_bytes(p));
    if c > 7 {
        return Err(ErrorKind::EncodeOverflow);
    }
    let ghost start = bw.bits@;
    bw.append_bit(true);
    bw.append_u32_range(c as u32, 3);
    let mut j: usize = 0;
    while j < 8 * c
        invariant
            c <= 7,
            n == marks@.len(),
            marks@ == p,
            j <= 8 * c,
            bw.bits@ == start + seq![true] + bits_of(c as nat, 3) + mask_bits(p, c as nat).subrange(
                0,
                j as int,
            ),
        decreases 8 * c - j,
    {
        bw.append_bit(j < n && marks[j]);
        j = j + 1;
        assert(mask_bits(p, c as nat).subrange(0, j as int) =~= mask_bits(p, c as nat).subrange(
            0,
            j - 1,
        ).push(j - 1 < n && marks@[j - 1]));
    }
    assert(mask_bits(p, c as nat).subrange(0, 8 * c) =~= mask_bits(p, c as nat));
    let ghost header = seq![true] + bits_of(c as nat, 3) + mask_bits(p, c as nat);
    assert(bw.bits@ == start + header);
    let ghost fstart = bw.bits@;
    assert(fstart + seq![] =~= fstart);
    i = 0;
    while i < n
        invariant
            n == descs@.len(),
            dv == descs_view(descs@),
            p == presence(dv, d@),
            marks@ == p,
            i <= n,
            encode_delta_spec(dv, d@) == bits_prefixed(header, encode_fields(dv, d@, 0)),
            header.len() + start.len() == fstart.len(),
            fstart == start + header,
            bits_prefixed(fstart, encode_fields(dv, d@, 0)) == bits_prefixed(
                bw.bits@,
                encode_fields(dv, d@, i as int),
            ),
        decreases n - i,
    {
        assert(descs@[i as int].name@ == dv[i as int].name);
        match d.position(descs[i].name.as_slice()) {
            None => {
                assert(encode_fields(dv, d@, i as int) == encode_fields(dv, d@, i + 1));
            },
            Some(k) => {
                assert(d@[k as int].1 == d.entries@[k as int].value@);
                let ghost before = bw.bits@;
                match write_field(&descs[i], &d.entries[k].value, bw) {
                    Ok(_) => {},
                    Err(e) => {
                        return Err(e);
                    },
                }
                proof {
                    if let Ok(b) = encode_field(dv[i as int], d@[k as int].1) {
                        assert(encode_fields(dv, d@, i as int) == bits_prefixed(
                            b,
                            encode_fields(dv, d@, i + 1),
                        ));
                        if let Ok(rest) = encode_fields(dv, d@, i + 1) {
                            assert(before + (b + rest) =~= bw.bits@ + rest);
                        }
                    }
                }
            },
        }
        i = i + 1;
    }
    proof {
        if let Ok(f) = encode_fields(dv, d@, 0) {
            assert(start + (header + f) =~= fstart + f);
        }
    }
    Ok(())
}

} // verus!
