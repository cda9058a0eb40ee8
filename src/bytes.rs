//! Byte-level fields: little-endian integers, NUL-terminated strings and raw
//! byte runs, and the table of engine messages laid out as a plain list of them.
use vstd::prelude::*;
use vstd::slice::{slice_subrange, slice_to_vec};

use crate::delta::{has_nul, prefixed};
use crate::error::ErrorKind;

verus! {

/// The kinds of field that fixed-layout messages are made of.
#[derive(Clone, Copy, Debug, PartialEq, Eq, Structural)]
pub enum Slot {
    U8,
    I8,
    U16,
    I16,
    U32,
    I32,
    /// A 32-bit float, kept as its bit pattern.
    F32,
    /// A NUL-terminated string.
    Text,
    /// A run of exactly this many bytes.
    Fixed(usize),
    /// A run of bytes after a one-byte length.
    U8Len,
    /// A run of bytes after a two-byte length.
    U16Len,
    /// A one-byte count, then that many NUL-terminated strings.
    TextList,
}

/// The value of one field of a fixed-layout message.
#[derive(Debug)]
pub enum Scalar {
    U8(u8),
    I8(i8),
    U16(u16),
    I16(i16),
    U32(u32),
    I32(i32),
    F32(u32),
    /// A string without its NUL.
    Text(Vec<u8>),
    Bytes(Vec<u8>),
    /// Strings without their NULs.
    TextList(Vec<Vec<u8>>),
}

pub enum ScalarModel {
    U8(u8),
    I8(i8),
    U16(u16),
    I16(i16),
    U32(u32),
    I32(i32),
    F32(u32),
    Text(Seq<u8>),
    Bytes(Seq<u8>),
    TextList(Seq<Seq<u8>>),
}

impl View for Scalar {
    type V = ScalarModel;

    open spec fn view(&self) -> ScalarModel {
        match self {
            Scalar::U8(x) => ScalarModel::U8(*x),
            Scalar::I8(x) => ScalarModel::I8(*x),
            Scalar::U16(x) => ScalarModel::U16(*x),
            Scalar::I16(x) => ScalarModel::I16(*x),
            Scalar::U32(x) => ScalarModel::U32(*x),
            Scalar::I32(x) => ScalarModel::I32(*x),
            Scalar::F32(x) => ScalarModel::F32(*x),
            Scalar::Text(t) => ScalarModel::Text(t@),
            Scalar::Bytes(t) => ScalarModel::Bytes(t@),
            Scalar::TextList(ts) => ScalarModel::TextList(texts_view(ts@)),
        }
    }
}

pub open spec fn texts_view(v: Seq<Vec<u8>>) -> Seq<Seq<u8>> {
    v.map_values(|t: Vec<u8>| t@)
}

pub open spec fn scalars_view(v: Seq<Scalar>) -> Seq<ScalarModel> {
    v.map_values(|x: Scalar| x@)
}

pub open spec fn u16_at(b: Seq<u8>, pos: int) -> u16 {
    (b[pos] + 256 * b[pos + 1]) as u16
}

pub open spec fn u32_at(b: Seq<u8>, pos: int) -> u32 {
    (b[pos] + 256 * b[pos + 1] + 65536 * b[pos + 2] + 16777216 * b[pos + 3]) as u32
}

pub open spec fn u16_bytes(x: u16) -> Seq<u8> {
    seq![(x % 256) as u8, (x / 256) as u8]
}

pub open spec fn u32_bytes(x: u32) -> Seq<u8> {
    seq![(x % 256) as u8, ((x / 256) % 256) as u8, ((x / 65536) % 256) as u8, (x / 16777216) as u8]
}

/// A NUL-terminated string at `pos`, without its NUL.
pub open spec fn parse_cstr(b: Seq<u8>, pos: int) -> Result<(Seq<u8>, int), ErrorKind>
    decreases b.len() - pos,
{
    if pos < 0 || pos >= b.len() {
        Err(ErrorKind::ShortRead)
    } else if b[pos] == 0 {
        Ok((seq![], pos + 1))
    } else {
        prefixed(seq![b[pos]], parse_cstr(b, pos + 1))
    }
}

/// `n` NUL-terminated strings one after another.
pub open spec fn parse_cstrs(b: Seq<u8>, pos: int, n: nat) -> Result<(Seq<Seq<u8>>, int), ErrorKind>
    decreases n,
{
    if n == 0 {
        Ok((seq![], pos))
    } else {
        match parse_cstr(b, pos) {
            Err(e) => Err(e),
            Ok((t, p)) => prefixed(seq![t], parse_cstrs(b, p, (n - 1) as nat)),
        }
    }
}

/// The strings, each followed by a NUL.
pub open spec fn cstrs_bytes(ts: Seq<Seq<u8>>) -> Seq<u8>
    decreases ts.len(),
{
    if ts.len() == 0 {
        seq![]
    } else {
        ts[0].push(0) + cstrs_bytes(ts.drop_first())
    }
}

/// `n` bytes at `pos`, if they are all there.
pub open spec fn take_bytes(b: Seq<u8>, pos: int, n: int) -> Result<(Seq<u8>, int), ErrorKind> {
    if 0 <= pos && 0 <= n && pos + n <= b.len() {
        Ok((b.subrange(pos, pos + n), pos + n))
    } else {
        Err(ErrorKind::ShortRead)
    }
}

/// One field of kind `slot` at `pos`.
pub open spec fn parse_slot(slot: Slot, b: Seq<u8>, pos: int) -> Result<(ScalarModel, int), ErrorKind> {
    let width: int = match slot {
        Slot::U8 | Slot::I8 | Slot::U8Len | Slot::TextList => 1,
        Slot::U16 | Slot::I16 | Slot::U16Len => 2,
        Slot::U32 | Slot::I32 | Slot::F32 => 4,
        _ => 0,
    };
    if pos < 0 || pos + width > b.len() {
        Err(ErrorKind::ShortRead)
    } else {
        match slot {
            Slot::U8 => Ok((ScalarModel::U8(b[pos]), pos + 1)),
            Slot::I8 => Ok((ScalarModel::I8(b[pos] as i8), pos + 1)),
            Slot::U16 => Ok((ScalarModel::U16(u16_at(b, pos)), pos + 2)),
            Slot::I16 => Ok((ScalarModel::I16(u16_at(b, pos) as i16), pos + 2)),
            Slot::U32 => Ok((ScalarModel::U32(u32_at(b, pos)), pos + 4)),
            Slot::I32 => Ok((ScalarModel::I32(u32_at(b, pos) as i32), pos + 4)),
            Slot::F32 => Ok((ScalarModel::F32(u32_at(b, pos)), pos + 4)),
            Slot::Text => match parse_cstr(b, pos) {
                Ok((t, p)) => Ok((ScalarModel::Text(t), p)),
                Err(e) => Err(e),
            },
            Slot::Fixed(n) => match take_bytes(b, pos, n as int) {
                Ok((t, p)) => Ok((ScalarModel::Bytes(t), p)),
                Err(e) => Err(e),
            },
            Slot::U8Len => match take_bytes(b, pos + 1, b[pos] as int) {
                Ok((t, p)) => Ok((ScalarModel::Bytes(t), p)),
                Err(e) => Err(e),
            },
            Slot::U16Len => match take_bytes(b, pos + 2, u16_at(b, pos) as int) {
                Ok((t, p)) => Ok((ScalarModel::Bytes(t), p)),
                Err(e) => Err(e),
            },
            Slot::TextList => match parse_cstrs(b, pos + 1, b[pos] as nat) {
                Ok((ts, p)) => Ok((ScalarModel::TextList(ts), p)),
                Err(e) => Err(e),
            },
        }
    }
}

/// The fields of `slots` from index `i` on, one after another.
pub open spec fn parse_slots(slots: Seq<Slot>, b: Seq<u8>, pos: int, i: int) -> Result<
    (Seq<ScalarModel>, int),
    ErrorKind,
>
    decreases slots.len() - i,
{
    if i < 0 || i >= slots.len() {
        Ok((seq![], pos))
    } else {
        match parse_slot(slots[i], b, pos) {
            Err(e) => Err(e),
            Ok((v, p)) => prefixed(seq![v], parse_slots(slots, b, p, i + 1)),
        }
    }
}

pub proof fn lemma_parse_cstr_bounds(b: Seq<u8>, pos: int)
    ensures
        parse_cstr(b, pos) matches Ok((t, p)) ==> pos < p <= b.len(),
    decreases b.len() - pos,
{
    if 0 <= pos < b.len() && b[pos] != 0 {
        lemma_parse_cstr_bounds(b, pos + 1);
    }
}

pub proof fn lemma_parse_cstrs_bounds(b: Seq<u8>, pos: int, n: nat)
    requires
        0 <= pos <= b.len(),
    ensures
        parse_cstrs(b, pos, n) matches Ok((ts, p)) ==> pos <= p <= b.len(),
    decreases n,
{
    if n > 0 {
        lemma_parse_cstr_bounds(b, pos);
        if let Ok((t, p)) = parse_cstr(b, pos) {
            lemma_parse_cstrs_bounds(b, p, (n - 1) as nat);
        }
    }
}

pub proof fn lemma_parse_slots_bounds(slots: Seq<Slot>, b: Seq<u8>, pos: int, i: int)
    requires
        0 <= pos <= b.len(),
    ensures
        parse_slots(slots, b, pos, i) matches Ok((vs, p)) ==> pos <= p <= b.len(),
    decreases slots.len() - i,
{
    if 0 <= i < slots.len() {
        if let Ok((v, p)) = parse_slot(slots[i], b, pos) {
            if slots[i] == Slot::Text {
                lemma_parse_cstr_bounds(b, pos);
            }
            if slots[i] == Slot::TextList {
                lemma_parse_cstrs_bounds(b, pos + 1, b[pos] as nat);
            }
            lemma_parse_slots_bounds(slots, b, p, i + 1);
        }
    }
}

/// The bytes of one field, or why `v` cannot stand in a field of kind `slot`.
pub open spec fn encode_slot(slot: Slot, v: ScalarModel) -> Result<Seq<u8>, ErrorKind> {
    match (slot, v) {
        (Slot::U8, ScalarModel::U8(x)) => Ok(seq![x]),
        (Slot::I8, ScalarModel::I8(x)) => Ok(seq![x as u8]),
        (Slot::U16, ScalarModel::U16(x)) => Ok(u16_bytes(x)),
        (Slot::I16, ScalarModel::I16(x)) => Ok(u16_bytes(x as u16)),
        (Slot::U32, ScalarModel::U32(x)) => Ok(u32_bytes(x)),
        (Slot::I32, ScalarModel::I32(x)) => Ok(u32_bytes(x as u32)),
        (Slot::F32, ScalarModel::F32(x)) => Ok(u32_bytes(x)),
        (Slot::Text, ScalarModel::Text(t)) => if has_nul(t) {
            Err(ErrorKind::ValueMismatch)
        } else {
            Ok(t.push(0))
        },
        (Slot::Fixed(n), ScalarModel::Bytes(t)) => if t.len() == n {
            Ok(t)
        } else {
            Err(ErrorKind::ValueMismatch)
        },
        (Slot::U8Len, ScalarModel::Bytes(t)) => if t.len() <= 255 {
            Ok(seq![t.len() as u8] + t)
        } else {
            Err(ErrorKind::EncodeOverflow)
        },
        (Slot::U16Len, ScalarModel::Bytes(t)) => if t.len() <= 65535 {
            Ok(u16_bytes(t.len() as u16) + t)
        } else {
            Err(ErrorKind::EncodeOverflow)
        },
        (Slot::TextList, ScalarModel::TextList(ts)) => if ts.len() > 255 {
            Err(ErrorKind::EncodeOverflow)
        } else if exists|k: int| 0 <= k < ts.len() && has_nul(#[trigger] ts[k]) {
            Err(ErrorKind::ValueMismatch)
        } else {
            Ok(seq![ts.len() as u8] + cstrs_bytes(ts))
        },
        _ => Err(ErrorKind::ValueMismatch),
    }
}

/// The bytes of values `vs` laid out by `slots`, from index `i` on.
pub open spec fn encode_slots(slots: Seq<Slot>, vs: Seq<ScalarModel>, i: int) -> Result<
    Seq<u8>,
    ErrorKind,
>
    decreases slots.len() - i,
{
    if slots.len() != vs.len() {
        Err(ErrorKind::ValueMismatch)
    } else if i < 0 || i >= slots.len() {
        Ok(seq![])
    } else {
        match encode_slot(slots[i], vs[i]) {
            Err(e) => Err(e),
            Ok(h) => match encode_slots(slots, vs, i + 1) {
                Ok(t) => Ok(h + t),
                Err(e) => Err(e),
            },
        }
    }
}

/// The fields of each engine message with a fixed layout, by type byte.
pub open spec fn layout(tag: u8) -> Option<Seq<Slot>> {
    if tag == 0 {
        // Bad
        Some(seq![])
    } else if tag == 1 {
        // Nop
        Some(seq![])
    } else if tag == 2 {
        // Disconnect
        Some(seq![Slot::Text])
    } else if tag == 4 {
        // Version
        Some(seq![Slot::U32])
    } else if tag == 5 {
        // SetView
        Some(seq![Slot::I16])
    } else if tag == 7 {
        // Time
        Some(seq![Slot::F32])
    } else if tag == 8 {
        // Print
        Some(seq![Slot::Text])
    } else if tag == 9 {
        // StuffText
        Some(seq![Slot::Text])
    } else if tag == 10 {
        // SetAngle
        Some(seq![Slot::I16, Slot::I16, Slot::I16])
    } else if tag == 11 {
        // ServerInfo
        Some(seq![Slot::I32, Slot::I32, Slot::I32, Slot::Fixed(16), Slot::U8, Slot::U8, Slot::U8, Slot::Text, Slot::Text, Slot::Text, Slot::Text, Slot::U8])
    } else if tag == 12 {
        // LightStyle
        Some(seq![Slot::U8, Slot::Text])
    } else if tag == 13 {
        // UpdateUserInfo
        Some(seq![Slot::U8, Slot::U32, Slot::Text, Slot::Fixed(16)])
    } else if tag == 16 {
        // StopSound
        Some(seq![Slot::I16])
    } else if tag == 18 {
        // Particle
        Some(seq![Slot::I16, Slot::I16, Slot::I16, Slot::I8, Slot::I8, Slot::I8, Slot::U8, Slot::U8])
    } else if tag == 19 {
        // Damage
        Some(seq![])
    } else if tag == 24 {
        // SetPause
        Some(seq![Slot::I8])
    } else if tag == 25 {
        // SignOnNum
        Some(seq![Slot::I8])
    } else if tag == 26 {
        // CenterPrint
        Some(seq![Slot::Text])
    } else if tag == 27 {
        // KilledMonster
        Some(seq![])
    } else if tag == 28 {
        // FoundSecret
        Some(seq![])
    } else if tag == 29 {
        // SpawnStaticSound
        Some(seq![Slot::I16, Slot::I16, Slot::I16, Slot::U16, Slot::U8, Slot::U8, Slot::U16, Slot::U8, Slot::U8])
    } else if tag == 30 {
        // Intermission
        Some(seq![])
    } else if tag == 31 {
        // Finale
        Some(seq![Slot::Text])
    } else if tag == 32 {
        // CdTrack
        Some(seq![Slot::I8, Slot::I8])
    } else if tag == 33 {
        // Restore
        Some(seq![Slot::Text, Slot::TextList])
    } else if tag == 34 {
        // Cutscene
        Some(seq![Slot::Text])
    } else if tag == 35 {
        // WeaponAnim
        Some(seq![Slot::I8, Slot::I8])
    } else if tag == 36 {
        // DecalName
        Some(seq![Slot::U8, Slot::Text])
    } else if tag == 37 {
        // RoomType
        Some(seq![Slot::U16])
    } else if tag == 38 {
        // AddAngle
        Some(seq![Slot::I16])
    } else if tag == 39 {
        // NewUserMsg
        Some(seq![Slot::U8, Slot::I8, Slot::Fixed(16)])
    } else if tag == 42 {
        // Choke
        Some(seq![])
    } else if tag == 44 {
        // NewMovevars
        Some(seq![Slot::F32, Slot::F32, Slot::F32, Slot::F32, Slot::F32, Slot::F32, Slot::F32, Slot::F32, Slot::F32, Slot::F32, Slot::F32, Slot::F32, Slot::F32, Slot::F32, Slot::F32, Slot::F32, Slot::U8, Slot::F32, Slot::F32, Slot::F32, Slot::F32, Slot::F32, Slot::F32, Slot::F32, Slot::F32, Slot::Text])
    } else if tag == 47 {
        // CrosshairAngle
        Some(seq![Slot::I8, Slot::I8])
    } else if tag == 48 {
        // SoundFade
        Some(seq![Slot::U8, Slot::U8, Slot::U8, Slot::U8])
    } else if tag == 49 {
        // FileTxferFailed
        Some(seq![Slot::Text])
    } else if tag == 50 {
        // Hltv
        Some(seq![Slot::U8])
    } else if tag == 51 {
        // Director
        Some(seq![Slot::U8Len])
    } else if tag == 52 {
        // VoiceInit
        Some(seq![Slot::Text, Slot::I8])
    } else if tag == 53 {
        // VoiceData
        Some(seq![Slot::U8, Slot::U16Len])
    } else if tag == 54 {
        // SendExtraInfo
        Some(seq![Slot::Text, Slot::U8])
    } else if tag == 55 {
        // TimeScale
        Some(seq![Slot::F32])
    } else if tag == 56 {
        // ResourceLocation
        Some(seq![Slot::Text])
    } else if tag == 57 {
        // SendCvarValue
        Some(seq![Slot::Text])
    } else if tag == 58 {
        // SendCvarValue2
        Some(seq![Slot::U32, Slot::Text])
    } else {
        None
    }
}

pub fn layout_of(tag: u8) -> (r: Option<Vec<Slot>>)
    ensures
        match layout(tag) {
            Some(l) => r is Some && r->Some_0@ == l,
            None => r is None,
        },
{
    if tag == 0 {
        Some(vec![])
    } else if tag == 1 {
        Some(vec![])
    } else if tag == 2 {
        Some(vec![Slot::Text])
    } else if tag == 4 {
        Some(vec![Slot::U32])
    } else if tag == 5 {
        Some(vec![Slot::I16])
    } else if tag == 7 {
        Some(vec![Slot::F32])
    } else if tag == 8 {
        Some(vec![Slot::Text])
    } else if tag == 9 {
        Some(vec![Slot::Text])
    } else if tag == 10 {
        Some(vec![Slot::I16, Slot::I16, Slot::I16])
    } else if tag == 11 {
        Some(vec![Slot::I32, Slot::I32, Slot::I32, Slot::Fixed(16), Slot::U8, Slot::U8, Slot::U8, Slot::Text, Slot::Text, Slot::Text, Slot::Text, Slot::U8])
    } else if tag == 12 {
        Some(vec![Slot::U8, Slot::Text])
    } else if tag == 13 {
        Some(vec![Slot::U8, Slot::U32, Slot::Text, Slot::Fixed(16)])
    } else if tag == 16 {
        Some(vec![Slot::I16])
    } else if tag == 18 {
        Some(vec![Slot::I16, Slot::I16, Slot::I16, Slot::I8, Slot::I8, Slot::I8, Slot::U8, Slot::U8])
    } else if tag == 19 {
        Some(vec![])
    } else if tag == 24 {
        Some(vec![Slot::I8])
    } else if tag == 25 {
        Some(vec![Slot::I8])
    } else if tag == 26 {
        Some(vec![Slot::Text])
    } else if tag == 27 {
        Some(vec![])
    } else if tag == 28 {
        Some(vec![])
    } else if tag == 29 {
        Some(vec![Slot::I16, Slot::I16, Slot::I16, Slot::U16, Slot::U8, Slot::U8, Slot::U16, Slot::U8, Slot::U8])
    } else if tag == 30 {
        Some(vec![])
    } else if tag == 31 {
        Some(vec![Slot::Text])
    } else if tag == 32 {
        Some(vec![Slot::I8, Slot::I8])
    } else if tag == 33 {
        Some(vec![Slot::Text, Slot::TextList])
    } else if tag == 34 {
        Some(vec![Slot::Text])
    } else if tag == 35 {
        Some(vec![Slot::I8, Slot::I8])
    } else if tag == 36 {
        Some(vec![Slot::U8, Slot::Text])
    } else if tag == 37 {
        Some(vec![Slot::U16])
    } else if tag == 38 {
        Some(vec![Slot::I16])
    } else if tag == 39 {
        Some(vec![Slot::U8, Slot::I8, Slot::Fixed(16)])
    } else if tag == 42 {
        Some(vec![])
    } else if tag == 44 {
        Some(vec![Slot::F32, Slot::F32, Slot::F32, Slot::F32, Slot::F32, Slot::F32, Slot::F32, Slot::F32, Slot::F32, Slot::F32, Slot::F32, Slot::F32, Slot::F32, Slot::F32, Slot::F32, Slot::F32, Slot::U8, Slot::F32, Slot::F32, Slot::F32, Slot::F32, Slot::F32, Slot::F32, Slot::F32, Slot::F32, Slot::Text])
    } else if tag == 47 {
        Some(vec![Slot::I8, Slot::I8])
    } else if tag == 48 {
        Some(vec![Slot::U8, Slot::U8, Slot::U8, Slot::U8])
    } else if tag == 49 {
        Some(vec![Slot::Text])
    } else if tag == 50 {
        Some(vec![Slot::U8])
    } else if tag == 51 {
        Some(vec![Slot::U8Len])
    } else if tag == 52 {
        Some(vec![Slot::Text, Slot::I8])
    } else if tag == 53 {
        Some(vec![Slot::U8, Slot::U16Len])
    } else if tag == 54 {
        Some(vec![Slot::Text, Slot::U8])
    } else if tag == 55 {
        Some(vec![Slot::F32])
    } else if tag == 56 {
        Some(vec![Slot::Text])
    } else if tag == 57 {
        Some(vec![Slot::Text])
    } else if tag == 58 {
        Some(vec![Slot::U32, Slot::Text])
    } else {
        None
    }
}
/// Reads a NUL-terminated string at `pos`.
pub fn read_cstr(b: &[u8], pos: usize) -> (r: Result<(Vec<u8>, usize), ErrorKind>)
    ensures
        match r {
            Ok((t, p)) => parse_cstr(b@, pos as int) == Ok::<_, ErrorKind>((t@, p as int)),
            Err(e) => parse_cstr(b@, pos as int) == Err::<(Seq<u8>, int), ErrorKind>(e),
        },
{
    let mut out: Vec<u8> = Vec::new();
    let mut p = pos;
    loop
        invariant
            pos <= p,
            parse_cstr(b@, pos as int) == prefixed(out@, parse_cstr(b@, p as int)),
        decreases b@.len() - p,
    {
        if p >= b.len() {
            return Err(ErrorKind::ShortRead);
        }
        if b[p] == 0 {
            assert(out@ + seq![] =~= out@);
            return Ok((out, p + 1));
        }
        proof {
            crate::delta::lemma_prefixed_push(out@, b@[p as int], parse_cstr(b@, p + 1));
        }
        out.push(b[p]);
        p = p + 1;
    }
}

/// Reads `n` NUL-terminated strings one after another from `pos`.
pub fn read_cstrs(b: &[u8], pos: usize, n: u8) -> (r: Result<(Vec<Vec<u8>>, usize), ErrorKind>)
    ensures
        match r {
            Ok((ts, p)) => parse_cstrs(b@, pos as int, n as nat) == Ok::<_, ErrorKind>(
                (texts_view(ts@), p as int),
            ),
            Err(e) => parse_cstrs(b@, pos as int, n as nat) == Err::<(Seq<Seq<u8>>, int), ErrorKind>(e),
        },
{
    let mut out: Vec<Vec<u8>> = Vec::new();
    let mut p = pos;
    let mut k: u8 = 0;
    assert(texts_view(out@) + parse_cstrs(b@, pos as int, n as nat)->Ok_0.0 =~= parse_cstrs(
        b@,
        pos as int,
        n as nat,
    )->Ok_0.0);
    while k < n
        invariant
            k <= n,
            parse_cstrs(b@, pos as int, n as nat) == prefixed(
                texts_view(out@),
                parse_cstrs(b@, p as int, (n - k) as nat),
            ),
        decreases n - k,
    {
        let (t, np) = match read_cstr(b, p) {
            Ok(x) => x,
            Err(e) => {
                return Err(e);
            },
        };
        proof {
            crate::delta::lemma_prefixed_push(
                texts_view(out@),
                t@,
                parse_cstrs(b@, np as int, (n - k - 1) as nat),
            );
        }
        let ghost before = texts_view(out@);
        out.push(t);
        assert(texts_view(out@) =~= before.push(t@));
        p = np;
        k = k + 1;
    }
    assert(texts_view(out@) + seq![] =~= texts_view(out@));
    Ok((out, p))
}

/// Copies `n` bytes at `pos`.
pub fn read_bytes(b: &[u8], pos: usize, n: usize) -> (r: Result<(Vec<u8>, usize), ErrorKind>)
    ensures
        match r {
            Ok((t, p)) => take_bytes(b@, pos as int, n as int) == Ok::<_, ErrorKind>((t@, p as int)),
            Err(e) => take_bytes(b@, pos as int, n as int) == Err::<(Seq<u8>, int), ErrorKind>(e),
        },
{
    if pos > b.len() || b.len() - pos < n {
        return Err(ErrorKind::ShortRead);
    }
    let t = slice_to_vec(slice_subrange(b, pos, pos + n));
    Ok((t, pos + n))
}

fn read_u16(b: &[u8], pos: usize) -> (r: u16)
    requires
        pos + 2 <= b@.len(),
    ensures
        r == u16_at(b@, pos as int),
{
    b[pos] as u16 + 256 * b[pos + 1] as u16
}

fn read_u32(b: &[u8], pos: usize) -> (r: u32)
    requires
        pos + 4 <= b@.len(),
    ensures
        r == u32_at(b@, pos as int),
{
    b[pos] as u32 + 256 * b[pos + 1] as u32 + 65536 * b[pos + 2] as u32 + 16777216 * b[pos
        + 3] as u32
}

/// Reads one field of kind `slot` at `pos`.
pub fn read_slot(slot: Slot, b: &[u8], pos: usize) -> (r: Result<(Scalar, usize), ErrorKind>)
    ensures
        match r {
            Ok((v, p)) => parse_slot(slot, b@, pos as int) == Ok::<_, ErrorKind>((v@, p as int)),
            Err(e) => parse_slot(slot, b@, pos as int) == Err::<(ScalarModel, int), ErrorKind>(e),
        },
{
    let width: usize = match slot {
        Slot::U8 | Slot::I8 | Slot::U8Len | Slot::TextList => 1,
        Slot::U16 | Slot::I16 | Slot::U16Len => 2,
        Slot::U32 | Slot::I32 | Slot::F32 => 4,
        _ => 0,
    };
    if pos > b.len() || b.len() - pos < width {
        return Err(ErrorKind::ShortRead);
    }
    match slot {
        Slot::U8 => Ok((Scalar::U8(b[pos]), pos + 1)),
        Slot::I8 => Ok((Scalar::I8(b[pos] as i8), pos + 1)),
        Slot::U16 => Ok((Scalar::U16(read_u16(b, pos)), pos + 2)),
        Slot::I16 => Ok((Scalar::I16(read_u16(b, pos) as i16), pos + 2)),
        Slot::U32 => Ok((Scalar::U32(read_u32(b, pos)), pos + 4)),
        Slot::I32 => Ok((Scalar::I32(read_u32(b, pos) as i32), pos + 4)),
        Slot::F32 => Ok((Scalar::F32(read_u32(b, pos)), pos + 4)),
        Slot::Text => match read_cstr(b, pos) {
            Ok((t, p)) => Ok((Scalar::Text(t), p)),
            Err(e) => Err(e),
        },
        Slot::Fixed(n) => match read_bytes(b, pos, n) {
            Ok((t, p)) => Ok((Scalar::Bytes(t), p)),
            Err(e) => Err(e),
        },
        Slot::U8Len => match read_bytes(b, pos + 1, b[pos] as usize) {
            Ok((t, p)) => Ok((Scalar::Bytes(t), p)),
            Err(e) => Err(e),
        },
        Slot::U16Len => match read_bytes(b, pos + 2, read_u16(b, pos) as usize) {
            Ok((t, p)) => Ok((Scalar::Bytes(t), p)),
            Err(e) => Err(e),
        },
        Slot::TextList => match read_cstrs(b, pos + 1, b[pos]) {
            Ok((ts, p)) => Ok((Scalar::TextList(ts), p)),
            Err(e) => Err(e),
        },
    }
}

/// Reads the fields of `slots` one after another from `pos`.
pub fn read_slots(slots: &Vec<Slot>, b: &[u8], pos: usize) -> (r: Result<
    (Vec<Scalar>, usize),
    ErrorKind,
>)
    ensures
        match r {
            Ok((vs, p)) => parse_slots(slots@, b@, pos as int, 0) == Ok::<_, ErrorKind>(
                (scalars_view(vs@), p as int),
            ),
            Err(e) => parse_slots(slots@, b@, pos as int, 0) == Err::<(Seq<ScalarModel>, int), ErrorKind>(e),
        },
{
    let mut out: Vec<Scalar> = Vec::new();
    let mut p = pos;
    let mut i: usize = 0;
    assert(scalars_view(out@) + parse_slots(slots@, b@, pos as int, 0)->Ok_0.0 =~= parse_slots(slots@, b@, pos as int, 0)->Ok_0.0);
    while i < slots.len()
        invariant
            i <= slots@.len(),
            parse_slots(slots@, b@, pos as int, 0) == prefixed(
                scalars_view(out@),
                parse_slots(slots@, b@, p as int, i as int),
            ),
        decreases slots@.len() - i,
    {
        let (v, np) = match read_slot(slots[i], b, p) {
            Ok(x) => x,
            Err(e) => {
                return Err(e);
            },
        };
        proof {
            crate::delta::lemma_prefixed_push(
                scalars_view(out@),
                v@,
                parse_slots(slots@, b@, np as int, i + 1),
            );
        }
        let ghost before = scalars_view(out@);
        out.push(v);
        assert(scalars_view(out@) =~= before.push(v@));
        p = np;
        i = i + 1;
    }
    assert(scalars_view(out@) + seq![] =~= scalars_view(out@));
    Ok((out, p))
}


/// Appends `more` to `out`.
pub fn append_bytes(out: &mut Vec<u8>, more: &[u8])
    ensures
        final(out)@ == old(out)@ + more@,
{
    let ghost start = out@;
    let mut i: usize = 0;
    while i < more.len()
        invariant
            i <= more@.len(),
            out@ == start + more@.subrange(0, i as int),
        decreases more@.len() - i,
    {
        out.push(more[i]);
        i = i + 1;
        assert(more@.subrange(0, i as int) =~= more@.subrange(0, i - 1).push(more@[i - 1]));
    }
    assert(more@.subrange(0, more@.len() as int) =~= more@);
}

pub fn append_u16(out: &mut Vec<u8>, x: u16)
    ensures
        final(out)@ == old(out)@ + u16_bytes(x),
{
    out.push((x % 256) as u8);
    out.push((x / 256) as u8);
    assert(out@ =~= old(out)@ + u16_bytes(x));
}

pub fn append_u32(out: &mut Vec<u8>, x: u32)
    ensures
        final(out)@ == old(out)@ + u32_bytes(x),
{
    out.push((x % 256) as u8);
    out.push(((x / 256) % 256) as u8);
    out.push(((x / 65536) % 256) as u8);
    out.push((x / 16777216) as u8);
    assert(out@ =~= old(out)@ + u32_bytes(x));
}

fn find_nul(t: &[u8]) -> (r: bool)
    ensures
        r == has_nul(t@),
{
    let mut i: usize = 0;
    while i < t.len()
        invariant
            i <= t@.len(),
            forall|k: int| 0 <= k < i ==> t@[k] != 0,
        decreases t@.len() - i,
    {
        if t[i] == 0 {
            return true;
        }
        i = i + 1;
    }
    false
}

fn write_texts(ts: &Vec<Vec<u8>>, out: &mut Vec<u8>) -> (r: Result<(), ErrorKind>)
    ensures
        match encode_slot(Slot::TextList, ScalarModel::TextList(texts_view(ts@))) {
            Ok(bs) => r is Ok && final(out)@ == old(out)@ + bs,
            Err(e) => r == Err::<(), ErrorKind>(e),
        },
{
    let ghost tv = texts_view(ts@);
    if ts.len() > 255 {
        return Err(ErrorKind::EncodeOverflow);
    }
    let mut k: usize = 0;
    while k < ts.len()
        invariant
            tv == texts_view(ts@),
            k <= ts@.len(),
            ts@.len() <= 255,
            forall|j: int| 0 <= j < k ==> !has_nul(#[trigger] tv[j]),
        decreases ts@.len() - k,
    {
        assert(tv[k as int] == ts@[k as int]@);
        if find_nul(ts[k].as_slice()) {
            assert(has_nul(tv[k as int]));
            return Err(ErrorKind::ValueMismatch);
        }
        k = k + 1;
    }
    let ghost start = out@;
    out.push(ts.len() as u8);
    k = 0;
    assert(cstrs_bytes(tv) == cstrs_bytes(tv.subrange(0, 0)) + cstrs_bytes(tv.subrange(0, tv.len() as int))) by {
        assert(tv.subrange(0, 0) =~= seq![]);
        assert(tv.subrange(0, tv.len() as int) =~= tv);
        assert(cstrs_bytes(seq![]) + cstrs_bytes(tv) =~= cstrs_bytes(tv));
    }
    while k < ts.len()
        invariant
            tv == texts_view(ts@),
            k <= ts@.len(),
            ts@.len() <= 255,
            forall|j: int| 0 <= j < ts@.len() ==> !has_nul(#[trigger] tv[j]),
            out@ == start.push(ts@.len() as u8) + cstrs_bytes(tv.subrange(0, k as int)),
            cstrs_bytes(tv) == cstrs_bytes(tv.subrange(0, k as int)) + cstrs_bytes(
                tv.subrange(k as int, tv.len() as int),
            ),
        decreases ts@.len() - k,
    {
        let ghost before = out@;
        append_bytes(out, ts[k].as_slice());
        out.push(0);
        proof {
            let rest = tv.subrange(k as int, tv.len() as int);
            assert(rest[0] == tv[k as int]);
            assert(rest.drop_first() =~= tv.subrange(k + 1, tv.len() as int));
            assert(cstrs_bytes(rest) == tv[k as int].push(0) + cstrs_bytes(rest.drop_first()));
            lemma_cstrs_bytes_push(tv.subrange(0, k as int), tv[k as int]);
            assert(tv.subrange(0, k as int).push(tv[k as int]) =~= tv.subrange(0, k + 1));
            assert(out@ =~= before + tv[k as int].push(0));
        }
        k = k + 1;
    }
    assert(tv.subrange(0, tv.len() as int) =~= tv);
    assert(out@ =~= start + (seq![ts@.len() as u8] + cstrs_bytes(tv)));
    Ok(())
}

pub proof fn lemma_cstrs_bytes_push(ts: Seq<Seq<u8>>, t: Seq<u8>)
    ensures
        cstrs_bytes(ts.push(t)) == cstrs_bytes(ts) + t.push(0),
    decreases ts.len(),
{
    assert(ts.push(t)[0] == if ts.len() == 0 {
        t
    } else {
        ts[0]
    });
    if ts.len() == 0 {
        assert(ts =~= seq![]);
        assert(ts.push(t).drop_first() =~= seq![]);
        assert(cstrs_bytes(ts.push(t).drop_first()) == Seq::<u8>::empty());
        assert(t.push(0) + seq![] =~= t.push(0));
        assert(seq![] + t.push(0) =~= t.push(0));
    } else {
        assert(ts.push(t).drop_first() =~= ts.drop_first().push(t));
        lemma_cstrs_bytes_push(ts.drop_first(), t);
        assert(ts[0].push(0) + (cstrs_bytes(ts.drop_first()) + t.push(0)) =~= (ts[0].push(0)
            + cstrs_bytes(ts.drop_first())) + t.push(0));
    }
}

/// Appends one field of kind `slot` holding `v`.
pub fn write_slot(slot: Slot, v: &Scalar, out: &mut Vec<u8>) -> (r: Result<(), ErrorKind>)
    ensures
        match encode_slot(slot, v@) {
            Ok(bs) => r is Ok && final(out)@ == old(out)@ + bs,
            Err(e) => r == Err::<(), ErrorKind>(e),
        },
{
    match (slot, v) {
        (Slot::U8, Scalar::U8(x)) => {
            out.push(*x);
            assert(out@ =~= old(out)@ + seq![*x]);
            Ok(())
        },
        (Slot::I8, Scalar::I8(x)) => {
            out.push(*x as u8);
            assert(out@ =~= old(out)@ + seq![*x as u8]);
            Ok(())
        },
        (Slot::U16, Scalar::U16(x)) => {
            append_u16(out, *x);
            Ok(())
        },
        (Slot::I16, Scalar::I16(x)) => {
            append_u16(out, *x as u16);
            Ok(())
        },
        (Slot::U32, Scalar::U32(x)) => {
            append_u32(out, *x);
            Ok(())
        },
        (Slot::I32, Scalar::I32(x)) => {
            append_u32(out, *x as u32);
            Ok(())
        },
        (Slot::F32, Scalar::F32(x)) => {
            append_u32(out, *x);
            Ok(())
        },
        (Slot::Text, Scalar::Text(t)) => {
            if find_nul(t.as_slice()) {
                return Err(ErrorKind::ValueMismatch);
            }
            append_bytes(out, t.as_slice());
            out.push(0);
            assert(out@ =~= old(out)@ + t@.push(0));
            Ok(())
        },
        (Slot::Fixed(n), Scalar::Bytes(t)) => {
            if t.len() != n {
                return Err(ErrorKind::ValueMismatch);
            }
            append_bytes(out, t.as_slice());
            Ok(())
        },
        (Slot::U8Len, Scalar::Bytes(t)) => {
            if t.len() > 255 {
                return Err(ErrorKind::EncodeOverflow);
            }
            out.push(t.len() as u8);
            append_bytes(out, t.as_slice());
            assert(out@ =~= old(out)@ + (seq![t.len() as u8] + t@));
            Ok(())
        },
        (Slot::TextList, Scalar::TextList(ts)) => write_texts(ts, out),
        (Slot::U16Len, Scalar::Bytes(t)) => {
            if t.len() > 65535 {
                return Err(ErrorKind::EncodeOverflow);
            }
            append_u16(out, t.len() as u16);
            append_bytes(out, t.as_slice());
            assert(out@ =~= old(out)@ + (u16_bytes(t.len() as u16) + t@));
            Ok(())
        },
        _ => Err(ErrorKind::ValueMismatch),
    }
}

/// Appends the values `vs` laid out by `slots`.
pub fn write_slots(slots: &Vec<Slot>, vs: &Vec<Scalar>, out: &mut Vec<u8>) -> (r: Result<
    (),
    ErrorKind,
>)
    ensures
        match encode_slots(slots@, scalars_view(vs@), 0) {
            Ok(bs) => r is Ok && final(out)@ == old(out)@ + bs,
            Err(e) => r == Err::<(), ErrorKind>(e),
        },
{
    let ghost sv = scalars_view(vs@);
    if slots.len() != vs.len() {
        return Err(ErrorKind::ValueMismatch);
    }
    let ghost start = out@;
    let mut i: usize = 0;
    assert(start + seq![] =~= start);
    assert(out@.subrange(0, start.len() as int) =~= start);
    assert(out@.subrange(start.len() as int, out@.len() as int) =~= seq![]);
    proof {
        if let Ok(all) = encode_slots(slots@, sv, 0) {
            assert(seq![] + all =~= all);
        }
    }
    while i < slots.len()
        invariant
            sv == scalars_view(vs@),
            slots@.len() == vs@.len(),
            i <= slots@.len(),
            start.len() <= out@.len(),
            out@.subrange(0, start.len() as int) == start,
            match encode_slots(slots@, sv, 0) {
                Ok(all) => match encode_slots(slots@, sv, i as int) {
                    Ok(rest) => all == out@.subrange(start.len() as int, out@.len() as int) + rest,
                    Err(_) => false,
                },
                Err(e) => encode_slots(slots@, sv, i as int) == Err::<Seq<u8>, ErrorKind>(e),
            },
        decreases slots@.len() - i,
    {
        let ghost before = out@;
        match write_slot(slots[i], &vs[i], out) {
            Ok(_) => {},
            Err(e) => {
                return Err(e);
            },
        }
        proof {
            if let Ok(h) = encode_slot(slots@[i as int], sv[i as int]) {
                assert(out@ == before + h);
                assert(out@.subrange(0, start.len() as int) =~= start);
                if let Ok(rest) = encode_slots(slots@, sv, i + 1) {
                    assert(out@.subrange(start.len() as int, out@.len() as int) =~= before.subrange(
                        start.len() as int,
                        before.len() as int,
                    ) + h);
                }
            }
        }
        i = i + 1;
    }
    proof {
        if let Ok(all) = encode_slots(slots@, sv, 0) {
            assert(out@ =~= start + all);
        }
    }
    Ok(())
}

} // verus!
