//! Messages written by the codec read back as themselves.
use vstd::prelude::*;

use crate::bytes::{
    cstrs_bytes, parse_cstrs,
    encode_slot, encode_slots, layout, parse_cstr, parse_slot, parse_slots, u16_at, u16_bytes,
    u32_at, u32_bytes, ScalarModel, Slot,
};
use crate::delta::has_nul;
use crate::error::ErrorKind;
use crate::netmsg::{encode_message, parse_message, MessageModel, SessionModel, SVC_MAX_ENGINE};

verus! {

pub proof fn lemma_cstr_round_trip(t: Seq<u8>, b: Seq<u8>, pos: int)
    requires
        !has_nul(t),
        0 <= pos,
        pos + t.len() + 1 <= b.len(),
        b.subrange(pos, pos + t.len() + 1) == t.push(0),
    ensures
        parse_cstr(b, pos) == Ok::<_, ErrorKind>((t, pos + t.len() + 1)),
    decreases t.len(),
{
    assert(b[pos] == t.push(0)[0]);
    if t.len() > 0 {
        let u = t.drop_first();
        assert(!has_nul(u)) by {
            if has_nul(u) {
                let k = choose|k: int| 0 <= k < u.len() && u[k] == 0;
                assert(t[k + 1] == 0);
            }
        }
        assert forall|k: int| 0 <= k < u.len() + 1 implies b.subrange(pos + 1, pos + 1 + u.len() + 1)[k]
            == u.push(0)[k] by {
            assert(b.subrange(pos, pos + t.len() + 1)[k + 1] == t.push(0)[k + 1]);
            assert(u.push(0)[k] == t.push(0)[k + 1]);
        }
        assert(b.subrange(pos + 1, pos + 1 + u.len() + 1) =~= u.push(0));
        lemma_cstr_round_trip(u, b, pos + 1);
        assert(seq![t[0]] + u =~= t);
    } else {
        assert(t =~= seq![]);
    }
}

proof fn lemma_cstrs_round_trip(ts: Seq<Seq<u8>>, b: Seq<u8>, pos: int)
    requires
        forall|k: int| 0 <= k < ts.len() ==> !has_nul(#[trigger] ts[k]),
        0 <= pos,
        pos + cstrs_bytes(ts).len() <= b.len(),
        b.subrange(pos, pos + cstrs_bytes(ts).len()) == cstrs_bytes(ts),
    ensures
        parse_cstrs(b, pos, ts.len()) == Ok::<_, ErrorKind>((ts, pos + cstrs_bytes(ts).len())),
    decreases ts.len(),
{
    if ts.len() == 0 {
        assert(ts =~= seq![]);
    } else {
        let h = ts[0].push(0);
        let rest = cstrs_bytes(ts.drop_first());
        let all = cstrs_bytes(ts);
        assert(all == h + rest);
        assert(!has_nul(ts[0]));
        assert(b.subrange(pos, pos + h.len()) =~= h) by {
            assert forall|k: int| 0 <= k < h.len() implies b.subrange(pos, pos + h.len())[k]
                == h[k] by {
                assert(b.subrange(pos, pos + all.len())[k] == all[k]);
            }
        }
        lemma_cstr_round_trip(ts[0], b, pos);
        assert(b.subrange(pos + h.len(), pos + h.len() + rest.len()) =~= rest) by {
            assert forall|k: int| 0 <= k < rest.len() implies b.subrange(
                pos + h.len(),
                pos + h.len() + rest.len(),
            )[k] == rest[k] by {
                assert(b.subrange(pos, pos + all.len())[h.len() + k] == all[h.len() + k]);
            }
        }
        let u = ts.drop_first();
        assert forall|k: int| 0 <= k < u.len() implies !has_nul(#[trigger] u[k]) by {
            assert(u[k] == ts[k + 1]);
        }
        lemma_cstrs_round_trip(u, b, pos + h.len());
        assert(seq![ts[0]] + u =~= ts);
    }
}

pub proof fn lemma_u16_round_trip(x: u16)
    ensures
        u16_at(u16_bytes(x), 0) == x,
{
    let b = u16_bytes(x);
    assert(b[0] == x % 256);
    assert(b[1] == x / 256);
}

proof fn lemma_u32_round_trip(x: u32)
    ensures
        u32_at(u32_bytes(x), 0) == x,
{
    let b = u32_bytes(x);
    assert(b[0] == x % 256);
    assert(b[1] == (x / 256) % 256);
    assert(b[2] == (x / 65536) % 256);
    assert(b[3] == x / 16777216);
    assert(x % 256 + 256 * ((x / 256) % 256) + 65536 * ((x / 65536) % 256) + 16777216 * (x
        / 16777216) == x) by (nonlinear_arith);
}

proof fn lemma_slot_round_trip(slot: Slot, v: ScalarModel, b: Seq<u8>, pos: int)
    requires
        encode_slot(slot, v) is Ok,
        0 <= pos,
        pos + encode_slot(slot, v)->Ok_0.len() <= b.len(),
        b.subrange(pos, pos + encode_slot(slot, v)->Ok_0.len()) == encode_slot(slot, v)->Ok_0,
    ensures
        parse_slot(slot, b, pos) == Ok::<_, ErrorKind>(
            (v, pos + encode_slot(slot, v)->Ok_0.len()),
        ),
{
    let e = encode_slot(slot, v)->Ok_0;
    assert forall|k: int| 0 <= k < e.len() implies #[trigger] b[pos + k] == e[k] by {
        assert(b.subrange(pos, pos + e.len())[k] == b[pos + k]);
    }
    if e.len() >= 1 {
        assert(b[pos + 0] == e[0]);
    }
    if e.len() >= 2 {
        assert(b[pos + 1] == e[1]);
    }
    if e.len() >= 4 {
        assert(b[pos + 2] == e[2]);
        assert(b[pos + 3] == e[3]);
    }
    match (slot, v) {
        (Slot::I8, ScalarModel::I8(x)) => {
            assert((x as u8) as i8 == x) by (bit_vector);
        },
        (Slot::U16, ScalarModel::U16(x)) => {
            lemma_u16_round_trip(x);
            assert(u16_at(b, pos) == u16_at(u16_bytes(x), 0));
        },
        (Slot::I16, ScalarModel::I16(x)) => {
            lemma_u16_round_trip(x as u16);
            assert(u16_at(b, pos) == u16_at(u16_bytes(x as u16), 0));
            assert((x as u16) as i16 == x) by (bit_vector);
        },
        (Slot::U32, ScalarModel::U32(x)) => {
            lemma_u32_round_trip(x);
            assert(u32_at(b, pos) == u32_at(u32_bytes(x), 0));
        },
        (Slot::I32, ScalarModel::I32(x)) => {
            lemma_u32_round_trip(x as u32);
            assert(u32_at(b, pos) == u32_at(u32_bytes(x as u32), 0));
            assert((x as u32) as i32 == x) by (bit_vector);
        },
        (Slot::F32, ScalarModel::F32(x)) => {
            lemma_u32_round_trip(x);
            assert(u32_at(b, pos) == u32_at(u32_bytes(x), 0));
        },
        (Slot::Text, ScalarModel::Text(t)) => {
            lemma_cstr_round_trip(t, b, pos);
        },
        (Slot::Fixed(n), ScalarModel::Bytes(t)) => {
            assert(b.subrange(pos, pos + n) =~= t);
        },
        (Slot::U8Len, ScalarModel::Bytes(t)) => {
            assert(b[pos + 0] == e[0]);
            assert forall|k: int| 0 <= k < t.len() implies b.subrange(pos + 1, pos + 1 + t.len())[k]
                == t[k] by {
                assert(b[pos + (1 + k)] == e[1 + k]);
            }
            assert(b.subrange(pos + 1, pos + 1 + t.len()) =~= t);
        },
        (Slot::TextList, ScalarModel::TextList(ts)) => {
            let c = cstrs_bytes(ts);
            assert(e == seq![ts.len() as u8] + c);
            assert(b[pos + 0] == ts.len() as u8);
            assert forall|k: int| 0 <= k < c.len() implies b.subrange(pos + 1, pos + 1 + c.len())[k]
                == c[k] by {
                assert(b[pos + (1 + k)] == e[1 + k]);
            }
            assert(b.subrange(pos + 1, pos + 1 + c.len()) =~= c);
            lemma_cstrs_round_trip(ts, b, pos + 1);
        },
        (Slot::U16Len, ScalarModel::Bytes(t)) => {
            lemma_u16_round_trip(t.len() as u16);
            assert(u16_at(b, pos) == u16_at(u16_bytes(t.len() as u16), 0));
            assert(b[pos + 0] == e[0]);
            assert(b[pos + 1] == e[1]);
            assert forall|k: int| 0 <= k < t.len() implies b.subrange(pos + 2, pos + 2 + t.len())[k]
                == t[k] by {
                assert(b[pos + (2 + k)] == e[2 + k]);
            }
            assert(b.subrange(pos + 2, pos + 2 + t.len()) =~= t);
        },
        _ => {},
    }
}

proof fn lemma_slots_round_trip(slots: Seq<Slot>, vs: Seq<ScalarModel>, b: Seq<u8>, pos: int, i: int)
    requires
        0 <= i <= slots.len(),
        encode_slots(slots, vs, i) is Ok,
        0 <= pos,
        pos + encode_slots(slots, vs, i)->Ok_0.len() <= b.len(),
        b.subrange(pos, pos + encode_slots(slots, vs, i)->Ok_0.len()) == encode_slots(
            slots,
            vs,
            i,
        )->Ok_0,
    ensures
        parse_slots(slots, b, pos, i) == Ok::<_, ErrorKind>(
            (vs.subrange(i, vs.len() as int), pos + encode_slots(slots, vs, i)->Ok_0.len()),
        ),
    decreases slots.len() - i,
{
    let all = encode_slots(slots, vs, i)->Ok_0;
    if i < slots.len() {
        let h = encode_slot(slots[i], vs[i])->Ok_0;
        let t = encode_slots(slots, vs, i + 1)->Ok_0;
        assert(all == h + t);
        assert(b.subrange(pos, pos + h.len()) =~= h) by {
            assert forall|k: int| 0 <= k < h.len() implies b.subrange(pos, pos + h.len())[k]
                == h[k] by {
                assert(b.subrange(pos, pos + all.len())[k] == all[k]);
            }
        }
        lemma_slot_round_trip(slots[i], vs[i], b, pos);
        assert(b.subrange(pos + h.len(), pos + h.len() + t.len()) =~= t) by {
            assert forall|k: int| 0 <= k < t.len() implies b.subrange(
                pos + h.len(),
                pos + h.len() + t.len(),
            )[k] == t[k] by {
                assert(b.subrange(pos, pos + all.len())[h.len() + k] == all[h.len() + k]);
            }
        }
        lemma_slots_round_trip(slots, vs, b, pos + h.len(), i + 1);
        assert(seq![vs[i]] + vs.subrange(i + 1, vs.len() as int) =~= vs.subrange(i, vs.len() as int));
    } else {
        assert(vs.subrange(i, vs.len() as int) =~= seq![]);
    }
}

/// A fixed-layout message or a game message that can be written against a
/// session reads back, from its bytes with anything after them, as the same
/// message, and takes exactly the bytes that were written.
pub proof fn law_simple_message_round_trip(m: MessageModel, st: SessionModel, rest: Seq<u8>)
    requires
        m is Fixed || m is User,
        st.regs.len() == 256,
        encode_message(m, st) is Ok,
    ensures
        parse_message(encode_message(m, st)->Ok_0 + rest, st) == Ok::<_, ErrorKind>(
            (m, encode_message(m, st)->Ok_0.len()),
        ),
{
    reveal(encode_message);
    reveal(parse_message);
    let e = encode_message(m, st)->Ok_0;
    let b = e + rest;
    let body = b.subrange(1, b.len() as int);
    match m {
        MessageModel::Fixed(tag, fs) => {
            let l = layout(tag)->Some_0;
            let bs = encode_slots(l, fs, 0)->Ok_0;
            assert(e == seq![tag] + bs);
            assert(body.subrange(0, bs.len() as int) =~= bs);
            lemma_slots_round_trip(l, fs, body, 0, 0);
            assert(fs.subrange(0, fs.len() as int) =~= fs);
        },
        MessageModel::User(u) => {
            let reg = st.regs[u.id as int]->Some_0;
            if reg.length >= 0 {
                assert(body.subrange(0, reg.length as int) =~= u.payload);
            } else {
                assert(body[0] == u.payload.len());
                assert(body.subrange(1, 1 + u.payload.len() as int) =~= u.payload);
            }
        },
        _ => {},
    }
}

} // verus!
