//! Writing a delta and reading it back with the same descriptors gives back
//! exactly the fields that were written.
use vstd::arithmetic::power2::{lemma2_to64, lemma_pow2_pos, lemma_pow2_unfold, pow2};
use vstd::prelude::*;

use crate::bits::{
    bits_of, bits_value, bytes_bits, lemma_bits_value_of, take_bits,
};
use crate::delta::{
    descriptor_ok, encode_delta_spec, encode_field, encode_fields, field_width, has_nul, is_signed,
    kind_of, lookup, marked_extent, mask_bits, mask_bytes, mask_presence, number_value,
    parse_delta_spec, parse_field, parse_fields, parse_text, presence, signed_value, text_bits,
    DeltaModel, DescriptorModel, FieldKind, ValueModel,
};

verus! {

/// No two descriptors share a name.
pub open spec fn names_unique(descs: Seq<DescriptorModel>) -> bool {
    forall|i: int, j: int|
        0 <= i < descs.len() && 0 <= j < descs.len() && #[trigger] descs[i].name
            == #[trigger] descs[j].name ==> i == j
}

/// Every key of `d` names a descriptor.
pub open spec fn keys_described(d: DeltaModel, descs: Seq<DescriptorModel>) -> bool {
    forall|j: int|
        0 <= j < d.len() ==> exists|i: int| 0 <= i < descs.len() && descs[i].name == #[trigger] d[j].0
}

/// The entries that reading back the delta written from `d` yields, from
/// descriptor `i` on: each described field that `d` holds, in descriptor order.
pub open spec fn present_entries(descs: Seq<DescriptorModel>, d: DeltaModel, i: int) -> DeltaModel
    decreases descs.len() - i,
{
    if i < 0 || i >= descs.len() {
        seq![]
    } else {
        match lookup(d, descs[i].name) {
            Some(v) => seq![(descs[i].name, v)] + present_entries(descs, d, i + 1),
            None => present_entries(descs, d, i + 1),
        }
    }
}

proof fn lemma_text_round_trip(t: Seq<u8>, s: Seq<bool>, pos: int)
    requires
        !has_nul(t),
        0 <= pos,
        pos + text_bits(t).len() <= s.len(),
        s.subrange(pos, pos + text_bits(t).len()) == text_bits(t),
    ensures
        parse_text(s, pos) == Ok::<_, crate::error::ErrorKind>((t, pos + text_bits(t).len())),
    decreases t.len(),
{
    lemma2_to64();
    let tb = text_bits(t);
    assert(tb.subrange(0, 8) == s.subrange(pos, pos + 8));
    if t.len() == 0 {
        assert(tb =~= bits_of(0, 8));
        lemma_bits_value_of(0, 8);
        assert(take_bits(s, pos, 8) == Some(0nat));
        assert(t =~= seq![]);
    } else {
        let c = t[0];
        assert(tb.subrange(0, 8) =~= bits_of(c as nat, 8));
        lemma_bits_value_of(c as nat, 8);
        assert(take_bits(s, pos, 8) == Some(c as nat));
        let u = t.drop_first();
        assert(!has_nul(u)) by {
            if has_nul(u) {
                let k = choose|k: int| 0 <= k < u.len() && u[k] == 0;
                assert(t[k + 1] == 0);
            }
        }
        assert(text_bits(u) =~= tb.subrange(8, tb.len() as int));
        assert(s.subrange(pos + 8, pos + 8 + text_bits(u).len()) =~= text_bits(u));
        lemma_text_round_trip(u, s, pos + 8);
        assert(seq![c] + u =~= t);
        assert(text_bits(t).len() == text_bits(u).len() + 8);
        assert(c != 0) by {
            assert(t[0] == c);
        }
    }
}

proof fn lemma_field_round_trip(d: DescriptorModel, v: ValueModel, s: Seq<bool>, pos: int)
    requires
        encode_field(d, v) is Ok,
        0 <= pos,
        pos + encode_field(d, v)->Ok_0.len() <= s.len(),
        s.subrange(pos, pos + encode_field(d, v)->Ok_0.len()) == encode_field(d, v)->Ok_0,
    ensures
        parse_field(d, s, pos) == Ok::<_, crate::error::ErrorKind>(
            (v, pos + encode_field(d, v)->Ok_0.len()),
        ),
{
    let fb = encode_field(d, v)->Ok_0;
    if kind_of(d.flags) == Some(FieldKind::Text) {
        let t = v->Text_0;
        lemma_text_round_trip(t, s, pos);
    } else {
        let w = field_width(d);
        assert(w >= 1);
        lemma_pow2_unfold(w);
        lemma_pow2_pos((w - 1) as nat);
        if is_signed(d.flags) {
            let x = v->Signed_0;
            let raw: int = if x < 0 {
                x + pow2(w)
            } else {
                x as int
            };
            lemma_bits_value_of(raw as nat, w);
            assert(take_bits(s, pos, w) == Some(raw as nat));
            assert(signed_value(raw as nat, w) == x);
            assert(number_value(d, raw as nat) == v);
        } else {
            let x = v->Unsigned_0;
            lemma_bits_value_of(x as nat, w);
            assert(take_bits(s, pos, w) == Some(x as nat));
        }
    }
}

proof fn lemma_fields_round_trip(
    descs: Seq<DescriptorModel>,
    d: DeltaModel,
    s: Seq<bool>,
    pos: int,
    i: int,
)
    requires
        0 <= i <= descs.len(),
        encode_fields(descs, d, i) is Ok,
        0 <= pos,
        pos + encode_fields(descs, d, i)->Ok_0.len() <= s.len(),
        s.subrange(pos, pos + encode_fields(descs, d, i)->Ok_0.len()) == encode_fields(
            descs,
            d,
            i,
        )->Ok_0,
    ensures
        parse_fields(descs, presence(descs, d), s, pos, i) == Ok::<_, crate::error::ErrorKind>(
            (present_entries(descs, d, i), pos + encode_fields(descs, d, i)->Ok_0.len()),
        ),
    decreases descs.len() - i,
{
    let p = presence(descs, d);
    if i < descs.len() {
        let fb = encode_fields(descs, d, i)->Ok_0;
        match lookup(d, descs[i].name) {
            None => {
                lemma_fields_round_trip(descs, d, s, pos, i + 1);
            },
            Some(v) => {
                let b = encode_field(descs[i], v)->Ok_0;
                let rest = encode_fields(descs, d, i + 1)->Ok_0;
                assert(fb == b + rest);
                assert(s.subrange(pos, pos + b.len()) =~= fb.subrange(0, b.len() as int));
                assert(fb.subrange(0, b.len() as int) =~= b);
                lemma_field_round_trip(descs[i], v, s, pos);
                assert forall|k: int| 0 <= k < rest.len() implies s[pos + b.len() + k] == rest[k] by {
                    assert(s.subrange(pos, pos + fb.len())[b.len() + k] == s[pos + b.len() + k]);
                    assert(fb[b.len() + k] == rest[k]);
                }
                assert(s.subrange(pos + b.len(), pos + b.len() + rest.len()) =~= rest);
                lemma_fields_round_trip(descs, d, s, pos + b.len(), i + 1);
            },
        }
    }
}

proof fn lemma_marked_extent(p: Seq<bool>)
    ensures
        marked_extent(p) <= p.len(),
        forall|i: int| 0 <= i < p.len() && #[trigger] p[i] ==> i < marked_extent(p),
    decreases p.len(),
{
    if p.len() > 0 {
        lemma_marked_extent(p.drop_last());
        assert forall|i: int| 0 <= i < p.len() && #[trigger] p[i] implies i < marked_extent(p) by {
            if i < p.len() - 1 {
                assert(p.drop_last()[i] == p[i]);
            }
        }
    }
}

proof fn lemma_lookup_key(d: DeltaModel, k: Seq<u8>)
    ensures
        lookup(d, k) is Some ==> exists|j: int| 0 <= j < d.len() && d[j].0 == k,
    decreases d.len(),
{
    if d.len() > 0 && d[0].0 != k {
        lemma_lookup_key(d.drop_first(), k);
        if lookup(d, k) is Some {
            let j = choose|j: int| 0 <= j < d.len() - 1 && d.drop_first()[j].0 == k;
            assert(d[j + 1].0 == k);
        }
    }
}

pub proof fn lemma_present_lookup(descs: Seq<DescriptorModel>, d: DeltaModel, i: int, k: Seq<u8>)
    requires
        names_unique(descs),
        0 <= i <= descs.len(),
    ensures
        lookup(present_entries(descs, d, i), k) == if exists|j: int|
            i <= j < descs.len() && descs[j].name == k {
            lookup(d, k)
        } else {
            None
        },
    decreases descs.len() - i,
{
    if i < descs.len() {
        lemma_present_lookup(descs, d, i + 1, k);
        let rest = present_entries(descs, d, i + 1);
        if descs[i].name == k {
            assert(!exists|j: int| i + 1 <= j < descs.len() && descs[j].name == k);
            match lookup(d, descs[i].name) {
                Some(v) => {
                    assert((seq![(descs[i].name, v)] + rest)[0] == (descs[i].name, v));
                },
                None => {},
            }
        } else {
            match lookup(d, descs[i].name) {
                Some(v) => {
                    assert((seq![(descs[i].name, v)] + rest).drop_first() =~= rest);
                },
                None => {},
            }
            if exists|j: int| i <= j < descs.len() && descs[j].name == k {
                let j = choose|j: int| i <= j < descs.len() && descs[j].name == k;
                assert(i + 1 <= j);
            }
        }
    }
}

/// The bits of a delta, wherever they stand in a stream, read back as the
/// fields it holds that the descriptors name, in descriptor order.
pub proof fn lemma_delta_reads_back_at(descs: Seq<DescriptorModel>, d: DeltaModel, s: Seq<bool>, pos: int)
    requires
        encode_delta_spec(descs, d) is Ok,
        0 <= pos,
        pos + encode_delta_spec(descs, d)->Ok_0.len() <= s.len(),
        s.subrange(pos, pos + encode_delta_spec(descs, d)->Ok_0.len()) == encode_delta_spec(
            descs,
            d,
        )->Ok_0,
    ensures
        parse_delta_spec(descs, s, pos) == Ok::<_, crate::error::ErrorKind>(
            (present_entries(descs, d, 0), pos + encode_delta_spec(descs, d)->Ok_0.len()),
        ),
{
    reveal(encode_delta_spec);
    reveal(parse_delta_spec);
    lemma2_to64();
    let p = presence(descs, d);
    let c = mask_bytes(p);
    let m: int = 8 * (c as int);
    let header = seq![true] + bits_of(c, 3) + mask_bits(p, c);
    let fb = encode_fields(descs, d, 0)->Ok_0;
    let bits = encode_delta_spec(descs, d)->Ok_0;
    assert(bits == header + fb);
    assert forall|k: int| 0 <= k < bits.len() implies #[trigger] s[pos + k] == bits[k] by {
        assert(s.subrange(pos, pos + bits.len())[k] == s[pos + k]);
    }
    assert(s[pos + 0] == bits[0]);
    crate::bits::lemma_take_one(s, pos);
    assert(s.subrange(pos + 1, pos + 4) =~= bits_of(c, 3)) by {
        assert forall|k: int| 0 <= k < 3 implies s.subrange(pos + 1, pos + 4)[k] == bits_of(c, 3)[k] by {
            assert(s[pos + (1 + k)] == bits[1 + k]);
        }
    }
    lemma_bits_value_of(c, 3);
    assert(take_bits(s, pos + 1, 3) == Some(c));
    assert(s.subrange(pos + 4, pos + 4 + m) =~= mask_bits(p, c)) by {
        assert forall|k: int| 0 <= k < m implies s.subrange(pos + 4, pos + 4 + m)[k] == mask_bits(p, c)[k] by {
            assert(s[pos + (4 + k)] == bits[4 + k]);
        }
    }
    lemma_marked_extent(p);
    assert(mask_presence(descs.len(), true, s.subrange(pos + 4, pos + 4 + m)) =~= p);
    assert(s.subrange(pos + 4 + m, pos + 4 + m + fb.len()) =~= fb) by {
        assert forall|k: int| 0 <= k < fb.len() implies s.subrange(pos + 4 + m, pos + 4 + m + fb.len())[k] == fb[k] by {
            assert(s[pos + (4 + m + k)] == bits[4 + m + k]);
        }
    }
    lemma_fields_round_trip(descs, d, s, pos + 4 + m, 0);
}

proof fn lemma_lookup_skip(x: DeltaModel, y: DeltaModel, k: Seq<u8>)
    requires
        forall|i: int| 0 <= i < x.len() ==> x[i].0 != k,
    ensures
        lookup(x + y, k) == lookup(y, k),
    decreases x.len(),
{
    if x.len() > 0 {
        assert((x + y).drop_first() =~= x.drop_first() + y);
        lemma_lookup_skip(x.drop_first(), y, k);
    } else {
        assert(x + y =~= y);
    }
}

proof fn lemma_present_skip(descs: Seq<DescriptorModel>, x: DeltaModel, y: DeltaModel, i: int)
    requires
        forall|a: int, j: int|
            0 <= a < x.len() && i <= j < descs.len() ==> #[trigger] x[a].0 != #[trigger] descs[j].name,
    ensures
        present_entries(descs, x + y, i) == present_entries(descs, y, i),
    decreases descs.len() - i,
{
    if 0 <= i < descs.len() {
        lemma_lookup_skip(x, y, descs[i].name);
        lemma_present_skip(descs, x, y, i + 1);
    }
}

proof fn lemma_fields_names(
    descs: Seq<DescriptorModel>,
    present: Seq<bool>,
    s: Seq<bool>,
    pos: int,
    i: int,
)
    requires
        0 <= i,
        parse_fields(descs, present, s, pos, i) is Ok,
    ensures
        forall|a: int|
            0 <= a < parse_fields(descs, present, s, pos, i)->Ok_0.0.len() ==> exists|j: int|
                i <= j < descs.len() && #[trigger] parse_fields(
                    descs,
                    present,
                    s,
                    pos,
                    i,
                )->Ok_0.0[a].0 == descs[j].name,
    decreases descs.len() - i,
{
    if i < descs.len() {
        if !present[i] {
            lemma_fields_names(descs, present, s, pos, i + 1);
        } else {
            let (v, p) = parse_field(descs[i], s, pos)->Ok_0;
            lemma_fields_names(descs, present, s, p, i + 1);
            let es = parse_fields(descs, present, s, pos, i)->Ok_0.0;
            let tail = parse_fields(descs, present, s, p, i + 1)->Ok_0.0;
            assert(es == seq![(descs[i].name, v)] + tail);
            assert forall|a: int| 0 <= a < es.len() implies exists|j: int|
                i <= j < descs.len() && #[trigger] es[a].0 == descs[j].name by {
                if a == 0 {
                    assert(es[0].0 == descs[i].name);
                } else {
                    assert(es[a] == tail[a - 1]);
                }
            }
        }
    }
}

proof fn lemma_fields_canonical(
    descs: Seq<DescriptorModel>,
    present: Seq<bool>,
    s: Seq<bool>,
    pos: int,
    i: int,
)
    requires
        names_unique(descs),
        0 <= i,
        parse_fields(descs, present, s, pos, i) is Ok,
    ensures
        ({
            let es = parse_fields(descs, present, s, pos, i)->Ok_0.0;
            present_entries(descs, es, i) == es
        }),
    decreases descs.len() - i,
{
    let es = parse_fields(descs, present, s, pos, i)->Ok_0.0;
    if i < descs.len() {
        if !present[i] {
            lemma_fields_canonical(descs, present, s, pos, i + 1);
            lemma_fields_names(descs, present, s, pos, i + 1);
            lemma_lookup_key(es, descs[i].name);
            if lookup(es, descs[i].name) is Some {
                let a = choose|a: int| 0 <= a < es.len() && es[a].0 == descs[i].name;
                let j = choose|j: int| i + 1 <= j < descs.len() && es[a].0 == descs[j].name;
                assert(descs[i].name == descs[j].name);
            }
        } else {
            let (v, p) = parse_field(descs[i], s, pos)->Ok_0;
            lemma_fields_canonical(descs, present, s, p, i + 1);
            lemma_fields_names(descs, present, s, p, i + 1);
            let tail = parse_fields(descs, present, s, p, i + 1)->Ok_0.0;
            let x = seq![(descs[i].name, v)];
            assert(es == x + tail);
            assert forall|a: int, j: int|
                0 <= a < x.len() && i + 1 <= j < descs.len() implies #[trigger] x[a].0
                    != #[trigger] descs[j].name by {
                if x[a].0 == descs[j].name {
                    assert(descs[i].name == descs[j].name);
                }
            }
            lemma_present_skip(descs, x, tail, i + 1);
            assert(lookup(es, descs[i].name) == Some(v));
        }
    } else {
        assert(es =~= seq![]);
    }
}

/// A delta read against descriptors with distinct names lists the fields it
/// holds in descriptor order: it is its own set of present entries.
pub proof fn lemma_read_delta_canonical(descs: Seq<DescriptorModel>, s: Seq<bool>, pos: int)
    requires
        names_unique(descs),
        parse_delta_spec(descs, s, pos) is Ok,
    ensures
        ({
            let d = parse_delta_spec(descs, s, pos)->Ok_0.0;
            present_entries(descs, d, 0) == d
        }),
{
    reveal(parse_delta_spec);
    if take_bits(s, pos, 1) == Some(1nat) {
        let c = take_bits(s, pos + 1, 3)->Some_0;
        lemma_fields_canonical(
            descs,
            mask_presence(descs.len(), true, s.subrange(pos + 4, pos + 4 + 8 * c)),
            s,
            pos + 4 + 8 * c,
            0,
        );
    } else {
        lemma_fields_canonical(
            descs,
            mask_presence(descs.len(), false, seq![]),
            s,
            pos + 1,
            0,
        );
    }
}

/// Writing a delta whose keys all name distinct descriptors and reading it
/// back, with any bits after it, gives a delta with the same keys and values,
/// and stops right where the written bits end.
pub proof fn law_delta_round_trip(descs: Seq<DescriptorModel>, d: DeltaModel, rest: Seq<bool>)
    requires
        names_unique(descs),
        keys_described(d, descs),
        encode_delta_spec(descs, d) is Ok,
    ensures
        ({
            let bits = encode_delta_spec(descs, d)->Ok_0;
            let back = parse_delta_spec(descs, bits + rest, 0);
            &&& back is Ok
            &&& back->Ok_0.1 == bits.len()
            &&& forall|k: Seq<u8>| #[trigger] lookup(back->Ok_0.0, k) == lookup(d, k)
        }),
{
    reveal(encode_delta_spec);
    reveal(parse_delta_spec);
    lemma2_to64();
    let p = presence(descs, d);
    let c = mask_bytes(p);
    let m: int = 8 * (c as int);
    let header = seq![true] + bits_of(c, 3) + mask_bits(p, c);
    let fb = encode_fields(descs, d, 0)->Ok_0;
    let bits = encode_delta_spec(descs, d)->Ok_0;
    assert(bits == header + fb);
    let s = bits + rest;
    assert(s.subrange(0, 1) =~= seq![true]);
    crate::bits::lemma_take_one(s, 0);
    assert(s.subrange(1, 4) =~= bits_of(c, 3));
    lemma_bits_value_of(c, 3);
    assert(take_bits(s, 1, 3) == Some(c));
    assert(s.subrange(4, 4 + m) =~= mask_bits(p, c));
    lemma_marked_extent(p);
    assert(mask_presence(descs.len(), true, s.subrange(4, 4 + m)) =~= p);
    assert(s.subrange(4 + m, 4 + m + fb.len()) =~= fb);
    lemma_fields_round_trip(descs, d, s, 4 + m, 0);
    assert forall|k: Seq<u8>| #[trigger] lookup(present_entries(descs, d, 0), k) == lookup(d, k) by {
        lemma_present_lookup(descs, d, 0, k);
        lemma_lookup_key(d, k);
        if lookup(d, k) is Some {
            let j = choose|j: int| 0 <= j < d.len() && d[j].0 == k;
            assert(exists|i: int| 0 <= i < descs.len() && descs[i].name == d[j].0);
        }
    }
}

} // verus!
