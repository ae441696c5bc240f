//! The encoding of a document, and the law that decoding inverts it.
use crate::builder::{attach, frames_wf, put, FrameModel};
use crate::driver::{decode_spec, lemma_step_progress, run};
use crate::iter::{
    after_item, u32_le, Frame, TAG_ARRAY, TAG_FALSE, TAG_NULL, TAG_NUMBER, TAG_OBJECT, TAG_STRING,
    TAG_TRUE,
};
use crate::token::DecodeError;
use crate::value::{json_wf, keys_unique, Json};
use vstd::prelude::*;
use vstd::utf8::{decode_utf8, encode_utf8, encode_utf8_decode_utf8, encode_utf8_valid_utf8};

verus! {

/// `n` as four little-endian bytes.
pub open spec fn le32(n: nat) -> Seq<u8> {
    seq![(n % 256) as u8, ((n / 256) % 256) as u8, ((n / 65536) % 256) as u8, ((n / 16777216) % 256) as u8]
}

/// A text item: its tag, its UTF-8 length, its UTF-8 bytes.
pub open spec fn enc_text(tag: u8, s: Seq<char>) -> Seq<u8> {
    seq![tag] + le32(encode_utf8(s).len()) + encode_utf8(s)
}

/// The encoding of a document.
pub open spec fn encode(j: Json) -> Seq<u8>
    decreases j,
{
    match j {
        Json::Null => seq![TAG_NULL],
        Json::Bool(b) => seq![if b { TAG_TRUE } else { TAG_FALSE }],
        Json::Number(d) => enc_text(TAG_NUMBER, d),
        Json::Str(s) => enc_text(TAG_STRING, s),
        Json::Array(items) => seq![TAG_ARRAY] + le32(items.len()) + item_encs(items).flatten(),
        Json::Object(entries) => seq![TAG_OBJECT] + le32(entries.len()) + entry_encs(
            entries,
        ).flatten(),
    }
}

/// The encodings of the elements of an array, in order.
pub open spec fn item_encs(items: Seq<Json>) -> Seq<Seq<u8>>
    decreases items,
{
    Seq::new(items.len(), |i: int| if 0 <= i < items.len() { encode(items[i]) } else { Seq::empty() })
}

/// The encodings of the pairs of an object, in order: each key as a string
/// item, then its value.
pub open spec fn entry_encs(entries: Seq<(Seq<char>, Json)>) -> Seq<Seq<u8>>
    decreases entries,
{
    Seq::new(
        entries.len(),
        |i: int|
            if 0 <= i < entries.len() {
                enc_text(TAG_STRING, entries[i].0) + encode(entries[i].1)
            } else {
                Seq::empty()
            },
    )
}

pub open spec fn fits_u32(n: int) -> bool {
    0 <= n < 0x1_0000_0000
}

/// Every length and count in the document fits the four bytes that the
/// encoding gives it.
pub open spec fn encodable(j: Json) -> bool
    decreases j,
{
    match j {
        Json::Number(d) => fits_u32(encode_utf8(d).len() as int),
        Json::Str(s) => fits_u32(encode_utf8(s).len() as int),
        Json::Array(items) => fits_u32(items.len() as int) && forall|i: int|
            0 <= i < items.len() ==> encodable(#[trigger] items[i]),
        Json::Object(entries) => fits_u32(entries.len() as int) && forall|i: int|
            0 <= i < entries.len() ==> fits_u32(encode_utf8((#[trigger] entries[i]).0).len() as int)
                && encodable(entries[i].1),
        _ => true,
    }
}

/// How many elements or pairs a container holds.
pub open spec fn width(j: Json) -> nat {
    match j {
        Json::Array(items) => items.len(),
        Json::Object(entries) => entries.len(),
        _ => 0,
    }
}

/// The iterator and builder are where an item is expected: at the root, as
/// the next element of an array, or as the value of a key just read.
pub open spec fn expects_item(frames: Seq<Frame>, started: bool, stack: Seq<FrameModel>, root: Option<Json>) -> bool {
    if frames.len() == 0 {
        !started && stack.len() == 0 && root is None
    } else {
        let top = frames.last();
        &&& started && stack.len() > 0 && top.remaining > 0
        &&& if top.object {
            top.want_value && stack.last() matches FrameModel::Object(_, Some(_))
        } else {
            !top.want_value && stack.last() is Array
        }
    }
}

/// A frame waits for a value only inside an object with a pair to come.
pub open spec fn frames_ok(frames: Seq<Frame>) -> bool {
    forall|i: int|
        0 <= i < frames.len() ==> (#[trigger] frames[i]).want_value ==> (frames[i].object
            && frames[i].remaining > 0)
}

proof fn lemma_le32(b: Seq<u8>, p: int, n: nat)
    requires
        0 <= p,
        p + 4 <= b.len(),
        b.subrange(p, p + 4) == le32(n),
        n < 0x1_0000_0000,
    ensures
        u32_le(b, p) == n,
{
    assert(b[p] == le32(n)[0] && b[p + 1] == le32(n)[1] && b[p + 2] == le32(n)[2] && b[p + 3]
        == le32(n)[3]);
    let a0 = n % 256;
    let a1 = (n / 256) % 256;
    let a2 = (n / 65536) % 256;
    let a3 = (n / 16777216) % 256;
    assert(a0 + 256 * a1 + 65536 * a2 + 16777216 * a3 == n) by (nonlinear_arith)
        requires
            a0 == n % 256,
            a1 == (n / 256) % 256,
            a2 == (n / 65536) % 256,
            a3 == (n / 16777216) % 256,
            n < 0x1_0000_0000,
    ;
}

proof fn lemma_flatten_len(s: Seq<Seq<u8>>)
    requires
        forall|i: int| 0 <= i < s.len() ==> (#[trigger] s[i]).len() >= 1,
    ensures
        s.flatten().len() >= s.len(),
    decreases s.len(),
{
    if s.len() > 0 {
        lemma_flatten_len(s.drop_first());
    }
}

proof fn lemma_encode_nonempty(j: Json)
    ensures
        encode(j).len() >= 1,
{
}

/// The bytes of a text item at `pos` read back as its tag, its length and
/// its UTF-8 bytes.
proof fn lemma_text_at(b: Seq<u8>, pos: int, tag: u8, t: Seq<char>)
    requires
        0 <= pos,
        pos + enc_text(tag, t).len() <= b.len(),
        b.subrange(pos, pos + enc_text(tag, t).len()) == enc_text(tag, t),
        fits_u32(encode_utf8(t).len() as int),
    ensures
        b[pos] == tag,
        u32_le(b, pos + 1) == encode_utf8(t).len(),
        enc_text(tag, t).len() == 5 + encode_utf8(t).len(),
        b.subrange(pos + 5, pos + enc_text(tag, t).len()) == encode_utf8(t),
        valid_utf8_of(t),
        decode_utf8(encode_utf8(t)) == t,
{
    let e = enc_text(tag, t);
    let u = encode_utf8(t);
    let bs = b.subrange(pos, pos + e.len());
    assert(b[pos] == bs[0]);
    assert(e.subrange(1, 5) =~= le32(u.len()));
    assert(e.subrange(5, e.len() as int) =~= u);
    assert(b.subrange(pos + 1, pos + 5) =~= bs.subrange(1, 5));
    lemma_le32(b, pos + 1, u.len());
    assert(b.subrange(pos + 5, pos + e.len()) =~= bs.subrange(5, e.len() as int));
    encode_utf8_valid_utf8(t);
    encode_utf8_decode_utf8(t);
}

pub open spec fn valid_utf8_of(t: Seq<char>) -> bool {
    vstd::utf8::valid_utf8(encode_utf8(t))
}

/// One item, read where an item is expected, moves the iterator past its
/// encoding and places the item in the builder.
proof fn lemma_item(
    b: Seq<u8>,
    pos: int,
    frames: Seq<Frame>,
    started: bool,
    stack: Seq<FrameModel>,
    root: Option<Json>,
    j: Json,
)
    requires
        0 <= pos,
        pos + encode(j).len() <= b.len(),
        b.subrange(pos, pos + encode(j).len()) == encode(j),
        json_wf(j),
        encodable(j),
        expects_item(frames, started, stack, root),
        frames_ok(frames),
        frames_wf(stack),
    ensures
        attach(stack, root, j) is Ok,
        run(b, pos, frames, started, stack, root) == run(
            b,
            pos + encode(j).len(),
            after_item(frames, None),
            true,
            attach(stack, root, j).unwrap().0,
            attach(stack, root, j).unwrap().1,
        ),
    decreases j, width(j) + 2,
{
    let e = encode(j);
    let end = pos + e.len();
    lemma_step_progress(b, pos, frames, started);
    assert(b[pos] == e[0]);
    match j {
        Json::Number(d) => {
            lemma_text_at(b, pos, TAG_NUMBER, d);
        },
        Json::Str(t) => {
            lemma_text_at(b, pos, TAG_STRING, t);
        },
        Json::Array(items) => {
            lemma_open_array(b, pos, frames, started, stack, root, j);
        },
        Json::Object(entries) => {
            lemma_open_object(b, pos, frames, started, stack, root, j);
        },
        _ => {},
    }
}

/// An array read where an item is expected: opened, its elements read,
/// closed and placed.
proof fn lemma_open_array(
    b: Seq<u8>,
    pos: int,
    frames: Seq<Frame>,
    started: bool,
    stack: Seq<FrameModel>,
    root: Option<Json>,
    j: Json,
)
    requires
        0 <= pos,
        pos + encode(j).len() <= b.len(),
        b.subrange(pos, pos + encode(j).len()) == encode(j),
        json_wf(j),
        encodable(j),
        expects_item(frames, started, stack, root),
        frames_ok(frames),
        frames_wf(stack),
        j is Array,
    ensures
        attach(stack, root, j) is Ok,
        run(b, pos, frames, started, stack, root) == run(
            b,
            pos + encode(j).len(),
            after_item(frames, None),
            true,
            attach(stack, root, j).unwrap().0,
            attach(stack, root, j).unwrap().1,
        ),
    decreases j, width(j) + 1,
{
    let e = encode(j);
    let end = pos + e.len();
    lemma_step_progress(b, pos, frames, started);
    assert(b[pos] == e[0]);
    let items = j->Array_0;

    let n = items.len();
    let encs = item_encs(items);
    assert(e == seq![TAG_ARRAY] + le32(n) + encs.flatten());
    let bs = b.subrange(pos, end);
    assert(e.subrange(1, 5) =~= le32(n));
    assert(e.subrange(5, e.len() as int) =~= encs.flatten());
    assert(b.subrange(pos + 1, pos + 5) =~= bs.subrange(1, 5));
    lemma_le32(b, pos + 1, n);
    assert forall|i: int| 0 <= i < encs.len() implies (#[trigger] encs[i]).len() >= 1 by {
        lemma_encode_nonempty(items[i]);
    }
    lemma_flatten_len(encs);
    assert(b.subrange(pos + 5, end) =~= bs.subrange(5, e.len() as int));
    assert(encs.subrange(0, n as int) =~= encs);
    let child = Frame { object: false, remaining: n as usize, want_value: false };
    let fa = after_item(frames, None);
    let frames1 = after_item(frames, Some(child));
    let stack1 = stack.push(FrameModel::Array(Seq::empty()));
    assert(frames1 == fa.push(child));
    assert(run(b, pos, frames, started, stack, root) == run(b, pos + 5, frames1, true, stack1, root));
    assert(items.subrange(0, 0) =~= Seq::<Json>::empty());
    assert(frames_ok(fa)) by {
        assert forall|i: int| 0 <= i < fa.len() implies (#[trigger] fa[i]).want_value ==> (fa[i].object && fa[i].remaining > 0) by {
            if i < frames.len() - 1 {
                assert(fa[i] == frames[i]);
            }
        }
    }
    lemma_array_items(b, fa, stack, root, items, 0, pos + 5, end, j);
    let last = fa.push(Frame { object: false, remaining: 0usize, want_value: false });
    let full = stack.push(FrameModel::Array(items));
    lemma_step_progress(b, end, last, true);
    assert(last.drop_last() =~= fa);
    assert(full.drop_last() =~= stack);

}

/// An object read where an item is expected: opened, its pairs read, closed
/// and placed.
proof fn lemma_open_object(
    b: Seq<u8>,
    pos: int,
    frames: Seq<Frame>,
    started: bool,
    stack: Seq<FrameModel>,
    root: Option<Json>,
    j: Json,
)
    requires
        0 <= pos,
        pos + encode(j).len() <= b.len(),
        b.subrange(pos, pos + encode(j).len()) == encode(j),
        json_wf(j),
        encodable(j),
        expects_item(frames, started, stack, root),
        frames_ok(frames),
        frames_wf(stack),
        j is Object,
    ensures
        attach(stack, root, j) is Ok,
        run(b, pos, frames, started, stack, root) == run(
            b,
            pos + encode(j).len(),
            after_item(frames, None),
            true,
            attach(stack, root, j).unwrap().0,
            attach(stack, root, j).unwrap().1,
        ),
    decreases j, width(j) + 1,
{
    let e = encode(j);
    let end = pos + e.len();
    lemma_step_progress(b, pos, frames, started);
    assert(b[pos] == e[0]);
    let entries = j->Object_0;

    let n = entries.len();
    let encs = entry_encs(entries);
    assert(e == seq![TAG_OBJECT] + le32(n) + encs.flatten());
    let bs = b.subrange(pos, end);
    assert(e.subrange(1, 5) =~= le32(n));
    assert(e.subrange(5, e.len() as int) =~= encs.flatten());
    assert(b.subrange(pos + 1, pos + 5) =~= bs.subrange(1, 5));
    lemma_le32(b, pos + 1, n);
    assert forall|i: int| 0 <= i < encs.len() implies (#[trigger] encs[i]).len() >= 1 by {
        lemma_encode_nonempty(entries[i].1);
    }
    lemma_flatten_len(encs);
    assert(b.subrange(pos + 5, end) =~= bs.subrange(5, e.len() as int));
    assert(encs.subrange(0, n as int) =~= encs);
    let child = Frame { object: true, remaining: n as usize, want_value: false };
    let fa = after_item(frames, None);
    let frames1 = after_item(frames, Some(child));
    let stack1 = stack.push(FrameModel::Object(Seq::empty(), None));
    assert(frames1 == fa.push(child));
    assert(run(b, pos, frames, started, stack, root) == run(b, pos + 5, frames1, true, stack1, root));
    assert(entries.subrange(0, 0) =~= Seq::<(Seq<char>, Json)>::empty());
    assert(frames_ok(fa)) by {
        assert forall|i: int| 0 <= i < fa.len() implies (#[trigger] fa[i]).want_value ==> (fa[i].object && fa[i].remaining > 0) by {
            if i < frames.len() - 1 {
                assert(fa[i] == frames[i]);
            }
        }
    }
    lemma_object_entries(b, fa, stack, root, entries, 0, pos + 5, end, j);
    let last = fa.push(Frame { object: true, remaining: 0usize, want_value: false });
    let full = stack.push(FrameModel::Object(entries, None));
    lemma_step_progress(b, end, last, true);
    assert(last.drop_last() =~= fa);
    assert(full.drop_last() =~= stack);

}

/// The elements of an array from the `k`-th on, read in turn.
proof fn lemma_array_items(
    b: Seq<u8>,
    fa: Seq<Frame>,
    stack: Seq<FrameModel>,
    root: Option<Json>,
    items: Seq<Json>,
    k: int,
    pk: int,
    end: int,
    j: Json,
)
    requires
        j == Json::Array(items),
        json_wf(j),
        encodable(j),
        0 <= k <= items.len(),
        0 <= pk <= end <= b.len(),
        b.subrange(pk, end) == item_encs(items).subrange(k, items.len() as int).flatten(),
        frames_ok(fa),
        frames_wf(stack),
    ensures
        run(
            b,
            pk,
            fa.push(Frame { object: false, remaining: (items.len() - k) as usize, want_value: false }),
            true,
            stack.push(FrameModel::Array(items.subrange(0, k))),
            root,
        ) == run(
            b,
            end,
            fa.push(Frame { object: false, remaining: 0usize, want_value: false }),
            true,
            stack.push(FrameModel::Array(items)),
            root,
        ),
    decreases j, width(j) - k,
{
    let n = items.len() as int;
    if k == n {
        assert(items.subrange(0, k) =~= items);
        assert(item_encs(items).subrange(k, n) =~= Seq::<Seq<u8>>::empty());
    } else {
        let s = item_encs(items).subrange(k, n);
        assert(s.drop_first() =~= item_encs(items).subrange(k + 1, n));
        let e = encode(items[k]);
        let rest = s.drop_first().flatten();
        assert(s.flatten() == e + rest);
        assert(b.subrange(pk, pk + e.len()) =~= e) by {
            assert(b.subrange(pk, pk + e.len()) =~= b.subrange(pk, end).subrange(0, e.len() as int));
        }
        assert(b.subrange(pk + e.len(), end) =~= rest) by {
            assert(b.subrange(pk + e.len(), end) =~= b.subrange(pk, end).subrange(e.len() as int, end - pk));
        }
        let child = Frame { object: false, remaining: (n - k) as usize, want_value: false };
        let frames_k = fa.push(child);
        let stack_k = stack.push(FrameModel::Array(items.subrange(0, k)));
        assert(frames_ok(frames_k)) by {
            assert forall|i: int| 0 <= i < frames_k.len() implies (#[trigger] frames_k[i]).want_value ==> (frames_k[i].object && frames_k[i].remaining > 0) by {
                if i < fa.len() {
                    assert(frames_k[i] == fa[i]);
                }
            }
        }
        assert(frames_wf(stack_k)) by {
            assert forall|i: int| 0 <= i < stack_k.len() implies (#[trigger] stack_k[i] matches FrameModel::Object(e, _) ==> keys_unique(e)) by {
                if i < stack.len() {
                    assert(stack_k[i] == stack[i]);
                }
            }
        }
        assert(decreases_to!(j => items[k]));
        lemma_item(b, pk, frames_k, true, stack_k, root, items[k]);
        assert(after_item(frames_k, None) =~= fa.push(Frame { object: false, remaining: (n - k - 1) as usize, want_value: false }));
        assert(items.subrange(0, k).push(items[k]) =~= items.subrange(0, k + 1));
        assert(attach(stack_k, root, items[k]).unwrap().0 =~= stack.push(FrameModel::Array(items.subrange(0, k + 1))));
        lemma_array_items(b, fa, stack, root, items, k + 1, pk + e.len(), end, j);
    }
}

/// The pairs of an object from the `k`-th on, read in turn.
proof fn lemma_object_entries(
    b: Seq<u8>,
    fa: Seq<Frame>,
    stack: Seq<FrameModel>,
    root: Option<Json>,
    entries: Seq<(Seq<char>, Json)>,
    k: int,
    pk: int,
    end: int,
    j: Json,
)
    requires
        j == Json::Object(entries),
        json_wf(j),
        encodable(j),
        0 <= k <= entries.len(),
        0 <= pk <= end <= b.len(),
        b.subrange(pk, end) == entry_encs(entries).subrange(k, entries.len() as int).flatten(),
        frames_ok(fa),
        frames_wf(stack),
    ensures
        run(
            b,
            pk,
            fa.push(Frame { object: true, remaining: (entries.len() - k) as usize, want_value: false }),
            true,
            stack.push(FrameModel::Object(entries.subrange(0, k), None)),
            root,
        ) == run(
            b,
            end,
            fa.push(Frame { object: true, remaining: 0usize, want_value: false }),
            true,
            stack.push(FrameModel::Object(entries, None)),
            root,
        ),
    decreases j, width(j) - k,
{
    let n = entries.len() as int;
    if k == n {
        assert(entries.subrange(0, k) =~= entries);
        assert(entry_encs(entries).subrange(k, n) =~= Seq::<Seq<u8>>::empty());
    } else {
        let s = entry_encs(entries).subrange(k, n);
        assert(s.drop_first() =~= entry_encs(entries).subrange(k + 1, n));
        let key = entries[k].0;
        let v = entries[k].1;
        let ke = enc_text(TAG_STRING, key);
        let ve = encode(v);
        let rest = s.drop_first().flatten();
        assert(s.flatten() == ke + ve + rest);
        let pv = pk + ke.len();
        let pn = pv + ve.len();
        assert(b.subrange(pk, pv) =~= ke) by {
            assert(b.subrange(pk, pv) =~= b.subrange(pk, end).subrange(0, ke.len() as int));
        }
        assert(b.subrange(pv, pn) =~= ve) by {
            assert(b.subrange(pv, pn) =~= b.subrange(pk, end).subrange(ke.len() as int, pn - pk));
        }
        assert(b.subrange(pn, end) =~= rest) by {
            assert(b.subrange(pn, end) =~= b.subrange(pk, end).subrange(pn - pk, end - pk));
        }
        lemma_text_at(b, pk, TAG_STRING, key);
        let prefix = entries.subrange(0, k);
        let child = Frame { object: true, remaining: (n - k) as usize, want_value: false };
        let frames_k = fa.push(child);
        let stack_k = stack.push(FrameModel::Object(prefix, None));
        let frames_v = fa.push(Frame { want_value: true, ..child });
        let stack_v = stack.push(FrameModel::Object(prefix, Some(key)));
        lemma_step_progress(b, pk, frames_k, true);
        assert(frames_k.update(frames_k.len() - 1, Frame { want_value: true, ..child }) =~= frames_v);
        assert(stack_k.update(stack_k.len() - 1, FrameModel::Object(prefix, Some(key))) =~= stack_v);
        assert(run(b, pk, frames_k, true, stack_k, root) == run(b, pv, frames_v, true, stack_v, root));
        assert(keys_unique(prefix)) by {
            assert forall|a: int, c: int| 0 <= a < c < prefix.len() implies #[trigger] prefix[a].0 != #[trigger] prefix[c].0 by {
                assert(entries[a].0 != entries[c].0);
            }
        }
        assert(frames_ok(frames_v)) by {
            assert forall|i: int| 0 <= i < frames_v.len() implies (#[trigger] frames_v[i]).want_value ==> (frames_v[i].object && frames_v[i].remaining > 0) by {
                if i < fa.len() {
                    assert(frames_v[i] == fa[i]);
                }
            }
        }
        assert(frames_wf(stack_v)) by {
            assert forall|i: int| 0 <= i < stack_v.len() implies (#[trigger] stack_v[i] matches FrameModel::Object(e, _) ==> keys_unique(e)) by {
                if i < stack.len() {
                    assert(stack_v[i] == stack[i]);
                }
            }
        }
        assert(decreases_to!(j => entries[k].1));
        lemma_item(b, pv, frames_v, true, stack_v, root, v);
        assert(after_item(frames_v, None) =~= fa.push(Frame { object: true, remaining: (n - k - 1) as usize, want_value: false }));
        assert(!(exists|i: int| 0 <= i < prefix.len() && prefix[i].0 == key)) by {
            if exists|i: int| 0 <= i < prefix.len() && prefix[i].0 == key {
                let i = choose|i: int| 0 <= i < prefix.len() && prefix[i].0 == key;
                assert(entries[i].0 != entries[k].0);
            }
        }
        assert(put(prefix, key, v) =~= entries.subrange(0, k + 1));
        assert(attach(stack_v, root, v).unwrap().0 =~= stack.push(FrameModel::Object(entries.subrange(0, k + 1), None)));
        lemma_object_entries(b, fa, stack, root, entries, k + 1, pn, end, j);
    }
}

/// Round trip: a document whose objects have unique keys, and whose lengths
/// and counts fit the encoding, decodes from its encoding to itself, numbers
/// keeping their exact digit strings and objects their key order.
pub proof fn lemma_round_trip(j: Json)
    requires
        json_wf(j),
        encodable(j),
    ensures
        decode_spec(encode(j)) == Ok::<Json, DecodeError>(j),
{
    let b = encode(j);
    assert(b.subrange(0, b.len() as int) =~= b);
    lemma_item(b, 0, Seq::empty(), false, Seq::empty(), None, j);
    assert(after_item(Seq::<Frame>::empty(), None) =~= Seq::<Frame>::empty());
}

} // verus!
