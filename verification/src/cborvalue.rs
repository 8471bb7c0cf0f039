//! CBOR values: what a byte string of CBOR items says.
//!
//! An encoding determines its value, so that a contract or a law can speak of
//! the members of a response or a request instead of its bytes.

use vstd::prelude::*;
use vstd::utf8::*;

use crate::cbor;
use crate::crypto;

verus! {

/// A value of the items that are written and read here.
pub enum Value {
    Int(int),
    Bytes(Seq<u8>),
    Text(Seq<char>),
    Bool(bool),
    List(Seq<Value>),
    Table(Seq<(Value, Value)>),
}

/// The bytes of a value, with heads as short as they can be.
pub open spec fn enc(v: Value) -> Seq<u8>
    decreases v,
{
    match v {
        Value::Int(n) => cbor::sint(n),
        Value::Bytes(b) => cbor::bytes(b),
        Value::Text(t) => cbor::text(t),
        Value::Bool(b) => cbor::boolean(b),
        Value::List(items) => cbor::array(items.len() as int) + enc_items(items),
        Value::Table(entries) => cbor::map(entries.len() as int) + enc_entries(entries),
    }
}

/// The items one after the other.
pub open spec fn enc_items(items: Seq<Value>) -> Seq<u8>
    decreases items,
{
    if items.len() == 0 {
        Seq::empty()
    } else {
        enc(items[0]) + enc_items(items.subrange(1, items.len() as int))
    }
}

/// The entries one after the other, each key before its value.
pub open spec fn enc_entries(entries: Seq<(Value, Value)>) -> Seq<u8>
    decreases entries,
{
    if entries.len() == 0 {
        Seq::empty()
    } else {
        enc(entries[0].0) + enc(entries[0].1) + enc_entries(
            entries.subrange(1, entries.len() as int),
        )
    }
}

/// The number fits in an item head.
pub open spec fn fits(n: int) -> bool {
    0 <= n < 0x1_0000_0000_0000_0000
}

/// Every number and every length fits in an item head.
pub open spec fn sized(v: Value) -> bool
    decreases v,
{
    match v {
        Value::Int(n) => if n >= 0 {
            fits(n)
        } else {
            fits(-1 - n)
        },
        Value::Bytes(b) => fits(b.len() as int),
        Value::Text(t) => fits(encode_utf8(t).len() as int),
        Value::Bool(b) => true,
        Value::List(items) => fits(items.len() as int) && sized_items(items),
        Value::Table(entries) => fits(entries.len() as int) && sized_entries(entries),
    }
}

pub open spec fn sized_items(items: Seq<Value>) -> bool
    decreases items,
{
    items.len() == 0 || (sized(items[0]) && sized_items(items.subrange(1, items.len() as int)))
}

pub open spec fn sized_entries(entries: Seq<(Value, Value)>) -> bool
    decreases entries,
{
    entries.len() == 0 || (sized(entries[0].0) && sized(entries[0].1) && sized_entries(
        entries.subrange(1, entries.len() as int),
    ))
}

/// The value that a byte string encodes.
pub open spec fn decoded(s: Seq<u8>) -> Value {
    choose|v: Value| sized(v) && #[trigger] enc(v) == s
}

/// The value of the first entry with a key.
pub open spec fn found(entries: Seq<(Value, Value)>, key: Value) -> Option<Value>
    decreases entries.len(),
{
    if entries.len() == 0 {
        None
    } else if entries[0].0 == key {
        Some(entries[0].1)
    } else {
        found(entries.subrange(1, entries.len() as int), key)
    }
}

/// The member of a map with a key.
pub open spec fn member(v: Value, key: Value) -> Option<Value> {
    match v {
        Value::Table(entries) => found(entries, key),
        _ => None,
    }
}

/// The member of a map with a number as its key.
pub open spec fn at(v: Value, key: int) -> Option<Value> {
    member(v, Value::Int(key))
}

/// The member of a map with a text as its key.
pub open spec fn named(v: Value, key: Seq<char>) -> Option<Value> {
    member(v, Value::Text(key))
}

// ---- reading back what was written ----
/// `item` stands at `pos`.
pub open spec fn stands(s: Seq<u8>, pos: int, item: Seq<u8>) -> bool {
    &&& 0 <= pos
    &&& pos + item.len() <= s.len()
    &&& s.subrange(pos, pos + item.len()) == item
}

/// Two items one after the other stand where each of them stands.
pub proof fn lemma_stands(s: Seq<u8>, pos: int, a: Seq<u8>, b: Seq<u8>)
    ensures
        stands(s, pos, a + b) <==> stands(s, pos, a) && stands(s, pos + a.len(), b),
{
    let ab = a + b;
    if stands(s, pos, ab) {
        let whole = s.subrange(pos, pos + ab.len());
        assert(s.subrange(pos, pos + a.len()) =~= whole.subrange(0, a.len() as int));
        assert(ab.subrange(0, a.len() as int) =~= a);
        assert(s.subrange(pos + a.len(), pos + a.len() + b.len()) =~= whole.subrange(
            a.len() as int,
            ab.len() as int,
        ));
        assert(ab.subrange(a.len() as int, ab.len() as int) =~= b);
    }
    if stands(s, pos, a) && stands(s, pos + a.len(), b) {
        assert(s.subrange(pos, pos + ab.len()) =~= s.subrange(pos, pos + a.len()) + s.subrange(
            pos + a.len(),
            pos + a.len() + b.len(),
        ));
    }
}

/// 256 to the power of `w`.
pub open spec fn pow256(w: nat) -> int
    decreases w,
{
    if w == 0 {
        1
    } else {
        256 * pow256((w - 1) as nat)
    }
}

/// Big-endian bytes write the number that they were made of.
pub proof fn lemma_be_bytes(n: int, width: nat)
    requires
        0 <= n < pow256(width),
    ensures
        cbor::be_bytes(n, width).len() == width,
        crypto::be_value(cbor::be_bytes(n, width)) == n,
    decreases width,
{
    if width > 0 {
        let w = (width - 1) as nat;
        assert(0 <= n / 256 < pow256(w)) by (nonlinear_arith)
            requires
                0 <= n < 256 * pow256(w),
        ;
        lemma_be_bytes(n / 256, w);
        let b = cbor::be_bytes(n, width);
        assert(b.drop_last() =~= cbor::be_bytes(n / 256, w));
    }
}

/// A head that was written is read back.
pub proof fn lemma_head(s: Seq<u8>, pos: int, major: int, n: int)
    requires
        stands(s, pos, cbor::head(major, n)),
        0 <= major <= 6,
        fits(n),
    ensures
        pos < s.len(),
        s[pos] / 0x20 == major,
        s[pos] % 0x20 <= 0x1b,
        cbor::head(major, n).len() >= 1,
        cbor::argument(s, pos + 1, (s[pos] % 0x20) as u8) == Ok::<(int, int), bool>(
            (n, pos + cbor::head(major, n).len()),
        ),
{
    let h = cbor::head(major, n);
    reveal_with_fuel(pow256, 9);
    let width: nat = if n <= 0x17 {
        0
    } else if n <= 0xff {
        1
    } else if n <= 0xffff {
        2
    } else if n <= 0xffff_ffff {
        4
    } else {
        8
    };
    lemma_be_bytes(n, if width == 0 { 1 } else { width });
    assert(h.len() == 1 + width);
    assert(s[pos] == s.subrange(pos, pos + h.len())[0]);
    assert(s[pos] == h[0]);
    if width > 0 {
        assert(s.subrange(pos + 1, pos + 1 + width) =~= h.subrange(1, 1 + width as int)) by {
            assert forall|i: int| 0 <= i < width implies #[trigger] s.subrange(
                pos + 1,
                pos + 1 + width,
            )[i] == h.subrange(1, 1 + width as int)[i] by {
                assert(s.subrange(pos, pos + h.len())[i + 1] == h[i + 1]);
            }
        }
        assert(h.subrange(1, 1 + width as int) =~= cbor::be_bytes(n, width));
    }
}

/// A number that was written is read back.
pub proof fn lemma_uint(s: Seq<u8>, pos: int, n: int)
    requires
        stands(s, pos, cbor::uint(n)),
        fits(n),
    ensures
        cbor::u64_at(s, pos) == Ok::<(int, int), bool>((n, pos + cbor::uint(n).len())),
{
    lemma_head(s, pos, 0, n);
    assert(s[pos] % 0x20 == s[pos]);
}

/// A signed number that was written is read back.
pub proof fn lemma_sint(s: Seq<u8>, pos: int, n: int)
    requires
        stands(s, pos, cbor::sint(n)),
        i64::MIN <= n <= i64::MAX,
    ensures
        cbor::i64_at(s, pos) == Ok::<(int, int), bool>((n, pos + cbor::sint(n).len())),
{
    if n >= 0 {
        lemma_head(s, pos, 0, n);
    } else {
        lemma_head(s, pos, 1, -1 - n);
    }
}

/// A boolean that was written is read back.
pub proof fn lemma_bool(s: Seq<u8>, pos: int, b: bool)
    requires
        stands(s, pos, cbor::boolean(b)),
    ensures
        cbor::bool_at(s, pos) == Ok::<(bool, int), bool>((b, pos + 1)),
        cbor::boolean(b).len() == 1,
{
    assert(s[pos] == s.subrange(pos, pos + 1)[0]);
    assert(s.subrange(pos, pos + 1)[0] == cbor::boolean(b)[0]);
}

/// A string that was written is read back.
pub proof fn lemma_string(s: Seq<u8>, pos: int, major: u8, b: Seq<u8>)
    requires
        stands(s, pos, cbor::head(major as int, b.len() as int) + b),
        major <= 6,
        fits(b.len() as int),
    ensures
        cbor::string_at(s, pos, major) == Ok::<(Seq<u8>, int), bool>(
            (b, pos + (cbor::head(major as int, b.len() as int) + b).len()),
        ),
{
    let h = cbor::head(major as int, b.len() as int);
    lemma_stands(s, pos, h, b);
    lemma_head(s, pos, major as int, b.len() as int);
}

/// A byte string that was written is read back.
pub proof fn lemma_bytes(s: Seq<u8>, pos: int, b: Seq<u8>)
    requires
        stands(s, pos, cbor::bytes(b)),
        fits(b.len() as int),
    ensures
        cbor::bytes_at(s, pos) == Ok::<(Seq<u8>, int), bool>((b, pos + cbor::bytes(b).len())),
{
    lemma_string(s, pos, 2, b);
}

/// A text that was written is read back.
pub proof fn lemma_text(s: Seq<u8>, pos: int, t: Seq<char>)
    requires
        stands(s, pos, cbor::text(t)),
        fits(encode_utf8(t).len() as int),
    ensures
        cbor::text_at(s, pos) == Ok::<(Seq<u8>, int), bool>(
            (encode_utf8(t), pos + cbor::text(t).len()),
        ),
{
    lemma_string(s, pos, 3, encode_utf8(t));
    encode_utf8_valid_utf8(t);
}

/// The head of an array (major type 4) or a map (5) that was written is read
/// back.
pub proof fn lemma_count(s: Seq<u8>, pos: int, major: u8, n: int)
    requires
        stands(s, pos, cbor::head(major as int, n)),
        major <= 6,
        fits(n),
    ensures
        cbor::count_at(s, pos, major) == Ok::<(Option<int>, int), bool>(
            (Some(n), pos + cbor::head(major as int, n).len()),
        ),
{
    lemma_head(s, pos, major as int, n);
}

/// Texts that are written alike are the same.
pub proof fn lemma_utf8_injective(a: Seq<char>, b: Seq<char>)
    requires
        encode_utf8(a) == encode_utf8(b),
    ensures
        a == b,
{
    encode_utf8_decode_utf8(a);
    encode_utf8_decode_utf8(b);
}

// ---- an encoding determines its value ----
/// The major type of a value and the argument of its head.
pub open spec fn head_of(v: Value) -> (int, int) {
    match v {
        Value::Int(n) => if n >= 0 {
            (0, n)
        } else {
            (1, -1 - n)
        },
        Value::Bytes(b) => (2, b.len() as int),
        Value::Text(t) => (3, encode_utf8(t).len() as int),
        Value::Bool(b) => (7, if b {
            21
        } else {
            20
        }),
        Value::List(items) => (4, items.len() as int),
        Value::Table(entries) => (5, entries.len() as int),
    }
}

/// The bytes of a value that follow its head.
pub open spec fn body_of(v: Value) -> Seq<u8> {
    match v {
        Value::Bytes(b) => b,
        Value::Text(t) => encode_utf8(t),
        Value::List(items) => enc_items(items),
        Value::Table(entries) => enc_entries(entries),
        _ => Seq::empty(),
    }
}

proof fn lemma_enc_parts(v: Value)
    requires
        sized(v),
    ensures
        enc(v) == cbor::head(head_of(v).0, head_of(v).1) + body_of(v),
        0 <= head_of(v).0 <= 7,
        fits(head_of(v).1),
{
    assert(enc(v) =~= cbor::head(head_of(v).0, head_of(v).1) + body_of(v));
}

/// What a head says, whatever follows it.
proof fn lemma_same_head(a: (int, int), b: (int, int), x: Seq<u8>, y: Seq<u8>)
    requires
        cbor::head(a.0, a.1) + x == cbor::head(b.0, b.1) + y,
        0 <= a.0 <= 7,
        0 <= b.0 <= 7,
        a.0 == 7 ==> a.1 <= 0x17,
        b.0 == 7 ==> b.1 <= 0x17,
        fits(a.1),
        fits(b.1),
    ensures
        a == b,
        x == y,
{
    let ha = cbor::head(a.0, a.1);
    let hb = cbor::head(b.0, b.1);
    let s = ha + x;
    assert(s.subrange(0, ha.len() as int) =~= ha);
    assert((hb + y).subrange(0, hb.len() as int) =~= hb);
    assert(s[0] == ha[0] && s[0] == hb[0]);
    if a.0 < 7 {
        lemma_head(s, 0, a.0, a.1);
    }
    if b.0 < 7 {
        lemma_head(s, 0, b.0, b.1);
    }
    assert(s[0] / 0x20 == a.0);
    assert(s[0] / 0x20 == b.0);
    assert(a == b);
    assert(x =~= s.subrange(ha.len() as int, s.len() as int));
    assert(y =~= (hb + y).subrange(hb.len() as int, (hb + y).len() as int));
}

proof fn lemma_split(a: Seq<u8>, b: Seq<u8>, x: Seq<u8>, y: Seq<u8>)
    requires
        a + x == b + y,
        a.len() == b.len(),
    ensures
        a == b,
        x == y,
{
    assert(a =~= (a + x).subrange(0, a.len() as int));
    assert(b =~= (b + y).subrange(0, b.len() as int));
    assert(x =~= (a + x).subrange(a.len() as int, (a + x).len() as int));
    assert(y =~= (b + y).subrange(b.len() as int, (b + y).len() as int));
}

/// Where two values stand at the front of the same bytes, they are the same
/// value, and so is what follows.
pub proof fn lemma_enc_determines(a: Value, b: Value, x: Seq<u8>, y: Seq<u8>)
    requires
        sized(a),
        sized(b),
        enc(a) + x == enc(b) + y,
    ensures
        a == b,
        x == y,
    decreases a,
{
    lemma_enc_parts(a);
    lemma_enc_parts(b);
    let ha = cbor::head(head_of(a).0, head_of(a).1);
    let hb = cbor::head(head_of(b).0, head_of(b).1);
    assert(enc(a) + x =~= ha + (body_of(a) + x));
    assert(enc(b) + y =~= hb + (body_of(b) + y));
    lemma_same_head(head_of(a), head_of(b), body_of(a) + x, body_of(b) + y);
    match a {
        Value::Int(n) => {
            assert(b is Int);
            assert(body_of(a) + x =~= x && body_of(b) + y =~= y);
        },
        Value::Bool(v) => {
            assert(b is Bool);
            assert(body_of(a) + x =~= x && body_of(b) + y =~= y);
        },
        Value::Bytes(v) => {
            assert(b is Bytes);
            lemma_split(body_of(a), body_of(b), x, y);
        },
        Value::Text(v) => {
            assert(b is Text);
            lemma_split(body_of(a), body_of(b), x, y);
            lemma_utf8_injective(v, b->Text_0);
        },
        Value::List(items) => {
            assert(b is List);
            lemma_items_determine(items, b->List_0, x, y);
        },
        Value::Table(entries) => {
            assert(b is Table);
            lemma_entries_determine(entries, b->Table_0, x, y);
        },
    }
}

proof fn lemma_items_determine(a: Seq<Value>, b: Seq<Value>, x: Seq<u8>, y: Seq<u8>)
    requires
        sized_items(a),
        sized_items(b),
        a.len() == b.len(),
        enc_items(a) + x == enc_items(b) + y,
    ensures
        a == b,
        x == y,
    decreases a,
{
    if a.len() == 0 {
        assert(a =~= b);
        assert(enc_items(a) + x =~= x && enc_items(b) + y =~= y);
    } else {
        let ra = a.subrange(1, a.len() as int);
        let rb = b.subrange(1, b.len() as int);
        assert(enc_items(a) + x =~= enc(a[0]) + (enc_items(ra) + x));
        assert(enc_items(b) + y =~= enc(b[0]) + (enc_items(rb) + y));
        lemma_enc_determines(a[0], b[0], enc_items(ra) + x, enc_items(rb) + y);
        lemma_items_determine(ra, rb, x, y);
        assert(a =~= seq![a[0]] + ra);
        assert(b =~= seq![b[0]] + rb);
    }
}

proof fn lemma_entries_determine(
    a: Seq<(Value, Value)>,
    b: Seq<(Value, Value)>,
    x: Seq<u8>,
    y: Seq<u8>,
)
    requires
        sized_entries(a),
        sized_entries(b),
        a.len() == b.len(),
        enc_entries(a) + x == enc_entries(b) + y,
    ensures
        a == b,
        x == y,
    decreases a,
{
    if a.len() == 0 {
        assert(a =~= b);
        assert(enc_entries(a) + x =~= x && enc_entries(b) + y =~= y);
    } else {
        let ra = a.subrange(1, a.len() as int);
        let rb = b.subrange(1, b.len() as int);
        assert(enc_entries(a) + x =~= enc(a[0].0) + (enc(a[0].1) + (enc_entries(ra) + x)));
        assert(enc_entries(b) + y =~= enc(b[0].0) + (enc(b[0].1) + (enc_entries(rb) + y)));
        lemma_enc_determines(
            a[0].0,
            b[0].0,
            enc(a[0].1) + (enc_entries(ra) + x),
            enc(b[0].1) + (enc_entries(rb) + y),
        );
        lemma_enc_determines(a[0].1, b[0].1, enc_entries(ra) + x, enc_entries(rb) + y);
        lemma_entries_determine(ra, rb, x, y);
        assert(a[0] == b[0]);
        assert(a =~= seq![a[0]] + ra);
        assert(b =~= seq![b[0]] + rb);
    }
}

/// Decoding gives back what was encoded.
pub proof fn law_decoded(v: Value)
    requires
        sized(v),
    ensures
        decoded(enc(v)) == v,
{
    let w = decoded(enc(v));
    assert(sized(w) && enc(w) == enc(v));
    lemma_enc_determines(w, v, Seq::empty(), Seq::empty());
}

// ---- values that grow ----
/// One more item.
pub proof fn lemma_items_push(items: Seq<Value>, v: Value)
    requires
        sized_items(items),
        sized(v),
    ensures
        enc_items(items.push(v)) == enc_items(items) + enc(v),
        sized_items(items.push(v)),
    decreases items.len(),
{
    let all = items.push(v);
    if items.len() == 0 {
        reveal_with_fuel(enc_items, 2);
        reveal_with_fuel(sized_items, 2);
        assert(all.subrange(1, all.len() as int) =~= Seq::<Value>::empty());
        assert(enc_items(all) =~= enc_items(items) + enc(v));
    } else {
        let rest = items.subrange(1, items.len() as int);
        assert(all.subrange(1, all.len() as int) =~= rest.push(v));
        lemma_items_push(rest, v);
        assert(enc_items(all) =~= enc_items(items) + enc(v));
    }
}

/// One more entry; a key that was there before keeps its value.
pub proof fn lemma_entries_push(entries: Seq<(Value, Value)>, k: Value, v: Value)
    requires
        sized_entries(entries),
        sized(k),
        sized(v),
    ensures
        enc_entries(entries.push((k, v))) == enc_entries(entries) + enc(k) + enc(v),
        sized_entries(entries.push((k, v))),
        forall|key: Value|
            #![trigger found(entries.push((k, v)), key)]
            found(entries.push((k, v)), key) == (match found(entries, key) {
                Some(x) => Some(x),
                None => if k == key {
                    Some(v)
                } else {
                    None
                },
            }),
    decreases entries.len(),
{
    let all = entries.push((k, v));
    if entries.len() == 0 {
        reveal_with_fuel(enc_entries, 2);
        reveal_with_fuel(sized_entries, 2);
        assert(all.subrange(1, all.len() as int) =~= Seq::<(Value, Value)>::empty());
        assert(enc_entries(all) =~= enc_entries(entries) + enc(k) + enc(v));
        assert forall|key: Value| #[trigger] found(all, key) == (if k == key {
            Some(v)
        } else {
            None
        }) by {
            assert(found(all.subrange(1, all.len() as int), key) is None);
        }
    } else {
        let rest = entries.subrange(1, entries.len() as int);
        assert(all.subrange(1, all.len() as int) =~= rest.push((k, v)));
        lemma_entries_push(rest, k, v);
        assert(enc_entries(all) =~= enc_entries(entries) + enc(k) + enc(v));
        assert forall|key: Value|
            #![trigger found(all, key)]
            found(all, key) == (match found(entries, key) {
                Some(x) => Some(x),
                None => if k == key {
                    Some(v)
                } else {
                    None
                },
            }) by {
            assert(found(rest.push((k, v)), key) == found(all.subrange(1, all.len() as int), key));
        }
    }
}

/// A text of few characters has few bytes.
pub proof fn lemma_short_text(t: Seq<char>)
    requires
        t.len() <= 0xffff_ffff,
    ensures
        encode_utf8(t).len() <= 4 * t.len(),
        fits(encode_utf8(t).len() as int),
    decreases t.len(),
{
    if t.len() > 0 {
        lemma_short_text(t.drop_first());
    }
}

/// Nothing was added yet.
pub proof fn lemma_nothing(w: Seq<u8>)
    ensures
        w + enc_items(Seq::empty()) == w,
        w + enc_entries(Seq::empty()) == w,
        sized_items(Seq::empty()),
        sized_entries(Seq::empty()),
        forall|key: Value| (#[trigger] found(Seq::empty(), key)) is None,
{
    assert(w + enc_items(Seq::empty()) =~= w);
    assert(w + enc_entries(Seq::empty()) =~= w);
}

/// `w` and the items, followed by one more item.
pub proof fn lemma_item(w: Seq<u8>, items: Seq<Value>, v: Value)
    requires
        sized_items(items),
        sized(v),
    ensures
        w + enc_items(items.push(v)) == w + enc_items(items) + enc(v),
        sized_items(items.push(v)),
{
    lemma_items_push(items, v);
    assert(w + enc_items(items.push(v)) =~= w + enc_items(items) + enc(v));
}

/// `w` and the items, followed by one more text.
pub proof fn lemma_text_item(w: Seq<u8>, items: Seq<Value>, t: Seq<char>)
    requires
        sized_items(items),
        t.len() <= 0xffff_ffff,
    ensures
        w + enc_items(items.push(Value::Text(t))) == w + enc_items(items) + cbor::text(t),
        sized_items(items.push(Value::Text(t))),
{
    lemma_short_text(t);
    lemma_item(w, items, Value::Text(t));
}

/// `w` and the entries, followed by one more entry.
pub proof fn lemma_entry(w: Seq<u8>, entries: Seq<(Value, Value)>, k: Value, v: Value)
    requires
        sized_entries(entries),
        sized(k),
        sized(v),
    ensures
        w + enc_entries(entries.push((k, v))) == w + enc_entries(entries) + enc(k) + enc(v),
        sized_entries(entries.push((k, v))),
        forall|key: Value|
            #![trigger found(entries.push((k, v)), key)]
            found(entries.push((k, v)), key) == (match found(entries, key) {
                Some(x) => Some(x),
                None => if k == key {
                    Some(v)
                } else {
                    None
                },
            }),
{
    lemma_entries_push(entries, k, v);
    assert(w + enc_entries(entries.push((k, v))) =~= w + enc_entries(entries) + enc(k) + enc(v));
}

/// `w` and the entries, followed by a list under one more key.
pub proof fn lemma_list_entry(
    w: Seq<u8>,
    entries: Seq<(Value, Value)>,
    k: Value,
    items: Seq<Value>,
)
    requires
        sized_entries(entries),
        sized(k),
        sized_items(items),
        fits(items.len() as int),
    ensures
        w + enc_entries(entries.push((k, Value::List(items)))) == w + enc_entries(entries) + enc(k)
            + cbor::array(items.len() as int) + enc_items(items),
        sized_entries(entries.push((k, Value::List(items)))),
        forall|key: Value|
            #![trigger found(entries.push((k, Value::List(items))), key)]
            found(entries.push((k, Value::List(items))), key) == (match found(entries, key) {
                Some(x) => Some(x),
                None => if k == key {
                    Some(Value::List(items))
                } else {
                    None
                },
            }),
{
    lemma_entry(w, entries, k, Value::List(items));
    let front = w + enc_entries(entries) + enc(k);
    assert(front + (cbor::array(items.len() as int) + enc_items(items)) =~= front + cbor::array(
        items.len() as int,
    ) + enc_items(items));
}

/// `w` and the entries, followed by a map under one more key.
pub proof fn lemma_table_entry(
    w: Seq<u8>,
    entries: Seq<(Value, Value)>,
    k: Value,
    inner: Seq<(Value, Value)>,
)
    requires
        sized_entries(entries),
        sized(k),
        sized_entries(inner),
        fits(inner.len() as int),
    ensures
        w + enc_entries(entries.push((k, Value::Table(inner)))) == w + enc_entries(entries) + enc(k)
            + cbor::map(inner.len() as int) + enc_entries(inner),
        sized_entries(entries.push((k, Value::Table(inner)))),
        forall|key: Value|
            #![trigger found(entries.push((k, Value::Table(inner))), key)]
            found(entries.push((k, Value::Table(inner))), key) == (match found(entries, key) {
                Some(x) => Some(x),
                None => if k == key {
                    Some(Value::Table(inner))
                } else {
                    None
                },
            }),
{
    lemma_entry(w, entries, k, Value::Table(inner));
    let front = w + enc_entries(entries) + enc(k);
    assert(front + (cbor::map(inner.len() as int) + enc_entries(inner)) =~= front + cbor::map(
        inner.len() as int,
    ) + enc_entries(inner));
}

// ---- reading a value entry by entry ----
/// The value of the last entry with a key: where a key is repeated, readers that
/// go through a map keep what came last.
pub open spec fn last(entries: Seq<(Value, Value)>, key: Value) -> Option<Value>
    decreases entries.len(),
{
    if entries.len() == 0 {
        None
    } else {
        match last(entries.subrange(1, entries.len() as int), key) {
            Some(v) => Some(v),
            None => if entries[0].0 == key {
                Some(entries[0].1)
            } else {
                None
            },
        }
    }
}

/// The bytes under a name, `old` where there are none.
pub open spec fn bytes_named(
    entries: Seq<(Value, Value)>,
    name: Seq<char>,
    old: Seq<u8>,
) -> Seq<u8> {
    match last(entries, Value::Text(name)) {
        Some(Value::Bytes(b)) => b,
        _ => old,
    }
}

/// The UTF-8 bytes of the text under a name, `old` where there is none.
pub open spec fn text_named(
    entries: Seq<(Value, Value)>,
    name: Seq<char>,
    old: Seq<u8>,
) -> Seq<u8> {
    match last(entries, Value::Text(name)) {
        Some(Value::Text(t)) => encode_utf8(t),
        _ => old,
    }
}

/// The boolean under a name, `old` where there is none.
pub open spec fn bool_named(entries: Seq<(Value, Value)>, name: Seq<char>, old: bool) -> bool {
    match last(entries, Value::Text(name)) {
        Some(Value::Bool(b)) => b,
        _ => old,
    }
}

/// Two texts are the same where their bytes are.
pub proof fn lemma_utf8_distinct()
    ensures
        forall|a: Seq<char>, b: Seq<char>|
            #![trigger encode_utf8(a), encode_utf8(b)]
            encode_utf8(a) == encode_utf8(b) ==> a == b,
{
    assert forall|a: Seq<char>, b: Seq<char>|
        #![trigger encode_utf8(a), encode_utf8(b)]
        encode_utf8(a) == encode_utf8(b) implies a == b by {
        lemma_utf8_injective(a, b);
    }
}

/// Where entries stand, the first key stands, its value and the other entries.
pub proof fn lemma_first_entry(s: Seq<u8>, pos: int, entries: Seq<(Value, Value)>)
    requires
        stands(s, pos, enc_entries(entries)),
        entries.len() > 0,
    ensures
        ({
            let k = pos + enc(entries[0].0).len();
            let v = k + enc(entries[0].1).len();
            let rest = entries.subrange(1, entries.len() as int);
            &&& stands(s, pos, enc(entries[0].0))
            &&& stands(s, k, enc(entries[0].1))
            &&& stands(s, v, enc_entries(rest))
            &&& v + enc_entries(rest).len() == pos + enc_entries(entries).len()
        }),
{
    let rest = entries.subrange(1, entries.len() as int);
    lemma_stands(s, pos, enc(entries[0].0) + enc(entries[0].1), enc_entries(rest));
    lemma_stands(s, pos, enc(entries[0].0), enc(entries[0].1));
}

/// Where items stand, the first one stands and the others.
pub proof fn lemma_first_item(s: Seq<u8>, pos: int, items: Seq<Value>)
    requires
        stands(s, pos, enc_items(items)),
        items.len() > 0,
    ensures
        ({
            let v = pos + enc(items[0]).len();
            let rest = items.subrange(1, items.len() as int);
            &&& stands(s, pos, enc(items[0]))
            &&& stands(s, v, enc_items(rest))
            &&& v + enc_items(rest).len() == pos + enc_items(items).len()
        }),
{
    let rest = items.subrange(1, items.len() as int);
    lemma_stands(s, pos, enc(items[0]), enc_items(rest));
}

/// The last entry with a key is one of the entries.
pub proof fn lemma_last(entries: Seq<(Value, Value)>, key: Value)
    ensures
        last(entries, key) matches Some(v) ==> exists|i: int|
            0 <= i < entries.len() && #[trigger] entries[i] == (key, v),
    decreases entries.len(),
{
    if entries.len() > 0 {
        let rest = entries.subrange(1, entries.len() as int);
        lemma_last(rest, key);
        match last(rest, key) {
            Some(v) => {
                let i = choose|i: int| 0 <= i < rest.len() && #[trigger] rest[i] == (key, v);
                assert(entries[i + 1] == (key, v));
            },
            None => {
                if entries[0].0 == key {
                    assert(entries[0] == (key, entries[0].1));
                }
            },
        }
    }
}

/// The boolean under a name, if there is one, `old` where there is none.
pub open spec fn opt_bool_named(
    entries: Seq<(Value, Value)>,
    name: Seq<char>,
    old: Option<bool>,
) -> Option<bool> {
    match last(entries, Value::Text(name)) {
        Some(Value::Bool(b)) => Some(b),
        _ => old,
    }
}

/// The number under a name, `old` where there is none.
pub open spec fn int_named(entries: Seq<(Value, Value)>, name: Seq<char>, old: int) -> int {
    match last(entries, Value::Text(name)) {
        Some(Value::Int(n)) => n,
        _ => old,
    }
}

/// The decoder passes over whatever value stands in `s`.
pub open spec fn skips(s: Seq<u8>) -> bool {
    forall|pos: int, v: Value| #[trigger]
        stands(s, pos, enc(v)) && sized(v) ==> cbor::skipped(s, pos) == Ok::<int, bool>(
            pos + enc(v).len(),
        )
}

}
