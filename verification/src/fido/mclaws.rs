//! What a request of `authenticatorMakeCredential` says, read from its CBOR
//! value: each member of each map reaches the field that it is meant for, and
//! no other.

use vstd::prelude::*;
use vstd::utf8::*;

use crate::cbor;
use crate::cborvalue;
use crate::cborvalue::Value;
use crate::fido::cbordec;
use crate::fido::error::CtapError;
use crate::fido::hmacsecret;
use crate::fido::makecredential::Profile;
use crate::fido::mcrequest;
use crate::fido::mcrequest::McView;

verus! {

/// The names of the members are different texts.
proof fn lemma_entity_names()
    ensures
        "id"@.len() == 2,
        "name"@.len() == 4,
        "displayName"@.len() == 11,
        "type"@.len() == 4,
        "alg"@.len() == 3,
        "name"@ != "type"@,
{
    reveal_strlit("id");
    reveal_strlit("name");
    reveal_strlit("displayName");
    reveal_strlit("type");
    reveal_strlit("alg");
    assert("name"@[0] == 'n' && "type"@[0] == 't');
}

proof fn lemma_option_names()
    ensures
        "rk"@ != "up"@,
        "rk"@ != "uv"@,
        "up"@ != "uv"@,
{
    reveal_strlit("rk");
    reveal_strlit("up");
    reveal_strlit("uv");
    assert("rk"@[0] == 'r' && "up"@[0] == 'u' && "uv"@[0] == 'u');
    assert("up"@[1] == 'p' && "uv"@[1] == 'v');
}

proof fn lemma_extension_names()
    ensures
        "credBlob"@.len() == 8,
        "credProtect"@.len() == 11,
        "hmac-secret"@.len() == 11,
        "largeBlobKey"@.len() == 12,
        "minPinLength"@.len() == 12,
        "hmac-secret-mc"@.len() == 14,
        "thirdPartyPayment"@.len() == 17,
        "credProtect"@ != "hmac-secret"@,
        "largeBlobKey"@ != "minPinLength"@,
{
    reveal_strlit("credBlob");
    reveal_strlit("credProtect");
    reveal_strlit("hmac-secret");
    reveal_strlit("largeBlobKey");
    reveal_strlit("minPinLength");
    reveal_strlit("hmac-secret-mc");
    reveal_strlit("thirdPartyPayment");
    assert("credProtect"@[0] == 'c' && "hmac-secret"@[0] == 'h');
    assert("largeBlobKey"@[0] == 'l' && "minPinLength"@[0] == 'm');
}

/// An entry as a user entity has them: the members that are known have the right type.
pub open spec fn user_entry(e: (Value, Value)) -> bool {
    &&& e.0 is Text
    &&& e.0 == Value::Text("id"@) ==> e.1 is Bytes
    &&& e.0 == Value::Text("name"@) ==> e.1 is Text
    &&& e.0 == Value::Text("displayName"@) ==> e.1 is Text
}

/// Whether the key of an entry is one that a user entity gives a meaning.
pub open spec fn user_key(k: Value) -> bool {
    ||| k == Value::Text("id"@)
    ||| k == Value::Text("name"@)
    ||| k == Value::Text("displayName"@)
}

/// `v` with what the entries say.
pub open spec fn user_said(es: Seq<(Value, Value)>, v: McView) -> McView {
    McView {
        user_id: cborvalue::bytes_named(es, "id"@, v.user_id),
        user_name: cborvalue::text_named(es, "name"@, v.user_name),
        user_display_name: cborvalue::text_named(es, "displayName"@, v.user_display_name),
        ..v
    }
}

proof fn lemma_user_members(s: Seq<u8>, pos: int, es: Seq<(Value, Value)>, v: McView)
    requires
        cborvalue::stands(s, pos, cborvalue::enc_entries(es)),
        cborvalue::sized_entries(es),
        forall|i: int|
            0 <= i < es.len() ==> user_entry(#[trigger] es[i]) && (user_key(es[i].0)
                || cborvalue::skips(s)),
    ensures
        mcrequest::user_members(s, pos, es.len(), v) == Ok::<(McView, int), CtapError>(
            (user_said(es, v), pos + cborvalue::enc_entries(es).len()),
        ),
    decreases es.len(),
{
    if es.len() == 0 {
        assert(user_said(es, v) =~= v);
    } else {
        lemma_entity_names();
        cborvalue::lemma_utf8_distinct();
        let rest = es.subrange(1, es.len() as int);
        let p = pos + cborvalue::enc(es[0].0).len();
        let q = p + cborvalue::enc(es[0].1).len();
        cborvalue::lemma_first_entry(s, pos, es);
        assert(user_entry(es[0]));
        cbordec::lemma_taken(s, pos, es[0].0);
        cbordec::lemma_taken(s, p, es[0].1);
        assert forall|i: int| 0 <= i < rest.len() implies user_entry(#[trigger] rest[i]) && (
        user_key(rest[i].0) || cborvalue::skips(s)) by {
            assert(user_entry(es[i + 1]));
        }
        cborvalue::lemma_last(rest, Value::Text("id"@));
        cborvalue::lemma_last(rest, Value::Text("name"@));
        cborvalue::lemma_last(rest, Value::Text("displayName"@));
        if es[0].0 == Value::Text("id"@) {
            let w = McView { user_id: es[0].1->Bytes_0, ..v };
            lemma_user_members(s, q, rest, w);
            assert(user_said(rest, w) =~= user_said(es, v));
        } else if es[0].0 == Value::Text("name"@) {
            let w = McView { user_name: encode_utf8(es[0].1->Text_0), ..v };
            lemma_user_members(s, q, rest, w);
            assert(user_said(rest, w) =~= user_said(es, v));
        } else if es[0].0 == Value::Text("displayName"@) {
            let w = McView { user_display_name: encode_utf8(es[0].1->Text_0), ..v };
            lemma_user_members(s, q, rest, w);
            assert(user_said(rest, w) =~= user_said(es, v));
        } else {
            lemma_user_members(s, q, rest, v);
            assert(user_said(rest, v) =~= user_said(es, v));
        }
    }
}

/// The members of a user entity, in whatever order, are read as the id, the name
/// and the display name of the user; a member that is absent leaves its field
/// alone, and no other field changes.
pub proof fn law_user_entity(s: Seq<u8>, pos: int, es: Seq<(Value, Value)>, v: McView)
    requires
        cborvalue::stands(s, pos, cborvalue::enc(Value::Table(es))),
        cborvalue::sized(Value::Table(es)),
        forall|i: int|
            0 <= i < es.len() ==> user_entry(#[trigger] es[i]) && (user_key(es[i].0)
                || cborvalue::skips(s)),
    ensures
        mcrequest::user_entity(s, pos, v) == Ok::<(McView, int), CtapError>(
            (user_said(es, v), pos + cborvalue::enc(Value::Table(es)).len()),
        ),
{
    cbordec::lemma_taken(s, pos, Value::Table(es));
    let at = pos + cborvalue::enc(Value::Table(es)).len() - cborvalue::enc_entries(es).len();
    lemma_user_members(s, at, es, v);
}

/// An entry as a relying-party entity has them: the members that are known have the right type.
pub open spec fn rp_entry(e: (Value, Value)) -> bool {
    &&& e.0 is Text
    &&& e.0 == Value::Text("id"@) ==> e.1 is Text
    &&& e.0 == Value::Text("name"@) ==> e.1 is Text
}

/// Whether the key of an entry is one that a relying-party entity gives a meaning.
pub open spec fn rp_key(k: Value) -> bool {
    ||| k == Value::Text("id"@)
    ||| k == Value::Text("name"@)
}

/// `v` with what the entries say.
pub open spec fn rp_said(es: Seq<(Value, Value)>, v: McView) -> McView {
    McView {
        rp_id: cborvalue::text_named(es, "id"@, v.rp_id),
        ..v
    }
}

proof fn lemma_rp_members(s: Seq<u8>, pos: int, es: Seq<(Value, Value)>, v: McView)
    requires
        cborvalue::stands(s, pos, cborvalue::enc_entries(es)),
        cborvalue::sized_entries(es),
        forall|i: int|
            0 <= i < es.len() ==> rp_entry(#[trigger] es[i]) && (rp_key(es[i].0)
                || cborvalue::skips(s)),
    ensures
        mcrequest::rp_members(s, pos, es.len(), v) == Ok::<(McView, int), CtapError>(
            (rp_said(es, v), pos + cborvalue::enc_entries(es).len()),
        ),
    decreases es.len(),
{
    if es.len() == 0 {
        assert(rp_said(es, v) =~= v);
    } else {
        lemma_entity_names();
        cborvalue::lemma_utf8_distinct();
        let rest = es.subrange(1, es.len() as int);
        let p = pos + cborvalue::enc(es[0].0).len();
        let q = p + cborvalue::enc(es[0].1).len();
        cborvalue::lemma_first_entry(s, pos, es);
        assert(rp_entry(es[0]));
        cbordec::lemma_taken(s, pos, es[0].0);
        cbordec::lemma_taken(s, p, es[0].1);
        assert forall|i: int| 0 <= i < rest.len() implies rp_entry(#[trigger] rest[i]) && (
        rp_key(rest[i].0) || cborvalue::skips(s)) by {
            assert(rp_entry(es[i + 1]));
        }
        cborvalue::lemma_last(rest, Value::Text("id"@));
        cborvalue::lemma_last(rest, Value::Text("name"@));
        if es[0].0 == Value::Text("id"@) {
            let w = McView { rp_id: encode_utf8(es[0].1->Text_0), ..v };
            lemma_rp_members(s, q, rest, w);
            assert(rp_said(rest, w) =~= rp_said(es, v));
        } else if es[0].0 == Value::Text("name"@) {
            let w = v;
            lemma_rp_members(s, q, rest, w);
            assert(rp_said(rest, w) =~= rp_said(es, v));
        } else {
            lemma_rp_members(s, q, rest, v);
            assert(rp_said(rest, v) =~= rp_said(es, v));
        }
    }
}

/// The id of a relying-party entity is read as the id of the relying party; its
/// name changes nothing.
pub proof fn law_rp_entity(s: Seq<u8>, pos: int, es: Seq<(Value, Value)>, v: McView)
    requires
        cborvalue::stands(s, pos, cborvalue::enc(Value::Table(es))),
        cborvalue::sized(Value::Table(es)),
        forall|i: int|
            0 <= i < es.len() ==> rp_entry(#[trigger] es[i]) && (rp_key(es[i].0)
                || cborvalue::skips(s)),
    ensures
        mcrequest::rp_entity(s, pos, v) == Ok::<(McView, int), CtapError>(
            (rp_said(es, v), pos + cborvalue::enc(Value::Table(es)).len()),
        ),
{
    cbordec::lemma_taken(s, pos, Value::Table(es));
    let at = pos + cborvalue::enc(Value::Table(es)).len() - cborvalue::enc_entries(es).len();
    lemma_rp_members(s, at, es, v);
}

/// An entry as the options has them: the members that are known have the right type.
pub open spec fn options_entry(e: (Value, Value)) -> bool {
    &&& e.0 is Text
    &&& e.0 == Value::Text("rk"@) ==> e.1 is Bool
    &&& e.0 == Value::Text("up"@) ==> e.1 is Bool
    &&& e.0 == Value::Text("uv"@) ==> e.1 is Bool
}

/// Whether the key of an entry is one that the options gives a meaning.
pub open spec fn options_key(k: Value) -> bool {
    ||| k == Value::Text("rk"@)
    ||| k == Value::Text("up"@)
    ||| k == Value::Text("uv"@)
}

/// `v` with what the entries say.
pub open spec fn options_said(es: Seq<(Value, Value)>, v: McView) -> McView {
    McView {
        rk: cborvalue::bool_named(es, "rk"@, v.rk),
        up: cborvalue::opt_bool_named(es, "up"@, v.up),
        uv: cborvalue::bool_named(es, "uv"@, v.uv),
        ..v
    }
}

proof fn lemma_options_members(s: Seq<u8>, pos: int, es: Seq<(Value, Value)>, v: McView)
    requires
        cborvalue::stands(s, pos, cborvalue::enc_entries(es)),
        cborvalue::sized_entries(es),
        forall|i: int|
            0 <= i < es.len() ==> options_entry(#[trigger] es[i]) && (options_key(es[i].0)
                || cborvalue::skips(s)),
    ensures
        mcrequest::option_members(s, pos, es.len(), v) == Ok::<(McView, int), CtapError>(
            (options_said(es, v), pos + cborvalue::enc_entries(es).len()),
        ),
    decreases es.len(),
{
    if es.len() == 0 {
        assert(options_said(es, v) =~= v);
    } else {
        lemma_option_names();
        cborvalue::lemma_utf8_distinct();
        let rest = es.subrange(1, es.len() as int);
        let p = pos + cborvalue::enc(es[0].0).len();
        let q = p + cborvalue::enc(es[0].1).len();
        cborvalue::lemma_first_entry(s, pos, es);
        assert(options_entry(es[0]));
        cbordec::lemma_taken(s, pos, es[0].0);
        cbordec::lemma_taken(s, p, es[0].1);
        assert forall|i: int| 0 <= i < rest.len() implies options_entry(#[trigger] rest[i]) && (
        options_key(rest[i].0) || cborvalue::skips(s)) by {
            assert(options_entry(es[i + 1]));
        }
        cborvalue::lemma_last(rest, Value::Text("rk"@));
        cborvalue::lemma_last(rest, Value::Text("up"@));
        cborvalue::lemma_last(rest, Value::Text("uv"@));
        if es[0].0 == Value::Text("rk"@) {
            let w = McView { rk: es[0].1->Bool_0, ..v };
            lemma_options_members(s, q, rest, w);
            assert(options_said(rest, w) =~= options_said(es, v));
        } else if es[0].0 == Value::Text("up"@) {
            let w = McView { up: Some(es[0].1->Bool_0), ..v };
            lemma_options_members(s, q, rest, w);
            assert(options_said(rest, w) =~= options_said(es, v));
        } else if es[0].0 == Value::Text("uv"@) {
            let w = McView { uv: es[0].1->Bool_0, ..v };
            lemma_options_members(s, q, rest, w);
            assert(options_said(rest, w) =~= options_said(es, v));
        } else {
            lemma_options_members(s, q, rest, v);
            assert(options_said(rest, v) =~= options_said(es, v));
        }
    }
}

/// The options of a request are read each into its own field; what is absent
/// keeps its default.
pub proof fn law_options(s: Seq<u8>, pos: int, es: Seq<(Value, Value)>, v: McView)
    requires
        cborvalue::stands(s, pos, cborvalue::enc(Value::Table(es))),
        cborvalue::sized(Value::Table(es)),
        forall|i: int|
            0 <= i < es.len() ==> options_entry(#[trigger] es[i]) && (options_key(es[i].0)
                || cborvalue::skips(s)),
    ensures
        mcrequest::options(s, pos, v) == Ok::<(McView, int), CtapError>(
            (options_said(es, v), pos + cborvalue::enc(Value::Table(es)).len()),
        ),
{
    cbordec::lemma_taken(s, pos, Value::Table(es));
    let at = pos + cborvalue::enc(Value::Table(es)).len() - cborvalue::enc_entries(es).len();
    lemma_options_members(s, at, es, v);
}

/// An entry as the extensions has them: the members that are known have the right type.
pub open spec fn extension_entry(e: (Value, Value)) -> bool {
    &&& e.0 is Text
    &&& e.0 == Value::Text("credProtect"@) ==> (e.1 matches Value::Int(n) && 0 <= n <= u32::MAX)
    &&& e.0 == Value::Text("credBlob"@) ==> e.1 is Bytes
    &&& e.0 == Value::Text("minPinLength"@) ==> e.1 is Bool
    &&& e.0 == Value::Text("thirdPartyPayment"@) ==> e.1 is Bool
    &&& e.0 == Value::Text("hmac-secret"@) ==> e.1 is Bool
    &&& e.0 == Value::Text("hmac-secret-mc"@) ==> (e.1 matches Value::Table(h) && hmacsecret::request_entries(h))
    &&& e.0 == Value::Text("largeBlobKey"@) ==> e.1 is Bool
}

/// Whether the key of an entry is one that the extensions gives a meaning.
pub open spec fn extension_key(k: Value) -> bool {
    ||| k == Value::Text("credProtect"@)
    ||| k == Value::Text("credBlob"@)
    ||| k == Value::Text("minPinLength"@)
    ||| k == Value::Text("thirdPartyPayment"@)
    ||| k == Value::Text("hmac-secret"@)
    ||| k == Value::Text("hmac-secret-mc"@)
    ||| k == Value::Text("largeBlobKey"@)
}

/// `v` with what the entries say.
pub open spec fn extension_said(es: Seq<(Value, Value)>, v: McView) -> McView {
    McView {
        cred_protect: cborvalue::int_named(es, "credProtect"@, v.cred_protect),
        cred_blob: cborvalue::bytes_named(es, "credBlob"@, v.cred_blob),
        min_pin_length: cborvalue::bool_named(es, "minPinLength"@, v.min_pin_length),
        third_party_payment: cborvalue::bool_named(es, "thirdPartyPayment"@, v.third_party_payment),
        hmac_secret: cborvalue::bool_named(es, "hmac-secret"@, v.hmac_secret),
        hmac_secret_mc: match cborvalue::last(es, Value::Text("hmac-secret-mc"@)) {
            Some(Value::Table(h)) => hmacsecret::said(h),
            _ => v.hmac_secret_mc,
        },
        large_blob_key: cborvalue::opt_bool_named(es, "largeBlobKey"@, v.large_blob_key),
        ..v
    }
}

proof fn lemma_extension_members(s: Seq<u8>, pos: int, es: Seq<(Value, Value)>, v: McView)
    requires
        cborvalue::stands(s, pos, cborvalue::enc_entries(es)),
        cborvalue::sized_entries(es),
        forall|i: int|
            0 <= i < es.len() ==> extension_entry(#[trigger] es[i]) && (extension_key(es[i].0)
                || cborvalue::skips(s)),
        cborvalue::skips(s),
    ensures
        mcrequest::ext_members(s, pos, es.len(), v) == Ok::<(McView, int), CtapError>(
            (extension_said(es, v), pos + cborvalue::enc_entries(es).len()),
        ),
    decreases es.len(),
{
    if es.len() == 0 {
        assert(extension_said(es, v) =~= v);
    } else {
        let rest = es.subrange(1, es.len() as int);
        let p = pos + cborvalue::enc(es[0].0).len();
        let q = p + cborvalue::enc(es[0].1).len();
        cborvalue::lemma_first_entry(s, pos, es);
        assert(extension_entry(es[0]));
        cbordec::lemma_taken(s, pos, es[0].0);
        cbordec::lemma_taken(s, p, es[0].1);
        assert forall|i: int| 0 <= i < rest.len() implies extension_entry(#[trigger] rest[i]) && (
        extension_key(rest[i].0) || cborvalue::skips(s)) by {
            assert(extension_entry(es[i + 1]));
        }
        let w = lemma_extension_member(s, p, es[0], v);
        lemma_extension_members(s, q, rest, w);
        lemma_extension_step(es, v);
    }
}

/// One extension is entered into its field.
proof fn lemma_extension_member(s: Seq<u8>, p: int, e: (Value, Value), v: McView) -> (w: McView)
    requires
        cborvalue::stands(s, p, cborvalue::enc(e.1)),
        cborvalue::sized(e.1),
        extension_entry(e),
        cborvalue::skips(s),
    ensures
        mcrequest::ext_member(s, p, encode_utf8(e.0->Text_0), v) == Ok::<(McView, int), CtapError>(
            (w, p + cborvalue::enc(e.1).len()),
        ),
        w == extension_one(e, v),
{
    lemma_extension_names();
    cborvalue::lemma_utf8_distinct();
    cbordec::lemma_taken(s, p, e.1);
    if e.0 == Value::Text("hmac-secret-mc"@) {
        hmacsecret::law_request(s, p, e.1->Table_0);
    }
    extension_one(e, v)
}

/// `v` with what one extension says.
spec fn extension_one(e: (Value, Value), v: McView) -> McView {
    if e.0 == Value::Text("credProtect"@) {
        McView { cred_protect: e.1->Int_0, ..v }
    } else if e.0 == Value::Text("credBlob"@) {
        McView { cred_blob: e.1->Bytes_0, ..v }
    } else if e.0 == Value::Text("minPinLength"@) {
        McView { min_pin_length: e.1->Bool_0, ..v }
    } else if e.0 == Value::Text("thirdPartyPayment"@) {
        McView { third_party_payment: e.1->Bool_0, ..v }
    } else if e.0 == Value::Text("hmac-secret"@) {
        McView { hmac_secret: e.1->Bool_0, ..v }
    } else if e.0 == Value::Text("hmac-secret-mc"@) {
        McView { hmac_secret_mc: hmacsecret::said(e.1->Table_0), ..v }
    } else if e.0 == Value::Text("largeBlobKey"@) {
        McView { large_blob_key: Some(e.1->Bool_0), ..v }
    } else {
        v
    }
}

proof fn lemma_extension_step(es: Seq<(Value, Value)>, v: McView)
    requires
        es.len() > 0,
        forall|i: int| 0 <= i < es.len() ==> extension_entry(#[trigger] es[i]),
    ensures
        extension_said(es.subrange(1, es.len() as int), extension_one(es[0], v)) == extension_said(
            es,
            v,
        ),
{
    lemma_extension_names();
    let rest = es.subrange(1, es.len() as int);
    assert(extension_entry(es[0]));
    assert forall|i: int| 0 <= i < rest.len() implies extension_entry(#[trigger] rest[i]) by {
        assert(extension_entry(es[i + 1]));
    }
    cborvalue::lemma_last(rest, Value::Text("credProtect"@));
    cborvalue::lemma_last(rest, Value::Text("credBlob"@));
    cborvalue::lemma_last(rest, Value::Text("minPinLength"@));
    cborvalue::lemma_last(rest, Value::Text("thirdPartyPayment"@));
    cborvalue::lemma_last(rest, Value::Text("hmac-secret"@));
    cborvalue::lemma_last(rest, Value::Text("hmac-secret-mc"@));
    cborvalue::lemma_last(rest, Value::Text("largeBlobKey"@));
    let w = extension_one(es[0], v);
    assert(extension_said(rest, w) =~= extension_said(es, v));
}

/// The extensions of a request are read each into its own field; what is absent
/// keeps its default.
pub proof fn law_extensions(s: Seq<u8>, pos: int, es: Seq<(Value, Value)>, v: McView)
    requires
        cborvalue::stands(s, pos, cborvalue::enc(Value::Table(es))),
        cborvalue::sized(Value::Table(es)),
        forall|i: int|
            0 <= i < es.len() ==> extension_entry(#[trigger] es[i]) && (extension_key(es[i].0)
                || cborvalue::skips(s)),
        cborvalue::skips(s),
    ensures
        mcrequest::extensions(s, pos, v) == Ok::<(McView, int), CtapError>(
            (extension_said(es, v), pos + cborvalue::enc(Value::Table(es)).len()),
        ),
{
    cbordec::lemma_taken(s, pos, Value::Table(es));
    let at = pos + cborvalue::enc(Value::Table(es)).len() - cborvalue::enc_entries(es).len();
    lemma_extension_members(s, at, es, v);
}

/// The user entity {"id": i, "name": n, "displayName": d} is read as a user with
/// that id, that name and that display name.
pub proof fn law_user_fields(
    s: Seq<u8>,
    pos: int,
    i: Seq<u8>,
    n: Seq<char>,
    d: Seq<char>,
    v: McView,
)
    requires
        cborvalue::stands(
            s,
            pos,
            cbor::map(3) + cbor::text("id"@) + cbor::bytes(i) + cbor::text("name"@) + cbor::text(n)
                + cbor::text("displayName"@) + cbor::text(d),
        ),
        cborvalue::fits(i.len() as int),
        cborvalue::fits(encode_utf8(n).len() as int),
        cborvalue::fits(encode_utf8(d).len() as int),
    ensures
        mcrequest::user_entity(s, pos, v) matches Ok((w, _)) && w == (McView {
            user_id: i,
            user_name: encode_utf8(n),
            user_display_name: encode_utf8(d),
            ..v
        }),
{
    lemma_entity_names();
    cborvalue::lemma_short_text("id"@);
    cborvalue::lemma_short_text("name"@);
    cborvalue::lemma_short_text("displayName"@);
    let h = cbor::map(3);
    let e0 = Seq::<(Value, Value)>::empty();
    let e1 = e0.push((Value::Text("id"@), Value::Bytes(i)));
    let e2 = e1.push((Value::Text("name"@), Value::Text(n)));
    let e3 = e2.push((Value::Text("displayName"@), Value::Text(d)));
    cborvalue::lemma_nothing(h);
    cborvalue::lemma_entry(h, e0, Value::Text("id"@), Value::Bytes(i));
    cborvalue::lemma_entry(h, e1, Value::Text("name"@), Value::Text(n));
    cborvalue::lemma_entry(h, e2, Value::Text("displayName"@), Value::Text(d));
    law_user_entity(s, pos, e3, v);
    reveal_with_fuel(cborvalue::last, 4);
    assert(e3.subrange(1, 3) =~= e0.push(e3[1]).push(e3[2]));
    assert(e3.subrange(1, 3).subrange(1, 2) =~= e0.push(e3[2]));
    assert(e3.subrange(1, 3).subrange(1, 2).subrange(1, 1) =~= e0);
}

// ---- the excluded credentials ----
/// An entry as a credential descriptor has them.
pub open spec fn descriptor_entry(e: (Value, Value)) -> bool {
    &&& e.0 is Text
    &&& e.0 == Value::Text("id"@) ==> e.1 is Bytes
    &&& e.0 == Value::Text("type"@) ==> e.1 is Text
}

proof fn lemma_descriptor_members(
    s: Seq<u8>,
    pos: int,
    es: Seq<(Value, Value)>,
    id: Option<Seq<u8>>,
    typed: bool,
)
    requires
        cborvalue::stands(s, pos, cborvalue::enc_entries(es)),
        cborvalue::sized_entries(es),
        cborvalue::skips(s),
        forall|i: int| 0 <= i < es.len() ==> descriptor_entry(#[trigger] es[i]),
    ensures
        mcrequest::descriptor_members(s, pos, es.len(), id, typed) == Ok::<
            ((Option<Seq<u8>>, bool), int),
            CtapError,
        >(
            (
                (
                    match cborvalue::last(es, Value::Text("id"@)) {
                        Some(x) => Some(x->Bytes_0),
                        None => id,
                    },
                    typed || cborvalue::last(es, Value::Text("type"@)) is Some,
                ),
                pos + cborvalue::enc_entries(es).len(),
            ),
        ),
    decreases es.len(),
{
    if es.len() > 0 {
        lemma_entity_names();
        cborvalue::lemma_utf8_distinct();
        let rest = es.subrange(1, es.len() as int);
        let p = pos + cborvalue::enc(es[0].0).len();
        let q = p + cborvalue::enc(es[0].1).len();
        cborvalue::lemma_first_entry(s, pos, es);
        assert(descriptor_entry(es[0]));
        cbordec::lemma_taken(s, pos, es[0].0);
        cbordec::lemma_taken(s, p, es[0].1);
        assert forall|i: int| 0 <= i < rest.len() implies descriptor_entry(#[trigger] rest[i]) by {
            assert(descriptor_entry(es[i + 1]));
        }
        if es[0].0 == Value::Text("id"@) {
            lemma_descriptor_members(s, q, rest, Some(es[0].1->Bytes_0), typed);
        } else if es[0].0 == Value::Text("type"@) {
            lemma_descriptor_members(s, q, rest, id, true);
        } else {
            lemma_descriptor_members(s, q, rest, id, typed);
        }
    }
}

/// A credential descriptor is read as its id; one without an id or without a
/// type is refused.
pub proof fn law_descriptor(s: Seq<u8>, pos: int, es: Seq<(Value, Value)>)
    requires
        cborvalue::stands(s, pos, cborvalue::enc(Value::Table(es))),
        cborvalue::sized(Value::Table(es)),
        cborvalue::skips(s),
        forall|i: int| 0 <= i < es.len() ==> descriptor_entry(#[trigger] es[i]),
    ensures
        match (
            cborvalue::last(es, Value::Text("id"@)),
            cborvalue::last(es, Value::Text("type"@)),
        ) {
            (Some(Value::Bytes(b)), Some(_)) => mcrequest::descriptor(s, pos) == Ok::<
                (Seq<u8>, int),
                CtapError,
            >((b, pos + cborvalue::enc(Value::Table(es)).len())),
            _ => mcrequest::descriptor(s, pos) == Err::<(Seq<u8>, int), CtapError>(
                CtapError::MissingParameter,
            ),
        },
{
    lemma_entity_names();
    cborvalue::lemma_last(es, Value::Text("id"@));
    cbordec::lemma_taken(s, pos, Value::Table(es));
    let at = pos + cborvalue::enc(Value::Table(es)).len() - cborvalue::enc_entries(es).len();
    lemma_descriptor_members(s, at, es, None, false);
}

/// A credential descriptor with an id and a type.
pub open spec fn is_descriptor(v: Value, id: Seq<u8>) -> bool {
    &&& v matches Value::Table(es)
    &&& forall|i: int| 0 <= i < es.len() ==> descriptor_entry(#[trigger] es[i])
    &&& cborvalue::last(es, Value::Text("id"@)) == Some(Value::Bytes(id))
    &&& cborvalue::last(es, Value::Text("type"@)) is Some
}

/// The first sixteen of a list.
pub open spec fn at_most_sixteen(ids: Seq<Seq<u8>>) -> Seq<Seq<u8>> {
    if ids.len() <= 16 {
        ids
    } else {
        ids.take(16)
    }
}

proof fn lemma_descriptors(
    s: Seq<u8>,
    pos: int,
    items: Seq<Value>,
    ids: Seq<Seq<u8>>,
    v: McView,
)
    requires
        cborvalue::stands(s, pos, cborvalue::enc_items(items)),
        cborvalue::sized_items(items),
        cborvalue::skips(s),
        ids.len() == items.len(),
        v.exclude.len() <= 16,
        forall|i: int|
            #![trigger items[i]]
            0 <= i < items.len() ==> is_descriptor(items[i], ids[i]),
    ensures
        mcrequest::descriptors(s, pos, items.len(), v) == Ok::<(McView, int), CtapError>(
            (
                McView { exclude: at_most_sixteen(v.exclude + ids), ..v },
                pos + cborvalue::enc_items(items).len(),
            ),
        ),
    decreases items.len(),
{
    if items.len() == 0 {
        assert(v.exclude + ids =~= v.exclude);
    } else {
        let rest = items.subrange(1, items.len() as int);
        let more = ids.subrange(1, ids.len() as int);
        let q = pos + cborvalue::enc(items[0]).len();
        cborvalue::lemma_first_item(s, pos, items);
        assert(is_descriptor(items[0], ids[0]));
        law_descriptor(s, pos, items[0]->Table_0);
        assert forall|i: int| #![trigger rest[i]] 0 <= i < rest.len() implies is_descriptor(
            rest[i],
            more[i],
        ) by {
            assert(is_descriptor(items[i + 1], ids[i + 1]));
        }
        let w = if v.exclude.len() < 16 {
            McView { exclude: v.exclude.push(ids[0]), ..v }
        } else {
            v
        };
        lemma_descriptors(s, q, rest, more, w);
        assert(v.exclude.push(ids[0]) + more =~= v.exclude + ids);
        if v.exclude.len() == 16 {
            assert(at_most_sixteen(v.exclude + more) =~= v.exclude);
            assert(at_most_sixteen(v.exclude + ids) =~= v.exclude);
        }
    }
}

/// The exclude list of a request is read as the ids of its descriptors, in their
/// order; of a list that is longer the first sixteen count.
pub proof fn law_exclude_list(
    s: Seq<u8>,
    pos: int,
    items: Seq<Value>,
    ids: Seq<Seq<u8>>,
    v: McView,
)
    requires
        cborvalue::stands(s, pos, cborvalue::enc(Value::List(items))),
        cborvalue::sized(Value::List(items)),
        cborvalue::skips(s),
        ids.len() == items.len(),
        v.exclude.len() == 0,
        forall|i: int|
            #![trigger items[i]]
            0 <= i < items.len() ==> is_descriptor(items[i], ids[i]),
    ensures
        mcrequest::exclude_list(s, pos, v) == Ok::<(McView, int), CtapError>(
            (
                McView { exclude: at_most_sixteen(ids), ..v },
                pos + cborvalue::enc(Value::List(items)).len(),
            ),
        ),
{
    cbordec::lemma_taken(s, pos, Value::List(items));
    let at = pos + cborvalue::enc(Value::List(items)).len() - cborvalue::enc_items(items).len();
    lemma_descriptors(s, at, items, ids, v);
    assert(v.exclude + ids =~= ids);
}

// ---- the algorithms ----
/// An entry as a credential parameter has them.
pub open spec fn param_entry(e: (Value, Value)) -> bool {
    &&& e.0 is Text
    &&& e.0 == Value::Text("type"@) ==> e.1 is Text
    &&& e.0 == Value::Text("alg"@) ==> (e.1 matches Value::Int(n) && i64::MIN <= n <= i64::MAX)
}

/// A credential parameter of a type and an algorithm.
pub open spec fn is_param(v: Value, ty: Seq<char>, alg: int) -> bool {
    &&& v matches Value::Table(es)
    &&& forall|i: int| 0 <= i < es.len() ==> param_entry(#[trigger] es[i])
    &&& cborvalue::last(es, Value::Text("type"@)) == Some(Value::Text(ty))
    &&& cborvalue::last(es, Value::Text("alg"@)) == Some(Value::Int(alg))
}

proof fn lemma_param_members(
    s: Seq<u8>,
    pos: int,
    es: Seq<(Value, Value)>,
    ty: Option<Seq<u8>>,
    alg: Option<int>,
)
    requires
        cborvalue::stands(s, pos, cborvalue::enc_entries(es)),
        cborvalue::sized_entries(es),
        cborvalue::skips(s),
        forall|i: int| 0 <= i < es.len() ==> param_entry(#[trigger] es[i]),
    ensures
        mcrequest::param_members(s, pos, es.len(), ty, alg) == Ok::<
            ((Option<Seq<u8>>, Option<int>), int),
            CtapError,
        >(
            (
                (
                    match cborvalue::last(es, Value::Text("type"@)) {
                        Some(x) => Some(encode_utf8(x->Text_0)),
                        None => ty,
                    },
                    match cborvalue::last(es, Value::Text("alg"@)) {
                        Some(x) => Some(x->Int_0),
                        None => alg,
                    },
                ),
                pos + cborvalue::enc_entries(es).len(),
            ),
        ),
    decreases es.len(),
{
    if es.len() > 0 {
        lemma_entity_names();
        cborvalue::lemma_utf8_distinct();
        let rest = es.subrange(1, es.len() as int);
        let p = pos + cborvalue::enc(es[0].0).len();
        let q = p + cborvalue::enc(es[0].1).len();
        cborvalue::lemma_first_entry(s, pos, es);
        assert(param_entry(es[0]));
        cbordec::lemma_taken(s, pos, es[0].0);
        cbordec::lemma_taken(s, p, es[0].1);
        assert forall|i: int| 0 <= i < rest.len() implies param_entry(#[trigger] rest[i]) by {
            assert(param_entry(es[i + 1]));
        }
        if es[0].0 == Value::Text("type"@) {
            lemma_param_members(s, q, rest, Some(encode_utf8(es[0].1->Text_0)), alg);
        } else if es[0].0 == Value::Text("alg"@) {
            lemma_param_members(s, q, rest, ty, Some(es[0].1->Int_0));
        } else {
            lemma_param_members(s, q, rest, ty, alg);
        }
    }
}

/// A credential parameter is read as its type and its algorithm.
pub proof fn law_param(s: Seq<u8>, pos: int, v: Value, ty: Seq<char>, alg: int)
    requires
        cborvalue::stands(s, pos, cborvalue::enc(v)),
        cborvalue::sized(v),
        cborvalue::skips(s),
        is_param(v, ty, alg),
    ensures
        mcrequest::param_entry(s, pos) == Ok::<((Seq<u8>, int), int), CtapError>(
            ((encode_utf8(ty), alg), pos + cborvalue::enc(v).len()),
        ),
{
    let es = v->Table_0;
    cbordec::lemma_taken(s, pos, v);
    let at = pos + cborvalue::enc(v).len() - cborvalue::enc_entries(es).len();
    lemma_param_members(s, at, es, None, None);
}

/// The algorithm and the curve that a list of types and algorithms leads to,
/// entry by entry.
pub open spec fn chosen(
    prefs: Seq<(Seq<char>, int)>,
    sel: Option<(i64, u8)>,
    profile: Profile,
) -> Option<(i64, u8)>
    decreases prefs.len(),
{
    if prefs.len() == 0 {
        sel
    } else {
        chosen(
            prefs.subrange(1, prefs.len() as int),
            mcrequest::selected(sel, encode_utf8(prefs[0].0), prefs[0].1, profile),
            profile,
        )
    }
}

proof fn lemma_param_entries(
    s: Seq<u8>,
    pos: int,
    items: Seq<Value>,
    prefs: Seq<(Seq<char>, int)>,
    v: McView,
    profile: Profile,
)
    requires
        cborvalue::stands(s, pos, cborvalue::enc_items(items)),
        cborvalue::sized_items(items),
        cborvalue::skips(s),
        prefs.len() == items.len(),
        forall|i: int|
            #![trigger items[i]]
            0 <= i < items.len() ==> is_param(items[i], prefs[i].0, prefs[i].1),
    ensures
        mcrequest::param_entries(s, pos, items.len(), v, profile) == Ok::<(McView, int), CtapError>(
            (
                McView {
                    has_pubkey_param: v.has_pubkey_param || items.len() > 0,
                    sel: chosen(prefs, v.sel, profile),
                    ..v
                },
                pos + cborvalue::enc_items(items).len(),
            ),
        ),
    decreases items.len(),
{
    if items.len() > 0 {
        let rest = items.subrange(1, items.len() as int);
        let more = prefs.subrange(1, prefs.len() as int);
        let q = pos + cborvalue::enc(items[0]).len();
        cborvalue::lemma_first_item(s, pos, items);
        assert(is_param(items[0], prefs[0].0, prefs[0].1));
        law_param(s, pos, items[0], prefs[0].0, prefs[0].1);
        assert forall|i: int| #![trigger rest[i]] 0 <= i < rest.len() implies is_param(
            rest[i],
            more[i].0,
            more[i].1,
        ) by {
            assert(is_param(items[i + 1], prefs[i + 1].0, prefs[i + 1].1));
        }
        let w = McView {
            has_pubkey_param: true,
            sel: mcrequest::selected(v.sel, encode_utf8(prefs[0].0), prefs[0].1, profile),
            ..v
        };
        lemma_param_entries(s, q, rest, more, w, profile);
    }
}

/// The credential parameters of a request are read as types and algorithms in
/// their order, from which the selection is made.
pub proof fn law_params(
    s: Seq<u8>,
    pos: int,
    items: Seq<Value>,
    prefs: Seq<(Seq<char>, int)>,
    v: McView,
    profile: Profile,
)
    requires
        cborvalue::stands(s, pos, cborvalue::enc(Value::List(items))),
        cborvalue::sized(Value::List(items)),
        cborvalue::skips(s),
        prefs.len() == items.len(),
        forall|i: int|
            #![trigger items[i]]
            0 <= i < items.len() ==> is_param(items[i], prefs[i].0, prefs[i].1),
    ensures
        mcrequest::params(s, pos, v, profile) == Ok::<(McView, int), CtapError>(
            (
                McView {
                    has_pubkey_param: v.has_pubkey_param || items.len() > 0,
                    sel: chosen(prefs, v.sel, profile),
                    ..v
                },
                pos + cborvalue::enc(Value::List(items)).len(),
            ),
        ),
{
    cbordec::lemma_taken(s, pos, Value::List(items));
    let at = pos + cborvalue::enc(Value::List(items)).len() - cborvalue::enc_items(items).len();
    lemma_param_entries(s, at, items, prefs, v, profile);
}

/// The algorithm of an entry is one that the device makes keys for.
pub open spec fn supported(pref: (Seq<char>, int), profile: Profile) -> bool {
    &&& pref.0 == "public-key"@
    &&& {
        let a = pref.1;
        ||| a == -7 || a == -8 || a == -9 || a == -19 || a == -35 || a == -36
        ||| a == -48 || a == -49 || a == -51 || a == -52
        ||| a == -47 && !profile.fips
    }
}

/// How an algorithm ranks where the post-quantum ones are preferred.
pub open spec fn preference(alg: int) -> int {
    if alg == -49 {
        2
    } else if alg == -48 {
        1
    } else {
        0
    }
}

/// The algorithm that is selected.
pub open spec fn selected_alg(sel: Option<(i64, u8)>) -> int {
    match sel {
        Some(c) => c.0 as int,
        None => 0,
    }
}

/// Each supported algorithm stands for a canonical one on its curve; no other
/// has a curve. Aliases that name the curve stand for the plain algorithm, and
/// secp256k1 is left out under the FIPS-style profile.
pub proof fn law_algorithm_curves(alg: int, fips: bool)
    ensures
        mcrequest::curve_of(alg, fips) == (if alg == -7 || alg == -9 {
            Some((-7i64, 1u8))
        } else if alg == -35 || alg == -51 {
            Some((-35i64, 2u8))
        } else if alg == -36 || alg == -52 {
            Some((-36i64, 3u8))
        } else if alg == -8 || alg == -19 {
            Some((-8i64, 6u8))
        } else if alg == -47 && !fips {
            Some((-47i64, 8u8))
        } else if alg == -48 {
            Some((-48i64, 44u8))
        } else if alg == -49 {
            Some((-49i64, 65u8))
        } else {
            None
        }),
{
}

/// An entry takes the selection where nothing was selected before, or where the
/// post-quantum algorithms are preferred and it ranks higher.
proof fn lemma_selected(sel: Option<(i64, u8)>, pref: (Seq<char>, int), profile: Profile)
    ensures
        mcrequest::selected(sel, encode_utf8(pref.0), pref.1, profile) == (if supported(
            pref,
            profile,
        ) && (sel is None || (profile.prefer_pqc && preference(pref.1) > preference(
            selected_alg(sel)))) {
            mcrequest::curve_of(pref.1, profile.fips)
        } else {
            sel
        }),
        supported(pref, profile) ==> (mcrequest::curve_of(pref.1, profile.fips) matches Some(c)
            && preference(c.0 as int) == preference(pref.1)),
{
    cborvalue::lemma_utf8_distinct();
    assert((encode_utf8(pref.0) == encode_utf8("public-key"@)) == (pref.0 == "public-key"@));
}

/// The algorithm of a new credential: none where no entry is supported. Without
/// a preference it is that of the first supported entry; where the post-quantum
/// ones are preferred, it is that of the first among the supported entries that
/// rank highest.
pub proof fn law_selection(prefs: Seq<(Seq<char>, int)>, profile: Profile)
    ensures
        chosen(prefs, None, profile) is None <==> forall|i: int|
            0 <= i < prefs.len() ==> !supported(#[trigger] prefs[i], profile),
        chosen(prefs, None, profile) matches Some(c) ==> exists|i: int|
            0 <= i < prefs.len() && supported(#[trigger] prefs[i], profile)
                && mcrequest::curve_of(prefs[i].1, profile.fips) == Some(c) && (forall|j: int|
                0 <= j < i && supported(#[trigger] prefs[j], profile) ==> profile.prefer_pqc
                    && preference(prefs[j].1) < preference(prefs[i].1)) && (profile.prefer_pqc
                ==> forall|j: int|
                0 <= j < prefs.len() && supported(#[trigger] prefs[j], profile) ==> preference(
                    prefs[j].1,
                ) <= preference(prefs[i].1)),
{
    lemma_selection(prefs, None, profile);
    if chosen(prefs, None, profile) is Some && !picked_some(prefs, None, profile) {
        assert(chosen(prefs, None, profile) == None::<(i64, u8)>);
    }
}

/// Entry `i` is the one that a selection ends with.
spec fn picked(
    prefs: Seq<(Seq<char>, int)>,
    sel: Option<(i64, u8)>,
    profile: Profile,
    i: int,
) -> bool {
    &&& 0 <= i < prefs.len()
    &&& supported(prefs[i], profile)
    &&& mcrequest::curve_of(prefs[i].1, profile.fips) == chosen(prefs, sel, profile)
    &&& sel is Some ==> profile.prefer_pqc && preference(selected_alg(sel)) < preference(prefs[i].1)
    &&& forall|j: int|
        0 <= j < i && supported(#[trigger] prefs[j], profile) ==> profile.prefer_pqc && preference(
            prefs[j].1,
        ) < preference(prefs[i].1)
    &&& profile.prefer_pqc ==> forall|j: int|
        0 <= j < prefs.len() && supported(#[trigger] prefs[j], profile) ==> preference(prefs[j].1)
            <= preference(prefs[i].1)
}

spec fn picked_some(
    prefs: Seq<(Seq<char>, int)>,
    sel: Option<(i64, u8)>,
    profile: Profile,
) -> bool {
    exists|i: int| #[trigger] picked(prefs, sel, profile, i)
}

/// A selection ends with one of the entries, or stays as it was because none is
/// supported or, with a preference, none ranks higher.
proof fn lemma_selection(
    prefs: Seq<(Seq<char>, int)>,
    sel: Option<(i64, u8)>,
    profile: Profile,
)
    ensures
        picked_some(prefs, sel, profile) || (chosen(prefs, sel, profile) == sel && forall|i: int|
            0 <= i < prefs.len() && supported(#[trigger] prefs[i], profile) ==> sel is Some && (
            profile.prefer_pqc ==> preference(prefs[i].1) <= preference(selected_alg(sel)))),
        sel is None ==> (chosen(prefs, sel, profile) is None <==> forall|i: int|
            0 <= i < prefs.len() ==> !supported(#[trigger] prefs[i], profile)),
        sel is Some ==> chosen(prefs, sel, profile) is Some,
    decreases prefs.len(),
{
    if prefs.len() > 0 {
        let rest = prefs.subrange(1, prefs.len() as int);
        let next = mcrequest::selected(sel, encode_utf8(prefs[0].0), prefs[0].1, profile);
        lemma_selected(sel, prefs[0], profile);
        lemma_selection(rest, next, profile);
        assert forall|i: int| 1 <= i < prefs.len() implies #[trigger] prefs[i] == rest[i - 1] by {}
        if picked_some(rest, next, profile) {
            let i = choose|i: int| #[trigger] picked(rest, next, profile, i);
            assert(prefs[i + 1] == rest[i]);
            assert forall|j: int| 0 <= j < i + 1 && supported(#[trigger] prefs[j], profile) implies
                profile.prefer_pqc && preference(prefs[j].1) < preference(prefs[i + 1].1) by {
                if j > 0 {
                    assert(supported(rest[j - 1], profile));
                }
            }
            if profile.prefer_pqc {
                assert forall|j: int|
                    0 <= j < prefs.len() && supported(
                        #[trigger] prefs[j],
                        profile,
                    ) implies preference(prefs[j].1) <= preference(prefs[i + 1].1) by {
                    if j > 0 {
                        assert(supported(rest[j - 1], profile));
                    }
                }
            }
            assert(picked(prefs, sel, profile, i + 1));
        } else {
            assert(chosen(rest, next, profile) == next);
            assert forall|i: int| 0 <= i < rest.len() && supported(#[trigger] rest[i], profile)
                implies prefs[i + 1] == rest[i] by {}
            if next != sel || (supported(prefs[0], profile) && sel is None) {
                if profile.prefer_pqc {
                    assert forall|j: int|
                        0 <= j < prefs.len() && supported(
                            #[trigger] prefs[j],
                            profile,
                        ) implies preference(prefs[j].1) <= preference(prefs[0].1) by {
                        if j > 0 {
                            assert(supported(rest[j - 1], profile));
                        }
                    }
                }
                assert(picked(prefs, sel, profile, 0));
            } else {
                assert forall|i: int|
                    0 <= i < prefs.len() && supported(#[trigger] prefs[i], profile) implies sel
                    is Some && (profile.prefer_pqc ==> preference(prefs[i].1) <= preference(
                    selected_alg(sel))) by {
                    if i > 0 {
                        assert(supported(rest[i - 1], profile));
                    }
                }
            }
        }
        if sel is None {
            if chosen(prefs, sel, profile) is None {
                assert(!supported(prefs[0], profile));
                assert forall|i: int| 0 <= i < prefs.len() implies !supported(
                    #[trigger] prefs[i],
                    profile,
                ) by {
                    if i > 0 {
                        assert(!supported(rest[i - 1], profile));
                    }
                }
            }
        }
    }
}

// ---- the whole request ----
/// The members of a request: the four that must be there, and the six that may.
pub struct Asked {
    pub hash: Seq<u8>,
    pub rp: Seq<(Value, Value)>,
    pub user: Seq<(Value, Value)>,
    pub params: Seq<Value>,
    pub exclude: Option<Seq<Value>>,
    pub exts: Option<Seq<(Value, Value)>>,
    pub options: Option<Seq<(Value, Value)>>,
    pub param: Option<Seq<u8>>,
    pub proto: Option<int>,
    pub enterprise: Option<int>,
}

/// The member of key `k`.
pub open spec fn part(a: Asked, k: int) -> Option<Value> {
    if k == 1 {
        Some(Value::Bytes(a.hash))
    } else if k == 2 {
        Some(Value::Table(a.rp))
    } else if k == 3 {
        Some(Value::Table(a.user))
    } else if k == 4 {
        Some(Value::List(a.params))
    } else if k == 5 {
        match a.exclude {
            Some(x) => Some(Value::List(x)),
            None => None,
        }
    } else if k == 6 {
        match a.exts {
            Some(x) => Some(Value::Table(x)),
            None => None,
        }
    } else if k == 7 {
        match a.options {
            Some(x) => Some(Value::Table(x)),
            None => None,
        }
    } else if k == 8 {
        match a.param {
            Some(x) => Some(Value::Bytes(x)),
            None => None,
        }
    } else if k == 9 {
        match a.proto {
            Some(x) => Some(Value::Int(x)),
            None => None,
        }
    } else if k == 10 {
        match a.enterprise {
            Some(x) => Some(Value::Int(x)),
            None => None,
        }
    } else {
        None
    }
}

/// The entries of a request from key `k` on, in ascending order.
pub open spec fn entries_from(a: Asked, k: int) -> Seq<(Value, Value)>
    decreases 11 - k,
{
    if k > 10 {
        Seq::empty()
    } else {
        match part(a, k) {
            Some(v) => seq![(Value::Int(k), v)] + entries_from(a, k + 1),
            None => entries_from(a, k + 1),
        }
    }
}

/// The bytes of a request.
pub open spec fn request_bytes(a: Asked) -> Seq<u8> {
    cborvalue::enc(Value::Table(entries_from(a, 1)))
}

/// The members have the types and the contents that a request has, `prefs` being
/// the types and algorithms of the parameters and `ids` the excluded ids.
pub open spec fn well_formed(a: Asked, prefs: Seq<(Seq<char>, int)>, ids: Seq<Seq<u8>>) -> bool {
    &&& cborvalue::sized(Value::Table(entries_from(a, 1)))
    &&& forall|i: int| 0 <= i < a.rp.len() ==> rp_entry(#[trigger] a.rp[i])
    &&& forall|i: int| 0 <= i < a.user.len() ==> user_entry(#[trigger] a.user[i])
    &&& prefs.len() == a.params.len()
    &&& forall|i: int|
        #![trigger a.params[i]]
        0 <= i < a.params.len() ==> is_param(a.params[i], prefs[i].0, prefs[i].1)
    &&& match a.exclude {
        Some(x) => ids.len() == x.len() && forall|i: int|
            #![trigger x[i]]
            0 <= i < x.len() ==> is_descriptor(x[i], ids[i]),
        None => ids.len() == 0,
    }
    &&& a.exts matches Some(x) ==> forall|i: int|
        0 <= i < x.len() ==> extension_entry(#[trigger] x[i])
    &&& a.options matches Some(x) ==> forall|i: int|
        0 <= i < x.len() ==> options_entry(#[trigger] x[i])
    &&& a.proto matches Some(n) ==> 0 <= n <= u32::MAX
    &&& a.enterprise matches Some(n) ==> 0 <= n <= u32::MAX
}

/// The entries of a map that may be absent.
pub open spec fn or_none(x: Option<Seq<(Value, Value)>>) -> Seq<(Value, Value)> {
    match x {
        Some(es) => es,
        None => Seq::empty(),
    }
}

/// `v` with what the member of key `k` says.
spec fn entered(
    a: Asked,
    prefs: Seq<(Seq<char>, int)>,
    ids: Seq<Seq<u8>>,
    profile: Profile,
    k: int,
    v: McView,
) -> McView {
    if k == 1 {
        McView { client_data_hash: a.hash, ..v }
    } else if k == 2 {
        rp_said(a.rp, v)
    } else if k == 3 {
        user_said(a.user, v)
    } else if k == 4 {
        McView {
            has_pubkey_param: v.has_pubkey_param || a.params.len() > 0,
            sel: chosen(prefs, v.sel, profile),
            ..v
        }
    } else if k == 5 {
        McView { exclude: at_most_sixteen(ids), ..v }
    } else if k == 6 {
        extension_said(or_none(a.exts), v)
    } else if k == 7 {
        options_said(or_none(a.options), v)
    } else if k == 8 {
        McView { param: a.param, ..v }
    } else if k == 9 {
        McView {
            proto: match a.proto {
                Some(n) => n,
                None => v.proto,
            },
            ..v
        }
    } else {
        McView {
            enterprise: match a.enterprise {
                Some(n) => n,
                None => v.enterprise,
            },
            ..v
        }
    }
}

spec fn all_entered(
    a: Asked,
    prefs: Seq<(Seq<char>, int)>,
    ids: Seq<Seq<u8>>,
    profile: Profile,
    k: int,
    v: McView,
) -> McView
    decreases 11 - k,
{
    if k > 10 {
        v
    } else {
        all_entered(a, prefs, ids, profile, k + 1, entered(a, prefs, ids, profile, k, v))
    }
}

/// The member of key `k` is read and entered.
proof fn lemma_member(
    s: Seq<u8>,
    p: int,
    a: Asked,
    prefs: Seq<(Seq<char>, int)>,
    ids: Seq<Seq<u8>>,
    profile: Profile,
    k: int,
    v: McView,
)
    requires
        well_formed(a, prefs, ids),
        1 <= k <= 10,
        part(a, k) is Some,
        cborvalue::stands(s, p, cborvalue::enc(part(a, k)->0)),
        cborvalue::sized(part(a, k)->0),
        cborvalue::skips(s),
        v.exclude.len() == 0 || k > 5,
    ensures
        mcrequest::member(s, p, k, v, profile) == Ok::<(McView, int), CtapError>(
            (entered(a, prefs, ids, profile, k, v), p + cborvalue::enc(part(a, k)->0).len()),
        ),
{
    if k == 2 {
        law_rp_entity(s, p, a.rp, v);
    } else if k == 3 {
        law_user_entity(s, p, a.user, v);
    } else if k == 4 {
        law_params(s, p, a.params, prefs, v, profile);
    } else if k == 5 {
        law_exclude_list(s, p, a.exclude->0, ids, v);
    } else if k == 6 {
        law_extensions(s, p, a.exts->0, v);
    } else if k == 7 {
        law_options(s, p, a.options->0, v);
    } else {
        cbordec::lemma_taken(s, p, part(a, k)->0);
    }
}

proof fn lemma_absent(
    a: Asked,
    prefs: Seq<(Seq<char>, int)>,
    ids: Seq<Seq<u8>>,
    profile: Profile,
    k: int,
    v: McView,
)
    requires
        1 <= k <= 10,
        part(a, k) is None,
        well_formed(a, prefs, ids),
        k == 5 ==> v.exclude.len() == 0,
        k == 8 ==> v.param is None,
    ensures
        entered(a, prefs, ids, profile, k, v) == v,
{
    assert(entered(a, prefs, ids, profile, k, v) =~= v);
}

proof fn lemma_members_from(
    s: Seq<u8>,
    pos: int,
    a: Asked,
    prefs: Seq<(Seq<char>, int)>,
    ids: Seq<Seq<u8>>,
    profile: Profile,
    k: int,
    expected: int,
    v: McView,
)
    requires
        well_formed(a, prefs, ids),
        1 <= k <= 11,
        cborvalue::stands(s, pos, cborvalue::enc_entries(entries_from(a, k))),
        cborvalue::sized_entries(entries_from(a, k)),
        cborvalue::skips(s),
        k <= 5 ==> expected == k,
        expected <= k,
        5 <= k ==> 5 <= expected,
        k <= 5 ==> v.exclude.len() == 0,
        k <= 8 ==> v.param is None,
    ensures
        mcrequest::members(s, pos, entries_from(a, k).len(), expected, v, profile) == Ok::<
            McView,
            CtapError,
        >(all_entered(a, prefs, ids, profile, k, v)),
    decreases 11 - k,
{
    if k <= 10 {
        let es = entries_from(a, k);
        let w = entered(a, prefs, ids, profile, k, v);
        if part(a, k) is Some {
            let val = part(a, k)->0;
            let p = pos + cborvalue::enc(Value::Int(k)).len();
            let q = p + cborvalue::enc(val).len();
            assert(es[0] == (Value::Int(k), val));
            assert(es.subrange(1, es.len() as int) =~= entries_from(a, k + 1));
            cborvalue::lemma_first_entry(s, pos, es);
            cbordec::lemma_taken(s, pos, Value::Int(k));
            lemma_member(s, p, a, prefs, ids, profile, k, v);
            lemma_members_from(s, q, a, prefs, ids, profile, k + 1, k + 1, w);
        } else {
            lemma_absent(a, prefs, ids, profile, k, v);
            lemma_members_from(s, pos, a, prefs, ids, profile, k + 1, expected, w);
        }
    }
}

/// A request is read as what it says: each of its members reaches its own field,
/// and a field whose member is absent has its default.
pub proof fn law_request_is_read(
    a: Asked,
    prefs: Seq<(Seq<char>, int)>,
    ids: Seq<Seq<u8>>,
    profile: Profile,
)
    requires
        well_formed(a, prefs, ids),
        cborvalue::skips(request_bytes(a)),
    ensures
        mcrequest::request(request_bytes(a), profile) matches Ok(v) && {
            &&& v.client_data_hash == a.hash
            &&& v.rp_id == cborvalue::text_named(a.rp, "id"@, Seq::empty())
            &&& v.user_id == cborvalue::bytes_named(a.user, "id"@, Seq::empty())
            &&& v.user_name == cborvalue::text_named(a.user, "name"@, Seq::empty())
            &&& v.user_display_name == cborvalue::text_named(a.user, "displayName"@, Seq::empty())
            &&& v.has_pubkey_param == (a.params.len() > 0)
            &&& v.sel == chosen(prefs, None, profile)
            &&& v.exclude == at_most_sixteen(ids)
            &&& v.rk == cborvalue::bool_named(or_none(a.options), "rk"@, false)
            &&& v.up == cborvalue::opt_bool_named(or_none(a.options), "up"@, None)
            &&& v.uv == cborvalue::bool_named(or_none(a.options), "uv"@, false)
            &&& v.param == a.param
            &&& v.proto == (match a.proto {
                Some(n) => n,
                None => 0,
            })
            &&& v.enterprise == (match a.enterprise {
                Some(n) => n,
                None => 0,
            })
            &&& v.cred_protect == cborvalue::int_named(or_none(a.exts), "credProtect"@, 0)
            &&& v.cred_blob == cborvalue::bytes_named(or_none(a.exts), "credBlob"@, Seq::empty())
            &&& v.min_pin_length == cborvalue::bool_named(or_none(a.exts), "minPinLength"@, false)
            &&& v.third_party_payment == cborvalue::bool_named(
                or_none(a.exts),
                "thirdPartyPayment"@,
                false,
            )
            &&& v.hmac_secret == cborvalue::bool_named(or_none(a.exts), "hmac-secret"@, false)
            &&& v.large_blob_key == cborvalue::opt_bool_named(
                or_none(a.exts),
                "largeBlobKey"@,
                None,
            )
            &&& cborvalue::last(or_none(a.exts), Value::Text("hmac-secret-mc"@)) matches Some(h)
                ==> v.hmac_secret_mc == hmacsecret::said(h->Table_0)
            &&& v.hmac_secret_mc.present <==> cborvalue::last(
                or_none(a.exts),
                Value::Text("hmac-secret-mc"@),
            ) is Some
        },
{
    let s = request_bytes(a);
    let es = entries_from(a, 1);
    assert(s.subrange(0, s.len() as int) =~= s);
    cbordec::lemma_taken(s, 0, Value::Table(es));
    let at = s.len() - cborvalue::enc_entries(es).len();
    lemma_members_from(s, at, a, prefs, ids, profile, 1, 1, mcrequest::empty_view());
    cborvalue::lemma_last(or_none(a.exts), Value::Text("hmac-secret-mc"@));
    lemma_extension_names();
    reveal_with_fuel(all_entered, 11);
}

/// The members of a request come in order: the first four are those of keys one to
/// four, without which the request lacks a parameter, and no key comes behind a
/// larger one or twice.
pub proof fn law_member_order(
    s: Seq<u8>,
    pos: int,
    left: nat,
    expected: int,
    k: int,
    v: McView,
    profile: Profile,
)
    requires
        left > 0,
        0 <= k <= u32::MAX,
        cborvalue::stands(s, pos, cborvalue::enc(Value::Int(k))),
    ensures
        expected <= 4 && k != expected ==> mcrequest::members(s, pos, left, expected, v, profile)
            == Err::<McView, CtapError>(CtapError::MissingParameter),
        expected > 4 && k < expected ==> mcrequest::members(s, pos, left, expected, v, profile)
            == Err::<McView, CtapError>(CtapError::InvalidCbor),
        mcrequest::members(s, pos, left, expected, v, profile) is Ok && expected <= 4 ==> k
            == expected,
{
    cbordec::lemma_taken(s, pos, Value::Int(k));
}

}
