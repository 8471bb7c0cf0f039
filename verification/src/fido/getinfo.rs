//! `authenticatorGetInfo`: the advertised surface: versions, extensions,
//! options, algorithms and limits.
//!
//! EdDSA is advertised: platforms that intersect a request with the advertised
//! set would drop it otherwise. A build for conformance runs leaves it out. ES256K
//! and ML-DSA are not: they are negotiated from a request all the same, and some
//! platforms refuse the whole response on an algorithm that they do not know. A
//! build can choose to advertise ML-DSA.

use vstd::prelude::*;

use crate::cbor;
use crate::cborvalue;
use crate::cborvalue::Value;
use crate::cbor::{put_array, put_bool, put_bytes, put_i64, put_map, put_str, put_u64};
use crate::fido::consts::{
    aaguid, ALG_EDDSA, ALG_ES256, ALG_ES384, ALG_ES512, ALG_MLDSA44, ALG_MLDSA65,
    FIRMWARE_VERSION, MAX_CREDBLOB_LENGTH,
    MAX_CREDENTIAL_COUNT_IN_LIST, MAX_CRED_ID_LENGTH, MAX_LARGE_BLOB_SIZE, MAX_MIN_PIN_RPIDS,
    MAX_MSG_SIZE, MAX_PIN_LENGTH,
};
use crate::fido::error::CtapResult;
use crate::fido::makecredential::Profile;
use crate::fido::reply;
use crate::fido::reply::deliver;

verus! {

/// `v` and member 0x01, the versions. CTAP1 is not claimed while user
/// verification is always asked for.
pub open spec fn with_versions(v: Seq<u8>, always_uv: bool) -> Seq<u8> {
    let a = v + cbor::uint(0x01) + cbor::array(
        if always_uv {
            4
        } else {
            5
        },
    );
    let b = if always_uv {
        a
    } else {
        a + cbor::text("U2F_V2"@)
    };
    b + cbor::text("FIDO_2_0"@) + cbor::text("FIDO_2_1"@) + cbor::text("FIDO_2_2"@) + cbor::text(
        "FIDO_2_3"@,
    )
}

/// `v` and member 0x02, the extensions.
pub open spec fn with_extensions(v: Seq<u8>) -> Seq<u8> {
    v + cbor::uint(0x02) + cbor::array(7) + cbor::text("credBlob"@) + cbor::text("credProtect"@)
        + cbor::text("hmac-secret"@) + cbor::text("largeBlobKey"@) + cbor::text("minPinLength"@)
        + cbor::text("hmac-secret-mc"@) + cbor::text("thirdPartyPayment"@)
}

/// `v` and one option.
pub open spec fn with_option(v: Seq<u8>, name: Seq<char>, on: bool) -> Seq<u8> {
    v + cbor::text(name) + cbor::boolean(on)
}

/// `v` and member 0x04, the options, shorter names first. `uv` is there only
/// where a PIN can be collected on the device's own UI.
pub open spec fn with_options(
    v: Seq<u8>,
    pin_set: bool,
    ea_enabled: bool,
    always_uv: bool,
    builtin_uv: bool,
) -> Seq<u8> {
    let a = v + cbor::uint(0x04) + cbor::map(
        if builtin_uv {
            11
        } else {
            10
        },
    );
    let b = with_option(with_option(with_option(a, "ep"@, ea_enabled), "rk"@, true), "up"@, true);
    let c = if builtin_uv {
        with_option(b, "uv"@, pin_set)
    } else {
        b
    };
    let d = with_option(with_option(c, "alwaysUv"@, always_uv), "credMgmt"@, true);
    let e = with_option(with_option(d, "authnrCfg"@, true), "clientPin"@, pin_set);
    let f = with_option(with_option(e, "largeBlobs"@, true), "pinUvAuthToken"@, true);
    with_option(f, "setMinPINLength"@, true)
}

/// `v` and one algorithm.
pub open spec fn with_algorithm(v: Seq<u8>, alg: i64) -> Seq<u8> {
    v + cbor::map(2) + cbor::text("alg"@) + cbor::sint(alg as int) + cbor::text("type"@)
        + cbor::text("public-key"@)
}

/// `v` and member 0x0A, the algorithms that a build advertises.
pub open spec fn with_algorithms(v: Seq<u8>, profile: Profile) -> Seq<u8> {
    let a = v + cbor::uint(0x0A) + cbor::array(
        3 + (if profile.advertise_pqc {
            2int
        } else {
            0
        }) + (if profile.conformance {
            0int
        } else {
            1
        }),
    );
    let b = if profile.advertise_pqc {
        with_algorithm(with_algorithm(a, ALG_MLDSA65), ALG_MLDSA44)
    } else {
        a
    };
    let c = with_algorithm(with_algorithm(with_algorithm(b, ALG_ES256), ALG_ES384), ALG_ES512);
    if profile.conformance {
        c
    } else {
        with_algorithm(c, ALG_EDDSA)
    }
}

/// `v` and members 0x05 to 0x09: message size, PIN protocols, list and id
/// limits, transports.
pub open spec fn with_limits(v: Seq<u8>) -> Seq<u8> {
    v + cbor::uint(0x05) + cbor::uint(MAX_MSG_SIZE as int) + cbor::uint(0x06) + cbor::array(2)
        + cbor::uint(2) + cbor::uint(1) + cbor::uint(0x07) + cbor::uint(
        MAX_CREDENTIAL_COUNT_IN_LIST as int,
    ) + cbor::uint(0x08) + cbor::uint(MAX_CRED_ID_LENGTH as int) + cbor::uint(0x09) + cbor::array(
        1,
    ) + cbor::text("usb"@)
}

/// `v` and members 0x0B to 0x10: large-blob size, PIN policy, firmware version,
/// blob length, number of relying parties of the PIN policy.
pub open spec fn with_policy(v: Seq<u8>, force_change: bool, min_pin_len: u8) -> Seq<u8> {
    v + cbor::uint(0x0B) + cbor::uint(MAX_LARGE_BLOB_SIZE as int) + cbor::uint(0x0C)
        + cbor::boolean(force_change) + cbor::uint(0x0D) + cbor::uint(min_pin_len as int)
        + cbor::uint(0x0E) + cbor::uint(FIRMWARE_VERSION as int) + cbor::uint(0x0F) + cbor::uint(
        MAX_CREDBLOB_LENGTH as int,
    ) + cbor::uint(0x10) + cbor::uint(MAX_MIN_PIN_RPIDS as int)
}

/// `v` and members 0x14 to 0x1F: free credential slots, attestation formats,
/// longest PIN, configuration commands.
pub open spec fn with_rest(v: Seq<u8>, remaining_rk: u16) -> Seq<u8> {
    v + cbor::uint(0x14) + cbor::uint(remaining_rk as int) + cbor::uint(0x16) + cbor::array(1)
        + cbor::text("packed"@) + cbor::uint(0x1D) + cbor::uint(MAX_PIN_LENGTH as int)
        + cbor::uint(0x1F) + cbor::array(3) + cbor::uint(0x01) + cbor::uint(0x02) + cbor::uint(
        0x03,
    )
}

/// The response of a build: a map of 20 members in ascending order.
#[verifier::opaque]
pub open spec fn info_of(
    profile: Profile,
    pin_set: bool,
    min_pin_len: u8,
    force_change: bool,
    ea_enabled: bool,
    always_uv: bool,
    builtin_uv: bool,
    remaining_rk: u16,
) -> Seq<u8> {
    let a = with_extensions(with_versions(cbor::map(20), always_uv));
    let b = a + cbor::uint(0x03) + cbor::bytes(aaguid()@);
    let c = with_options(b, pin_set, ea_enabled, always_uv, builtin_uv);
    with_rest(
        with_policy(with_algorithms(with_limits(c), profile), force_change, min_pin_len),
        remaining_rk,
    )
}

fn put_option(v: &mut Vec<u8>, name: &str, on: bool)
    ensures
        final(v)@ == with_option(old(v)@, name@, on),
{
    put_str(v, name);
    put_bool(v, on);
}

fn put_algorithm(v: &mut Vec<u8>, alg: i64)
    ensures
        final(v)@ == with_algorithm(old(v)@, alg),
{
    put_map(v, 2);
    put_str(v, "alg");
    put_i64(v, alg);
    put_str(v, "type");
    put_str(v, "public-key");
}

fn put_versions(v: &mut Vec<u8>, always_uv: bool)
    ensures
        final(v)@ == with_versions(old(v)@, always_uv),
{
    put_u64(v, 0x01);
    put_array(
        v,
        if always_uv {
            4
        } else {
            5
        },
    );
    if !always_uv {
        put_str(v, "U2F_V2");
    }
    put_str(v, "FIDO_2_0");
    put_str(v, "FIDO_2_1");
    put_str(v, "FIDO_2_2");
    put_str(v, "FIDO_2_3");
}

fn put_extensions(v: &mut Vec<u8>)
    ensures
        final(v)@ == with_extensions(old(v)@),
{
    put_u64(v, 0x02);
    put_array(v, 7);
    put_str(v, "credBlob");
    put_str(v, "credProtect");
    put_str(v, "hmac-secret");
    put_str(v, "largeBlobKey");
    put_str(v, "minPinLength");
    put_str(v, "hmac-secret-mc");
    put_str(v, "thirdPartyPayment");
}

fn put_options(
    v: &mut Vec<u8>,
    pin_set: bool,
    ea_enabled: bool,
    always_uv: bool,
    builtin_uv: bool,
)
    ensures
        final(v)@ == with_options(old(v)@, pin_set, ea_enabled, always_uv, builtin_uv),
{
    put_u64(v, 0x04);
    put_map(
        v,
        if builtin_uv {
            11
        } else {
            10
        },
    );
    put_option(v, "ep", ea_enabled);
    put_option(v, "rk", true);
    put_option(v, "up", true);
    if builtin_uv {
        put_option(v, "uv", pin_set);
    }
    put_option(v, "alwaysUv", always_uv);
    put_option(v, "credMgmt", true);
    put_option(v, "authnrCfg", true);
    put_option(v, "clientPin", pin_set);
    put_option(v, "largeBlobs", true);
    put_option(v, "pinUvAuthToken", true);
    put_option(v, "setMinPINLength", true);
}

fn put_limits(v: &mut Vec<u8>)
    ensures
        final(v)@ == with_limits(old(v)@),
{
    put_u64(v, 0x05);
    put_u64(v, MAX_MSG_SIZE);
    put_u64(v, 0x06);
    put_array(v, 2);
    put_u64(v, 2);
    put_u64(v, 1);
    put_u64(v, 0x07);
    put_u64(v, MAX_CREDENTIAL_COUNT_IN_LIST);
    put_u64(v, 0x08);
    put_u64(v, MAX_CRED_ID_LENGTH);
    put_u64(v, 0x09);
    put_array(v, 1);
    put_str(v, "usb");
}

fn put_algorithms(v: &mut Vec<u8>, profile: Profile)
    ensures
        final(v)@ == with_algorithms(old(v)@, profile),
{
    put_u64(v, 0x0A);
    let pqc: u64 = if profile.advertise_pqc {
        2
    } else {
        0
    };
    let eddsa: u64 = if profile.conformance {
        0
    } else {
        1
    };
    put_array(v, 3 + pqc + eddsa);
    if profile.advertise_pqc {
        put_algorithm(v, ALG_MLDSA65);
        put_algorithm(v, ALG_MLDSA44);
    }
    put_algorithm(v, ALG_ES256);
    put_algorithm(v, ALG_ES384);
    put_algorithm(v, ALG_ES512);
    if !profile.conformance {
        put_algorithm(v, ALG_EDDSA);
    }
}

fn put_policy(v: &mut Vec<u8>, force_change: bool, min_pin_len: u8)
    ensures
        final(v)@ == with_policy(old(v)@, force_change, min_pin_len),
{
    put_u64(v, 0x0B);
    put_u64(v, MAX_LARGE_BLOB_SIZE as u64);
    put_u64(v, 0x0C);
    put_bool(v, force_change);
    put_u64(v, 0x0D);
    put_u64(v, min_pin_len as u64);
    put_u64(v, 0x0E);
    put_u64(v, FIRMWARE_VERSION as u64);
    put_u64(v, 0x0F);
    put_u64(v, MAX_CREDBLOB_LENGTH as u64);
    put_u64(v, 0x10);
    put_u64(v, MAX_MIN_PIN_RPIDS as u64);
}

fn put_rest(v: &mut Vec<u8>, remaining_rk: u16)
    ensures
        final(v)@ == with_rest(old(v)@, remaining_rk),
{
    put_u64(v, 0x14);
    put_u64(v, remaining_rk as u64);
    put_u64(v, 0x16);
    put_array(v, 1);
    put_str(v, "packed");
    put_u64(v, 0x1D);
    put_u64(v, MAX_PIN_LENGTH as u64);
    put_u64(v, 0x1F);
    put_array(v, 3);
    put_u64(v, 0x01);
    put_u64(v, 0x02);
    put_u64(v, 0x03);
}

/// Encodes the response of the standard build into `out` and returns its length.
/// `pin_set` tells whether a PIN is configured, `ea_enabled` and `always_uv`
/// whether those features are on, `builtin_uv` whether a PIN can be collected on
/// the device, `remaining_rk` how many credentials can still be stored.
pub fn get_info(
    pin_set: bool,
    min_pin_len: u8,
    force_change: bool,
    ea_enabled: bool,
    always_uv: bool,
    builtin_uv: bool,
    remaining_rk: u16,
    out: &mut [u8],
) -> (r: CtapResult)
    ensures
        reply::delivered(
            old(out)@,
            final(out)@,
            info_of(
                Profile::usual(),
                pin_set,
                min_pin_len,
                force_change,
                ea_enabled,
                always_uv,
                builtin_uv,
                remaining_rk,
            ),
            r,
        ),
{
    get_info_of(
        Profile::standard(),
        pin_set,
        min_pin_len,
        force_change,
        ea_enabled,
        always_uv,
        builtin_uv,
        remaining_rk,
        out,
    )
}

/// Encodes the response of a build into `out` and returns its length.
pub fn get_info_of(
    profile: Profile,
    pin_set: bool,
    min_pin_len: u8,
    force_change: bool,
    ea_enabled: bool,
    always_uv: bool,
    builtin_uv: bool,
    remaining_rk: u16,
    out: &mut [u8],
) -> (r: CtapResult)
    ensures
        reply::delivered(
            old(out)@,
            final(out)@,
            info_of(
                profile,
                pin_set,
                min_pin_len,
                force_change,
                ea_enabled,
                always_uv,
                builtin_uv,
                remaining_rk,
            ),
            r,
        ),
{
    reveal(info_of);
    let mut v: Vec<u8> = Vec::new();
    put_map(&mut v, 20);
    assert(v@ =~= cbor::map(20));
    put_versions(&mut v, always_uv);
    put_extensions(&mut v);
    put_u64(&mut v, 0x03);
    put_bytes(&mut v, &aaguid());
    put_options(&mut v, pin_set, ea_enabled, always_uv, builtin_uv);
    put_limits(&mut v);
    put_algorithms(&mut v, profile);
    put_policy(&mut v, force_change, min_pin_len);
    put_rest(&mut v, remaining_rk);
    deliver(out, v.as_slice())
}

// ---- what the response says ----
/// The options as entries.
spec fn option_entries(
    pin_set: bool,
    ea_enabled: bool,
    always_uv: bool,
    builtin_uv: bool,
) -> Seq<(Value, Value)> {
    let b = Seq::<(Value, Value)>::empty().push((Value::Text("ep"@), Value::Bool(ea_enabled))).push(
        (Value::Text("rk"@), Value::Bool(true)),
    ).push((Value::Text("up"@), Value::Bool(true)));
    let c = if builtin_uv {
        b.push((Value::Text("uv"@), Value::Bool(pin_set)))
    } else {
        b
    };
    c.push((Value::Text("alwaysUv"@), Value::Bool(always_uv))).push(
        (Value::Text("credMgmt"@), Value::Bool(true)),
    ).push((Value::Text("authnrCfg"@), Value::Bool(true))).push(
        (Value::Text("clientPin"@), Value::Bool(pin_set)),
    ).push((Value::Text("largeBlobs"@), Value::Bool(true))).push(
        (Value::Text("pinUvAuthToken"@), Value::Bool(true)),
    ).push((Value::Text("setMinPINLength"@), Value::Bool(true)))
}

/// One more option is one more entry.
proof fn lemma_option(w: Seq<u8>, entries: Seq<(Value, Value)>, name: Seq<char>, on: bool)
    requires
        cborvalue::sized_entries(entries),
        name.len() <= 0xff,
    ensures
        with_option(w + cborvalue::enc_entries(entries), name, on) == w + cborvalue::enc_entries(
            entries.push((Value::Text(name), Value::Bool(on))),
        ),
        cborvalue::sized_entries(entries.push((Value::Text(name), Value::Bool(on)))),
        forall|key: Value|
            #![trigger cborvalue::found(entries.push((Value::Text(name), Value::Bool(on))), key)]
            cborvalue::found(entries.push((Value::Text(name), Value::Bool(on))), key) == (
            match cborvalue::found(entries, key) {
                Some(x) => Some(x),
                None => if Value::Text(name) == key {
                    Some(Value::Bool(on))
                } else {
                    None
                },
            }),
{
    cborvalue::lemma_short_text(name);
    cborvalue::lemma_entry(w, entries, Value::Text(name), Value::Bool(on));
}

proof fn lemma_option_names()
    ensures
        "ep"@.len() == 2 && "rk"@.len() == 2 && "up"@.len() == 2 && "uv"@.len() == 2,
        "ep"@ != "rk"@ && "ep"@ != "up"@ && "ep"@ != "uv"@,
        "rk"@ != "up"@ && "rk"@ != "uv"@ && "up"@ != "uv"@,
        "alwaysUv"@.len() == 8 && "credMgmt"@.len() == 8 && "alwaysUv"@ != "credMgmt"@,
        "authnrCfg"@.len() == 9 && "clientPin"@.len() == 9 && "authnrCfg"@ != "clientPin"@,
        "largeBlobs"@.len() == 10,
        "pinUvAuthToken"@.len() == 14,
        "setMinPINLength"@.len() == 15,
{
    reveal_strlit("ep");
    reveal_strlit("rk");
    reveal_strlit("up");
    reveal_strlit("uv");
    reveal_strlit("alwaysUv");
    reveal_strlit("credMgmt");
    reveal_strlit("authnrCfg");
    reveal_strlit("clientPin");
    reveal_strlit("largeBlobs");
    reveal_strlit("pinUvAuthToken");
    reveal_strlit("setMinPINLength");
    assert("ep"@[0] == 'e' && "rk"@[0] == 'r' && "up"@[0] == 'u' && "uv"@[0] == 'u');
    assert("up"@[1] == 'p' && "uv"@[1] == 'v');
    assert("alwaysUv"@[0] == 'a' && "credMgmt"@[0] == 'c');
    assert("authnrCfg"@[0] == 'a' && "clientPin"@[0] == 'c');
}

/// Each option has the value that was given for it, whatever the others are.
proof fn lemma_options(pin_set: bool, ea_enabled: bool, always_uv: bool, builtin_uv: bool)
    ensures
        ({
            let es = option_entries(pin_set, ea_enabled, always_uv, builtin_uv);
            let o = Value::Table(es);
            &&& cborvalue::sized_entries(es)
            &&& es.len() == if builtin_uv {
                11int
            } else {
                10int
            }
            &&& cborvalue::named(o, "ep"@) == Some(Value::Bool(ea_enabled))
            &&& cborvalue::named(o, "rk"@) == Some(Value::Bool(true))
            &&& cborvalue::named(o, "up"@) == Some(Value::Bool(true))
            &&& cborvalue::named(o, "uv"@) == if builtin_uv {
                Some(Value::Bool(pin_set))
            } else {
                None
            }
            &&& cborvalue::named(o, "alwaysUv"@) == Some(Value::Bool(always_uv))
            &&& cborvalue::named(o, "credMgmt"@) == Some(Value::Bool(true))
            &&& cborvalue::named(o, "authnrCfg"@) == Some(Value::Bool(true))
            &&& cborvalue::named(o, "clientPin"@) == Some(Value::Bool(pin_set))
            &&& cborvalue::named(o, "largeBlobs"@) == Some(Value::Bool(true))
            &&& cborvalue::named(o, "pinUvAuthToken"@) == Some(Value::Bool(true))
            &&& cborvalue::named(o, "setMinPINLength"@) == Some(Value::Bool(true))
        }),
        forall|v: Seq<u8>| #[trigger]
            with_options(v, pin_set, ea_enabled, always_uv, builtin_uv) == v + cbor::uint(0x04)
                + cbor::map(
                if builtin_uv {
                    11
                } else {
                    10
                },
            ) + cborvalue::enc_entries(
                option_entries(pin_set, ea_enabled, always_uv, builtin_uv),
            ),
{
    lemma_option_names();
    let es = option_entries(pin_set, ea_enabled, always_uv, builtin_uv);
    assert forall|v: Seq<u8>| #[trigger]
        with_options(v, pin_set, ea_enabled, always_uv, builtin_uv) == v + cbor::uint(0x04)
            + cbor::map(
            if builtin_uv {
                11
            } else {
                10
            },
        ) + cborvalue::enc_entries(es) by {
        lemma_options_bytes(v, pin_set, ea_enabled, always_uv, builtin_uv);
    }
    let e0 = Seq::<(Value, Value)>::empty();
    cborvalue::lemma_nothing(Seq::empty());
    lemma_option(Seq::empty(), e0, "ep"@, ea_enabled);
    let e1 = e0.push((Value::Text("ep"@), Value::Bool(ea_enabled)));
    lemma_option(Seq::empty(), e1, "rk"@, true);
    let e2 = e1.push((Value::Text("rk"@), Value::Bool(true)));
    lemma_option(Seq::empty(), e2, "up"@, true);
    let e3 = e2.push((Value::Text("up"@), Value::Bool(true)));
    lemma_option(Seq::empty(), e3, "uv"@, pin_set);
    let e4 = if builtin_uv {
        e3.push((Value::Text("uv"@), Value::Bool(pin_set)))
    } else {
        e3
    };
    lemma_option(Seq::empty(), e4, "alwaysUv"@, always_uv);
    let e5 = e4.push((Value::Text("alwaysUv"@), Value::Bool(always_uv)));
    lemma_option(Seq::empty(), e5, "credMgmt"@, true);
    let e6 = e5.push((Value::Text("credMgmt"@), Value::Bool(true)));
    lemma_option(Seq::empty(), e6, "authnrCfg"@, true);
    let e7 = e6.push((Value::Text("authnrCfg"@), Value::Bool(true)));
    lemma_option(Seq::empty(), e7, "clientPin"@, pin_set);
    let e8 = e7.push((Value::Text("clientPin"@), Value::Bool(pin_set)));
    lemma_option(Seq::empty(), e8, "largeBlobs"@, true);
    let e9 = e8.push((Value::Text("largeBlobs"@), Value::Bool(true)));
    lemma_option(Seq::empty(), e9, "pinUvAuthToken"@, true);
    let e10 = e9.push((Value::Text("pinUvAuthToken"@), Value::Bool(true)));
    lemma_option(Seq::empty(), e10, "setMinPINLength"@, true);
}

proof fn lemma_options_bytes(
    v: Seq<u8>,
    pin_set: bool,
    ea_enabled: bool,
    always_uv: bool,
    builtin_uv: bool,
)
    ensures
        with_options(v, pin_set, ea_enabled, always_uv, builtin_uv) == v + cbor::uint(0x04)
            + cbor::map(
            if builtin_uv {
                11
            } else {
                10
            },
        ) + cborvalue::enc_entries(option_entries(pin_set, ea_enabled, always_uv, builtin_uv)),
{
    lemma_option_names();
    let w = v + cbor::uint(0x04) + cbor::map(
        if builtin_uv {
            11
        } else {
            10
        },
    );
    let e0 = Seq::<(Value, Value)>::empty();
    cborvalue::lemma_nothing(w);
    lemma_option(w, e0, "ep"@, ea_enabled);
    let e1 = e0.push((Value::Text("ep"@), Value::Bool(ea_enabled)));
    lemma_option(w, e1, "rk"@, true);
    let e2 = e1.push((Value::Text("rk"@), Value::Bool(true)));
    lemma_option(w, e2, "up"@, true);
    let e3 = e2.push((Value::Text("up"@), Value::Bool(true)));
    lemma_option(w, e3, "uv"@, pin_set);
    let e4 = if builtin_uv {
        e3.push((Value::Text("uv"@), Value::Bool(pin_set)))
    } else {
        e3
    };
    lemma_option(w, e4, "alwaysUv"@, always_uv);
    let e5 = e4.push((Value::Text("alwaysUv"@), Value::Bool(always_uv)));
    lemma_option(w, e5, "credMgmt"@, true);
    let e6 = e5.push((Value::Text("credMgmt"@), Value::Bool(true)));
    lemma_option(w, e6, "authnrCfg"@, true);
    let e7 = e6.push((Value::Text("authnrCfg"@), Value::Bool(true)));
    lemma_option(w, e7, "clientPin"@, pin_set);
    let e8 = e7.push((Value::Text("clientPin"@), Value::Bool(pin_set)));
    lemma_option(w, e8, "largeBlobs"@, true);
    let e9 = e8.push((Value::Text("largeBlobs"@), Value::Bool(true)));
    lemma_option(w, e9, "pinUvAuthToken"@, true);
    let e10 = e9.push((Value::Text("pinUvAuthToken"@), Value::Bool(true)));
    lemma_option(w, e10, "setMinPINLength"@, true);
}

/// The versions that are claimed.
pub open spec fn versions(always_uv: bool) -> Seq<Value> {
    if always_uv {
        Seq::<Value>::empty().push(Value::Text("FIDO_2_0"@)).push(Value::Text("FIDO_2_1"@)).push(Value::Text("FIDO_2_2"@)).push(Value::Text("FIDO_2_3"@))
    } else {
        Seq::<Value>::empty().push(Value::Text("U2F_V2"@)).push(Value::Text("FIDO_2_0"@)).push(Value::Text("FIDO_2_1"@)).push(Value::Text("FIDO_2_2"@)).push(Value::Text("FIDO_2_3"@))
    }
}

proof fn lemma_versions(w: Seq<u8>, es: Seq<(Value, Value)>, always_uv: bool)
    requires
        cborvalue::sized_entries(es),
    ensures
        with_versions(w + cborvalue::enc_entries(es), always_uv) == w + cborvalue::enc_entries(
            es.push((Value::Int(1), Value::List(versions(always_uv)))),
        ),
        cborvalue::sized_items(versions(always_uv)),
        versions(always_uv).len() <= 5,
{
    let a = w + cborvalue::enc_entries(es) + cbor::uint(0x01) + cbor::array(
        if always_uv {
            4
        } else {
            5
        },
    );
    cborvalue::lemma_nothing(a);
    let none = Seq::<Value>::empty();
    reveal_strlit("U2F_V2");
    cborvalue::lemma_text_item(a, none, "U2F_V2"@);
    let i0 = if always_uv {
        none
    } else {
        none.push(Value::Text("U2F_V2"@))
    };
    reveal_strlit("FIDO_2_0");
    cborvalue::lemma_text_item(a, i0, "FIDO_2_0"@);
    let i1 = i0.push(Value::Text("FIDO_2_0"@));
    reveal_strlit("FIDO_2_1");
    cborvalue::lemma_text_item(a, i1, "FIDO_2_1"@);
    let i2 = i1.push(Value::Text("FIDO_2_1"@));
    reveal_strlit("FIDO_2_2");
    cborvalue::lemma_text_item(a, i2, "FIDO_2_2"@);
    let i3 = i2.push(Value::Text("FIDO_2_2"@));
    reveal_strlit("FIDO_2_3");
    cborvalue::lemma_text_item(a, i3, "FIDO_2_3"@);
    let i4 = i3.push(Value::Text("FIDO_2_3"@));
    assert(versions(always_uv) == i4);
    cborvalue::lemma_list_entry(w, es, Value::Int(1), i4);
}

/// The extensions that are claimed.
pub open spec fn extensions() -> Seq<Value> {
    Seq::<Value>::empty().push(Value::Text("credBlob"@)).push(Value::Text("credProtect"@)).push(Value::Text("hmac-secret"@)).push(Value::Text("largeBlobKey"@)).push(Value::Text("minPinLength"@)).push(Value::Text("hmac-secret-mc"@)).push(Value::Text("thirdPartyPayment"@))
}

proof fn lemma_extensions(w: Seq<u8>, es: Seq<(Value, Value)>)
    requires
        cborvalue::sized_entries(es),
    ensures
        with_extensions(w + cborvalue::enc_entries(es)) == w + cborvalue::enc_entries(
            es.push((Value::Int(2), Value::List(extensions()))),
        ),
        cborvalue::sized_items(extensions()),
        extensions().len() == 7,
{
    let a = w + cborvalue::enc_entries(es) + cbor::uint(0x02) + cbor::array(7);
    cborvalue::lemma_nothing(a);
    reveal_strlit("credBlob");
    cborvalue::lemma_text_item(a, Seq::<Value>::empty(), "credBlob"@);
    let i1 = Seq::<Value>::empty().push(Value::Text("credBlob"@));
    reveal_strlit("credProtect");
    cborvalue::lemma_text_item(a, i1, "credProtect"@);
    let i2 = i1.push(Value::Text("credProtect"@));
    reveal_strlit("hmac-secret");
    cborvalue::lemma_text_item(a, i2, "hmac-secret"@);
    let i3 = i2.push(Value::Text("hmac-secret"@));
    reveal_strlit("largeBlobKey");
    cborvalue::lemma_text_item(a, i3, "largeBlobKey"@);
    let i4 = i3.push(Value::Text("largeBlobKey"@));
    reveal_strlit("minPinLength");
    cborvalue::lemma_text_item(a, i4, "minPinLength"@);
    let i5 = i4.push(Value::Text("minPinLength"@));
    reveal_strlit("hmac-secret-mc");
    cborvalue::lemma_text_item(a, i5, "hmac-secret-mc"@);
    let i6 = i5.push(Value::Text("hmac-secret-mc"@));
    reveal_strlit("thirdPartyPayment");
    cborvalue::lemma_text_item(a, i6, "thirdPartyPayment"@);
    let i7 = i6.push(Value::Text("thirdPartyPayment"@));
    cborvalue::lemma_list_entry(w, es, Value::Int(2), i7);
}

/// One algorithm, as it is advertised.
pub open spec fn algorithm(alg: int) -> Value {
    Value::Table(
        seq![
            (Value::Text("alg"@), Value::Int(alg)),
            (Value::Text("type"@), Value::Text("public-key"@)),
        ],
    )
}

proof fn lemma_algorithm(w: Seq<u8>, items: Seq<Value>, alg: i64)
    requires
        cborvalue::sized_items(items),
    ensures
        with_algorithm(w + cborvalue::enc_items(items), alg) == w + cborvalue::enc_items(
            items.push(algorithm(alg as int)),
        ),
        cborvalue::sized_items(items.push(algorithm(alg as int))),
{
    reveal_strlit("alg");
    reveal_strlit("type");
    reveal_strlit("public-key");
    cborvalue::lemma_short_text("alg"@);
    cborvalue::lemma_short_text("type"@);
    cborvalue::lemma_short_text("public-key"@);
    let none = Seq::<(Value, Value)>::empty();
    let k1 = Value::Text("alg"@);
    let k2 = Value::Text("type"@);
    let a = cbor::map(2);
    cborvalue::lemma_nothing(a);
    cborvalue::lemma_entry(a, none, k1, Value::Int(alg as int));
    let one = none.push((k1, Value::Int(alg as int)));
    cborvalue::lemma_entry(a, one, k2, Value::Text("public-key"@));
    let two = one.push((k2, Value::Text("public-key"@)));
    assert(two =~= seq![(k1, Value::Int(alg as int)), (k2, Value::Text("public-key"@))]);
    assert(algorithm(alg as int) == Value::Table(two));
    cborvalue::lemma_item(w, items, algorithm(alg as int));
    let front = w + cborvalue::enc_items(items);
    assert(with_algorithm(front, alg) =~= front + cborvalue::enc(Value::Table(two)));
}

/// The algorithms that a build advertises.
pub open spec fn algorithms(profile: Profile) -> Seq<Value> {
    let none = Seq::<Value>::empty();
    let b = if profile.advertise_pqc {
        none.push(algorithm(-49)).push(algorithm(-48))
    } else {
        none
    };
    let c = b.push(algorithm(-7)).push(algorithm(-35)).push(algorithm(-36));
    if profile.conformance {
        c
    } else {
        c.push(algorithm(-8))
    }
}

proof fn lemma_algorithms(w: Seq<u8>, es: Seq<(Value, Value)>, profile: Profile)
    requires
        cborvalue::sized_entries(es),
    ensures
        with_algorithms(w + cborvalue::enc_entries(es), profile) == w + cborvalue::enc_entries(
            es.push((Value::Int(10), Value::List(algorithms(profile)))),
        ),
        cborvalue::sized_items(algorithms(profile)),
        algorithms(profile).len() <= 6,
{
    let n = algorithms(profile).len() as int;
    let a = w + cborvalue::enc_entries(es) + cbor::uint(0x0A) + cbor::array(n);
    cborvalue::lemma_nothing(a);
    let none = Seq::<Value>::empty();
    lemma_algorithm(a, none, ALG_MLDSA65);
    lemma_algorithm(a, none.push(algorithm(-49)), ALG_MLDSA44);
    let b = if profile.advertise_pqc {
        none.push(algorithm(-49)).push(algorithm(-48))
    } else {
        none
    };
    lemma_algorithm(a, b, ALG_ES256);
    lemma_algorithm(a, b.push(algorithm(-7)), ALG_ES384);
    lemma_algorithm(a, b.push(algorithm(-7)).push(algorithm(-35)), ALG_ES512);
    let c = b.push(algorithm(-7)).push(algorithm(-35)).push(algorithm(-36));
    lemma_algorithm(a, c, ALG_EDDSA);
    cborvalue::lemma_list_entry(w, es, Value::Int(10), algorithms(profile));
}

proof fn lemma_small_lists(a: Seq<u8>)
    ensures
        a + cborvalue::enc_items(seq![Value::Int(2), Value::Int(1)]) == a + cbor::uint(2)
            + cbor::uint(1),
        cborvalue::sized_items(seq![Value::Int(2), Value::Int(1)]),
        a + cborvalue::enc_items(seq![Value::Text("usb"@)]) == a + cbor::text("usb"@),
        cborvalue::sized_items(seq![Value::Text("usb"@)]),
        a + cborvalue::enc_items(seq![Value::Text("packed"@)]) == a + cbor::text("packed"@),
        cborvalue::sized_items(seq![Value::Text("packed"@)]),
        a + cborvalue::enc_items(seq![Value::Int(1), Value::Int(2), Value::Int(3)]) == a
            + cbor::uint(1) + cbor::uint(2) + cbor::uint(3),
        cborvalue::sized_items(seq![Value::Int(1), Value::Int(2), Value::Int(3)]),
{
    reveal_strlit("usb");
    reveal_strlit("packed");
    let none = Seq::<Value>::empty();
    assert(seq![Value::Int(2), Value::Int(1)] =~= none.push(Value::Int(2)).push(Value::Int(1)));
    assert(seq![Value::Text("usb"@)] =~= none.push(Value::Text("usb"@)));
    assert(seq![Value::Text("packed"@)] =~= none.push(Value::Text("packed"@)));
    assert(seq![Value::Int(1), Value::Int(2), Value::Int(3)] =~= none.push(Value::Int(1)).push(
        Value::Int(2),
    ).push(Value::Int(3)));
    cborvalue::lemma_nothing(a);
    cborvalue::lemma_item(a, none, Value::Int(2));
    cborvalue::lemma_item(a, none.push(Value::Int(2)), Value::Int(1));
    cborvalue::lemma_text_item(a, none, "usb"@);
    cborvalue::lemma_text_item(a, none, "packed"@);
    cborvalue::lemma_item(a, none, Value::Int(1));
    cborvalue::lemma_item(a, none.push(Value::Int(1)), Value::Int(2));
    cborvalue::lemma_item(a, none.push(Value::Int(1)).push(Value::Int(2)), Value::Int(3));
}

proof fn lemma_limits(w: Seq<u8>, es: Seq<(Value, Value)>)
    requires
        cborvalue::sized_entries(es),
    ensures
        with_limits(w + cborvalue::enc_entries(es)) == w + cborvalue::enc_entries(
            es.push((Value::Int(5), Value::Int(7609))).push((Value::Int(6), Value::List(seq![Value::Int(2), Value::Int(1)]))).push((Value::Int(7), Value::Int(16))).push((Value::Int(8), Value::Int(1024))).push((Value::Int(9), Value::List(seq![Value::Text("usb"@)]))),
        ),
{
    let six = w + cborvalue::enc_entries(es.push((Value::Int(5), Value::Int(7609)))) + cbor::uint(
        0x06,
    ) + cbor::array(2);
    lemma_small_lists(six);
    let nine = w + cborvalue::enc_entries(
        es.push((Value::Int(5), Value::Int(7609))).push((Value::Int(6), Value::List(seq![Value::Int(2), Value::Int(1)]))).push((Value::Int(7), Value::Int(16))).push((Value::Int(8), Value::Int(1024))),
    ) + cbor::uint(0x09) + cbor::array(1);
    lemma_small_lists(nine);
    cborvalue::lemma_entry(w, es, Value::Int(5), Value::Int(7609));
    let e1 = es.push((Value::Int(5), Value::Int(7609)));
    cborvalue::lemma_list_entry(w, e1, Value::Int(6), seq![Value::Int(2), Value::Int(1)]);
    let e2 = e1.push((Value::Int(6), Value::List(seq![Value::Int(2), Value::Int(1)])));
    cborvalue::lemma_entry(w, e2, Value::Int(7), Value::Int(16));
    let e3 = e2.push((Value::Int(7), Value::Int(16)));
    cborvalue::lemma_entry(w, e3, Value::Int(8), Value::Int(1024));
    let e4 = e3.push((Value::Int(8), Value::Int(1024)));
    cborvalue::lemma_list_entry(w, e4, Value::Int(9), seq![Value::Text("usb"@)]);
    let e5 = e4.push((Value::Int(9), Value::List(seq![Value::Text("usb"@)])));
}

proof fn lemma_policy(w: Seq<u8>, es: Seq<(Value, Value)>, force_change: bool, min_pin_len: u8)
    requires
        cborvalue::sized_entries(es),
    ensures
        with_policy(w + cborvalue::enc_entries(es), force_change, min_pin_len) == w + cborvalue::enc_entries(
            es.push((Value::Int(11), Value::Int(2048))).push((Value::Int(12), Value::Bool(force_change))).push((Value::Int(13), Value::Int(min_pin_len as int))).push((Value::Int(14), Value::Int(0x0005_0704))).push((Value::Int(15), Value::Int(128))).push((Value::Int(16), Value::Int(8))),
        ),
{
    cborvalue::lemma_entry(w, es, Value::Int(11), Value::Int(2048));
    let e1 = es.push((Value::Int(11), Value::Int(2048)));
    cborvalue::lemma_entry(w, e1, Value::Int(12), Value::Bool(force_change));
    let e2 = e1.push((Value::Int(12), Value::Bool(force_change)));
    cborvalue::lemma_entry(w, e2, Value::Int(13), Value::Int(min_pin_len as int));
    let e3 = e2.push((Value::Int(13), Value::Int(min_pin_len as int)));
    cborvalue::lemma_entry(w, e3, Value::Int(14), Value::Int(0x0005_0704));
    let e4 = e3.push((Value::Int(14), Value::Int(0x0005_0704)));
    cborvalue::lemma_entry(w, e4, Value::Int(15), Value::Int(128));
    let e5 = e4.push((Value::Int(15), Value::Int(128)));
    cborvalue::lemma_entry(w, e5, Value::Int(16), Value::Int(8));
    let e6 = e5.push((Value::Int(16), Value::Int(8)));
}

proof fn lemma_rest(w: Seq<u8>, es: Seq<(Value, Value)>, remaining_rk: u16)
    requires
        cborvalue::sized_entries(es),
    ensures
        with_rest(w + cborvalue::enc_entries(es), remaining_rk) == w + cborvalue::enc_entries(
            es.push((Value::Int(20), Value::Int(remaining_rk as int))).push((Value::Int(22), Value::List(seq![Value::Text("packed"@)]))).push((Value::Int(29), Value::Int(63))).push((Value::Int(31), Value::List(seq![Value::Int(1), Value::Int(2), Value::Int(3)]))),
        ),
{
    let a = w + cborvalue::enc_entries(
        es.push((Value::Int(20), Value::Int(remaining_rk as int))),
    ) + cbor::uint(0x16) + cbor::array(1);
    lemma_small_lists(a);
    let b = w + cborvalue::enc_entries(
        es.push((Value::Int(20), Value::Int(remaining_rk as int))).push((Value::Int(22), Value::List(seq![Value::Text("packed"@)]))).push((Value::Int(29), Value::Int(63))),
    ) + cbor::uint(0x1F) + cbor::array(3);
    lemma_small_lists(b);
    cborvalue::lemma_entry(w, es, Value::Int(20), Value::Int(remaining_rk as int));
    let e1 = es.push((Value::Int(20), Value::Int(remaining_rk as int)));
    cborvalue::lemma_list_entry(w, e1, Value::Int(22), seq![Value::Text("packed"@)]);
    let e2 = e1.push((Value::Int(22), Value::List(seq![Value::Text("packed"@)])));
    cborvalue::lemma_entry(w, e2, Value::Int(29), Value::Int(63));
    let e3 = e2.push((Value::Int(29), Value::Int(63)));
    cborvalue::lemma_list_entry(w, e3, Value::Int(31), seq![Value::Int(1), Value::Int(2), Value::Int(3)]);
    let e4 = e3.push((Value::Int(31), Value::List(seq![Value::Int(1), Value::Int(2), Value::Int(3)])));
}

/// Decoded as CBOR, the response of any state has under each key what the state
/// says, each member independent of the others: the options (0x04), the
/// versions, which leave CTAP1 out while verification is always asked for, the
/// PIN policy, the number of free slots, and the fixed members.
#[verifier::rlimit(40)]
pub proof fn law_info_says(
    profile: Profile,
    pin_set: bool,
    min_pin_len: u8,
    force_change: bool,
    ea_enabled: bool,
    always_uv: bool,
    builtin_uv: bool,
    remaining_rk: u16,
)
    ensures
        ({
            let info = cborvalue::decoded(
                info_of(
                    profile,
                    pin_set,
                    min_pin_len,
                    force_change,
                    ea_enabled,
                    always_uv,
                    builtin_uv,
                    remaining_rk,
                ),
            );
            let options = cborvalue::at(info, 0x04)->0;
            &&& cborvalue::at(info, 0x01) == Some(Value::List(versions(always_uv)))
            &&& versions(always_uv).contains(Value::Text("U2F_V2"@)) <==> !always_uv
            &&& cborvalue::at(info, 0x02) == Some(Value::List(extensions()))
            &&& cborvalue::at(info, 0x03) == Some(Value::Bytes(aaguid()@))
            &&& cborvalue::at(info, 0x04) is Some
            &&& cborvalue::named(options, "ep"@) == Some(Value::Bool(ea_enabled))
            &&& cborvalue::named(options, "rk"@) == Some(Value::Bool(true))
            &&& cborvalue::named(options, "up"@) == Some(Value::Bool(true))
            &&& cborvalue::named(options, "uv"@) == if builtin_uv {
                Some(Value::Bool(pin_set))
            } else {
                None
            }
            &&& cborvalue::named(options, "alwaysUv"@) == Some(Value::Bool(always_uv))
            &&& cborvalue::named(options, "credMgmt"@) == Some(Value::Bool(true))
            &&& cborvalue::named(options, "authnrCfg"@) == Some(Value::Bool(true))
            &&& cborvalue::named(options, "clientPin"@) == Some(Value::Bool(pin_set))
            &&& cborvalue::named(options, "largeBlobs"@) == Some(Value::Bool(true))
            &&& cborvalue::named(options, "pinUvAuthToken"@) == Some(Value::Bool(true))
            &&& cborvalue::named(options, "setMinPINLength"@) == Some(Value::Bool(true))
            &&& cborvalue::at(info, 0x05) == Some(Value::Int(7609))
            &&& cborvalue::at(info, 0x06) == Some(
                Value::List(seq![Value::Int(2), Value::Int(1)]),
            )
            &&& cborvalue::at(info, 0x07) == Some(Value::Int(16))
            &&& cborvalue::at(info, 0x08) == Some(Value::Int(1024))
            &&& cborvalue::at(info, 0x09) == Some(Value::List(seq![Value::Text("usb"@)]))
            &&& cborvalue::at(info, 0x0A) == Some(Value::List(algorithms(profile)))
            &&& cborvalue::at(info, 0x0B) == Some(Value::Int(2048))
            &&& cborvalue::at(info, 0x0C) == Some(Value::Bool(force_change))
            &&& cborvalue::at(info, 0x0D) == Some(Value::Int(min_pin_len as int))
            &&& cborvalue::at(info, 0x0E) == Some(Value::Int(0x0005_0704))
            &&& cborvalue::at(info, 0x0F) == Some(Value::Int(128))
            &&& cborvalue::at(info, 0x10) == Some(Value::Int(8))
            &&& cborvalue::at(info, 0x14) == Some(Value::Int(remaining_rk as int))
            &&& cborvalue::at(info, 0x16) == Some(Value::List(seq![Value::Text("packed"@)]))
            &&& cborvalue::at(info, 0x1D) == Some(Value::Int(63))
            &&& cborvalue::at(info, 0x1F) == Some(
                Value::List(seq![Value::Int(1), Value::Int(2), Value::Int(3)]),
            )
        }),
{
    let w = cbor::map(20);
    let e4 = lemma_front_members(w, pin_set, ea_enabled, always_uv, builtin_uv);
    let e9 = lemma_limit_members(w, e4);
    let e10 = lemma_algorithm_members(w, e9, profile);
    let e16 = lemma_policy_members(w, e10, force_change, min_pin_len);
    let e20 = lemma_rest_members(w, e16, remaining_rk);
    let info = Value::Table(e20);
    assert(info_of(
        profile,
        pin_set,
        min_pin_len,
        force_change,
        ea_enabled,
        always_uv,
        builtin_uv,
        remaining_rk,
    ) == cborvalue::enc(info)) by {
        reveal(info_of);
    }
    cborvalue::law_decoded(info);
    lemma_first_version(always_uv);
    lemma_options(pin_set, ea_enabled, always_uv, builtin_uv);
}

/// Members 0x01 to 0x04.
proof fn lemma_front_members(
    w: Seq<u8>,
    pin_set: bool,
    ea_enabled: bool,
    always_uv: bool,
    builtin_uv: bool,
) -> (all: Seq<(Value, Value)>)
    ensures
        with_options(
            with_extensions(with_versions(w, always_uv)) + cbor::uint(0x03) + cbor::bytes(
                aaguid()@,
            ),
            pin_set,
            ea_enabled,
            always_uv,
            builtin_uv,
        ) == w + cborvalue::enc_entries(all),
        cborvalue::sized_entries(all),
        all.len() == 4,
        forall|key: Value|
            #![trigger cborvalue::found(all, key)]
            cborvalue::found(all, key) == (if key == Value::Int(1) {
                Some(Value::List(versions(always_uv)))
            } else if key == Value::Int(2) {
                Some(Value::List(extensions()))
            } else if key == Value::Int(3) {
                Some(Value::Bytes(aaguid()@))
            } else if key == Value::Int(4) {
                Some(Value::Table(option_entries(pin_set, ea_enabled, always_uv, builtin_uv)))
            } else {
                None
            }),
{
    let e0 = Seq::<(Value, Value)>::empty();
    cborvalue::lemma_nothing(w);
    lemma_versions(w, e0, always_uv);
    cborvalue::lemma_list_entry(w, e0, Value::Int(1), versions(always_uv));
    let e1 = e0.push((Value::Int(1), Value::List(versions(always_uv))));
    lemma_extensions(w, e1);
    cborvalue::lemma_list_entry(w, e1, Value::Int(2), extensions());
    let e2 = e1.push((Value::Int(2), Value::List(extensions())));
    cborvalue::lemma_entry(w, e2, Value::Int(3), Value::Bytes(aaguid()@));
    let e3 = e2.push((Value::Int(3), Value::Bytes(aaguid()@)));
    let opts = option_entries(pin_set, ea_enabled, always_uv, builtin_uv);
    lemma_options(pin_set, ea_enabled, always_uv, builtin_uv);
    cborvalue::lemma_table_entry(w, e3, Value::Int(4), opts);
    let e4 = e3.push((Value::Int(4), Value::Table(opts)));
    assert(with_options(
        w + cborvalue::enc_entries(e3),
        pin_set,
        ea_enabled,
        always_uv,
        builtin_uv,
    ) == w + cborvalue::enc_entries(e4));
    e4
}

proof fn lemma_algorithm_members(w: Seq<u8>, es: Seq<(Value, Value)>, profile: Profile) -> (all:
    Seq<(Value, Value)>)
    requires
        cborvalue::sized_entries(es),
    ensures
        with_algorithms(w + cborvalue::enc_entries(es), profile) == w + cborvalue::enc_entries(all),
        cborvalue::sized_entries(all),
        all.len() == es.len() + 1,
        forall|key: Value|
            #![trigger cborvalue::found(all, key)]
            cborvalue::found(all, key) == (match cborvalue::found(es, key) {
                Some(x) => Some(x),
                None => if key == Value::Int(10) {
                    Some(Value::List(algorithms(profile)))
                } else {
                    None
                },
            }),
{
    lemma_algorithms(w, es, profile);
    cborvalue::lemma_list_entry(w, es, Value::Int(10), algorithms(profile));
    es.push((Value::Int(10), Value::List(algorithms(profile))))
}

proof fn lemma_first_version(always_uv: bool)
    ensures
        versions(always_uv).contains(Value::Text("U2F_V2"@)) <==> !always_uv,
{
    reveal_strlit("U2F_V2");
    reveal_strlit("FIDO_2_0");
    reveal_strlit("FIDO_2_1");
    reveal_strlit("FIDO_2_2");
    reveal_strlit("FIDO_2_3");
    if always_uv {
        assert forall|i: int| 0 <= i < versions(true).len() implies #[trigger] versions(true)[i]
            != Value::Text("U2F_V2"@) by {
            assert("FIDO_2_0"@.len() == 8 && "U2F_V2"@.len() == 6);
        }
    } else {
        assert(versions(false)[0] == Value::Text("U2F_V2"@));
    }
}

proof fn lemma_limit_members(w: Seq<u8>, es: Seq<(Value, Value)>) -> (all: Seq<(Value, Value)>)
    requires
        cborvalue::sized_entries(es),
    ensures
        with_limits(w + cborvalue::enc_entries(es)) == w + cborvalue::enc_entries(all),
        cborvalue::sized_entries(all),
        all.len() == es.len() + 5,
        forall|key: Value|
            #![trigger cborvalue::found(all, key)]
            cborvalue::found(all, key) == (match cborvalue::found(es, key) {
                Some(x) => Some(x),
                None => if key == Value::Int(5) {
                    Some(Value::Int(7609))
                } else if key == Value::Int(6) {
                    Some(Value::List(seq![Value::Int(2), Value::Int(1)]))
                } else if key == Value::Int(7) {
                    Some(Value::Int(16))
                } else if key == Value::Int(8) {
                    Some(Value::Int(1024))
                } else if key == Value::Int(9) {
                    Some(Value::List(seq![Value::Text("usb"@)]))
                } else {
                    None
                },
            }),
{
    lemma_small_lists(Seq::empty());
    lemma_limits(w, es);
    cborvalue::lemma_entry(w, es, Value::Int(5), Value::Int(7609));
    let e1 = es.push((Value::Int(5), Value::Int(7609)));
    cborvalue::lemma_list_entry(w, e1, Value::Int(6), seq![Value::Int(2), Value::Int(1)]);
    let e2 = e1.push((Value::Int(6), Value::List(seq![Value::Int(2), Value::Int(1)])));
    cborvalue::lemma_entry(w, e2, Value::Int(7), Value::Int(16));
    let e3 = e2.push((Value::Int(7), Value::Int(16)));
    cborvalue::lemma_entry(w, e3, Value::Int(8), Value::Int(1024));
    let e4 = e3.push((Value::Int(8), Value::Int(1024)));
    cborvalue::lemma_list_entry(w, e4, Value::Int(9), seq![Value::Text("usb"@)]);
    let e5 = e4.push((Value::Int(9), Value::List(seq![Value::Text("usb"@)])));
    e5
}

proof fn lemma_policy_members(w: Seq<u8>, es: Seq<(Value, Value)>, force_change: bool, min_pin_len: u8) -> (all: Seq<(Value, Value)>)
    requires
        cborvalue::sized_entries(es),
    ensures
        with_policy(w + cborvalue::enc_entries(es), force_change, min_pin_len) == w + cborvalue::enc_entries(all),
        cborvalue::sized_entries(all),
        all.len() == es.len() + 6,
        forall|key: Value|
            #![trigger cborvalue::found(all, key)]
            cborvalue::found(all, key) == (match cborvalue::found(es, key) {
                Some(x) => Some(x),
                None => if key == Value::Int(11) {
                    Some(Value::Int(2048))
                } else if key == Value::Int(12) {
                    Some(Value::Bool(force_change))
                } else if key == Value::Int(13) {
                    Some(Value::Int(min_pin_len as int))
                } else if key == Value::Int(14) {
                    Some(Value::Int(0x0005_0704))
                } else if key == Value::Int(15) {
                    Some(Value::Int(128))
                } else if key == Value::Int(16) {
                    Some(Value::Int(8))
                } else {
                    None
                },
            }),
{
    lemma_small_lists(Seq::empty());
    lemma_policy(w, es, force_change, min_pin_len);
    cborvalue::lemma_entry(w, es, Value::Int(11), Value::Int(2048));
    let e1 = es.push((Value::Int(11), Value::Int(2048)));
    cborvalue::lemma_entry(w, e1, Value::Int(12), Value::Bool(force_change));
    let e2 = e1.push((Value::Int(12), Value::Bool(force_change)));
    cborvalue::lemma_entry(w, e2, Value::Int(13), Value::Int(min_pin_len as int));
    let e3 = e2.push((Value::Int(13), Value::Int(min_pin_len as int)));
    cborvalue::lemma_entry(w, e3, Value::Int(14), Value::Int(0x0005_0704));
    let e4 = e3.push((Value::Int(14), Value::Int(0x0005_0704)));
    cborvalue::lemma_entry(w, e4, Value::Int(15), Value::Int(128));
    let e5 = e4.push((Value::Int(15), Value::Int(128)));
    cborvalue::lemma_entry(w, e5, Value::Int(16), Value::Int(8));
    let e6 = e5.push((Value::Int(16), Value::Int(8)));
    e6
}

proof fn lemma_rest_members(w: Seq<u8>, es: Seq<(Value, Value)>, remaining_rk: u16) -> (all: Seq<(Value, Value)>)
    requires
        cborvalue::sized_entries(es),
    ensures
        with_rest(w + cborvalue::enc_entries(es), remaining_rk) == w + cborvalue::enc_entries(all),
        cborvalue::sized_entries(all),
        all.len() == es.len() + 4,
        forall|key: Value|
            #![trigger cborvalue::found(all, key)]
            cborvalue::found(all, key) == (match cborvalue::found(es, key) {
                Some(x) => Some(x),
                None => if key == Value::Int(20) {
                    Some(Value::Int(remaining_rk as int))
                } else if key == Value::Int(22) {
                    Some(Value::List(seq![Value::Text("packed"@)]))
                } else if key == Value::Int(29) {
                    Some(Value::Int(63))
                } else if key == Value::Int(31) {
                    Some(Value::List(seq![Value::Int(1), Value::Int(2), Value::Int(3)]))
                } else {
                    None
                },
            }),
{
    lemma_small_lists(Seq::empty());
    lemma_rest(w, es, remaining_rk);
    cborvalue::lemma_entry(w, es, Value::Int(20), Value::Int(remaining_rk as int));
    let e1 = es.push((Value::Int(20), Value::Int(remaining_rk as int)));
    cborvalue::lemma_list_entry(w, e1, Value::Int(22), seq![Value::Text("packed"@)]);
    let e2 = e1.push((Value::Int(22), Value::List(seq![Value::Text("packed"@)])));
    cborvalue::lemma_entry(w, e2, Value::Int(29), Value::Int(63));
    let e3 = e2.push((Value::Int(29), Value::Int(63)));
    cborvalue::lemma_list_entry(w, e3, Value::Int(31), seq![Value::Int(1), Value::Int(2), Value::Int(3)]);
    let e4 = e3.push((Value::Int(31), Value::List(seq![Value::Int(1), Value::Int(2), Value::Int(3)])));
    e4
}

}
