//! The attestation object that a new credential is answered with.

use vstd::prelude::*;

use crate::cbor;
use crate::cborvalue;
use crate::cborvalue::Value;
use crate::cbor::{put_array, put_bool, put_bytes, put_i64, put_map, put_str, put_u64};
use crate::crypto;
use crate::crypto::{p256_accepts, p256_sign};
use crate::fido::cert;
use crate::fido::cert::{att_chain_ranges, att_chain_single};
use crate::fido::consts::{
    aaguid, ALG_ES256, ATT_CHAIN_REC_MAX, EF_ATT_CHAIN, EF_EE_DEV, FID_ATT_KEY, FLAG_AT, FLAG_ED,
    FLAG_UP, FLAG_UV, MAX_CREDBLOB_LENGTH,
};
use crate::fido::device::Device;
use crate::fido::error::CtapError;
use crate::fido::mcrequest;
use crate::fido::mcrequest::Request;
use crate::fido::seed;
use crate::fido::seed::load_att_key;
use crate::fs::file_system;
use crate::fs::{Fs, Storage};
use crate::sdk;
use crate::sdk::{be16_bytes, be32_bytes};
use crate::wipe::wipe;
use vstd::slice::slice_subrange;

verus! {

// ---- extension outputs ----
/// One if the output is there.
pub open spec fn one(b: bool) -> int {
    if b {
        1
    } else {
        0
    }
}

/// The number of extension outputs.
pub open spec fn ext_count(v: mcrequest::McView, min_pin: u8, hmac_mc: Seq<u8>) -> int {
    one(v.cred_blob.len() > 0) + one(v.cred_protect != 0) + one(v.hmac_secret) + one(min_pin > 0)
        + one(hmac_mc.len() > 0)
}

/// The extension outputs: whether the blob was short enough to seal, the
/// protection level, hmac-secret, the minimum PIN length and the hmac-secret
/// output; nothing at all where none applies.
pub open spec fn ext_outputs(v: mcrequest::McView, min_pin: u8, hmac_mc: Seq<u8>) -> Seq<u8> {
    let n = ext_count(v, min_pin, hmac_mc);
    if n == 0 {
        Seq::empty()
    } else {
        let a = cbor::map(n);
        let b = if v.cred_blob.len() > 0 {
            a + cbor::text("credBlob"@) + cbor::boolean(v.cred_blob.len() < MAX_CREDBLOB_LENGTH)
        } else {
            a
        };
        let c = if v.cred_protect != 0 {
            b + cbor::text("credProtect"@) + cbor::uint(v.cred_protect)
        } else {
            b
        };
        let d = if v.hmac_secret {
            c + cbor::text("hmac-secret"@) + cbor::boolean(true)
        } else {
            c
        };
        let e = if min_pin > 0 {
            d + cbor::text("minPinLength"@) + cbor::uint(min_pin as int)
        } else {
            d
        };
        if hmac_mc.len() > 0 {
            e + cbor::text("hmac-secret-mc"@) + cbor::bytes(hmac_mc)
        } else {
            e
        }
    }
}

/// Encodes the extension outputs.
pub fn encode_mc_extensions(req: &Request, min_pin: u8, hmac_mc: &[u8]) -> (r: Vec<u8>)
    ensures
        r@ == ext_outputs(req@, min_pin, hmac_mc@),
{
    let blob: bool = req.ext_cred_blob.len() > 0;
    let protect: bool = req.ext_cred_protect != 0;
    let hmac: bool = hmac_mc.len() > 0;
    let mut n: u64 = 0;
    if blob {
        n += 1;
    }
    if protect {
        n += 1;
    }
    if req.ext_hmac_secret {
        n += 1;
    }
    if min_pin > 0 {
        n += 1;
    }
    if hmac {
        n += 1;
    }
    let mut v: Vec<u8> = Vec::new();
    if n == 0 {
        assert(v@ =~= Seq::<u8>::empty());
        return v;
    }
    put_map(&mut v, n);
    assert(v@ =~= cbor::map(n as int));
    if blob {
        put_str(&mut v, "credBlob");
        put_bool(&mut v, req.ext_cred_blob.len() < MAX_CREDBLOB_LENGTH);
    }
    if protect {
        put_str(&mut v, "credProtect");
        put_u64(&mut v, req.ext_cred_protect);
    }
    if req.ext_hmac_secret {
        put_str(&mut v, "hmac-secret");
        put_bool(&mut v, true);
    }
    if min_pin > 0 {
        put_str(&mut v, "minPinLength");
        put_u64(&mut v, min_pin as u64);
    }
    if hmac {
        put_str(&mut v, "hmac-secret-mc");
        put_bytes(&mut v, hmac_mc);
    }
    v
}

// ---- authenticator data ----
/// The flags: attested data and presence always, extensions and verification
/// where they apply.
pub open spec fn flags_of(uv: bool, ed: bool) -> u8 {
    (FLAG_AT + FLAG_UP + (if ed {
        FLAG_ED as int
    } else {
        0
    }) + (if uv {
        FLAG_UV as int
    } else {
        0
    })) as u8
}

/// The authenticator data: rpIdHash, flags, counter, model, credential id and
/// public key, extension outputs.
pub open spec fn auth_data_of(
    rp_id_hash: Seq<u8>,
    uv: bool,
    counter: int,
    cred_id: Seq<u8>,
    cose: Seq<u8>,
    ext: Seq<u8>,
) -> Seq<u8> {
    rp_id_hash + seq![flags_of(uv, ext.len() > 0)] + sdk::be32(counter) + aaguid()@ + sdk::be16(
        cred_id.len() as int,
    ) + cred_id + cose + ext
}

/// Assembles the authenticator data.
pub fn auth_data(
    rp_id_hash: &[u8; 32],
    uv: bool,
    counter: u32,
    cred_id: &[u8],
    cose: &[u8],
    ext: &[u8],
) -> (r: Vec<u8>)
    requires
        cred_id@.len() < 0x1_0000,
    ensures
        r@ == auth_data_of(rp_id_hash@, uv, counter as int, cred_id@, cose@, ext@),
{
    let mut flags: u8 = FLAG_AT + FLAG_UP;
    if ext.len() > 0 {
        flags = flags + FLAG_ED;
    }
    if uv {
        flags = flags + FLAG_UV;
    }
    let mut v: Vec<u8> = Vec::new();
    v.extend_from_slice(rp_id_hash);
    v.push(flags);
    v.extend_from_slice(&be32_bytes(counter));
    v.extend_from_slice(&aaguid());
    v.extend_from_slice(&be16_bytes(cred_id.len() as u16));
    v.extend_from_slice(cred_id);
    v.extend_from_slice(cose);
    v.extend_from_slice(ext);
    assert(v@ =~= auth_data_of(rp_id_hash@, uv, counter as int, cred_id@, cose@, ext@));
    v
}

// ---- attestation ----
/// What a new credential is attested with.
pub enum Attestation {
    /// Nothing.
    Absent,
    /// A signature by the key of the credential: its algorithm and the bytes.
    Own(i64, Vec<u8>),
    /// A signature by an attestation key, and the packed chain of that key.
    Chain(Vec<u8>, Vec<u8>),
}

/// What a new credential is attested with.
pub enum AttView {
    Absent,
    Own(int, Seq<u8>),
    Chain(Seq<u8>, Seq<u8>),
}

impl View for Attestation {
    type V = AttView;

    open spec fn view(&self) -> AttView {
        match self {
            Attestation::Absent => AttView::Absent,
            Attestation::Own(alg, sig) => AttView::Own(*alg as int, sig@),
            Attestation::Chain(sig, rec) => AttView::Chain(sig@, rec@),
        }
    }
}

/// The signature by an attestation key and its chain: for an enterprise
/// attestation the organisation key with its chain where there is one,
/// otherwise the device key with its own certificate.
pub open spec fn full_attestation(
    dev: Device,
    c: Map<u16, Seq<u8>>,
    device_key: Seq<u8>,
    msg: Seq<u8>,
    enterprise: bool,
) -> Result<AttView, CtapError> {
    let org = if enterprise {
        seed::loaded(dev, c, FID_ATT_KEY)
    } else {
        None
    };
    let key = match org {
        Some(k) => k,
        None => device_key,
    };
    let chain = if org is Some {
        if c.contains_key(EF_ATT_CHAIN) {
            file_system::clipped(c[EF_ATT_CHAIN], ATT_CHAIN_REC_MAX as nat)
        } else {
            Seq::empty()
        }
    } else if seed::holds(c, EF_EE_DEV) {
        cert::single(file_system::clipped(c[EF_EE_DEV], 512))
    } else {
        Seq::empty()
    };
    if !crypto::p256_scalar(key) {
        Err(CtapError::Other)
    } else {
        match crypto::p256_sign_of(key, msg) {
            Some(sig) => if cert::certs(chain).len() > 0 {
                Ok(AttView::Chain(sig, chain))
            } else {
                Err(CtapError::Other)
            },
            None => Err(CtapError::Other),
        }
    }
}

/// The outcome of an attestation, seen as such.
pub open spec fn seen_att(r: Result<Attestation, CtapError>) -> Result<AttView, CtapError> {
    match r {
        Ok(a) => Ok(a@),
        Err(e) => Err(e),
    }
}

/// Signs with an attestation key and finds its chain.
pub fn make_full_attestation<S: Storage>(
    dev: &Device,
    fs: &mut Fs<S>,
    device_key: &[u8; 32],
    msg: &[u8],
    enterprise: bool,
) -> (r: Result<Attestation, CtapError>)
    requires
        old(fs).wf(),
    ensures
        final(fs).wf(),
        final(fs).reread(old(fs)),
        seen_att(r) == full_attestation(
            *dev,
            old(fs).contents(),
            device_key@,
            msg@,
            enterprise,
        ),
        r matches Ok(a) ==> (a matches Attestation::Chain(_, rec) && rec@.len() <= 0x1_0000),
{
    let org: Option<[u8; 32]> = if enterprise {
        load_att_key(dev, fs)
    } else {
        None
    };
    let is_org: bool = org.is_some();
    let mut key: [u8; 32] = match org {
        Some(k) => k,
        None => *device_key,
    };
    if !p256_accepts(&key) {
        wipe(&mut key);
        return Err(CtapError::Other);
    }
    let sig: Option<Vec<u8>> = p256_sign(&key, msg);
    wipe(&mut key);
    let sig: Vec<u8> = match sig {
        Some(s) => s,
        None => {
            return Err(CtapError::Other);
        },
    };
    let rec: Vec<u8> = if is_org {
        match fs.read_upto(EF_ATT_CHAIN, ATT_CHAIN_REC_MAX) {
            Some(c) => c,
            None => Vec::new(),
        }
    } else {
        match fs.read_upto(EF_EE_DEV, 512) {
            Some(c) => if c.len() > 0 {
                att_chain_single(c.as_slice())
            } else {
                Vec::new()
            },
            None => Vec::new(),
        }
    };
    let found: Vec<(usize, usize)> = att_chain_ranges(rec.as_slice());
    assert(cert::certs(rec@).len() == cert::ranges(rec@).len());
    assert(found@.len() == cert::seen_ranges(found@).len());
    if found.len() == 0 {
        return Err(CtapError::Other);
    }
    Ok(Attestation::Chain(sig, rec))
}

// ---- the response ----
/// `v` and the certificates from the `i`-th on.
pub open spec fn with_certs(v: Seq<u8>, certs: Seq<Seq<u8>>, i: int) -> Seq<u8>
    decreases certs.len() - i,
{
    if i >= certs.len() {
        v
    } else {
        with_certs(v + cbor::bytes(certs[i]), certs, i + 1)
    }
}

/// The name of the attestation format.
pub open spec fn format_of(a: AttView) -> Seq<char> {
    match a {
        AttView::Absent => "none"@,
        _ => "packed"@,
    }
}

/// `v` and the attestation statement.
pub open spec fn with_statement(v: Seq<u8>, a: AttView) -> Seq<u8> {
    match a {
        AttView::Absent => v + cbor::map(0),
        AttView::Own(alg, sig) => v + cbor::map(2) + cbor::text("alg"@) + cbor::sint(alg)
            + cbor::text("sig"@) + cbor::bytes(sig),
        AttView::Chain(sig, rec) => with_certs(
            v + cbor::map(3) + cbor::text("alg"@) + cbor::sint(ALG_ES256 as int) + cbor::text(
                "sig"@,
            ) + cbor::bytes(sig) + cbor::text("x5c"@) + cbor::array(
                cert::certs(rec).len() as int,
            ),
            cert::certs(rec),
            0,
        ),
    }
}

/// The response: format, authenticator data, attestation statement, the
/// enterprise flag where such an attestation was made, the large-blob key where
/// there is one.
pub open spec fn object_of(
    auth: Seq<u8>,
    a: AttView,
    ep: bool,
    large_blob_key: Option<Seq<u8>>,
) -> Seq<u8> {
    let x = cbor::map(3 + one(ep) + one(large_blob_key is Some)) + cbor::uint(1) + cbor::text(
        format_of(a),
    ) + cbor::uint(2) + cbor::bytes(auth) + cbor::uint(3);
    let y = with_statement(x, a);
    let z = if ep {
        y + cbor::uint(4) + cbor::boolean(true)
    } else {
        y
    };
    match large_blob_key {
        Some(k) => z + cbor::uint(5) + cbor::bytes(k),
        None => z,
    }
}

fn put_statement(v: &mut Vec<u8>, a: &Attestation)
    requires
        a matches Attestation::Chain(_, rec) ==> rec@.len() <= 0x1_0000,
    ensures
        final(v)@ == with_statement(old(v)@, a@),
{
    match a {
        Attestation::Absent => {
            put_map(v, 0);
        },
        Attestation::Own(alg, sig) => {
            put_map(v, 2);
            put_str(v, "alg");
            put_i64(v, *alg);
            put_str(v, "sig");
            put_bytes(v, sig.as_slice());
        },
        Attestation::Chain(sig, rec) => {
            let found: Vec<(usize, usize)> = att_chain_ranges(rec.as_slice());
            let n: usize = found.len();
            put_map(v, 3);
            put_str(v, "alg");
            put_i64(v, ALG_ES256);
            put_str(v, "sig");
            put_bytes(v, sig.as_slice());
            put_str(v, "x5c");
            put_array(v, n as u64);
            let ghost base = v@;
            let ghost all = cert::certs(rec@);
            assert(all.len() == n) by {
                assert(cert::seen_ranges(found@).len() == n);
            }
            let mut i: usize = 0;
            while i < n
                invariant
                    i <= n,
                    n == found@.len(),
                    rec@.len() <= 0x1_0000,
                    all == cert::certs(rec@),
                    all.len() == n,
                    cert::seen_ranges(found@) == cert::ranges(rec@),
                    forall|x: int|
                        0 <= x < n ==> (#[trigger] found@[x]).0 + found@[x].1 <= rec@.len(),
                    with_certs(base, all, 0) == with_certs(v@, all, i as int),
                decreases n - i,
            {
                let (off, len) = found[i];
                assert(found@[i as int].0 + found@[i as int].1 <= rec@.len());
                assert(cert::seen_ranges(found@)[i as int] == (off as int, len as int));
                put_bytes(v, slice_subrange(rec.as_slice(), off, off + len));
                assert(all[i as int] == rec@.subrange(off as int, off + len));
                i += 1;
            }
        },
    }
}

/// Encodes the response.
pub fn encode_object(
    auth: &[u8],
    a: &Attestation,
    ep: bool,
    large_blob_key: Option<[u8; 32]>,
) -> (r: Vec<u8>)
    requires
        a matches Attestation::Chain(_, rec) ==> rec@.len() <= 0x1_0000,
    ensures
        r@ == object_of(auth@, a@, ep, crypto::seen(large_blob_key)),
{
    let mut n: u64 = 3;
    if ep {
        n += 1;
    }
    if large_blob_key.is_some() {
        n += 1;
    }
    let mut v: Vec<u8> = Vec::new();
    put_map(&mut v, n);
    assert(v@ =~= cbor::map(n as int));
    put_u64(&mut v, 1);
    put_str(
        &mut v,
        match a {
            Attestation::Absent => "none",
            _ => "packed",
        },
    );
    put_u64(&mut v, 2);
    put_bytes(&mut v, auth);
    put_u64(&mut v, 3);
    put_statement(&mut v, a);
    if ep {
        put_u64(&mut v, 4);
        put_bool(&mut v, true);
    }
    if let Some(k) = large_blob_key {
        put_u64(&mut v, 5);
        put_bytes(&mut v, &k);
    }
    v
}

// ---- what the parts say ----
proof fn lemma_flags(uv: bool, ed: bool)
    ensures
        ({
            let f = flags_of(uv, ed);
            &&& f & 0x01 != 0
            &&& f & 0x40 != 0
            &&& (f & 0x04 != 0) == uv
            &&& (f & 0x80 != 0) == ed
            &&& f & 0x3a == 0
        }),
{
    let f = flags_of(uv, ed);
    assert(0x41u8 & 0x01 != 0 && 0x41u8 & 0x40 != 0 && 0x41u8 & 0x04 == 0 && 0x41u8 & 0x80 == 0
        && 0x41u8 & 0x3a == 0) by (bit_vector);
    assert(0x45u8 & 0x01 != 0 && 0x45u8 & 0x40 != 0 && 0x45u8 & 0x04 != 0 && 0x45u8 & 0x80 == 0
        && 0x45u8 & 0x3a == 0) by (bit_vector);
    assert(0xc1u8 & 0x01 != 0 && 0xc1u8 & 0x40 != 0 && 0xc1u8 & 0x04 == 0 && 0xc1u8 & 0x80 != 0
        && 0xc1u8 & 0x3a == 0) by (bit_vector);
    assert(0xc5u8 & 0x01 != 0 && 0xc5u8 & 0x40 != 0 && 0xc5u8 & 0x04 != 0 && 0xc5u8 & 0x80 != 0
        && 0xc5u8 & 0x3a == 0) by (bit_vector);
}

/// The parts of authenticator data: the hash of the relying party; the flags,
/// with presence and attested data set, verification exactly where the user was
/// verified, extensions exactly where there are outputs, and nothing else; the
/// counter; the model; the id with its length; the public key and the outputs.
pub proof fn law_auth_data_parts(
    rp_id_hash: Seq<u8>,
    uv: bool,
    counter: int,
    cred_id: Seq<u8>,
    cose: Seq<u8>,
    ext: Seq<u8>,
)
    requires
        rp_id_hash.len() == 32,
        0 <= counter <= u32::MAX,
        cred_id.len() <= u16::MAX,
    ensures
        ({
            let a = auth_data_of(rp_id_hash, uv, counter, cred_id, cose, ext);
            let id_end: int = 55 + cred_id.len() as int;
            &&& a.len() == id_end + cose.len() + ext.len()
            &&& a.subrange(0, 32) == rp_id_hash
            &&& a[32] & 0x01 != 0
            &&& a[32] & 0x40 != 0
            &&& (a[32] & 0x04 != 0) == uv
            &&& (a[32] & 0x80 != 0) == (ext.len() > 0)
            &&& a[32] & 0x3a == 0
            &&& crypto::be_value(a.subrange(33, 37)) == counter
            &&& a.subrange(37, 53) == aaguid()@
            &&& crypto::be_value(a.subrange(53, 55)) == cred_id.len()
            &&& a.subrange(55, id_end) == cred_id
            &&& a.subrange(id_end, id_end + cose.len()) == cose
            &&& a.subrange(id_end + cose.len(), a.len() as int) == ext
        }),
{
    let a = auth_data_of(rp_id_hash, uv, counter, cred_id, cose, ext);
    let id_end: int = 55 + cred_id.len() as int;
    lemma_flags(uv, ext.len() > 0);
    sdk::law_be32_round_trip(counter);
    sdk::law_be16_round_trip(cred_id.len() as int);
    assert(a[32] == flags_of(uv, ext.len() > 0));
    assert(a.subrange(0, 32) =~= rp_id_hash);
    assert(a.subrange(33, 37) =~= sdk::be32(counter));
    assert(a.subrange(37, 53) =~= aaguid()@);
    assert(a.subrange(53, 55) =~= sdk::be16(cred_id.len() as int));
    assert(a.subrange(55, id_end) =~= cred_id);
    assert(a.subrange(id_end, id_end + cose.len()) =~= cose);
    assert(a.subrange(id_end + cose.len(), a.len() as int) =~= ext);
}

proof fn lemma_output_names()
    ensures
        "credBlob"@.len() == 8,
        "credProtect"@.len() == 11,
        "hmac-secret"@.len() == 11,
        "minPinLength"@.len() == 12,
        "hmac-secret-mc"@.len() == 14,
        "credProtect"@ != "hmac-secret"@,
{
    reveal_strlit("credBlob");
    reveal_strlit("credProtect");
    reveal_strlit("hmac-secret");
    reveal_strlit("minPinLength");
    reveal_strlit("hmac-secret-mc");
    assert("credProtect"@[0] == 'c' && "hmac-secret"@[0] == 'h');
}

/// One more output, where it applies.
proof fn lemma_output(
    w: Seq<u8>,
    es: Seq<(Value, Value)>,
    applies: bool,
    name: Seq<char>,
    v: Value,
) -> (all: Seq<(Value, Value)>)
    requires
        cborvalue::sized_entries(es),
        name.len() <= 0xff,
        cborvalue::sized(v),
    ensures
        applies ==> w + cborvalue::enc_entries(all) == w + cborvalue::enc_entries(es) + cbor::text(
            name,
        ) + cborvalue::enc(v),
        !applies ==> all == es,
        all.len() == es.len() + one(applies),
        cborvalue::sized_entries(all),
        forall|key: Value|
            #![trigger cborvalue::found(all, key)]
            cborvalue::found(all, key) == (match cborvalue::found(es, key) {
                Some(x) => Some(x),
                None => if applies && key == Value::Text(name) {
                    Some(v)
                } else {
                    None
                },
            }),
{
    cborvalue::lemma_short_text(name);
    cborvalue::lemma_entry(w, es, Value::Text(name), v);
    if applies {
        es.push((Value::Text(name), v))
    } else {
        es
    }
}

/// The extension outputs: for each extension its output exactly where the
/// request asked for it. Nothing is written where there is no output.
pub proof fn law_extension_outputs(v: mcrequest::McView, min_pin: u8, hmac_mc: Seq<u8>)
    requires
        0 <= v.cred_protect <= u32::MAX,
        hmac_mc.len() <= u32::MAX,
    ensures
        ext_outputs(v, min_pin, hmac_mc).len() == 0 <==> v.cred_blob.len() == 0 && v.cred_protect
            == 0 && !v.hmac_secret && min_pin == 0 && hmac_mc.len() == 0,
        ext_outputs(v, min_pin, hmac_mc).len() > 0 ==> {
            let o = cborvalue::decoded(ext_outputs(v, min_pin, hmac_mc));
            &&& cborvalue::named(o, "credBlob"@) == if v.cred_blob.len() > 0 {
                Some(Value::Bool(v.cred_blob.len() < 128))
            } else {
                None
            }
            &&& cborvalue::named(o, "credProtect"@) == if v.cred_protect != 0 {
                Some(Value::Int(v.cred_protect))
            } else {
                None
            }
            &&& cborvalue::named(o, "hmac-secret"@) == if v.hmac_secret {
                Some(Value::Bool(true))
            } else {
                None
            }
            &&& cborvalue::named(o, "minPinLength"@) == if min_pin > 0 {
                Some(Value::Int(min_pin as int))
            } else {
                None
            }
            &&& cborvalue::named(o, "hmac-secret-mc"@) == if hmac_mc.len() > 0 {
                Some(Value::Bytes(hmac_mc))
            } else {
                None
            }
        },
{
    lemma_output_names();
    let n = ext_count(v, min_pin, hmac_mc);
    if n > 0 {
        let w = cbor::map(n);
        let e0 = Seq::<(Value, Value)>::empty();
        cborvalue::lemma_nothing(w);
        let e1 = lemma_output(
            w,
            e0,
            v.cred_blob.len() > 0,
            "credBlob"@,
            Value::Bool(v.cred_blob.len() < 128),
        );
        let e2 = lemma_output(
            w,
            e1,
            v.cred_protect != 0,
            "credProtect"@,
            Value::Int(v.cred_protect),
        );
        let e3 = lemma_output(w, e2, v.hmac_secret, "hmac-secret"@, Value::Bool(true));
        let e4 = lemma_output(w, e3, min_pin > 0, "minPinLength"@, Value::Int(min_pin as int));
        let e5 = lemma_output(w, e4, hmac_mc.len() > 0, "hmac-secret-mc"@, Value::Bytes(hmac_mc));
        assert(ext_outputs(v, min_pin, hmac_mc) == cborvalue::enc(Value::Table(e5)));
        assert(w.subrange(0, w.len() as int) =~= w);
        cborvalue::lemma_head(w, 0, 5, n);
        cborvalue::law_decoded(Value::Table(e5));
    }
}

/// The certificates as values.
pub open spec fn cert_values(certs: Seq<Seq<u8>>) -> Seq<Value> {
    Seq::new(certs.len(), |i: int| Value::Bytes(certs[i]))
}

proof fn lemma_with_certs(v: Seq<u8>, certs: Seq<Seq<u8>>, i: int)
    requires
        0 <= i <= certs.len(),
        forall|j: int| 0 <= j < certs.len() ==> (#[trigger] certs[j]).len() <= u32::MAX,
    ensures
        with_certs(v, certs, i) == v + cborvalue::enc_items(
            cert_values(certs).subrange(i, certs.len() as int),
        ),
        cborvalue::sized_items(cert_values(certs).subrange(i, certs.len() as int)),
    decreases certs.len() - i,
{
    let vals = cert_values(certs).subrange(i, certs.len() as int);
    if i < certs.len() {
        lemma_with_certs(v + cbor::bytes(certs[i]), certs, i + 1);
        assert(vals.subrange(1, vals.len() as int) =~= cert_values(certs).subrange(
            i + 1,
            certs.len() as int,
        ));
        assert(vals[0] == Value::Bytes(certs[i]));
        assert(cborvalue::enc(Value::Bytes(certs[i])) == cbor::bytes(certs[i]));
        assert(cborvalue::sized(Value::Bytes(certs[i])));
        assert(v + cborvalue::enc_items(vals) =~= v + cbor::bytes(certs[i]) + cborvalue::enc_items(
            vals.subrange(1, vals.len() as int),
        ));
    } else {
        assert(vals =~= Seq::<Value>::empty());
        assert(v + cborvalue::enc_items(vals) =~= v);
    }
}

proof fn lemma_statement_names()
    ensures
        "alg"@.len() == 3,
        "sig"@.len() == 3,
        "x5c"@.len() == 3,
        "alg"@ != "sig"@,
        "alg"@ != "x5c"@,
        "sig"@ != "x5c"@,
        "none"@.len() == 4,
        "packed"@.len() == 6,
{
    reveal_strlit("alg");
    reveal_strlit("sig");
    reveal_strlit("x5c");
    reveal_strlit("none");
    reveal_strlit("packed");
    assert("alg"@[0] == 'a' && "sig"@[0] == 's' && "x5c"@[0] == 'x');
}

/// The sizes of an attestation are those of bytes in memory.
pub open spec fn att_fits(a: AttView) -> bool {
    match a {
        AttView::Absent => true,
        AttView::Own(alg, sig) => i64::MIN <= alg <= i64::MAX && sig.len() <= u32::MAX,
        AttView::Chain(sig, rec) => sig.len() <= u32::MAX && cert::certs(rec).len() <= u32::MAX
            && forall|j: int|
            0 <= j < cert::certs(rec).len() ==> (#[trigger] cert::certs(rec)[j]).len() <= u32::MAX,
    }
}

/// The statement is a map of the algorithm, the signature and the certificates,
/// as far as the attestation has them.
proof fn lemma_statement(v: Seq<u8>, a: AttView) -> (es: Seq<(Value, Value)>)
    requires
        att_fits(a),
    ensures
        with_statement(v, a) == v + cborvalue::enc(Value::Table(es)),
        cborvalue::sized(Value::Table(es)),
        cborvalue::found(es, Value::Text("alg"@)) == (match a {
            AttView::Absent => None,
            AttView::Own(alg, sig) => Some(Value::Int(alg)),
            AttView::Chain(sig, rec) => Some(Value::Int(-7)),
        }),
        cborvalue::found(es, Value::Text("sig"@)) == (match a {
            AttView::Absent => None,
            AttView::Own(alg, sig) => Some(Value::Bytes(sig)),
            AttView::Chain(sig, rec) => Some(Value::Bytes(sig)),
        }),
        cborvalue::found(es, Value::Text("x5c"@)) == (match a {
            AttView::Absent => None,
            AttView::Own(alg, sig) => None,
            AttView::Chain(sig, rec) => Some(Value::List(cert_values(cert::certs(rec)))),
        }),
{
    lemma_statement_names();
    cborvalue::lemma_short_text("alg"@);
    cborvalue::lemma_short_text("sig"@);
    cborvalue::lemma_short_text("x5c"@);
    let e0 = Seq::<(Value, Value)>::empty();
    match a {
        AttView::Absent => {
            let h = cbor::map(0);
            cborvalue::lemma_nothing(h);
            e0
        },
        AttView::Own(alg, sig) => {
            let h = cbor::map(2);
            cborvalue::lemma_nothing(h);
            cborvalue::lemma_entry(h, e0, Value::Text("alg"@), Value::Int(alg));
            let e1 = e0.push((Value::Text("alg"@), Value::Int(alg)));
            cborvalue::lemma_entry(h, e1, Value::Text("sig"@), Value::Bytes(sig));
            let e2 = e1.push((Value::Text("sig"@), Value::Bytes(sig)));
            assert(with_statement(v, a) =~= v + (h + cborvalue::enc_entries(e2)));
            e2
        },
        AttView::Chain(sig, rec) => {
            let certs = cert::certs(rec);
            let vals = cert_values(certs);
            let h = cbor::map(3);
            cborvalue::lemma_nothing(h);
            cborvalue::lemma_entry(h, e0, Value::Text("alg"@), Value::Int(-7));
            let e1 = e0.push((Value::Text("alg"@), Value::Int(-7)));
            cborvalue::lemma_entry(h, e1, Value::Text("sig"@), Value::Bytes(sig));
            let e2 = e1.push((Value::Text("sig"@), Value::Bytes(sig)));
            let front = v + cbor::map(3) + cbor::text("alg"@) + cbor::sint(-7) + cbor::text("sig"@)
                + cbor::bytes(sig) + cbor::text("x5c"@) + cbor::array(certs.len() as int);
            lemma_with_certs(front, certs, 0);
            assert(vals.subrange(0, certs.len() as int) =~= vals);
            cborvalue::lemma_list_entry(h, e2, Value::Text("x5c"@), vals);
            let e3 = e2.push((Value::Text("x5c"@), Value::List(vals)));
            assert(with_statement(v, a) =~= v + (h + cborvalue::enc_entries(e3)));
            e3
        },
    }
}

/// The response is a map of the format, the authenticator data and the
/// attestation statement; the enterprise flag is there exactly where such an
/// attestation was made, and the large-blob key where there is one.
pub proof fn law_attestation_object(
    auth: Seq<u8>,
    a: AttView,
    ep: bool,
    large_blob_key: Option<Seq<u8>>,
)
    requires
        auth.len() <= u32::MAX,
        att_fits(a),
        large_blob_key matches Some(k) ==> k.len() <= u32::MAX,
    ensures
        ({
            let o = cborvalue::decoded(object_of(auth, a, ep, large_blob_key));
            let stmt = cborvalue::at(o, 3)->0;
            &&& cborvalue::at(o, 1) == Some(
                Value::Text(
                    if a is Absent {
                        "none"@
                    } else {
                        "packed"@
                    },
                ),
            )
            &&& cborvalue::at(o, 2) == Some(Value::Bytes(auth))
            &&& cborvalue::at(o, 3) is Some
            &&& cborvalue::named(stmt, "alg"@) == (match a {
                AttView::Absent => None,
                AttView::Own(alg, sig) => Some(Value::Int(alg)),
                AttView::Chain(sig, rec) => Some(Value::Int(-7)),
            })
            &&& cborvalue::named(stmt, "sig"@) == (match a {
                AttView::Absent => None,
                AttView::Own(alg, sig) => Some(Value::Bytes(sig)),
                AttView::Chain(sig, rec) => Some(Value::Bytes(sig)),
            })
            &&& cborvalue::named(stmt, "x5c"@) == (match a {
                AttView::Absent => None,
                AttView::Own(alg, sig) => None,
                AttView::Chain(sig, rec) => Some(Value::List(cert_values(cert::certs(rec)))),
            })
            &&& cborvalue::at(o, 4) == if ep {
                Some(Value::Bool(true))
            } else {
                None
            }
            &&& cborvalue::at(o, 5) == (match large_blob_key {
                Some(k) => Some(Value::Bytes(k)),
                None => None,
            })
        }),
{
    lemma_statement_names();
    let n = 3 + one(ep) + one(large_blob_key is Some);
    let w = cbor::map(n);
    let e0 = Seq::<(Value, Value)>::empty();
    let fmt = Value::Text(format_of(a));
    cborvalue::lemma_short_text(format_of(a));
    cborvalue::lemma_nothing(w);
    cborvalue::lemma_entry(w, e0, Value::Int(1), fmt);
    let e1 = e0.push((Value::Int(1), fmt));
    cborvalue::lemma_entry(w, e1, Value::Int(2), Value::Bytes(auth));
    let e2 = e1.push((Value::Int(2), Value::Bytes(auth)));
    let stmt = lemma_statement(w + cborvalue::enc_entries(e2) + cbor::uint(3), a);
    cborvalue::lemma_entry(w, e2, Value::Int(3), Value::Table(stmt));
    let e3 = e2.push((Value::Int(3), Value::Table(stmt)));
    cborvalue::lemma_entry(w, e3, Value::Int(4), Value::Bool(true));
    let e4 = if ep {
        e3.push((Value::Int(4), Value::Bool(true)))
    } else {
        e3
    };
    match large_blob_key {
        Some(k) => {
            cborvalue::lemma_entry(w, e4, Value::Int(5), Value::Bytes(k));
            let e5 = e4.push((Value::Int(5), Value::Bytes(k)));
            assert(object_of(auth, a, ep, large_blob_key) == cborvalue::enc(Value::Table(e5)));
            cborvalue::law_decoded(Value::Table(e5));
        },
        None => {
            assert(object_of(auth, a, ep, large_blob_key) == cborvalue::enc(Value::Table(e4)));
            cborvalue::law_decoded(Value::Table(e4));
        },
    }
}

/// An attestation by an attestation key is a P-256 signature over the message,
/// by the organisation's key for an enterprise attestation where there is one and
/// by the device's key otherwise, with at least one certificate.
pub proof fn law_full_attestation(
    dev: Device,
    c: Map<u16, Seq<u8>>,
    device_key: Seq<u8>,
    msg: Seq<u8>,
    enterprise: bool,
)
    ensures
        match full_attestation(dev, c, device_key, msg, enterprise) {
            Ok(AttView::Chain(sig, rec)) => {
                &&& cert::certs(rec).len() > 0
                &&& if enterprise && seed::loaded(dev, c, FID_ATT_KEY) is Some {
                    &&& crypto::p256_sign_of(seed::loaded(dev, c, FID_ATT_KEY)->0, msg) == Some(sig)
                    &&& c.contains_key(EF_ATT_CHAIN)
                } else {
                    crypto::p256_sign_of(device_key, msg) == Some(sig)
                }
            },
            Ok(_) => false,
            Err(e) => e == CtapError::Other,
        },
        !enterprise ==> full_attestation(dev, c, device_key, msg, enterprise) == full_attestation(
            dev,
            c.remove(FID_ATT_KEY).remove(EF_ATT_CHAIN),
            device_key,
            msg,
            enterprise,
        ),
{
    assert(cert::certs(Seq::empty()).len() == 0);
    assert(FID_ATT_KEY != EF_EE_DEV && EF_ATT_CHAIN != EF_EE_DEV);
}

}
