//! The request of `authenticatorMakeCredential`.

use vstd::prelude::*;
use vstd::utf8::*;

use crate::fido::cbordec;
use crate::fido::cbordec::{
    def_arr, def_map, skip_item, take_bool, take_bytes, take_i64, take_text, take_u32,
};
use crate::fido::consts::{
    ALG_ED25519, ALG_EDDSA, ALG_ES256, ALG_ES256K, ALG_ES384, ALG_ES512, ALG_ESP256, ALG_ESP384,
    ALG_ESP512, ALG_MLDSA44, ALG_MLDSA65, CURVE_ED25519, CURVE_MLDSA44, CURVE_MLDSA65,
    CURVE_P256, CURVE_P256K1, CURVE_P384, CURVE_P521,
};
use crate::fido::error::CtapError;
use crate::fido::hmacsecret;
use crate::fido::hmacsecret::HmacSecretReq;
use crate::fido::largeblobs;
use crate::fido::makecredential::Profile;
use crate::sdk::same_bytes;

verus! {

/// Most entries of an excludeList that are looked at.
pub const MAX_EXCLUDE: usize = 16;

/// The canonical algorithm and the curve of a COSE algorithm, curve-explicit
/// aliases included; nothing for one that is not supported, which secp256k1 is
/// not under the FIPS-style profile.
pub open spec fn curve_of(alg: int, fips: bool) -> Option<(i64, u8)> {
    if alg == ALG_ES256 || alg == ALG_ESP256 {
        Some((ALG_ES256, CURVE_P256))
    } else if alg == ALG_ES384 || alg == ALG_ESP384 {
        Some((ALG_ES384, CURVE_P384))
    } else if alg == ALG_ES512 || alg == ALG_ESP512 {
        Some((ALG_ES512, CURVE_P521))
    } else if alg == ALG_ES256K && !fips {
        Some((ALG_ES256K, CURVE_P256K1))
    } else if alg == ALG_EDDSA || alg == ALG_ED25519 {
        Some((ALG_EDDSA, CURVE_ED25519))
    } else if alg == ALG_MLDSA44 {
        Some((ALG_MLDSA44, CURVE_MLDSA44))
    } else if alg == ALG_MLDSA65 {
        Some((ALG_MLDSA65, CURVE_MLDSA65))
    } else {
        None
    }
}

/// The rank of an algorithm where the post-quantum ones are preferred.
pub open spec fn rank_of(alg: int) -> int {
    if alg == ALG_MLDSA65 {
        2
    } else if alg == ALG_MLDSA44 {
        1
    } else {
        0
    }
}

/// The canonical algorithm and the curve of a COSE algorithm.
pub fn alg_to_curve(alg: i64, fips: bool) -> (r: Option<(i64, u8)>)
    ensures
        r == curve_of(alg as int, fips),
{
    if alg == ALG_ES256 || alg == ALG_ESP256 {
        Some((ALG_ES256, CURVE_P256))
    } else if alg == ALG_ES384 || alg == ALG_ESP384 {
        Some((ALG_ES384, CURVE_P384))
    } else if alg == ALG_ES512 || alg == ALG_ESP512 {
        Some((ALG_ES512, CURVE_P521))
    } else if alg == ALG_ES256K && !fips {
        Some((ALG_ES256K, CURVE_P256K1))
    } else if alg == ALG_EDDSA || alg == ALG_ED25519 {
        Some((ALG_EDDSA, CURVE_ED25519))
    } else if alg == ALG_MLDSA44 {
        Some((ALG_MLDSA44, CURVE_MLDSA44))
    } else if alg == ALG_MLDSA65 {
        Some((ALG_MLDSA65, CURVE_MLDSA65))
    } else {
        None
    }
}

fn alg_rank(alg: i64) -> (r: u8)
    ensures
        r == rank_of(alg as int),
{
    if alg == ALG_MLDSA65 {
        2
    } else if alg == ALG_MLDSA44 {
        1
    } else {
        0
    }
}

/// A request. Texts are held as their bytes.
pub struct Request<'a> {
    pub client_data_hash: &'a [u8],
    pub rp_id: &'a [u8],
    pub user_id: &'a [u8],
    pub user_name: &'a [u8],
    pub user_display_name: &'a [u8],
    pub has_pubkey_param: bool,
    /// The selected algorithm and its curve, if one is supported.
    pub sel: Option<(i64, u8)>,
    pub exclude: Vec<&'a [u8]>,
    pub rk: bool,
    pub up: Option<bool>,
    pub uv: bool,
    pub pin_uv_auth_param: Option<&'a [u8]>,
    pub pin_uv_auth_protocol: u64,
    pub ext_cred_protect: u64,
    pub ext_cred_blob: &'a [u8],
    pub ext_min_pin_length: bool,
    pub ext_third_party_payment: bool,
    pub ext_hmac_secret: bool,
    pub ext_large_blob_key: Option<bool>,
    pub hmac_secret_mc: HmacSecretReq<'a>,
    pub enterprise_attestation: u64,
}

/// What a request says.
#[verifier::ext_equal]
pub struct McView {
    pub client_data_hash: Seq<u8>,
    pub rp_id: Seq<u8>,
    pub user_id: Seq<u8>,
    pub user_name: Seq<u8>,
    pub user_display_name: Seq<u8>,
    pub has_pubkey_param: bool,
    pub sel: Option<(i64, u8)>,
    pub exclude: Seq<Seq<u8>>,
    pub rk: bool,
    pub up: Option<bool>,
    pub uv: bool,
    pub param: Option<Seq<u8>>,
    pub proto: int,
    pub cred_protect: int,
    pub cred_blob: Seq<u8>,
    pub min_pin_length: bool,
    pub third_party_payment: bool,
    pub hmac_secret: bool,
    pub large_blob_key: Option<bool>,
    pub hmac_secret_mc: hmacsecret::HmacView,
    pub enterprise: int,
}

/// The bytes of each string of a list.
pub open spec fn each(v: Seq<&[u8]>) -> Seq<Seq<u8>> {
    Seq::new(v.len(), |i: int| v[i]@)
}

impl<'a> View for Request<'a> {
    type V = McView;

    open spec fn view(&self) -> McView {
        McView {
            client_data_hash: self.client_data_hash@,
            rp_id: self.rp_id@,
            user_id: self.user_id@,
            user_name: self.user_name@,
            user_display_name: self.user_display_name@,
            has_pubkey_param: self.has_pubkey_param,
            sel: self.sel,
            exclude: each(self.exclude@),
            rk: self.rk,
            up: self.up,
            uv: self.uv,
            param: largeblobs::opt_bytes(self.pin_uv_auth_param),
            proto: self.pin_uv_auth_protocol as int,
            cred_protect: self.ext_cred_protect as int,
            cred_blob: self.ext_cred_blob@,
            min_pin_length: self.ext_min_pin_length,
            third_party_payment: self.ext_third_party_payment,
            hmac_secret: self.ext_hmac_secret,
            large_blob_key: self.ext_large_blob_key,
            hmac_secret_mc: self.hmac_secret_mc@,
            enterprise: self.enterprise_attestation as int,
        }
    }
}

/// A request that says nothing.
pub open spec fn empty_view() -> McView {
    McView {
        client_data_hash: Seq::empty(),
        rp_id: Seq::empty(),
        user_id: Seq::empty(),
        user_name: Seq::empty(),
        user_display_name: Seq::empty(),
        has_pubkey_param: false,
        sel: None,
        exclude: Seq::empty(),
        rk: false,
        up: None,
        uv: false,
        param: None,
        proto: 0,
        cred_protect: 0,
        cred_blob: Seq::empty(),
        min_pin_length: false,
        third_party_payment: false,
        hmac_secret: false,
        large_blob_key: None,
        hmac_secret_mc: hmacsecret::no_request(),
        enterprise: 0,
    }
}

/// The bytes of a member name.
pub open spec fn name(n: Seq<char>) -> Seq<u8> {
    encode_utf8(n)
}

/// Whether a member name is `n`.
pub(crate) fn is_name(k: &[u8], n: &str) -> (r: bool)
    ensures
        r == (k@ == name(n@)),
{
    same_bytes(k, n.as_bytes())
}

// ---- the relying party ----
/// `left` members of the relying-party entity from `pos` on.
pub open spec fn rp_members(s: Seq<u8>, pos: int, left: nat, v: McView) -> cbordec::Taken<McView>
    decreases left,
{
    if left == 0 {
        Ok((v, pos))
    } else {
        match cbordec::text_item(s, pos) {
            Err(e) => Err(e),
            Ok((k, p)) => if k == name("id"@) {
                match cbordec::text_item(s, p) {
                    Err(e) => Err(e),
                    Ok((t, q)) => rp_members(s, q, (left - 1) as nat, McView { rp_id: t, ..v }),
                }
            } else if k == name("name"@) {
                match cbordec::text_item(s, p) {
                    Err(e) => Err(e),
                    Ok((t, q)) => rp_members(s, q, (left - 1) as nat, v),
                }
            } else {
                match cbordec::any_item(s, p) {
                    Err(e) => Err(e),
                    Ok(q) => rp_members(s, q, (left - 1) as nat, v),
                }
            },
        }
    }
}

/// The relying-party entity at `pos`.
pub open spec fn rp_entity(s: Seq<u8>, pos: int, v: McView) -> cbordec::Taken<McView> {
    match cbordec::map_item(s, pos) {
        Err(e) => Err(e),
        Ok((n, p)) => rp_members(s, p, n as nat, v),
    }
}

/// The position after a part, with the request as far as it was read.
pub open spec fn seen_part(r: Result<usize, CtapError>, v: McView) -> cbordec::Taken<McView> {
    match r {
        Ok(p) => Ok((v, p as int)),
        Err(e) => Err(e),
    }
}

fn parse_rp_entity<'a>(data: &'a [u8], pos: usize, req: &mut Request<'a>) -> (r: Result<
    usize,
    CtapError,
>)
    ensures
        seen_part(r, final(req)@) == rp_entity(data@, pos as int, old(req)@),
{
    let (n, first) = def_map(data, pos)?;
    let mut at: usize = first;
    let mut i: u64 = 0;
    while i < n
        invariant
            i <= n,
            rp_entity(data@, pos as int, old(req)@) == rp_members(
                data@,
                at as int,
                (n - i) as nat,
                req@,
            ),
        decreases n - i,
    {
        let (k, p) = take_text(data, at)?;
        if is_name(k, "id") {
            let (t, q) = take_text(data, p)?;
            req.rp_id = t;
            at = q;
        } else if is_name(k, "name") {
            let (_, q) = take_text(data, p)?;
            at = q;
        } else {
            at = skip_item(data, p)?;
        }
        i += 1;
    }
    Ok(at)
}

// ---- the user ----
/// `left` members of the user entity from `pos` on.
pub open spec fn user_members(s: Seq<u8>, pos: int, left: nat, v: McView) -> cbordec::Taken<McView>
    decreases left,
{
    if left == 0 {
        Ok((v, pos))
    } else {
        match cbordec::text_item(s, pos) {
            Err(e) => Err(e),
            Ok((k, p)) => if k == name("id"@) {
                match cbordec::bytes_item(s, p) {
                    Err(e) => Err(e),
                    Ok((b, q)) => user_members(s, q, (left - 1) as nat, McView { user_id: b, ..v }),
                }
            } else if k == name("name"@) {
                match cbordec::text_item(s, p) {
                    Err(e) => Err(e),
                    Ok((t, q)) => user_members(
                        s,
                        q,
                        (left - 1) as nat,
                        McView { user_name: t, ..v },
                    ),
                }
            } else if k == name("displayName"@) {
                match cbordec::text_item(s, p) {
                    Err(e) => Err(e),
                    Ok((t, q)) => user_members(
                        s,
                        q,
                        (left - 1) as nat,
                        McView { user_display_name: t, ..v },
                    ),
                }
            } else {
                match cbordec::any_item(s, p) {
                    Err(e) => Err(e),
                    Ok(q) => user_members(s, q, (left - 1) as nat, v),
                }
            },
        }
    }
}

/// The user entity at `pos`.
pub open spec fn user_entity(s: Seq<u8>, pos: int, v: McView) -> cbordec::Taken<McView> {
    match cbordec::map_item(s, pos) {
        Err(e) => Err(e),
        Ok((n, p)) => user_members(s, p, n as nat, v),
    }
}

fn parse_user_entity<'a>(data: &'a [u8], pos: usize, req: &mut Request<'a>) -> (r: Result<
    usize,
    CtapError,
>)
    ensures
        seen_part(r, final(req)@) == user_entity(data@, pos as int, old(req)@),
{
    let (n, first) = def_map(data, pos)?;
    let mut at: usize = first;
    let mut i: u64 = 0;
    while i < n
        invariant
            i <= n,
            user_entity(data@, pos as int, old(req)@) == user_members(
                data@,
                at as int,
                (n - i) as nat,
                req@,
            ),
        decreases n - i,
    {
        let (k, p) = take_text(data, at)?;
        if is_name(k, "id") {
            let (b, q) = take_bytes(data, p)?;
            req.user_id = b;
            at = q;
        } else if is_name(k, "name") {
            let (t, q) = take_text(data, p)?;
            req.user_name = t;
            at = q;
        } else if is_name(k, "displayName") {
            let (t, q) = take_text(data, p)?;
            req.user_display_name = t;
            at = q;
        } else {
            at = skip_item(data, p)?;
        }
        i += 1;
    }
    Ok(at)
}

// ---- the algorithms ----
/// `left` members of one parameter entry from `pos` on: type and algorithm.
pub open spec fn param_members(
    s: Seq<u8>,
    pos: int,
    left: nat,
    ty: Option<Seq<u8>>,
    alg: Option<int>,
) -> cbordec::Taken<(Option<Seq<u8>>, Option<int>)>
    decreases left,
{
    if left == 0 {
        Ok(((ty, alg), pos))
    } else {
        match cbordec::text_item(s, pos) {
            Err(e) => Err(e),
            Ok((k, p)) => if k == name("type"@) {
                match cbordec::text_item(s, p) {
                    Err(e) => Err(e),
                    Ok((t, q)) => param_members(s, q, (left - 1) as nat, Some(t), alg),
                }
            } else if k == name("alg"@) {
                match cbordec::i64_item(s, p) {
                    Err(e) => Err(e),
                    Ok((n, q)) => param_members(s, q, (left - 1) as nat, ty, Some(n)),
                }
            } else {
                match cbordec::any_item(s, p) {
                    Err(e) => Err(e),
                    Ok(q) => param_members(s, q, (left - 1) as nat, ty, alg),
                }
            },
        }
    }
}

/// The parameter entry at `pos`; it must have a type and an algorithm.
pub open spec fn param_entry(s: Seq<u8>, pos: int) -> cbordec::Taken<(Seq<u8>, int)> {
    match cbordec::map_item(s, pos) {
        Err(e) => Err(e),
        Ok((n, p)) => match param_members(s, p, n as nat, None, None) {
            Err(e) => Err(e),
            Ok(((Some(t), Some(a)), q)) => Ok(((t, a), q)),
            Ok(_) => Err(CtapError::InvalidCbor),
        },
    }
}

/// The selection after one more entry: the first supported algorithm stands,
/// unless a post-quantum one of higher rank is preferred.
pub open spec fn selected(
    sel: Option<(i64, u8)>,
    ty: Seq<u8>,
    alg: int,
    profile: Profile,
) -> Option<(i64, u8)> {
    if ty != name("public-key"@) || curve_of(alg, profile.fips) is None {
        sel
    } else {
        let c = curve_of(alg, profile.fips)->0;
        match sel {
            None => Some(c),
            Some(s) => if profile.prefer_pqc && rank_of(c.0 as int) > rank_of(s.0 as int) {
                Some(c)
            } else {
                sel
            },
        }
    }
}

/// `left` parameter entries from `pos` on.
pub open spec fn param_entries(
    s: Seq<u8>,
    pos: int,
    left: nat,
    v: McView,
    profile: Profile,
) -> cbordec::Taken<McView>
    decreases left,
{
    if left == 0 {
        Ok((v, pos))
    } else {
        match param_entry(s, pos) {
            Err(e) => Err(e),
            Ok(((t, a), q)) => param_entries(
                s,
                q,
                (left - 1) as nat,
                McView { has_pubkey_param: true, sel: selected(v.sel, t, a, profile), ..v },
                profile,
            ),
        }
    }
}

/// The list of parameters at `pos`.
pub open spec fn params(s: Seq<u8>, pos: int, v: McView, profile: Profile) -> cbordec::Taken<
    McView,
> {
    match cbordec::array_item(s, pos) {
        Err(e) => Err(e),
        Ok((n, p)) => param_entries(s, p, n as nat, v, profile),
    }
}

/// The parameter entry that was taken.
pub open spec fn seen_entry(r: Result<(&[u8], i64, usize), CtapError>) -> cbordec::Taken<
    (Seq<u8>, int),
> {
    match r {
        Ok(v) => Ok(((v.0@, v.1 as int), v.2 as int)),
        Err(e) => Err(e),
    }
}

fn parse_param_entry<'a>(data: &'a [u8], pos: usize) -> (r: Result<
    (&'a [u8], i64, usize),
    CtapError,
>)
    ensures
        seen_entry(r) == param_entry(data@, pos as int),
{
    let (n, first) = def_map(data, pos)?;
    let mut at: usize = first;
    let mut ty: Option<&'a [u8]> = None;
    let mut alg: Option<i64> = None;
    let ghost whole = param_members(data@, first as int, n as nat, None, None);
    let mut i: u64 = 0;
    while i < n
        invariant
            i <= n,
            cbordec::map_item(data@, pos as int) == Ok::<(int, int), CtapError>(
                (n as int, first as int),
            ),
            whole == param_members(data@, first as int, n as nat, None, None),
            whole == param_members(
                data@,
                at as int,
                (n - i) as nat,
                largeblobs::opt_bytes(ty),
                match alg {
                    Some(a) => Some(a as int),
                    None => None,
                },
            ),
        decreases n - i,
    {
        let (k, p) = take_text(data, at)?;
        if is_name(k, "type") {
            let (t, q) = take_text(data, p)?;
            ty = Some(t);
            at = q;
        } else if is_name(k, "alg") {
            let (a, q) = take_i64(data, p)?;
            alg = Some(a);
            at = q;
        } else {
            at = skip_item(data, p)?;
        }
        i += 1;
    }
    match ty {
        Some(t) => match alg {
            Some(a) => Ok((t, a, at)),
            None => Err(CtapError::InvalidCbor),
        },
        None => Err(CtapError::InvalidCbor),
    }
}

fn parse_pubkey_params<'a>(
    data: &'a [u8],
    pos: usize,
    req: &mut Request<'a>,
    profile: Profile,
) -> (r: Result<usize, CtapError>)
    ensures
        seen_part(r, final(req)@) == params(data@, pos as int, old(req)@, profile),
{
    let (n, first) = def_arr(data, pos)?;
    let mut at: usize = first;
    let mut i: u64 = 0;
    while i < n
        invariant
            i <= n,
            params(data@, pos as int, old(req)@, profile) == param_entries(
                data@,
                at as int,
                (n - i) as nat,
                req@,
                profile,
            ),
        decreases n - i,
    {
        let (ty, alg, q) = parse_param_entry(data, at)?;
        let ghost before = req@;
        req.has_pubkey_param = true;
        if is_name(ty, "public-key") {
            if let Some(c) = alg_to_curve(alg, profile.fips) {
                let take: bool = match req.sel {
                    None => true,
                    Some(s) => profile.prefer_pqc && alg_rank(c.0) > alg_rank(s.0),
                };
                if take {
                    req.sel = Some(c);
                }
            }
        }
        assert(req@ =~= (McView {
            has_pubkey_param: true,
            sel: selected(before.sel, ty@, alg as int, profile),
            ..before
        }));
        at = q;
        i += 1;
    }
    Ok(at)
}

// ---- the exclude list ----
/// `left` members of one credential descriptor from `pos` on: the id, and
/// whether there is a type.
pub open spec fn descriptor_members(
    s: Seq<u8>,
    pos: int,
    left: nat,
    id: Option<Seq<u8>>,
    typed: bool,
) -> cbordec::Taken<(Option<Seq<u8>>, bool)>
    decreases left,
{
    if left == 0 {
        Ok(((id, typed), pos))
    } else {
        match cbordec::text_item(s, pos) {
            Err(e) => Err(e),
            Ok((k, p)) => if k == name("id"@) {
                match cbordec::bytes_item(s, p) {
                    Err(e) => Err(e),
                    Ok((b, q)) => descriptor_members(s, q, (left - 1) as nat, Some(b), typed),
                }
            } else if k == name("type"@) {
                match cbordec::text_item(s, p) {
                    Err(e) => Err(e),
                    Ok((t, q)) => descriptor_members(s, q, (left - 1) as nat, id, true),
                }
            } else {
                match cbordec::any_item(s, p) {
                    Err(e) => Err(e),
                    Ok(q) => descriptor_members(s, q, (left - 1) as nat, id, typed),
                }
            },
        }
    }
}

/// The id of the credential descriptor at `pos`; it must have a type and an id.
pub open spec fn descriptor(s: Seq<u8>, pos: int) -> cbordec::Taken<Seq<u8>> {
    match cbordec::map_item(s, pos) {
        Err(e) => Err(e),
        Ok((n, p)) => match descriptor_members(s, p, n as nat, None, false) {
            Err(e) => Err(e),
            Ok(((Some(id), true), q)) => Ok((id, q)),
            Ok(_) => Err(CtapError::MissingParameter),
        },
    }
}

/// `left` credential descriptors from `pos` on; those beyond the limit are
/// dropped.
pub open spec fn descriptors(s: Seq<u8>, pos: int, left: nat, v: McView) -> cbordec::Taken<McView>
    decreases left,
{
    if left == 0 {
        Ok((v, pos))
    } else {
        match descriptor(s, pos) {
            Err(e) => Err(e),
            Ok((id, q)) => descriptors(
                s,
                q,
                (left - 1) as nat,
                if v.exclude.len() < MAX_EXCLUDE {
                    McView { exclude: v.exclude.push(id), ..v }
                } else {
                    v
                },
            ),
        }
    }
}

/// The exclude list at `pos`.
pub open spec fn exclude_list(s: Seq<u8>, pos: int, v: McView) -> cbordec::Taken<McView> {
    match cbordec::array_item(s, pos) {
        Err(e) => Err(e),
        Ok((n, p)) => descriptors(s, p, n as nat, v),
    }
}

fn parse_descriptor<'a>(data: &'a [u8], pos: usize) -> (r: Result<(&'a [u8], usize), CtapError>)
    ensures
        cbordec::got_s(r) == descriptor(data@, pos as int),
{
    let (n, first) = def_map(data, pos)?;
    let mut at: usize = first;
    let mut id: Option<&'a [u8]> = None;
    let mut typed: bool = false;
    let ghost whole = descriptor_members(data@, first as int, n as nat, None, false);
    let mut i: u64 = 0;
    while i < n
        invariant
            i <= n,
            cbordec::map_item(data@, pos as int) == Ok::<(int, int), CtapError>(
                (n as int, first as int),
            ),
            whole == descriptor_members(data@, first as int, n as nat, None, false),
            whole == descriptor_members(
                data@,
                at as int,
                (n - i) as nat,
                largeblobs::opt_bytes(id),
                typed,
            ),
        decreases n - i,
    {
        let (k, p) = take_text(data, at)?;
        if is_name(k, "id") {
            let (b, q) = take_bytes(data, p)?;
            id = Some(b);
            at = q;
        } else if is_name(k, "type") {
            let (_, q) = take_text(data, p)?;
            typed = true;
            at = q;
        } else {
            at = skip_item(data, p)?;
        }
        i += 1;
    }
    if !typed {
        return Err(CtapError::MissingParameter);
    }
    match id {
        Some(b) => Ok((b, at)),
        None => Err(CtapError::MissingParameter),
    }
}

fn parse_exclude_list<'a>(data: &'a [u8], pos: usize, req: &mut Request<'a>) -> (r: Result<
    usize,
    CtapError,
>)
    ensures
        seen_part(r, final(req)@) == exclude_list(data@, pos as int, old(req)@),
{
    let (n, first) = def_arr(data, pos)?;
    let mut at: usize = first;
    let mut i: u64 = 0;
    while i < n
        invariant
            i <= n,
            exclude_list(data@, pos as int, old(req)@) == descriptors(
                data@,
                at as int,
                (n - i) as nat,
                req@,
            ),
        decreases n - i,
    {
        let (id, q) = parse_descriptor(data, at)?;
        let ghost before = req@;
        if req.exclude.len() < MAX_EXCLUDE {
            req.exclude.push(id);
            assert(req@.exclude =~= before.exclude.push(id@));
            assert(req@ =~= (McView { exclude: before.exclude.push(id@), ..before }));
        }
        at = q;
        i += 1;
    }
    Ok(at)
}

// ---- extensions and options ----
/// `left` extensions from `pos` on.
pub open spec fn ext_members(s: Seq<u8>, pos: int, left: nat, v: McView) -> cbordec::Taken<McView>
    decreases left,
{
    if left == 0 {
        Ok((v, pos))
    } else {
        match cbordec::text_item(s, pos) {
            Err(e) => Err(e),
            Ok((k, p)) => match ext_member(s, p, k, v) {
                Err(e) => Err(e),
                Ok((w, q)) => ext_members(s, q, (left - 1) as nat, w),
            },
        }
    }
}

/// The extension `k` at `pos`.
pub open spec fn ext_member(s: Seq<u8>, pos: int, k: Seq<u8>, v: McView) -> cbordec::Taken<
    McView,
> {
    if k == name("credProtect"@) {
        match cbordec::u32_item(s, pos) {
            Err(e) => Err(e),
            Ok((n, q)) => Ok((McView { cred_protect: n, ..v }, q)),
        }
    } else if k == name("credBlob"@) {
        match cbordec::bytes_item(s, pos) {
            Err(e) => Err(e),
            Ok((b, q)) => Ok((McView { cred_blob: b, ..v }, q)),
        }
    } else if k == name("minPinLength"@) {
        match cbordec::bool_item(s, pos) {
            Err(e) => Err(e),
            Ok((b, q)) => Ok((McView { min_pin_length: b, ..v }, q)),
        }
    } else if k == name("thirdPartyPayment"@) {
        match cbordec::bool_item(s, pos) {
            Err(e) => Err(e),
            Ok((b, q)) => Ok((McView { third_party_payment: b, ..v }, q)),
        }
    } else if k == name("hmac-secret"@) {
        match cbordec::bool_item(s, pos) {
            Err(e) => Err(e),
            Ok((b, q)) => Ok((McView { hmac_secret: b, ..v }, q)),
        }
    } else if k == name("hmac-secret-mc"@) {
        match hmacsecret::request(s, pos) {
            Err(e) => Err(e),
            Ok((h, q)) => Ok((McView { hmac_secret_mc: h, ..v }, q)),
        }
    } else if k == name("largeBlobKey"@) {
        match cbordec::bool_item(s, pos) {
            Err(e) => Err(e),
            Ok((b, q)) => Ok((McView { large_blob_key: Some(b), ..v }, q)),
        }
    } else {
        match cbordec::any_item(s, pos) {
            Err(e) => Err(e),
            Ok(q) => Ok((v, q)),
        }
    }
}

/// The extension map at `pos`.
pub open spec fn extensions(s: Seq<u8>, pos: int, v: McView) -> cbordec::Taken<McView> {
    match cbordec::map_item(s, pos) {
        Err(e) => Err(e),
        Ok((n, p)) => ext_members(s, p, n as nat, v),
    }
}

fn parse_extension<'a>(data: &'a [u8], p: usize, k: &[u8], req: &mut Request<'a>) -> (r: Result<
    usize,
    CtapError,
>)
    ensures
        seen_part(r, final(req)@) == ext_member(data@, p as int, k@, old(req)@),
{
    if is_name(k, "credProtect") {
        let (n, q) = take_u32(data, p)?;
        req.ext_cred_protect = n;
        Ok(q)
    } else if is_name(k, "credBlob") {
        let (b, q) = take_bytes(data, p)?;
        req.ext_cred_blob = b;
        Ok(q)
    } else if is_name(k, "minPinLength") {
        let (b, q) = take_bool(data, p)?;
        req.ext_min_pin_length = b;
        Ok(q)
    } else if is_name(k, "thirdPartyPayment") {
        let (b, q) = take_bool(data, p)?;
        req.ext_third_party_payment = b;
        Ok(q)
    } else if is_name(k, "hmac-secret") {
        let (b, q) = take_bool(data, p)?;
        req.ext_hmac_secret = b;
        Ok(q)
    } else if is_name(k, "hmac-secret-mc") {
        let (h, q) = hmacsecret::parse(data, p)?;
        req.hmac_secret_mc = h;
        Ok(q)
    } else if is_name(k, "largeBlobKey") {
        let (b, q) = take_bool(data, p)?;
        req.ext_large_blob_key = Some(b);
        Ok(q)
    } else {
        skip_item(data, p)
    }
}

fn parse_extensions<'a>(data: &'a [u8], pos: usize, req: &mut Request<'a>) -> (r: Result<
    usize,
    CtapError,
>)
    ensures
        seen_part(r, final(req)@) == extensions(data@, pos as int, old(req)@),
{
    let (n, first) = def_map(data, pos)?;
    let mut at: usize = first;
    let mut i: u64 = 0;
    while i < n
        invariant
            i <= n,
            extensions(data@, pos as int, old(req)@) == ext_members(
                data@,
                at as int,
                (n - i) as nat,
                req@,
            ),
        decreases n - i,
    {
        let (k, p) = take_text(data, at)?;
        at = parse_extension(data, p, k, req)?;
        i += 1;
    }
    Ok(at)
}

/// `left` options from `pos` on.
pub open spec fn option_members(
    s: Seq<u8>,
    pos: int,
    left: nat,
    v: McView,
) -> cbordec::Taken<McView>
    decreases left,
{
    if left == 0 {
        Ok((v, pos))
    } else {
        match cbordec::text_item(s, pos) {
            Err(e) => Err(e),
            Ok((k, p)) => if k == name("rk"@) || k == name("up"@) || k == name("uv"@) {
                match cbordec::bool_item(s, p) {
                    Err(e) => Err(e),
                    Ok((b, q)) => option_members(
                        s,
                        q,
                        (left - 1) as nat,
                        if k == name("rk"@) {
                            McView { rk: b, ..v }
                        } else if k == name("up"@) {
                            McView { up: Some(b), ..v }
                        } else {
                            McView { uv: b, ..v }
                        },
                    ),
                }
            } else {
                match cbordec::any_item(s, p) {
                    Err(e) => Err(e),
                    Ok(q) => option_members(s, q, (left - 1) as nat, v),
                }
            },
        }
    }
}

/// The options map at `pos`.
pub open spec fn options(s: Seq<u8>, pos: int, v: McView) -> cbordec::Taken<McView> {
    match cbordec::map_item(s, pos) {
        Err(e) => Err(e),
        Ok((n, p)) => option_members(s, p, n as nat, v),
    }
}

fn parse_options<'a>(data: &'a [u8], pos: usize, req: &mut Request<'a>) -> (r: Result<
    usize,
    CtapError,
>)
    ensures
        seen_part(r, final(req)@) == options(data@, pos as int, old(req)@),
{
    let (n, first) = def_map(data, pos)?;
    let mut at: usize = first;
    let mut i: u64 = 0;
    while i < n
        invariant
            i <= n,
            options(data@, pos as int, old(req)@) == option_members(
                data@,
                at as int,
                (n - i) as nat,
                req@,
            ),
        decreases n - i,
    {
        let (k, p) = take_text(data, at)?;
        if is_name(k, "rk") {
            let (b, q) = take_bool(data, p)?;
            req.rk = b;
            at = q;
        } else if is_name(k, "up") {
            let (b, q) = take_bool(data, p)?;
            req.up = Some(b);
            at = q;
        } else if is_name(k, "uv") {
            let (b, q) = take_bool(data, p)?;
            req.uv = b;
            at = q;
        } else {
            at = skip_item(data, p)?;
        }
        i += 1;
    }
    Ok(at)
}

// ---- the request ----
/// The member of key `key` at `pos`.
pub open spec fn member(s: Seq<u8>, pos: int, key: int, v: McView, profile: Profile) -> cbordec::Taken<
    McView,
> {
    if key == 1 {
        match cbordec::bytes_item(s, pos) {
            Err(e) => Err(e),
            Ok((b, p)) => Ok((McView { client_data_hash: b, ..v }, p)),
        }
    } else if key == 2 {
        rp_entity(s, pos, v)
    } else if key == 3 {
        user_entity(s, pos, v)
    } else if key == 4 {
        params(s, pos, v, profile)
    } else if key == 5 {
        exclude_list(s, pos, v)
    } else if key == 6 {
        extensions(s, pos, v)
    } else if key == 7 {
        options(s, pos, v)
    } else if key == 8 {
        match cbordec::bytes_item(s, pos) {
            Err(e) => Err(e),
            Ok((b, p)) => Ok((McView { param: Some(b), ..v }, p)),
        }
    } else if key == 9 {
        match cbordec::u32_item(s, pos) {
            Err(e) => Err(e),
            Ok((n, p)) => Ok((McView { proto: n, ..v }, p)),
        }
    } else if key == 10 {
        match cbordec::u32_item(s, pos) {
            Err(e) => Err(e),
            Ok((n, p)) => Ok((McView { enterprise: n, ..v }, p)),
        }
    } else {
        match cbordec::any_item(s, pos) {
            Err(e) => Err(e),
            Ok(p) => Ok((v, p)),
        }
    }
}

/// `left` members from `pos` on: the keys 1 to 4 come first and in order, the
/// others ascend.
pub open spec fn members(
    s: Seq<u8>,
    pos: int,
    left: nat,
    expected: int,
    v: McView,
    profile: Profile,
) -> Result<McView, CtapError>
    decreases left,
{
    if left == 0 {
        Ok(v)
    } else {
        match cbordec::u32_item(s, pos) {
            Err(e) => Err(e),
            Ok((key, p)) => if expected <= 4 && key != expected {
                Err(CtapError::MissingParameter)
            } else if key < expected {
                Err(CtapError::InvalidCbor)
            } else {
                match member(s, p, key, v, profile) {
                    Err(e) => Err(e),
                    Ok((w, q)) => members(s, q, (left - 1) as nat, key + 1, w, profile),
                }
            },
        }
    }
}

/// The request that the bytes write.
pub open spec fn request(s: Seq<u8>, profile: Profile) -> Result<McView, CtapError> {
    match cbordec::map_item(s, 0) {
        Err(e) => Err(e),
        Ok((n, pos)) => members(s, pos, n as nat, 1, empty_view(), profile),
    }
}

/// The outcome of parsing, seen as a request.
pub open spec fn seen_req(r: Result<Request<'_>, CtapError>) -> Result<McView, CtapError> {
    match r {
        Ok(q) => Ok(q@),
        Err(e) => Err(e),
    }
}

fn parse_member<'a>(
    data: &'a [u8],
    pos: usize,
    key: u64,
    req: &mut Request<'a>,
    profile: Profile,
) -> (r: Result<usize, CtapError>)
    ensures
        seen_part(r, final(req)@) == member(data@, pos as int, key as int, old(req)@, profile),
{
    match key {
        1 => {
            let (b, q) = take_bytes(data, pos)?;
            req.client_data_hash = b;
            Ok(q)
        },
        2 => parse_rp_entity(data, pos, req),
        3 => parse_user_entity(data, pos, req),
        4 => parse_pubkey_params(data, pos, req, profile),
        5 => parse_exclude_list(data, pos, req),
        6 => parse_extensions(data, pos, req),
        7 => parse_options(data, pos, req),
        8 => {
            let (b, q) = take_bytes(data, pos)?;
            req.pin_uv_auth_param = Some(b);
            Ok(q)
        },
        9 => {
            let (n, q) = take_u32(data, pos)?;
            req.pin_uv_auth_protocol = n;
            Ok(q)
        },
        10 => {
            let (n, q) = take_u32(data, pos)?;
            req.enterprise_attestation = n;
            Ok(q)
        },
        _ => skip_item(data, pos),
    }
}

/// Parses a request.
pub fn parse<'a>(data: &'a [u8], profile: Profile) -> (r: Result<Request<'a>, CtapError>)
    ensures
        seen_req(r) == request(data@, profile),
{
    let mut req = Request {
        client_data_hash: &[],
        rp_id: &[],
        user_id: &[],
        user_name: &[],
        user_display_name: &[],
        has_pubkey_param: false,
        sel: None,
        exclude: Vec::new(),
        rk: false,
        up: None,
        uv: false,
        pin_uv_auth_param: None,
        pin_uv_auth_protocol: 0,
        ext_cred_protect: 0,
        ext_cred_blob: &[],
        ext_min_pin_length: false,
        ext_third_party_payment: false,
        ext_hmac_secret: false,
        ext_large_blob_key: None,
        hmac_secret_mc: HmacSecretReq::default(),
        enterprise_attestation: 0,
    };
    assert(req@ =~= empty_view()) by {
        let none = Seq::<u8>::empty();
        assert(req.client_data_hash@ =~= none && req.rp_id@ =~= none && req.user_id@ =~= none);
        assert(req.user_name@ =~= none && req.user_display_name@ =~= none);
        assert(req.ext_cred_blob@ =~= none);
        assert(each(req.exclude@) =~= Seq::<Seq<u8>>::empty());
    }
    let (n, first) = def_map(data, 0)?;
    let mut at: usize = first;
    let mut expected: u64 = 1;
    let mut i: u64 = 0;
    while i < n
        invariant
            i <= n,
            expected <= 0x1_0000_0000,
            request(data@, profile) == members(
                data@,
                at as int,
                (n - i) as nat,
                expected as int,
                req@,
                profile,
            ),
        decreases n - i,
    {
        let (key, p) = take_u32(data, at)?;
        if expected <= 4 && key != expected {
            return Err(CtapError::MissingParameter);
        }
        if key < expected {
            return Err(CtapError::InvalidCbor);
        }
        expected = key + 1;
        at = parse_member(data, p, key, &mut req, profile)?;
        i += 1;
    }
    Ok(req)
}

/// Every field of a request is seen under its own name.
pub proof fn law_request_fields(r: Request)
    ensures
        r@.client_data_hash == r.client_data_hash@,
        r@.rp_id == r.rp_id@,
        r@.user_id == r.user_id@,
        r@.user_name == r.user_name@,
        r@.user_display_name == r.user_display_name@,
        r@.has_pubkey_param == r.has_pubkey_param,
        r@.sel == r.sel,
        r@.exclude.len() == r.exclude@.len(),
        forall|i: int| 0 <= i < r.exclude@.len() ==> #[trigger] r@.exclude[i] == r.exclude@[i]@,
        r@.rk == r.rk,
        r@.up == r.up,
        r@.uv == r.uv,
        r.pin_uv_auth_param matches Some(p) ==> r@.param == Some(p@),
        r.pin_uv_auth_param is None ==> r@.param is None,
        r@.proto == r.pin_uv_auth_protocol,
        r@.cred_protect == r.ext_cred_protect,
        r@.cred_blob == r.ext_cred_blob@,
        r@.min_pin_length == r.ext_min_pin_length,
        r@.third_party_payment == r.ext_third_party_payment,
        r@.hmac_secret == r.ext_hmac_secret,
        r@.large_blob_key == r.ext_large_blob_key,
        r@.hmac_secret_mc == r.hmac_secret_mc@,
        r@.enterprise == r.enterprise_attestation,
{
}

}
