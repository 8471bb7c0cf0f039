//! Key derivation. A key handle is a 32-byte path and a 32-byte tag: the
//! private scalar is an HKDF-SHA-512 ratchet over the device seed, salted by
//! each 4-byte path entry, and the tag binds the handle to an application.

use vstd::prelude::*;
use vstd::slice::slice_subrange;

use crate::crypto;
use crate::crypto::{hkdf_sha512, hmac_sha256};
use crate::fido::state;
use crate::fido::{Drawn, Rng};
use crate::sdk::{array32, same_bytes};
use crate::wipe::wipe;

verus! {

/// The path portion of a key handle.
pub const KEY_PATH_LEN: usize = 32;

/// Key-handle length: the path and the tag.
pub const KEY_HANDLE_LEN: usize = 64;

/// Length of the raw key material.
pub const RATCHET_LEN: usize = 66;

/// The ratchet after `i` path entries: input key (32), info (32) and the rest.
pub open spec fn ratcheted(seed: Seq<u8>, path: Seq<u8>, i: nat) -> Seq<u8>
    decreases i,
{
    if i == 0 {
        seed + state::zeros(34)
    } else {
        let k = (i - 1) as nat;
        let prev = ratcheted(seed, path, k);
        crypto::hkdf_sha512_of(
            path.subrange(4 * k as int, 4 * k as int + 4),
            prev.subrange(0, 32),
            prev.subrange(32, 64),
            66,
        )
    }
}

/// The raw key material of a path.
pub open spec fn key_material(seed: Seq<u8>, path: Seq<u8>) -> Seq<u8> {
    ratcheted(seed, path, 8)
}

/// The P-256 scalar of a path.
pub open spec fn path_scalar(seed: Seq<u8>, path: Seq<u8>) -> Seq<u8> {
    key_material(seed, path).take(32)
}

/// The tag that binds a path to an application.
pub open spec fn handle_tag_of(seed: Seq<u8>, app_id: Seq<u8>, path: Seq<u8>) -> Seq<u8> {
    crypto::hmac_sha256_of(path_scalar(seed, path), app_id + path)
}

/// Every 4-byte path entry has its high bit set.
pub open spec fn hardened(path: Seq<u8>) -> bool {
    forall|i: int| 0 <= i < 8 ==> #[trigger] path[4 * i + 3] & 0x80 != 0
}

/// The handle was made for the application under the seed.
pub open spec fn handle_valid(seed: Seq<u8>, app_id: Seq<u8>, handle: Seq<u8>) -> bool {
    &&& hardened(handle)
    &&& handle.skip(32) == handle_tag_of(seed, app_id, handle.take(32))
}

/// The path of a credential id: its first 32 bytes, the first entry replaced by
/// the number of resident keys and every entry's high bit set.
pub open spec fn credential_path(cred_id: Seq<u8>) -> Seq<u8> {
    Seq::new(
        32,
        |i: int|
            if i == 0 {
                0x26u8
            } else if i == 1 {
                0x27u8
            } else if i == 2 {
                0x00u8
            } else if i == 3 {
                0x80u8
            } else if i % 4 == 3 {
                cred_id[i] | 0x80
            } else {
                cred_id[i]
            },
    )
}

/// Runs the ratchet over a path.
pub fn ratchet(seed: &[u8; 32], path: &[u8; 32]) -> (r: [u8; 66])
    ensures
        r@ == key_material(seed@, path@),
{
    let mut out = [0u8; 66];
    let mut j: usize = 0;
    while j < 32
        invariant
            j <= 32,
            forall|x: int| 0 <= x < j ==> out@[x] == seed@[x],
            forall|x: int| j <= x < 66 ==> out@[x] == 0,
        decreases 32 - j,
    {
        out[j] = seed[j];
        j += 1;
    }
    assert(out@ =~= ratcheted(seed@, path@, 0));
    let mut i: usize = 0;
    while i < 8
        invariant
            i <= 8,
            out@ == ratcheted(seed@, path@, i as nat),
        decreases 8 - i,
    {
        let next: [u8; 66] = hkdf_sha512(
            slice_subrange(path, 4 * i, 4 * i + 4),
            slice_subrange(&out, 0, 32),
            slice_subrange(&out, 32, 64),
        );
        wipe(&mut out);
        out = next;
        i += 1;
    }
    out
}

/// The scalar of a path.
fn ratchet_scalar32(seed: &[u8; 32], path: &[u8; 32]) -> (r: [u8; 32])
    ensures
        r@ == path_scalar(seed@, path@),
{
    let mut full: [u8; 66] = ratchet(seed, path);
    let scalar: [u8; 32] = array32(slice_subrange(&full, 0, 32));
    assert(scalar@ =~= full@.take(32));
    wipe(&mut full);
    scalar
}

/// The tag that binds `path` to `app_id` under `scalar`.
fn handle_tag(scalar: &[u8; 32], app_id: &[u8; 32], path: &[u8; 32]) -> (r: [u8; 32])
    ensures
        r@ == crypto::hmac_sha256_of(scalar@, app_id@ + path@),
{
    let mut base: Vec<u8> = Vec::new();
    base.extend_from_slice(app_id);
    base.extend_from_slice(path);
    assert(base@ =~= app_id@ + path@);
    hmac_sha256(scalar, base.as_slice())
}

/// Setting the high bit of a byte sets it.
proof fn lemma_high_bit(b: u8)
    ensures
        (b | 0x80) & 0x80 != 0,
{
    assert((b | 0x80) & 0x80 != 0) by (bit_vector);
}

/// The handle and the scalar of `path`.
pub fn handle_of_path(seed: &[u8; 32], app_id: &[u8; 32], path: &[u8; 32]) -> (r: (
    [u8; 64],
    [u8; 32],
))
    ensures
        r.0@ == path@ + handle_tag_of(seed@, app_id@, path@),
        r.1@ == path_scalar(seed@, path@),
{
    let scalar: [u8; 32] = ratchet_scalar32(seed, path);
    let tag: [u8; 32] = handle_tag(&scalar, app_id, path);
    let mut kh = [0u8; 64];
    let mut j: usize = 0;
    while j < 32
        invariant
            j <= 32,
            forall|x: int| 0 <= x < j ==> kh@[x] == path@[x] && kh@[32 + x] == tag@[x],
        decreases 32 - j,
    {
        kh[j] = path[j];
        kh[32 + j] = tag[j];
        j += 1;
    }
    assert(kh@ =~= path@ + tag@) by {
        assert forall|x: int| 0 <= x < 64 implies kh@[x] == (path@ + tag@)[x] by {
            if x >= 32 {
                assert(kh@[32 + (x - 32)] == tag@[x - 32]);
            }
        }
    }
    (kh, scalar)
}

/// The path that eight draws of four bytes give: each is an element of the path
/// with its top bit set.
pub open spec fn path_of(draws: Seq<Seq<u8>>) -> Seq<u8> {
    Seq::new(
        32,
        |k: int|
            if k % 4 == 3 {
                draws[k / 4][3] | 0x80
            } else {
                draws[k / 4][k % 4]
            },
    )
}

/// Eight draws of four bytes were made, and they give the path.
pub open spec fn drew_path(before: Seq<Seq<u8>>, after: Seq<Seq<u8>>, path: Seq<u8>) -> bool {
    &&& after.len() == before.len() + 8
    &&& after.take(before.len() as int) == before
    &&& forall|x: int| before.len() <= x < after.len() ==> (#[trigger] after[x]).len() == 4
    &&& path == path_of(after.skip(before.len() as int))
}

/// Derives a fresh credential from a random path: the key handle and the
/// scalar.
pub fn derive_new<R: Rng>(seed: &[u8; 32], app_id: &[u8; 32], rng: &mut Drawn<R>) -> (r: (
    [u8; 64],
    [u8; 32],
))
    ensures
        handle_valid(seed@, app_id@, r.0@),
        r.1@ == path_scalar(seed@, r.0@.take(32)),
        drew_path(old(rng).drawn(), final(rng).drawn(), r.0@.take(32)),
{
    let ghost start = rng.drawn();
    let ghost base = start.len() as int;
    assert(start.take(base) =~= start);
    let mut path = [0u8; 32];
    let mut i: usize = 0;
    while i < 8
        invariant
            i <= 8,
            start == old(rng).drawn(),
            base == start.len(),
            rng.drawn().len() == base + i,
            rng.drawn().take(base) == start,
            forall|x: int| base <= x < base + i ==> (#[trigger] rng.drawn()[x]).len() == 4,
            forall|x: int| 0 <= x < i ==> #[trigger] path@[4 * x + 3] & 0x80 != 0,
            forall|k: int|
                0 <= k < 4 * i ==> #[trigger] path@[k] == (if k % 4 == 3 {
                    rng.drawn()[base + k / 4][3] | 0x80
                } else {
                    rng.drawn()[base + k / 4][k % 4]
                }),
        decreases 8 - i,
    {
        let mut e = [0u8; 4];
        let ghost so_far = rng.drawn();
        rng.fill(&mut e);
        let ghost before = path@;
        path[4 * i] = e[0];
        path[4 * i + 1] = e[1];
        path[4 * i + 2] = e[2];
        path[4 * i + 3] = e[3] | 0x80;
        proof {
            lemma_high_bit(e@[3]);
            assert(rng.drawn() == so_far.push(e@));
            assert(rng.drawn().take(base) =~= so_far.take(base));
            assert forall|k: int| 0 <= k < 4 * (i + 1) implies #[trigger] path@[k] == (if k % 4
                == 3 {
                rng.drawn()[base + k / 4][3] | 0x80
            } else {
                rng.drawn()[base + k / 4][k % 4]
            }) by {
                if k < 4 * i {
                    assert(path@[k] == before[k]);
                    assert(rng.drawn()[base + k / 4] == so_far[base + k / 4]);
                } else {
                    assert(rng.drawn()[base + k / 4] == e@);
                }
            }
            assert forall|x: int| 0 <= x < i + 1 implies #[trigger] path@[4 * x + 3] & 0x80
                != 0 by {
                if x < i {
                    assert(path@[4 * x + 3] == before[4 * x + 3]);
                }
            }
        }
        i += 1;
    }
    let r: ([u8; 64], [u8; 32]) = handle_of_path(seed, app_id, &path);
    proof {
        assert(r.0@.take(32) =~= path@);
        assert(path@ =~= path_of(rng.drawn().skip(base)));
        assert(r.0@.skip(32) =~= handle_tag_of(seed@, app_id@, path@));
        assert forall|x: int| 0 <= x < 8 implies #[trigger] r.0@[4 * x + 3] & 0x80 != 0 by {
            assert(r.0@[4 * x + 3] == path@[4 * x + 3]);
        }
    }
    r
}

/// Derives the scalar again from the path of a handle, if the tag binds the
/// handle to `app_id`.
pub fn verify_key(seed: &[u8; 32], app_id: &[u8; 32], key_handle: &[u8; 64]) -> (r: Option<
    [u8; 32],
>)
    ensures
        r is Some <==> handle_valid(seed@, app_id@, key_handle@),
        r matches Some(k) ==> k@ == path_scalar(seed@, key_handle@.take(32)),
{
    let mut i: usize = 0;
    while i < 8
        invariant
            i <= 8,
            forall|x: int| 0 <= x < i ==> #[trigger] key_handle@[4 * x + 3] & 0x80 != 0,
        decreases 8 - i,
    {
        if key_handle[4 * i + 3] & 0x80 == 0 {
            assert(!hardened(key_handle@)) by {
                assert(key_handle@[4 * i as int + 3] & 0x80 == 0);
            }
            return None;
        }
        i += 1;
    }
    let path: [u8; 32] = array32(slice_subrange(key_handle, 0, 32));
    assert(path@ =~= key_handle@.take(32));
    let mut scalar: [u8; 32] = ratchet_scalar32(seed, &path);
    let tag: [u8; 32] = handle_tag(&scalar, app_id, &path);
    let given: &[u8] = slice_subrange(key_handle, 32, 64);
    assert(given@ =~= key_handle@.skip(32));
    if same_bytes(&tag, given) {
        Some(scalar)
    } else {
        wipe(&mut scalar);
        None
    }
}

/// The raw key material of a credential id; nothing for an id shorter than a
/// path.
pub fn fido_load_key(seed: &[u8; 32], cred_id: &[u8]) -> (r: Option<[u8; 66]>)
    ensures
        r is Some <==> cred_id@.len() >= 32,
        r matches Some(k) ==> k@ == key_material(seed@, credential_path(cred_id@)),
{
    if cred_id.len() < 32 {
        return None;
    }
    let mut path: [u8; 32] = array32(slice_subrange(cred_id, 0, 32));
    path[0] = 0x26;
    path[1] = 0x27;
    path[2] = 0x00;
    path[3] = 0x80;
    let mut i: usize = 1;
    while i < 8
        invariant
            1 <= i <= 8,
            cred_id@.len() >= 32,
            forall|x: int|
                0 <= x < 32 ==> #[trigger] path@[x] == (if x < 4 * i {
                    credential_path(cred_id@)[x]
                } else {
                    cred_id@[x]
                }),
        decreases 8 - i,
    {
        path[4 * i + 3] = path[4 * i + 3] | 0x80;
        i += 1;
    }
    assert(path@ =~= credential_path(cred_id@));
    Some(ratchet(seed, &path))
}

/// A handle made for an application and a path is valid for it, and gives the
/// same scalar again.
pub proof fn law_derive_then_verify(seed: Seq<u8>, app_id: Seq<u8>, path: Seq<u8>)
    requires
        path.len() == 32,
        hardened(path),
    ensures
        handle_valid(seed, app_id, path + handle_tag_of(seed, app_id, path)),
        path_scalar(seed, (path + handle_tag_of(seed, app_id, path)).take(32)) == path_scalar(
            seed,
            path,
        ),
{
    let kh = path + handle_tag_of(seed, app_id, path);
    assert(kh.take(32) =~= path);
    assert(kh.skip(32) =~= handle_tag_of(seed, app_id, path));
    assert forall|x: int| 0 <= x < 8 implies #[trigger] kh[4 * x + 3] & 0x80 != 0 by {
        assert(kh[4 * x + 3] == path[4 * x + 3]);
    }
}

/// The first four bytes of a credential id, and whatever follows its first 32,
/// do not change the key.
pub proof fn law_key_ignores_first_entry(seed: Seq<u8>, a: Seq<u8>, b: Seq<u8>)
    requires
        a.len() >= 32,
        b.len() >= 32,
        forall|i: int| 4 <= i < 32 ==> a[i] == b[i],
    ensures
        key_material(seed, credential_path(a)) == key_material(seed, credential_path(b)),
{
    assert(credential_path(a) =~= credential_path(b));
}

/// The path of a credential is hardened, as that of a key handle.
pub proof fn law_credential_path_hardened(cred_id: Seq<u8>)
    requires
        cred_id.len() >= 32,
    ensures
        hardened(credential_path(cred_id)),
{
    assert forall|i: int| 0 <= i < 8 implies #[trigger] credential_path(cred_id)[4 * i + 3] & 0x80
        != 0 by {
        if i == 0 {
            assert(0x80u8 & 0x80 != 0) by (bit_vector);
        } else {
            lemma_high_bit(cred_id[4 * i + 3]);
        }
    }
}

/// The key material of a path comes from eight HKDF-SHA-512 steps, one for each
/// four bytes of the path, which are its salt. Each takes the first 32 bytes of
/// what was before as its input and the next 32 as its info; the first starts from
/// the seed and an info of zeros.
pub proof fn law_ratchet_steps(seed: Seq<u8>, path: Seq<u8>, i: nat)
    requires
        seed.len() == 32,
    ensures
        ratcheted(seed, path, 0).subrange(0, 32) == seed,
        ratcheted(seed, path, 0).subrange(32, 64) == Seq::new(32, |k: int| 0u8),
        ratcheted(seed, path, i + 1) == crypto::hkdf_sha512_of(
            path.subrange(4 * i as int, 4 * i as int + 4),
            ratcheted(seed, path, i).subrange(0, 32),
            ratcheted(seed, path, i).subrange(32, 64),
            66,
        ),
        key_material(seed, path) == ratcheted(seed, path, 8),
        path_scalar(seed, path) == ratcheted(seed, path, 8).take(32),
{
    assert(ratcheted(seed, path, 0).subrange(0, 32) =~= seed);
    assert(ratcheted(seed, path, 0).subrange(32, 64) =~= Seq::new(32, |k: int| 0u8));
}

/// The tag of a handle is an HMAC under the scalar of its path over the
/// application and the path, so that a handle is bound to both.
pub proof fn law_handle_tag(seed: Seq<u8>, app_id: Seq<u8>, handle: Seq<u8>)
    requires
        handle.len() == 64,
    ensures
        handle_valid(seed, app_id, handle) ==> handle.subrange(32, 64) == crypto::hmac_sha256_of(
            path_scalar(seed, handle.subrange(0, 32)),
            app_id + handle.subrange(0, 32),
        ),
        handle_valid(seed, app_id, handle) ==> forall|i: int|
            0 <= i < 8 ==> #[trigger] handle[4 * i + 3] & 0x80 != 0,
{
    assert(handle.subrange(0, 32) =~= handle.take(32));
    assert(handle.subrange(32, 64) =~= handle.skip(32));
}

/// The path of a credential is the front of its id with the first entry fixed and
/// the top bit of each entry set; every other bit of the entries behind the first
/// is that of the id.
pub proof fn law_credential_path(cred_id: Seq<u8>, i: int)
    requires
        cred_id.len() >= 32,
        0 <= i < 32,
    ensures
        credential_path(cred_id).len() == 32,
        credential_path(cred_id).subrange(0, 4) == seq![0x26u8, 0x27u8, 0x00u8, 0x80u8],
        i >= 4 ==> credential_path(cred_id)[i] & 0x7f == cred_id[i] & 0x7f,
        i >= 4 && i % 4 != 3 ==> credential_path(cred_id)[i] == cred_id[i],
{
    assert(credential_path(cred_id).subrange(0, 4) =~= seq![0x26u8, 0x27u8, 0x00u8, 0x80u8]);
    let b = cred_id[i];
    assert((b | 0x80) & 0x7f == b & 0x7f) by (bit_vector);
}

/// A drawn path keeps every bit that was drawn but the top bit of each entry.
pub proof fn law_drawn_path(draws: Seq<Seq<u8>>, k: int, j: int)
    requires
        0 <= k < 8,
        0 <= j < 4,
    ensures
        path_of(draws).len() == 32,
        path_of(draws)[4 * k + j] & 0x7f == draws[k][j] & 0x7f,
        j != 3 ==> path_of(draws)[4 * k + j] == draws[k][j],
        path_of(draws)[4 * k + 3] & 0x80 != 0,
{
    let b = draws[k][3];
    assert((b | 0x80) & 0x7f == b & 0x7f) by (bit_vector);
    lemma_high_bit(b);
    assert((4 * k + j) / 4 == k && (4 * k + j) % 4 == j);
    assert((4 * k + 3) / 4 == k && (4 * k + 3) % 4 == 3);
}

}
