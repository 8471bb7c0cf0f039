//! State that survives between commands within one power cycle. The ephemeral
//! ECDH key of the authenticator is held as its 32-byte scalar.

use vstd::prelude::*;

use crate::crypto;
use crate::crypto::p256_accepts;
use crate::fido::consts::MAX_LARGE_BLOB_SIZE;
use crate::fido::pinproto;
use crate::fido::pinproto::{public_xy, PinProto};
use crate::fido::{Drawn, Rng};
use crate::wipe::wipe;

verus! {

// pinUvAuthToken permission bits.
/// makeCredential
pub const PERM_MC: u8 = 0x01;
/// getAssertion
pub const PERM_GA: u8 = 0x02;
/// credentialManagement
pub const PERM_CM: u8 = 0x04;
/// bioEnrollment
pub const PERM_BE: u8 = 0x08;
/// largeBlobWrite
pub const PERM_LBW: u8 = 0x10;
/// authenticatorConfiguration
pub const PERM_ACFG: u8 = 0x20;
/// per-credential-management read-only
pub const PERM_PCMR: u8 = 0x40;

/// Max credentials tracked for `getNextAssertion`.
pub const MAX_ASSERTION_CREDS: usize = 16;

/// Longest encrypted salts: two salts and an initialisation vector.
pub const SALT_ENC_MAX: usize = 80;

/// Longest salt tag.
pub const SALT_AUTH_MAX: usize = 32;

/// `n` zero bytes.
pub open spec fn zeros(n: nat) -> Seq<u8> {
    Seq::new(n, |i: int| 0u8)
}

/// State carried between `getAssertion` and `getNextAssertion`.
pub struct AssertionState {
    pub active: bool,
    pub rp_id_hash: [u8; 32],
    pub client_data_hash: [u8; 32],
    pub uv: bool,
    /// The user-presence decision of the originating request.
    pub up: bool,
    /// Credential slots, newest first.
    pub slots: [u16; 16],
    pub total: u8,
    pub counter: u8,
    /// Uptime at the originating request.
    pub started_ms: u64,
    pub hmac_present: bool,
    pub hmac_proto: u64,
    pub hmac_peer_x: [u8; 32],
    pub hmac_peer_y: [u8; 32],
    pub hmac_salt_enc: [u8; 80],
    pub hmac_salt_enc_len: u8,
    pub hmac_salt_auth: [u8; 32],
    pub hmac_salt_auth_len: u8,
    pub ext_cred_blob: bool,
    pub ext_third_party_payment: bool,
}

impl AssertionState {
    /// No assertion is pending and nothing is carried over.
    pub open spec fn fresh(&self) -> bool {
        &&& !self.active
        &&& self.rp_id_hash@ == zeros(32)
        &&& self.client_data_hash@ == zeros(32)
        &&& !self.uv
        &&& self.up
        &&& self.slots@ == Seq::new(16, |i: int| 0u16)
        &&& self.total == 0
        &&& self.counter == 0
        &&& self.started_ms == 0
        &&& !self.hmac_present
        &&& self.hmac_proto == 1
        &&& self.hmac_peer_x@ == zeros(32)
        &&& self.hmac_peer_y@ == zeros(32)
        &&& self.hmac_salt_enc@ == zeros(80)
        &&& self.hmac_salt_enc_len == 0
        &&& self.hmac_salt_auth@ == zeros(32)
        &&& self.hmac_salt_auth_len == 0
        &&& !self.ext_cred_blob
        &&& !self.ext_third_party_payment
    }

    fn new() -> (s: Self)
        ensures
            s.fresh(),
    {
        let s = AssertionState {
            active: false,
            rp_id_hash: [0u8; 32],
            client_data_hash: [0u8; 32],
            uv: false,
            up: true,
            slots: [0u16; 16],
            total: 0,
            counter: 0,
            started_ms: 0,
            hmac_present: false,
            hmac_proto: 1,
            hmac_peer_x: [0u8; 32],
            hmac_peer_y: [0u8; 32],
            hmac_salt_enc: [0u8; 80],
            hmac_salt_enc_len: 0,
            hmac_salt_auth: [0u8; 32],
            hmac_salt_auth_len: 0,
            ext_cred_blob: false,
            ext_third_party_payment: false,
        };
        assert(s.rp_id_hash@ =~= zeros(32) && s.client_data_hash@ =~= zeros(32));
        assert(s.hmac_peer_x@ =~= zeros(32) && s.hmac_peer_y@ =~= zeros(32));
        assert(s.hmac_salt_enc@ =~= zeros(80) && s.hmac_salt_auth@ =~= zeros(32));
        assert(s.slots@ =~= Seq::new(16, |i: int| 0u16));
        s
    }

    /// Ends the walk: nothing is pending, and no extension input is carried
    /// over.
    pub fn reset(&mut self)
        ensures
            *final(self) == (AssertionState {
                active: false,
                total: 0,
                counter: 0,
                hmac_present: false,
                ext_cred_blob: false,
                ext_third_party_payment: false,
                ..*old(self)
            }),
    {
        self.active = false;
        self.total = 0;
        self.counter = 0;
        self.hmac_present = false;
        self.ext_cred_blob = false;
        self.ext_third_party_payment = false;
    }
}

/// State carried across `credentialManagement` enumerations.
pub struct CredMgmtState {
    pub rp_counter: u16,
    pub rp_total: u16,
    pub cred_counter: u16,
    pub cred_total: u16,
    pub rp_id_hash: [u8; 32],
    /// The slot to resume the relying-party sweep from.
    pub rp_next_slot: u16,
    /// The slot to resume the credential sweep from.
    pub cred_next_slot: u16,
    /// First four bytes of the rpIdHash of each credential slot.
    pub rp_index: [u32; 256],
    pub rp_index_gen: u32,
    pub rp_index_valid: bool,
}

impl CredMgmtState {
    /// No enumeration is under way.
    pub open spec fn fresh(&self) -> bool {
        &&& self.rp_counter == 1
        &&& self.rp_total == 0
        &&& self.cred_counter == 1
        &&& self.cred_total == 0
        &&& self.rp_id_hash@ == zeros(32)
        &&& self.rp_next_slot == 0
        &&& self.cred_next_slot == 0
        &&& self.rp_index@ == Seq::new(256, |i: int| 0u32)
        &&& self.rp_index_gen == 0
        &&& !self.rp_index_valid
    }

    fn new() -> (s: Self)
        ensures
            s.fresh(),
    {
        let s = CredMgmtState {
            rp_counter: 1,
            rp_total: 0,
            cred_counter: 1,
            cred_total: 0,
            rp_id_hash: [0u8; 32],
            rp_next_slot: 0,
            cred_next_slot: 0,
            rp_index: [0u32; 256],
            rp_index_gen: 0,
            rp_index_valid: false,
        };
        assert(s.rp_id_hash@ =~= zeros(32));
        assert(s.rp_index@ =~= Seq::new(256, |i: int| 0u32));
        s
    }
}

/// Multi-fragment `authenticatorLargeBlobs` write buffer.
pub struct LargeBlobState {
    pub expected_length: usize,
    pub expected_next_offset: usize,
    pub temp: [u8; 2048],
}

impl LargeBlobState {
    /// No write is under way.
    pub open spec fn fresh(&self) -> bool {
        &&& self.expected_length == 0
        &&& self.expected_next_offset == 0
        &&& self.temp@ == zeros(2048)
    }

    /// What was collected fits the announced array, and the array the buffer.
    pub open spec fn wf(&self) -> bool {
        &&& self.expected_next_offset <= self.expected_length
        &&& self.expected_length <= MAX_LARGE_BLOB_SIZE
        &&& self.expected_length == 0 || self.expected_length >= 17
    }

    fn new() -> (s: Self)
        ensures
            s.fresh(),
            s.wf(),
    {
        let s = LargeBlobState {
            expected_length: 0,
            expected_next_offset: 0,
            temp: [0u8; 2048],
        };
        assert(s.temp@ =~= zeros(2048));
        s
    }
}

/// The session pinUvAuthToken and its flags.
pub struct PinUvAuthToken {
    pub token: [u8; 32],
    pub in_use: bool,
    pub permissions: u8,
    pub rp_id_hash: [u8; 32],
    pub has_rp_id: bool,
    pub user_present: bool,
    pub user_verified: bool,
}

impl PinUvAuthToken {
    /// The token carries no permission and no flag.
    pub open spec fn idle(&self) -> bool {
        &&& !self.in_use
        &&& self.permissions == 0
        &&& self.rp_id_hash@ == zeros(32)
        &&& !self.has_rp_id
        &&& !self.user_present
        &&& !self.user_verified
    }

    fn new() -> (s: Self)
        ensures
            s.idle(),
            s.token@ == zeros(32),
    {
        let s = PinUvAuthToken {
            token: [0u8; 32],
            in_use: false,
            permissions: 0,
            rp_id_hash: [0u8; 32],
            has_rp_id: false,
            user_present: false,
            user_verified: false,
        };
        assert(s.token@ =~= zeros(32) && s.rp_id_hash@ =~= zeros(32));
        s
    }
}

/// All state that must survive between commands within one power cycle.
pub struct FidoState {
    /// The scalar of the ephemeral key.
    pub ephemeral: [u8; 32],
    /// The ephemeral key has been drawn.
    pub ephemeral_set: bool,
    pub paut: PinUvAuthToken,
    /// The persistent token, in RAM only.
    pub ppaut_token: [u8; 32],
    pub ppaut_permissions: u8,
    pub needs_power_cycle: bool,
    pub new_pin_mismatches: u8,
    /// `getNextAssertion` carry-over.
    pub gna: AssertionState,
    /// `credentialManagement` enumerate carry-over.
    pub cm: CredMgmtState,
    /// `authenticatorLargeBlobs` write buffer.
    pub lba: LargeBlobState,
    /// A seed-backup channel is established.
    pub mse_active: bool,
    /// The key of the channel.
    pub mse_key: [u8; 32],
    /// The public key of the device in the channel.
    pub mse_pub: [u8; 65],
    /// The soft-locked seed, decrypted for this power cycle.
    pub keydev_dec: Option<[u8; 32]>,
    /// The fused attestation root. It is no session state.
    pub devk: Option<[u8; 32]>,
    /// This power cycle's boot entry is in the journal.
    pub audit_boot_logged: bool,
}

/// The secrets are overwritten when the state goes out of scope.
impl Drop for FidoState {
    fn drop(&mut self)
        opens_invariants none
        no_unwind
    {
        self.wipe_secrets();
    }
}

impl Default for FidoState {
    fn default() -> (s: Self)
        ensures
            s.fresh(),
            s.devk is None,
            !s.audit_boot_logged,
    {
        FidoState::new()
    }
}

impl FidoState {
    /// Nothing of a session is held.
    pub open spec fn fresh(&self) -> bool {
        &&& self.ephemeral@ == zeros(32)
        &&& !self.ephemeral_set
        &&& self.paut.idle()
        &&& self.paut.token@ == zeros(32)
        &&& self.ppaut_token@ == zeros(32)
        &&& self.ppaut_permissions == 0
        &&& !self.needs_power_cycle
        &&& self.new_pin_mismatches == 0
        &&& self.gna.fresh()
        &&& self.cm.fresh()
        &&& self.lba.fresh()
        &&& !self.mse_active
        &&& self.mse_key@ == zeros(32)
        &&& self.mse_pub@ == zeros(65)
        &&& self.keydev_dec is None
    }

    /// A fresh state of an unprovisioned device.
    pub fn new() -> (s: Self)
        ensures
            s.fresh(),
            s.devk is None,
            !s.audit_boot_logged,
    {
        let s = FidoState {
            ephemeral: [0u8; 32],
            ephemeral_set: false,
            paut: PinUvAuthToken::new(),
            ppaut_token: [0u8; 32],
            ppaut_permissions: 0,
            needs_power_cycle: false,
            new_pin_mismatches: 0,
            gna: AssertionState::new(),
            cm: CredMgmtState::new(),
            lba: LargeBlobState::new(),
            mse_active: false,
            mse_key: [0u8; 32],
            mse_pub: [0u8; 65],
            keydev_dec: None,
            devk: None,
            audit_boot_logged: false,
        };
        assert(s.ephemeral@ =~= zeros(32) && s.ppaut_token@ =~= zeros(32));
        assert(s.mse_key@ =~= zeros(32) && s.mse_pub@ =~= zeros(65));
        s
    }

    /// Drops the unlocked seed copy, wiping it first.
    pub fn clear_keydev_dec(&mut self)
        ensures
            final(self).keydev_dec is None,
            *final(self) == (FidoState { keydev_dec: None, ..*old(self) }),
        opens_invariants none
        no_unwind
    {
        match &mut self.keydev_dec {
            Some(k) => wipe(k),
            None => {},
        }
        self.keydev_dec = None;
    }

    /// Overwrites the secrets that the state holds.
    pub fn wipe_secrets(&mut self)
        ensures
            final(self).ephemeral@ == zeros(32),
            final(self).paut.token@ == zeros(32),
            final(self).ppaut_token@ == zeros(32),
            final(self).mse_key@ == zeros(32),
            final(self).keydev_dec is None,
            final(self).devk is None,
            *final(self) == (FidoState {
                ephemeral: final(self).ephemeral,
                paut: PinUvAuthToken { token: final(self).paut.token, ..old(self).paut },
                ppaut_token: final(self).ppaut_token,
                mse_key: final(self).mse_key,
                keydev_dec: None,
                devk: None,
                ..*old(self)
            }),
        opens_invariants none
        no_unwind
    {
        wipe(&mut self.ephemeral);
        wipe(&mut self.paut.token);
        wipe(&mut self.ppaut_token);
        wipe(&mut self.mse_key);
        self.clear_keydev_dec();
        match &mut self.devk {
            Some(k) => wipe(k),
            None => {},
        }
        self.devk = None;
        assert(self.ephemeral@ =~= zeros(32) && self.paut.token@ =~= zeros(32));
        assert(self.ppaut_token@ =~= zeros(32) && self.mse_key@ =~= zeros(32));
    }

    /// Clears all session state. The attestation root and the boot-entry flag
    /// are facts of the device and of the power cycle: they carry across.
    pub fn reset(&mut self)
        ensures
            final(self).fresh(),
            final(self).devk == old(self).devk,
            final(self).audit_boot_logged == old(self).audit_boot_logged,
    {
        let devk: Option<[u8; 32]> = self.devk;
        let logged: bool = self.audit_boot_logged;
        self.wipe_secrets();
        *self = FidoState::new();
        self.devk = devk;
        self.audit_boot_logged = logged;
    }

    /// On the first use, draws the ephemeral key and a fresh token. An
    /// initialized state is left alone. Nothing is initialized where the
    /// random source gave no usable scalar.
    pub fn ensure_initialized<R: Rng>(&mut self, rng: &mut Drawn<R>)
        ensures
            old(self).ephemeral_set ==> *final(self) == *old(self) && final(rng).drawn() == old(
                rng,
            ).drawn(),
            !final(self).ephemeral_set ==> *final(self) == *old(self) && drew_scalar(
                old(rng).drawn(),
                final(rng).drawn(),
                None,
            ),
            final(self).ephemeral_set && !old(self).ephemeral_set ==> {
                &&& drew_scalar(
                    old(rng).drawn(),
                    final(rng).drawn().drop_last(),
                    Some(final(self).ephemeral@),
                )
                &&& final(rng).drawn().len() > old(rng).drawn().len() + 1
                &&& final(rng).drawn().last() == final(self).paut.token@
                &&& crypto::p256_scalar(final(self).ephemeral@)
                &&& final(self).paut.idle()
                &&& *final(self) == (FidoState {
                    ephemeral: final(self).ephemeral,
                    ephemeral_set: true,
                    paut: final(self).paut,
                    ..*old(self)
                })
            },
    {
        if !self.ephemeral_set {
            if self.regenerate(rng) {
                let ghost scalars = rng.drawn();
                self.reset_pin_uv_auth_token(rng);
                assert(rng.drawn().drop_last() =~= scalars);
            }
        }
    }

    /// Draws a new ephemeral scalar, again until one is in range; false where
    /// the random source gave none in 2^64 - 1 draws.
    pub fn regenerate<R: Rng>(&mut self, rng: &mut Drawn<R>) -> (drawn: bool)
        ensures
            drawn ==> final(self).ephemeral_set && crypto::p256_scalar(final(self).ephemeral@),
            drawn ==> *final(self) == (FidoState {
                ephemeral: final(self).ephemeral,
                ephemeral_set: true,
                ..*old(self)
            }),
            !drawn ==> *final(self) == *old(self),
            drew_scalar(
                old(rng).drawn(),
                final(rng).drawn(),
                if drawn {
                    Some(final(self).ephemeral@)
                } else {
                    None
                },
            ),
    {
        match fresh_scalar(rng) {
            Some(k) => {
                self.ephemeral = k;
                self.ephemeral_set = true;
                true
            },
            None => false,
        }
    }

    /// The scalar of the ephemeral key.
    pub fn ephemeral_scalar(&self) -> (k: &[u8; 32])
        ensures
            k@ == self.ephemeral@,
    {
        &self.ephemeral
    }

    /// The public half of the ephemeral key.
    pub fn ephemeral_public(&self) -> (r: Option<([u8; 32], [u8; 32])>)
        ensures
            r is Some <==> crypto::p256_scalar(self.ephemeral@),
            r matches Some(p) ==> (p.0@, p.1@) == crypto::p256_public_of(self.ephemeral@),
    {
        public_xy(&self.ephemeral)
    }

    /// Draws a new token without permissions or flags.
    pub fn reset_pin_uv_auth_token<R: Rng>(&mut self, rng: &mut Drawn<R>)
        ensures
            final(self).paut.idle(),
            *final(self) == (FidoState { paut: final(self).paut, ..*old(self) }),
            final(rng).drawn() == old(rng).drawn().push(final(self).paut.token@),
    {
        rng.fill(&mut self.paut.token);
        self.paut.permissions = 0;
        self.paut.in_use = false;
        self.paut.has_rp_id = false;
        self.paut.rp_id_hash = [0u8; 32];
        self.paut.user_present = false;
        self.paut.user_verified = false;
        assert(self.paut.rp_id_hash@ =~= zeros(32));
    }

    /// Draws a new persistent token without permissions.
    pub fn reset_persistent_token<R: Rng>(&mut self, rng: &mut Drawn<R>)
        ensures
            final(self).ppaut_permissions == 0,
            *final(self) == (FidoState {
                ppaut_token: final(self).ppaut_token,
                ppaut_permissions: 0,
                ..*old(self)
            }),
            final(rng).drawn() == old(rng).drawn().push(final(self).ppaut_token@),
    {
        rng.fill(&mut self.ppaut_token);
        self.ppaut_permissions = 0;
    }

    /// Puts the token to use for a verified user.
    pub fn begin_using_token(&mut self, user_is_present: bool)
        ensures
            *final(self) == (FidoState {
                paut: PinUvAuthToken {
                    user_present: user_is_present,
                    user_verified: true,
                    in_use: true,
                    ..old(self).paut
                },
                ..*old(self)
            }),
    {
        self.paut.user_present = user_is_present;
        self.paut.user_verified = true;
        self.paut.in_use = true;
    }

    /// Whether the user is verified; no unless a token is in use.
    pub fn user_verified(&self) -> (r: bool)
        ensures
            r == (self.paut.in_use && self.paut.user_verified),
    {
        self.paut.in_use && self.paut.user_verified
    }

    /// Whether the user is present; no unless a token is in use.
    pub fn user_present(&self) -> (r: bool)
        ensures
            r == (self.paut.in_use && self.paut.user_present),
    {
        self.paut.in_use && self.paut.user_present
    }

    /// Whether `param` authenticates `data` under the current token.
    pub fn verify_token(&self, proto: PinProto, data: &[u8], param: &[u8]) -> (r: bool)
        ensures
            r == (param@ == pinproto::mac(proto, self.paut.token@, data@)),
    {
        pinproto::verify(proto, &self.paut.token, data, param)
    }
}

/// Draws of 32 bytes were made until one is a P-256 private key, which is the
/// result; without a result, all of 2^64 - 1 draws were no key.
pub open spec fn drew_scalar(
    before: Seq<Seq<u8>>,
    after: Seq<Seq<u8>>,
    r: Option<Seq<u8>>,
) -> bool {
    &&& before.len() <= after.len()
    &&& after.take(before.len() as int) == before
    &&& forall|i: int|
        before.len() <= i < after.len() ==> (#[trigger] after[i]).len() == 32 && (
        crypto::p256_scalar(after[i]) <==> r is Some && i == after.len() - 1)
    &&& match r {
        Some(k) => before.len() < after.len() && k == after.last(),
        None => after.len() - before.len() == u64::MAX,
    }
}

/// Draws scalars until one is a P-256 private key; nothing where the random
/// source gave none in 2^64 - 1 draws.
pub fn fresh_scalar<R: Rng>(rng: &mut Drawn<R>) -> (r: Option<[u8; 32]>)
    ensures
        r matches Some(k) ==> crypto::p256_scalar(k@),
        drew_scalar(old(rng).drawn(), final(rng).drawn(), crypto::seen(r)),
{
    let ghost before = rng.drawn();
    assert(before.take(before.len() as int) =~= before);
    let mut left: u64 = u64::MAX;
    while left > 0
        invariant
            before == old(rng).drawn(),
            rng.drawn().len() == before.len() + (u64::MAX - left),
            rng.drawn().take(before.len() as int) == before,
            forall|i: int|
                before.len() <= i < rng.drawn().len() ==> (#[trigger] rng.drawn()[i]).len() == 32
                    && !crypto::p256_scalar(rng.drawn()[i]),
        decreases left,
    {
        let ghost so_far = rng.drawn();
        let mut k = [0u8; 32];
        rng.fill(&mut k);
        assert(rng.drawn() == so_far.push(k@));
        assert(rng.drawn().take(before.len() as int) =~= so_far.take(before.len() as int));
        if p256_accepts(&k) {
            return Some(k);
        }
        left -= 1;
    }
    None
}

/// The message that a pinUvAuthParam authenticates: 32 bytes 0xff, command,
/// subcommand, parameters.
pub open spec fn puat_msg(cmd: u8, subcommand: u8, params: Seq<u8>) -> Seq<u8> {
    Seq::new(32, |i: int| 0xffu8) + seq![cmd, subcommand] + params
}

/// Builds the message that a pinUvAuthParam authenticates.
pub(crate) fn puat_subcommand_msg(cmd: u8, subcommand: u8, params: &[u8]) -> (msg: Vec<u8>)
    ensures
        msg@ == puat_msg(cmd, subcommand, params@),
{
    let mut msg: Vec<u8> = vec![0xffu8; 32];
    msg.push(cmd);
    msg.push(subcommand);
    msg.extend_from_slice(params);
    assert(msg@ =~= puat_msg(cmd, subcommand, params@));
    msg
}

/// A search for a key ends at the first draw that is one: every draw has 32 bytes,
/// none before the last is a key, and the last is the result.
pub proof fn law_drawn_key(before: Seq<Seq<u8>>, after: Seq<Seq<u8>>, k: Seq<u8>, i: int)
    requires
        drew_scalar(before, after, Some(k)),
        before.len() <= i < after.len(),
    ensures
        after.len() > before.len(),
        k == after[after.len() - 1],
        crypto::p256_scalar(k),
        after[i].len() == 32,
        i < after.len() - 1 ==> !crypto::p256_scalar(after[i]),
        after.subrange(0, before.len() as int) == before,
{
    assert(after[i].len() == 32);
    assert(crypto::p256_scalar(after[after.len() - 1]));
    assert(after.subrange(0, before.len() as int) =~= after.take(before.len() as int));
}

/// A fresh session holds no token with a permission, no channel, no unlocked seed,
/// no pending assertion and no part of a large-blob array.
pub proof fn law_fresh_session(s: FidoState)
    requires
        s.fresh(),
    ensures
        s.paut.permissions == 0,
        !s.paut.in_use && !s.paut.user_verified && !s.paut.user_present && !s.paut.has_rp_id,
        s.paut.token@ == Seq::new(32, |i: int| 0u8),
        s.ppaut_permissions == 0,
        !s.mse_active,
        s.mse_key@ == Seq::new(32, |i: int| 0u8),
        s.keydev_dec is None,
        !s.ephemeral_set,
        !s.gna.active,
        s.lba.expected_length == 0 && s.lba.expected_next_offset == 0,
{
}

/// What authenticates a command: 32 bytes 0xff, the command, the subcommand and
/// the parameters, from which all three can be told.
pub proof fn law_authenticated_message(
    cmd: u8,
    sub: u8,
    params: Seq<u8>,
    cmd2: u8,
    sub2: u8,
    params2: Seq<u8>,
)
    ensures
        puat_msg(cmd, sub, params).take(32) == Seq::new(32, |i: int| 0xffu8),
        puat_msg(cmd, sub, params)[32] == cmd,
        puat_msg(cmd, sub, params)[33] == sub,
        puat_msg(cmd, sub, params).skip(34) == params,
        puat_msg(cmd, sub, params) == puat_msg(cmd2, sub2, params2) ==> cmd == cmd2 && sub == sub2
            && params == params2,
{
    let a = puat_msg(cmd, sub, params);
    let b = puat_msg(cmd2, sub2, params2);
    assert(a.take(32) =~= Seq::new(32, |i: int| 0xffu8));
    assert(a.skip(34) =~= params);
    assert(b.skip(34) =~= params2);
    assert(b[32] == cmd2 && b[33] == sub2);
}

}
