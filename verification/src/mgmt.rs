//! Management applet: reports device capabilities, serial and firmware version,
//! which host tools read first to identify the key. READ CONFIG returns the
//! device-info TLV, WRITE CONFIG persists the part of it that a host may set.

use vstd::prelude::*;
use vstd::slice::slice_subrange;

use crate::crypto;
use crate::fs::{Fs, Storage};
use crate::sdk;
use crate::sdk::{Apdu, Confirm, Sw};

verus! {

/// Reported firmware version: major.
pub const VERSION_MAJOR: u8 = 5;

/// Reported firmware version: minor.
pub const VERSION_MINOR: u8 = 7;

/// Reported firmware version: patch.
pub const VERSION_PATCH: u8 = 4;

/// The capabilities that exist: FIDO2 (0x200), U2F (0x02), OpenPGP (0x08),
/// OATH (0x20), OTP (0x01) and PIV (0x10).
pub const SUPPORTED_CAPS: u16 = 0x23B;

pub const TAG_USB_SUPPORTED: u8 = 0x01;

pub const TAG_SERIAL: u8 = 0x02;

pub const TAG_USB_ENABLED: u8 = 0x03;

pub const TAG_FORM_FACTOR: u8 = 0x04;

pub const TAG_VERSION: u8 = 0x05;

pub const TAG_DEVICE_FLAGS: u8 = 0x08;

pub const TAG_CONFIG_LOCK: u8 = 0x0A;

pub const FLAG_EJECT: u8 = 0x80;

pub const FORM_FACTOR_USB_A_KEYCHAIN: u8 = 0x01;

pub const INS_WRITE_CONFIG: u8 = 0x1C;

pub const INS_READ_CONFIG: u8 = 0x1D;

pub const INS_RESET: u8 = 0x1E;

/// EF holding the persisted enabled-applications TLV, outside both reset
/// scopes, so the capability config is sticky.
pub const EF_DEV_CONF: u16 = 0x1122;

/// Bytes of `EF_DEV_CONF` that READ CONFIG can echo. WRITE CONFIG refuses to
/// persist more.
pub const EF_DEV_CONF_MAX: usize = 64;

/// Outcome of a user-presence request for a privileged operation.
#[derive(Debug, Clone, Copy, PartialEq, Eq, Structural)]
pub enum Presence {
    Confirmed,
    Timeout,
    Declined,
}

/// Physical user presence, gating WRITE CONFIG against a hostile USB host.
pub trait UserPresence {
    /// Asks for a touch, showing `confirm`.
    fn request(&mut self, confirm: Confirm<'_>) -> Presence;
}

/// A [`UserPresence`] that confirms instantly.
pub struct AlwaysConfirm;

impl UserPresence for AlwaysConfirm {
    fn request(&mut self, _confirm: Confirm<'_>) -> (p: Presence)
        ensures
            p == Presence::Confirmed,
    {
        Presence::Confirmed
    }
}

/// The first four bytes of the chip id with the top six bits cleared: the
/// eight-digit serial.
pub open spec fn serial_of(id: Seq<u8>) -> Seq<u8> {
    seq![id[0] & 0x03, id[1], id[2], id[3]]
}

/// The first four bytes of the chip id with the top six bits cleared: the
/// eight-digit serial.
pub fn serial4(serial_id: [u8; 8]) -> (s: [u8; 4])
    ensures
        s@ == serial_of(serial_id@),
{
    let s: [u8; 4] = [serial_id[0] & 0x03, serial_id[1], serial_id[2], serial_id[3]];
    assert(s@ =~= serial_of(serial_id@));
    s
}

/// A `tag, len, value` TLV.
pub open spec fn tlv(tag: u8, val: Seq<u8>) -> Seq<u8> {
    seq![tag, val.len() as u8] + val
}

/// The supported capabilities as two bytes, high byte first.
pub open spec fn caps_bytes() -> Seq<u8> {
    seq![(SUPPORTED_CAPS / 256) as u8, (SUPPORTED_CAPS % 256) as u8]
}

/// The part of the device info that no host can change.
pub open spec fn info_head(serial: Seq<u8>) -> Seq<u8> {
    tlv(TAG_USB_SUPPORTED, caps_bytes()) + tlv(TAG_SERIAL, serial) + tlv(
        TAG_FORM_FACTOR,
        seq![FORM_FACTOR_USB_A_KEYCHAIN],
    ) + tlv(TAG_VERSION, seq![VERSION_MAJOR, VERSION_MINOR, VERSION_PATCH])
}

/// The part that a host may set: what is stored, cut to what a read can echo,
/// or the defaults (all enabled, removable, unlocked).
pub open spec fn info_tail(stored: Option<Seq<u8>>) -> Seq<u8> {
    match stored {
        Some(blob) => if blob.len() == 0 {
            default_tail()
        } else if blob.len() <= 64 {
            blob
        } else {
            blob.take(64)
        },
        None => default_tail(),
    }
}

pub open spec fn default_tail() -> Seq<u8> {
    tlv(TAG_USB_ENABLED, caps_bytes()) + tlv(TAG_DEVICE_FLAGS, seq![FLAG_EJECT]) + tlv(
        TAG_CONFIG_LOCK,
        seq![0u8],
    )
}

/// The answer to READ CONFIG: a leading overall-length byte, the fixed part and
/// the part that a host may set.
pub open spec fn device_info(serial: Seq<u8>, stored: Option<Seq<u8>>) -> Seq<u8> {
    let body = info_head(serial) + info_tail(stored);
    seq![body.len() as u8] + body
}

/// What the file system holds at `EF_DEV_CONF`.
pub open spec fn stored_conf(c: Map<u16, Seq<u8>>) -> Option<Seq<u8>> {
    if c.contains_key(EF_DEV_CONF) {
        Some(c[EF_DEV_CONF])
    } else {
        None
    }
}

/// Appends a `tag, len, value` TLV.
fn push_tlv(buf: &mut Vec<u8>, tag: u8, val: &[u8])
    requires
        val@.len() <= 255,
    ensures
        final(buf)@ == old(buf)@ + tlv(tag, val@),
{
    buf.push(tag);
    buf.push(val.len() as u8);
    buf.extend_from_slice(val);
    assert(buf@ =~= old(buf)@ + tlv(tag, val@));
}

/// Appends the READ CONFIG answer to `res`. The OTP interface serves the same
/// TLV.
pub fn config_tlv<S: Storage>(serial: &[u8; 4], fs: &mut Fs<S>, res: &mut Vec<u8>) -> (sw: Sw)
    requires
        old(fs).wf(),
    ensures
        sw == Sw::OK,
        final(fs).wf(),
        final(fs).only_cached(old(fs), EF_DEV_CONF),
        final(res)@ == old(res)@ + device_info(serial@, stored_conf(old(fs).contents())),
{
    let mut buf: Vec<u8> = Vec::new();
    let caps: [u8; 2] = [(SUPPORTED_CAPS / 256) as u8, (SUPPORTED_CAPS % 256) as u8];
    assert(caps@ =~= caps_bytes());
    push_tlv(&mut buf, TAG_USB_SUPPORTED, caps.as_slice());
    push_tlv(&mut buf, TAG_SERIAL, serial.as_slice());
    let form: [u8; 1] = [FORM_FACTOR_USB_A_KEYCHAIN];
    assert(form@ =~= seq![FORM_FACTOR_USB_A_KEYCHAIN]);
    push_tlv(&mut buf, TAG_FORM_FACTOR, form.as_slice());
    let version: [u8; 3] = [VERSION_MAJOR, VERSION_MINOR, VERSION_PATCH];
    assert(version@ =~= seq![VERSION_MAJOR, VERSION_MINOR, VERSION_PATCH]);
    push_tlv(&mut buf, TAG_VERSION, version.as_slice());
    assert(buf@ =~= info_head(serial@));
    let mut conf = [0u8; EF_DEV_CONF_MAX];
    let stored: usize = match fs.read(EF_DEV_CONF, &mut conf) {
        Some(full) => full,
        None => 0,
    };
    let ghost tail = info_tail(stored_conf(old(fs).contents()));
    if stored > 0 {
        let len: usize = if stored < EF_DEV_CONF_MAX {
            stored
        } else {
            EF_DEV_CONF_MAX
        };
        let part = slice_subrange(conf.as_slice(), 0, len);
        assert(part@ =~= tail);
        buf.extend_from_slice(part);
    } else {
        push_tlv(&mut buf, TAG_USB_ENABLED, caps.as_slice());
        let flags: [u8; 1] = [FLAG_EJECT];
        assert(flags@ =~= seq![FLAG_EJECT]);
        push_tlv(&mut buf, TAG_DEVICE_FLAGS, flags.as_slice());
        let lock: [u8; 1] = [0u8];
        assert(lock@ =~= seq![0u8]);
        push_tlv(&mut buf, TAG_CONFIG_LOCK, lock.as_slice());
    }
    assert(buf@ =~= info_head(serial@) + tail);
    res.push(buf.len() as u8);
    res.extend_from_slice(&buf);
    assert(res@ =~= old(res)@ + device_info(serial@, stored_conf(old(fs).contents())));
    Sw::OK
}

/// Failure to persist a device-config blob.
#[derive(Debug, Clone, Copy, PartialEq, Eq, Structural)]
pub enum DevConfError {
    /// Over `EF_DEV_CONF_MAX`.
    TooLong,
    /// The flash write failed.
    Store,
}

/// Checks and persists the device-config TLV. `blob` is without any transport
/// length prefix; the caller applies its own gate before this.
pub fn persist_dev_conf<S: Storage>(fs: &mut Fs<S>, blob: &[u8]) -> (r: Result<(), DevConfError>)
    requires
        old(fs).wf(),
    ensures
        final(fs).wf(),
        final(fs).reliable() == old(fs).reliable(),
        blob@.len() > 64 <==> r == Err::<(), DevConfError>(DevConfError::TooLong),
        blob@.len() <= 64 && old(fs).reliable() && (old(fs).dynamic().contains(EF_DEV_CONF) || old(
            fs,
        ).dynamic().len() < 1280) ==> r is Ok,
        r is Ok ==> final(fs).contents() == old(fs).contents().insert(EF_DEV_CONF, blob@),
        r is Err ==> final(fs).contents() == old(fs).contents(),
{
    if blob.len() > EF_DEV_CONF_MAX {
        return Err(DevConfError::TooLong);
    }
    match fs.put(EF_DEV_CONF, blob) {
        Ok(()) => Ok(()),
        Err(_) => Err(DevConfError::Store),
    }
}

/// The data of a WRITE CONFIG: a byte with the length of the rest, then at most
/// 64 bytes.
pub open spec fn write_config_wellformed(data: Seq<u8>) -> bool {
    data.len() > 0 && data[0] == data.len() - 1 && data.len() - 1 <= 64
}

/// The decimal digits of `v` in ASCII, without leading zeros.
pub open spec fn decimal(v: u8) -> Seq<u8> {
    if v >= 100 {
        seq![(48 + v / 100) as u8, (48 + (v / 10) % 10) as u8, (48 + v % 10) as u8]
    } else if v >= 10 {
        seq![(48 + v / 10) as u8, (48 + v % 10) as u8]
    } else {
        seq![(48 + v) as u8]
    }
}

/// Appends a `u8` as one to three ASCII decimal digits.
pub fn push_dec(res: &mut Vec<u8>, v: u8)
    ensures
        final(res)@ == old(res)@ + decimal(v),
{
    if v >= 100 {
        res.push(48 + v / 100);
    }
    if v >= 10 {
        res.push(48 + (v / 10) % 10);
    }
    res.push(48 + v % 10);
    assert(res@ =~= old(res)@ + decimal(v));
}

/// The rest of WRITE CONFIG once the operator has answered: persists the blob
/// behind the length byte if they confirmed.
pub fn finish_write_config<S: Storage>(apdu: &Apdu, presence: Presence, fs: &mut Fs<S>) -> (sw: Sw)
    requires
        old(fs).wf(),
        write_config_wellformed(apdu.data@),
    ensures
        final(fs).wf(),
        final(fs).reliable() == old(fs).reliable(),
        config_written(old(fs), final(fs), apdu.data@, presence, sw),
{
    if presence != Presence::Confirmed {
        return Sw::CONDITIONS_NOT_SATISFIED;
    }
    let blob = slice_subrange(&apdu.data, 1, apdu.data.len());
    assert(blob@ =~= apdu.data@.skip(1));
    match persist_dev_conf(fs, blob) {
        Ok(()) => Sw::OK,
        Err(DevConfError::TooLong) => Sw::INCORRECT_PARAMS,
        Err(DevConfError::Store) => Sw::MEMORY_FAILURE,
    }
}

/// The management applet.
pub struct ManagementApplet<P: UserPresence> {
    serial: [u8; 4],
    presence: P,
    touches: Ghost<Seq<(sdk::Prompt, Presence)>>,
}

/// The prompt of WRITE CONFIG.
pub open spec fn write_prompt() -> sdk::Prompt {
    sdk::action("Write device config?"@, ""@)
}

/// What WRITE CONFIG does once the operator was asked: refused unless they
/// confirmed; otherwise the blob behind the length byte is persisted, where the
/// backend takes it.
pub open spec fn config_written<S: Storage>(
    before: &Fs<S>,
    after: &Fs<S>,
    data: Seq<u8>,
    p: Presence,
    sw: Sw,
) -> bool {
    &&& p != Presence::Confirmed <==> sw == Sw::CONDITIONS_NOT_SATISFIED
    &&& sw == Sw::OK || sw == Sw::CONDITIONS_NOT_SATISFIED || sw == Sw::MEMORY_FAILURE
    &&& sw == Sw::OK ==> after.contents() == before.contents().insert(EF_DEV_CONF, data.skip(1))
    &&& sw != Sw::OK ==> after.contents() == before.contents()
    &&& p == Presence::Confirmed && before.reliable() && (before.dynamic().contains(EF_DEV_CONF)
        || before.dynamic().len() < 1280) ==> sw == Sw::OK
}

impl<P: UserPresence> ManagementApplet<P> {
    /// The reported serial.
    pub closed spec fn serial(&self) -> Seq<u8> {
        self.serial@
    }

    /// What the operator was asked so far, in order, with the outcomes.
    pub closed spec fn touches(&self) -> Seq<(sdk::Prompt, Presence)> {
        self.touches@
    }

    /// `serial_id` is the device chip id; its first four bytes form the serial.
    pub fn new(serial_id: [u8; 8], presence: P) -> (a: Self)
        ensures
            a.serial() == serial_of(serial_id@),
            a.touches() == Seq::<(sdk::Prompt, Presence)>::empty(),
    {
        ManagementApplet { serial: serial4(serial_id), presence, touches: Ghost(Seq::empty()) }
    }

    /// The applet's AID.
    pub fn aid(&self) -> (a: [u8; 8])
        ensures
            a@ == seq![0xA0u8, 0, 0, 0x05, 0x27, 0x47, 0x11, 0x17],
    {
        let a: [u8; 8] = [0xA0, 0, 0, 0x05, 0x27, 0x47, 0x11, 0x17];
        assert(a@ =~= seq![0xA0u8, 0, 0, 0x05, 0x27, 0x47, 0x11, 0x17]);
        a
    }

    /// Serves READ CONFIG to a transport other than CCID, with the same answer.
    pub fn read_config<S: Storage>(&self, fs: &mut Fs<S>, res: &mut Vec<u8>) -> (sw: Sw)
        requires
            old(fs).wf(),
        ensures
            sw == Sw::OK,
            final(fs).wf(),
            final(fs).only_cached(old(fs), EF_DEV_CONF),
            final(res)@ == old(res)@ + device_info(
                self.serial(),
                stored_conf(old(fs).contents()),
            ),
    {
        config_tlv(&self.serial, fs, res)
    }

    /// The outcome of WRITE CONFIG: a malformed request is refused before anyone
    /// is asked; otherwise the operator decides.
    pub open spec fn write_outcome<S: Storage>(
        &self,
        after: &Self,
        fs_before: &Fs<S>,
        fs_after: &Fs<S>,
        data: Seq<u8>,
        sw: Sw,
    ) -> bool {
        if !write_config_wellformed(data) {
            &&& sw == Sw::INCORRECT_PARAMS
            &&& after.touches() == self.touches()
            &&& fs_after.contents() == fs_before.contents()
        } else {
            let p = after.touches().last().1;
            &&& after.touches() == self.touches().push((write_prompt(), p))
            &&& config_written(fs_before, fs_after, data, p, sw)
        }
    }

    /// WRITE CONFIG: the first data byte is the length of the rest, which is
    /// persisted once the operator confirmed. There is no config-lock code to
    /// enforce, so presence is the authentication.
    fn write_config<S: Storage>(&mut self, apdu: &Apdu, fs: &mut Fs<S>) -> (sw: Sw)
        requires
            old(fs).wf(),
        ensures
            final(fs).wf(),
            final(self).serial() == old(self).serial(),
            old(self).write_outcome(final(self), old(fs), final(fs), apdu.data@, sw),
    {
        let nc: usize = apdu.data.len();
        if nc == 0 || apdu.data[0] as usize != nc - 1 {
            return Sw::INCORRECT_PARAMS;
        }
        if nc - 1 > EF_DEV_CONF_MAX {
            return Sw::INCORRECT_PARAMS;
        }
        let presence = self.presence.request(Confirm::titled("Write device config?"));
        self.touches = Ghost(self.touches@.push((write_prompt(), presence)));
        finish_write_config(apdu, presence, fs)
    }

    /// SELECT returns the firmware version as an ASCII string.
    pub fn select(&mut self, res: &mut Vec<u8>) -> (sw: Sw)
        ensures
            sw == Sw::OK,
            final(self).serial() == old(self).serial(),
            final(self).touches() == old(self).touches(),
            final(res)@ == old(res)@ + decimal(VERSION_MAJOR) + seq![0x2Eu8] + decimal(
                VERSION_MINOR,
            ) + seq![0x2Eu8] + decimal(VERSION_PATCH),
    {
        push_dec(res, VERSION_MAJOR);
        res.push(0x2E);
        push_dec(res, VERSION_MINOR);
        res.push(0x2E);
        push_dec(res, VERSION_PATCH);
        assert(res@ =~= old(res)@ + decimal(VERSION_MAJOR) + seq![0x2Eu8] + decimal(VERSION_MINOR)
            + seq![0x2Eu8] + decimal(VERSION_PATCH));
        Sw::OK
    }

    /// Handles one command. A device-wide factory reset is not offered.
    pub fn process<S: Storage>(&mut self, apdu: &Apdu, fs: &mut Fs<S>, res: &mut Vec<u8>) -> (sw: Sw)
        requires
            old(fs).wf(),
        ensures
            final(fs).wf(),
            final(self).serial() == old(self).serial(),
            apdu.cla != 0 <==> sw == Sw::CLA_NOT_SUPPORTED,
            apdu.cla == 0 && apdu.ins != INS_READ_CONFIG && apdu.ins != INS_WRITE_CONFIG <==> sw
                == Sw::INS_NOT_SUPPORTED,
            apdu.cla == 0 && apdu.ins == INS_READ_CONFIG ==> sw == Sw::OK && final(res)@ == old(
                res,
            )@ + device_info(old(self).serial(), stored_conf(old(fs).contents())),
            !(apdu.cla == 0 && apdu.ins == INS_READ_CONFIG) ==> final(res)@ == old(res)@,
            apdu.cla == 0 && apdu.ins == INS_WRITE_CONFIG ==> old(self).write_outcome(
                final(self),
                old(fs),
                final(fs),
                apdu.data@,
                sw,
            ),
            !(apdu.cla == 0 && apdu.ins == INS_WRITE_CONFIG) ==> final(fs).contents() == old(
                fs,
            ).contents() && final(self).touches() == old(self).touches(),
    {
        if apdu.cla != 0 {
            return Sw::CLA_NOT_SUPPORTED;
        }
        if apdu.ins == INS_READ_CONFIG {
            config_tlv(&self.serial, fs, res)
        } else if apdu.ins == INS_WRITE_CONFIG {
            self.write_config(apdu, fs)
        } else {
            Sw::INS_NOT_SUPPORTED
        }
    }
}

/// Writing a config that is not empty, then reading: the answer ends with the
/// config, in the place of the defaults.
pub proof fn law_write_then_read(c: Map<u16, Seq<u8>>, serial: Seq<u8>, data: Seq<u8>)
    requires
        serial.len() == 4,
        write_config_wellformed(data),
        data.len() > 1,
    ensures
        ({
            let after = c.insert(EF_DEV_CONF, data.skip(1));
            device_info(serial, stored_conf(after)) == seq![(17 + data.len()) as u8] + info_head(
                serial,
            ) + data.skip(1)
        }),
{
    let after = c.insert(EF_DEV_CONF, data.skip(1));
    let body = info_head(serial) + data.skip(1);
    assert(body.len() == 17 + data.len());
    assert(device_info(serial, stored_conf(after)) =~= seq![(17 + data.len()) as u8] + info_head(
        serial,
    ) + data.skip(1));
}

/// The leading byte of the answer is the length of the rest, whatever is
/// stored.
pub proof fn law_read_config_length(serial: Seq<u8>, stored: Option<Seq<u8>>)
    requires
        serial.len() == 4,
    ensures
        device_info(serial, stored)[0] == device_info(serial, stored).len() - 1,
{
    assert(info_head(serial).len() == 18);
    assert(info_tail(stored).len() <= 64);
}

/// The answer to READ CONFIG, byte by byte: the length of the rest, the supported
/// capabilities, the serial, the form factor, the version, and what was stored or,
/// where nothing was, everything enabled, removable and unlocked.
pub proof fn law_device_info_bytes(serial: Seq<u8>, stored: Option<Seq<u8>>)
    requires
        serial.len() == 4,
    ensures
        ({
            let fixed = seq![0x01u8, 0x02u8, 0x02u8, 0x3bu8] + seq![0x02u8, 0x04u8] + serial + seq![
                0x04u8,
                0x01u8,
                0x01u8,
            ] + seq![0x05u8, 0x03u8, 0x05u8, 0x07u8, 0x04u8];
            let info = device_info(serial, stored);
            &&& info.len() >= 19
            &&& info.subrange(1, 19) == fixed
            &&& stored is None || stored->0.len() == 0 ==> info.skip(19) == seq![
                0x03u8,
                0x02u8,
                0x02u8,
                0x3bu8,
                0x08u8,
                0x01u8,
                0x80u8,
                0x0au8,
                0x01u8,
                0x00u8,
            ]
            &&& stored is Some && 0 < stored->0.len() <= 64 ==> info.skip(19) == stored->0
        }),
{
    let info = device_info(serial, stored);
    assert(info_head(serial) =~= seq![0x01u8, 0x02u8, 0x02u8, 0x3bu8] + seq![0x02u8, 0x04u8]
        + serial + seq![0x04u8, 0x01u8, 0x01u8] + seq![0x05u8, 0x03u8, 0x05u8, 0x07u8, 0x04u8]);
    assert(info.subrange(1, 19) =~= info_head(serial));
    assert(info.skip(19) =~= info_tail(stored));
    assert(default_tail() =~= seq![
        0x03u8,
        0x02u8,
        0x02u8,
        0x3bu8,
        0x08u8,
        0x01u8,
        0x80u8,
        0x0au8,
        0x01u8,
        0x00u8,
    ]);
}

/// The serial is the number in the first four bytes of the chip id modulo 2^26,
/// so that it has at most eight digits.
pub proof fn law_serial_is_reduced(id: Seq<u8>)
    requires
        id.len() >= 4,
    ensures
        serial_of(id).len() == 4,
        crypto::be_value(serial_of(id)) == crypto::be_value(id.take(4)) % 0x400_0000,
        crypto::be_value(serial_of(id)) < 100_000_000,
{
    let s = serial_of(id);
    let t = id.take(4);
    let b = id[0];
    assert(b & 0x03 == b % 4) by (bit_vector);
    lemma_be_value4(s);
    lemma_be_value4(t);
    let low = 0x1_0000 * id[1] + 0x100 * id[2] + id[3];
    let q = (b / 4) as int;
    assert(crypto::be_value(t) == 0x400_0000 * q + (0x100_0000 * (b % 4) + low));
    assert(0 <= 0x100_0000 * (b % 4) + low < 0x400_0000);
    vstd::arithmetic::div_mod::lemma_fundamental_div_mod_converse(
        crypto::be_value(t) as int,
        0x400_0000,
        q,
        0x100_0000 * (b % 4) + low,
    );
}

proof fn lemma_be_value4(s: Seq<u8>)
    requires
        s.len() == 4,
    ensures
        crypto::be_value(s) == 0x100_0000 * s[0] + 0x1_0000 * s[1] + 0x100 * s[2] + s[3],
{
    reveal_with_fuel(crypto::be_value, 5);
    let s3 = s.drop_last();
    let s2 = s3.drop_last();
    let s1 = s2.drop_last();
    assert(s1.drop_last().len() == 0);
    assert(crypto::be_value(s1) == s[0]);
    assert(crypto::be_value(s2) == 0x100 * s[0] + s[1]);
    assert(crypto::be_value(s3) == 0x1_0000 * s[0] + 0x100 * s[1] + s[2]);
}

/// The digits of a number write it in base ten without leading zeros.
pub proof fn law_decimal_writes_number(v: u8)
    ensures
        forall|i: int| 0 <= i < decimal(v).len() ==> 48 <= #[trigger] decimal(v)[i] <= 57,
        decimal(v).len() == 1 ==> v == decimal(v)[0] - 48,
        decimal(v).len() == 2 ==> v == 10 * (decimal(v)[0] - 48) + (decimal(v)[1] - 48),
        decimal(v).len() == 3 ==> v == 100 * (decimal(v)[0] - 48) + 10 * (decimal(v)[1] - 48) + (
        decimal(v)[2] - 48),
        1 <= decimal(v).len() <= 3,
        decimal(v).len() > 1 ==> decimal(v)[0] > 48,
{
}

/// A configuration is written only where its length byte tells its length and the
/// operator confirmed; what is stored is then what followed the length byte.
pub proof fn law_config_needs_touch<S: Storage>(
    before: &Fs<S>,
    after: &Fs<S>,
    data: Seq<u8>,
    p: Presence,
    sw: Sw,
)
    requires
        config_written(before, after, data, p, sw),
    ensures
        after.contents() != before.contents() ==> p == Presence::Confirmed && sw == Sw::OK
            && after.contents() == before.contents().insert(EF_DEV_CONF, data.skip(1)),
        sw == Sw::OK ==> p == Presence::Confirmed,
        write_config_wellformed(data) <==> 1 <= data.len() <= 65 && data[0] == data.len() - 1,
{
}

/// A malformed configuration is refused before anyone is asked; otherwise the
/// operator is asked once, whether to write the configuration.
pub proof fn law_config_is_asked_for<S: Storage, P: UserPresence>(
    before: &ManagementApplet<P>,
    after: &ManagementApplet<P>,
    fs_before: &Fs<S>,
    fs_after: &Fs<S>,
    data: Seq<u8>,
    sw: Sw,
)
    requires
        before.write_outcome(after, fs_before, fs_after, data, sw),
    ensures
        !(1 <= data.len() <= 65 && data[0] == data.len() - 1) ==> sw == Sw::INCORRECT_PARAMS
            && after.touches() == before.touches() && fs_after.contents() == fs_before.contents(),
        1 <= data.len() <= 65 && data[0] == data.len() - 1 ==> after.touches().len()
            == before.touches().len() + 1 && after.touches().last().0 == sdk::action(
            "Write device config?"@,
            ""@,
        ),
        sw == Sw::OK ==> after.touches().last().1 == Presence::Confirmed && fs_after.contents()
            == fs_before.contents().insert(EF_DEV_CONF, data.skip(1)),
{
}

}
