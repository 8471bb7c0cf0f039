//! The management applet.

use rs_key::fs::{Fs, RamStorage, Storage};
use rs_key::mgmt::{
    config_tlv, finish_write_config, persist_dev_conf, push_dec, serial4, AlwaysConfirm,
    DevConfError, ManagementApplet, Presence, UserPresence, EF_DEV_CONF, EF_DEV_CONF_MAX,
    INS_READ_CONFIG, INS_RESET, INS_WRITE_CONFIG, SUPPORTED_CAPS, TAG_CONFIG_LOCK, TAG_SERIAL,
    TAG_USB_ENABLED, TAG_USB_SUPPORTED, TAG_VERSION,
};
use rs_key::sdk::{Apdu, Confirm, Error, Sw};

struct DenyPresence;

impl UserPresence for DenyPresence {
    fn request(&mut self, _c: Confirm<'_>) -> Presence {
        Presence::Declined
    }
}

/// A backend that reports far more bytes than any buffer holds.
struct OverRead;

impl Storage for OverRead {
    fn inv(&self) -> bool {
        unreachable!()
    }
    fn contents(&self) -> vstd::map::Map<u16, vstd::seq::Seq<u8>> {
        unreachable!()
    }
    fn listed(&self) -> vstd::set::Set<u16> {
        unreachable!()
    }
    fn reliable(&self) -> bool {
        unreachable!()
    }
    fn laps(&self) -> vstd::prelude::nat {
        unreachable!()
    }
    fn clean(&self) -> bool {
        unreachable!()
    }
    fn read(&mut self, fid: u16, buf: &mut [u8]) -> Option<usize> {
        if fid == EF_DEV_CONF {
            buf.fill(0xAB);
            Some(255)
        } else {
            None
        }
    }
    fn write(&mut self, _: u16, _: &[u8]) -> Result<(), Error> {
        Ok(())
    }
    fn remove(&mut self, _: u16) -> Result<(), Error> {
        Ok(())
    }
    fn size(&mut self, fid: u16) -> Option<usize> {
        if fid == EF_DEV_CONF {
            Some(255)
        } else {
            None
        }
    }
    fn for_each_key(&mut self) -> Vec<u16> {
        Vec::new()
    }
    fn compact(&mut self) -> Result<(), Error> {
        Ok(())
    }
}

fn fs() -> Fs<RamStorage> {
    Fs::new(RamStorage::new())
}

/// Takes a short or case-1 APDU apart.
fn apdu(raw: &[u8]) -> Apdu {
    let n = if raw.len() > 4 { raw[4] as usize } else { 0 };
    let data = if raw.len() > 5 { raw[5..5 + n].to_vec() } else { Vec::new() };
    Apdu { cla: raw[0], ins: raw[1], p1: raw[2], p2: raw[3], data }
}

fn process<P: UserPresence>(
    app: &mut ManagementApplet<P>,
    fs: &mut Fs<RamStorage>,
    raw: &[u8],
) -> (Sw, Vec<u8>) {
    let mut res = Vec::new();
    let sw = app.process(&apdu(raw), fs, &mut res);
    (sw, res)
}

/// Walk a TLV blob, returning the value for `tag`.
fn tlv_get(blob: &[u8], tag: u8) -> Option<&[u8]> {
    let mut i = 0;
    while i + 2 <= blob.len() {
        let t = blob[i];
        let l = blob[i + 1] as usize;
        if i + 2 + l > blob.len() {
            return None;
        }
        if t == tag {
            return Some(&blob[i + 2..i + 2 + l]);
        }
        i += 2 + l;
    }
    None
}

#[test]
fn select_returns_version_string() {
    let mut app = ManagementApplet::new([0; 8], AlwaysConfirm);
    let mut body = Vec::new();
    let sw = app.select(&mut body);
    assert_eq!(sw, Sw::OK);
    assert_eq!(&body, b"5.7.4");
}

#[test]
fn read_config_reports_version_caps_serial() {
    let mut app = ManagementApplet::new([0x12, 0x34, 0x56, 0x78, 0, 0, 0, 0], AlwaysConfirm);
    let mut fs = fs();
    let (sw, body) = process(&mut app, &mut fs, &[0x00, INS_READ_CONFIG, 0, 0, 0x00]);
    assert_eq!(sw, Sw::OK);
    // Leading overall-length byte.
    assert_eq!(body[0] as usize, body.len() - 1);
    let tlv = &body[1..];
    assert_eq!(tlv_get(tlv, TAG_VERSION), Some(&[5u8, 7, 4][..]));
    assert_eq!(
        tlv_get(tlv, TAG_USB_SUPPORTED),
        Some(&SUPPORTED_CAPS.to_be_bytes()[..])
    );
    // Serial MSB had its top 6 bits cleared (8-digit cap): 0x12 & 0x03 = 0x02.
    assert_eq!(
        tlv_get(tlv, TAG_SERIAL),
        Some(&[0x02, 0x34, 0x56, 0x78][..])
    );
    // Default tail present (no EF_DEV_CONF written yet).
    assert_eq!(
        tlv_get(tlv, TAG_USB_ENABLED),
        Some(&SUPPORTED_CAPS.to_be_bytes()[..])
    );
    assert_eq!(tlv_get(tlv, TAG_CONFIG_LOCK), Some(&[0x00][..]));
}

#[test]
fn read_config_matches_ccid_read_config() {
    // `read_config` must be byte-identical to the CCID INS_READ_CONFIG
    // DeviceInfo so ykman sees the same key on every interface.
    let mut app = ManagementApplet::new([0x12, 0x34, 0x56, 0x78, 0, 0, 0, 0], AlwaysConfirm);
    let mut fs = fs();
    let (_, ccid) = process(&mut app, &mut fs, &[0x00, INS_READ_CONFIG, 0, 0, 0x00]);
    let mut res = Vec::new();
    assert_eq!(app.read_config(&mut fs, &mut res), Sw::OK);
    assert_eq!(res, ccid);
}

#[test]
fn write_then_read_config_roundtrips() {
    let mut app = ManagementApplet::new([0; 8], AlwaysConfirm);
    let mut fs = fs();
    // Enable only FIDO2 + U2F (TAG_USB_ENABLED = 0x0202).
    let blob = [TAG_USB_ENABLED, 0x02, 0x02, 0x02];
    let mut cmd = vec![
        0x00,
        INS_WRITE_CONFIG,
        0,
        0,
        (blob.len() + 1) as u8,
        blob.len() as u8
    ];
    cmd.extend_from_slice(&blob);
    let (sw, _) = process(&mut app, &mut fs, &cmd);
    assert_eq!(sw, Sw::OK);

    let (sw, body) = process(&mut app, &mut fs, &[0x00, INS_READ_CONFIG, 0, 0, 0x00]);
    assert_eq!(sw, Sw::OK);
    let tlv = &body[1..];
    // The stored blob is echoed verbatim after the fixed prefix.
    assert_eq!(tlv_get(tlv, TAG_USB_ENABLED), Some(&[0x02, 0x02][..]));
    // The default DEVICE_FLAGS/CONFIG_LOCK tail is gone (replaced by the blob).
    assert_eq!(tlv_get(tlv, TAG_CONFIG_LOCK), None);
}

#[test]
fn write_config_rejects_oversized_blob() {
    // An inner blob larger than the read buffer must be refused, so it can
    // never become a sticky DoS that panics every later READ CONFIG.
    let mut app = ManagementApplet::new([0; 8], AlwaysConfirm);
    let mut fs = fs();
    let inner = EF_DEV_CONF_MAX + 1;
    let mut cmd = vec![
        0x00,
        INS_WRITE_CONFIG,
        0,
        0,
        (inner + 1) as u8, // Lc = leading length byte + inner
        inner as u8        // data[0] = inner (== nc - 1)
    ];
    cmd.extend_from_slice(&vec![0xAB; inner]);
    let (sw, _) = process(&mut app, &mut fs, &cmd);
    assert_eq!(sw, Sw::INCORRECT_PARAMS);
    // Nothing was persisted.
    assert!(fs.read(EF_DEV_CONF, &mut [0u8; 8]).is_none());
}

#[test]
fn read_config_survives_oversized_stored_blob() {
    // Regression: READ CONFIG used to slice `&conf[..len]` with `len` =
    // Storage::read's *full* stored length, so a >64-byte EF_DEV_CONF
    // panicked. write_config now rejects one, so seed it directly to model a
    // blob left by an older build or a corrupt flash — the read must clamp,
    // not panic.
    let mut app = ManagementApplet::new([0; 8], AlwaysConfirm);
    let mut fs = fs();
    fs.put(EF_DEV_CONF, &[0xAB; EF_DEV_CONF_MAX + 16]).unwrap();
    let (sw, body) = process(&mut app, &mut fs, &[0x00, INS_READ_CONFIG, 0, 0, 0x00]);
    assert_eq!(sw, Sw::OK);
    // Well-formed output, nothing sliced out of bounds.
    assert_eq!(body[0] as usize, body.len() - 1);
}

#[test]
fn config_tlv_clamps_a_lying_over_read() {
    // The Storage::read contract returns the value's *full* length while the
    // copy is truncated to the buffer, so every caller must clamp the
    // returned length to its buffer. Model a backend that reports far more
    // than the 64-byte buffer: config_tlv must clamp, not slice out of
    // bounds. (RamStorage honours the contract via the real length; this
    // exercises the clamp against an even larger claim.)
    let mut fs = Fs::new(OverRead);
    let mut body = Vec::new();
    assert_eq!(config_tlv(&[0u8; 4], &mut fs, &mut body), Sw::OK);
    assert_eq!(body[0] as usize, body.len() - 1);
}

#[test]
fn write_config_rejects_bad_length() {
    let mut app = ManagementApplet::new([0; 8], AlwaysConfirm);
    let mut fs = fs();
    // First byte (3) disagrees with the actual remaining length (2).
    let (sw, _) = process(
        &mut app,
        &mut fs,
        &[0x00, INS_WRITE_CONFIG, 0, 0, 0x03, 0x03, 0xAA, 0xBB],
    );
    assert_eq!(sw, Sw::INCORRECT_PARAMS);
}

#[test]
fn write_config_requires_user_presence() {
    // A well-formed WRITE CONFIG is refused without a physical confirmation,
    // and nothing is persisted — a hostile USB host cannot rewrite DeviceInfo.
    let mut app = ManagementApplet::new([0; 8], DenyPresence);
    let mut fs = fs();
    let blob = [TAG_USB_ENABLED, 0x02, 0x02, 0x02];
    let mut cmd = vec![
        0x00,
        INS_WRITE_CONFIG,
        0,
        0,
        (blob.len() + 1) as u8,
        blob.len() as u8
    ];
    cmd.extend_from_slice(&blob);
    let (sw, _) = process(&mut app, &mut fs, &cmd);
    assert_eq!(sw, Sw::CONDITIONS_NOT_SATISFIED);
    assert!(
        fs.read(EF_DEV_CONF, &mut [0u8; 8]).is_none(),
        "nothing persisted without presence"
    );
}

#[test]
fn bad_cla_and_ins_rejected() {
    let mut app = ManagementApplet::new([0; 8], AlwaysConfirm);
    let mut fs = fs();
    let (sw, _) = process(&mut app, &mut fs, &[0x10, INS_READ_CONFIG, 0, 0, 0x00]);
    assert_eq!(sw, Sw::CLA_NOT_SUPPORTED);
    let (sw, _) = process(&mut app, &mut fs, &[0x00, 0xEE, 0, 0, 0x00]);
    assert_eq!(sw, Sw::INS_NOT_SUPPORTED);
    // RESET is recognised but deferred.
    let (sw, _) = process(&mut app, &mut fs, &[0x00, INS_RESET, 0, 0, 0x00]);
    assert_eq!(sw, Sw::INS_NOT_SUPPORTED);
}

#[test]
fn device_info_exact_bytes() {
    let mut app = ManagementApplet::new([0xFF, 2, 3, 4, 5, 6, 7, 8], AlwaysConfirm);
    let mut fs = fs();
    let (_, body) = process(&mut app, &mut fs, &[0x00, INS_READ_CONFIG, 0, 0, 0x00]);
    let want = [
        28, 1, 2, 0x02, 0x3B, 2, 4, 0x03, 2, 3, 4, 4, 1, 1, 5, 3, 5, 7, 4, 3, 2, 0x02, 0x3B, 8, 1,
        0x80, 10, 1, 0,
    ];
    assert_eq!(body, want);
    assert_eq!(app.aid(), [0xA0, 0, 0, 5, 0x27, 0x47, 0x11, 0x17]);
    assert_eq!(serial4([0xFF, 2, 3, 4, 5, 6, 7, 8]), [3, 2, 3, 4]);
}

#[test]
fn persist_dev_conf_limits() {
    let mut fs = fs();
    assert_eq!(persist_dev_conf(&mut fs, &[0u8; 65]), Err(DevConfError::TooLong));
    assert_eq!(persist_dev_conf(&mut fs, &[7u8; 64]), Ok(()));
    assert_eq!(fs.size(EF_DEV_CONF), Some(64));
    for i in 0..1279u16 {
        fs.new_file(i).unwrap();
    }
    fs.delete(EF_DEV_CONF).unwrap();
    fs.new_file(2000).unwrap();
    assert_eq!(persist_dev_conf(&mut fs, &[1]), Err(DevConfError::Store));
    let cmd = Apdu { cla: 0, ins: INS_WRITE_CONFIG, p1: 0, p2: 0, data: vec![1, 9] };
    assert_eq!(finish_write_config(&cmd, Presence::Timeout, &mut fs), Sw::CONDITIONS_NOT_SATISFIED);
    assert_eq!(finish_write_config(&cmd, Presence::Confirmed, &mut fs), Sw::MEMORY_FAILURE);
    fs.delete(0).unwrap();
    fs.put(1, b"").unwrap();
    assert_eq!(finish_write_config(&cmd, Presence::Confirmed, &mut fs), Sw::OK);
}

#[test]
fn decimal_digits() {
    for v in [0u8, 9, 10, 57, 99, 100, 255] {
        let mut out = Vec::new();
        push_dec(&mut out, v);
        assert_eq!(String::from_utf8(out).unwrap(), format!("{v}"));
    }
}

#[test]
fn status_word_codes() {
    assert_eq!(Sw::OK.code(), 0x9000);
    assert_eq!(Sw::CONDITIONS_NOT_SATISFIED.code(), 0x6985);
    assert_eq!(Sw::INCORRECT_PARAMS.code(), 0x6A80);
    assert_eq!(Sw::INS_NOT_SUPPORTED.code(), 0x6D00);
    assert_eq!(Sw::CLA_NOT_SUPPORTED.code(), 0x6E00);
    assert_eq!(Sw::MEMORY_FAILURE.code(), 0x6581);
}
