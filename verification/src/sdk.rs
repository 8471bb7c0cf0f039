//! Types that every applet shares: errors, status words, command APDUs and the
//! text of a confirmation request.

use vstd::prelude::*;

use crate::crypto;

verus! {

/// Errors of the storage and key layers.
#[derive(Debug, Clone, Copy, PartialEq, Eq, Structural)]
pub enum Error {
    /// A fixed budget is used up.
    NoMemory,
    /// The operation cannot be carried out.
    ExecError,
}

/// The ISO 7816 status words that the applets answer with.
#[allow(non_camel_case_types)]
#[derive(Debug, Clone, Copy, PartialEq, Eq, Structural)]
pub enum Sw {
    OK,
    MEMORY_FAILURE,
    WRONG_LENGTH,
    CONDITIONS_NOT_SATISFIED,
    COMMAND_NOT_ALLOWED,
    INCORRECT_PARAMS,
    INCORRECT_P1P2,
    INS_NOT_SUPPORTED,
    CLA_NOT_SUPPORTED,
    EXEC_ERROR,
}

/// The two bytes on the wire, as a number.
pub open spec fn sw_code(sw: Sw) -> u16 {
    match sw {
        Sw::OK => 0x9000,
        Sw::EXEC_ERROR => 0x6400,
        Sw::MEMORY_FAILURE => 0x6581,
        Sw::WRONG_LENGTH => 0x6700,
        Sw::CONDITIONS_NOT_SATISFIED => 0x6985,
        Sw::COMMAND_NOT_ALLOWED => 0x6986,
        Sw::INCORRECT_PARAMS => 0x6A80,
        Sw::INCORRECT_P1P2 => 0x6A86,
        Sw::INS_NOT_SUPPORTED => 0x6D00,
        Sw::CLA_NOT_SUPPORTED => 0x6E00,
    }
}

impl Sw {
    /// The two bytes on the wire, as a number.
    pub fn code(&self) -> (c: u16)
        ensures
            c == sw_code(*self),
    {
        match self {
            Sw::OK => 0x9000,
            Sw::EXEC_ERROR => 0x6400,
            Sw::MEMORY_FAILURE => 0x6581,
            Sw::WRONG_LENGTH => 0x6700,
            Sw::CONDITIONS_NOT_SATISFIED => 0x6985,
            Sw::COMMAND_NOT_ALLOWED => 0x6986,
            Sw::INCORRECT_PARAMS => 0x6A80,
            Sw::INCORRECT_P1P2 => 0x6A86,
            Sw::INS_NOT_SUPPORTED => 0x6D00,
            Sw::CLA_NOT_SUPPORTED => 0x6E00,
        }
    }
}

/// A command APDU, taken apart.
pub struct Apdu {
    pub cla: u8,
    pub ins: u8,
    pub p1: u8,
    pub p2: u8,
    pub data: Vec<u8>,
}

/// What kind of confirmation is asked for.
#[derive(Debug, Clone, Copy, PartialEq, Eq, Structural)]
pub enum ConfirmKind {
    /// A plain action.
    Action,
    /// The creation of a credential.
    Register,
}

/// What the trusted display shows while the device waits for a touch.
#[derive(Clone, Copy)]
pub struct Confirm<'a> {
    pub kind: ConfirmKind,
    pub title: &'a str,
    pub subtitle: &'a str,
    /// The relying party of a registration.
    pub rp_id: &'a [u8],
    /// The account of a registration.
    pub user: &'a [u8],
}

/// What the trusted display shows, as text.
#[verifier::ext_equal]
pub struct Prompt {
    pub kind: ConfirmKind,
    pub title: Seq<char>,
    pub subtitle: Seq<char>,
    pub rp_id: Seq<u8>,
    pub user: Seq<u8>,
}

impl<'a> View for Confirm<'a> {
    type V = Prompt;

    open spec fn view(&self) -> Prompt {
        Prompt {
            kind: self.kind,
            title: self.title@,
            subtitle: self.subtitle@,
            rp_id: self.rp_id@,
            user: self.user@,
        }
    }
}

/// The prompt of a plain action.
pub open spec fn action(title: Seq<char>, subtitle: Seq<char>) -> Prompt {
    Prompt {
        kind: ConfirmKind::Action,
        title,
        subtitle,
        rp_id: Seq::empty(),
        user: Seq::empty(),
    }
}

/// The prompt of the registration of `user` at `rp_id`.
pub open spec fn registration(rp_id: Seq<u8>, user: Seq<u8>) -> Prompt {
    Prompt { kind: ConfirmKind::Register, title: ""@, subtitle: ""@, rp_id, user }
}

impl<'a> Confirm<'a> {
    /// A request with a title only.
    pub fn titled(title: &'a str) -> (c: Self)
        ensures
            c@ == action(title@, ""@),
    {
        let c = Confirm { kind: ConfirmKind::Action, title, subtitle: "", rp_id: &[], user: &[] };
        assert(c@ =~= action(title@, ""@));
        c
    }

    /// A request with a title and a line of detail.
    pub fn detailed(title: &'a str, subtitle: &'a str) -> (c: Self)
        ensures
            c@ == action(title@, subtitle@),
    {
        let c = Confirm { kind: ConfirmKind::Action, title, subtitle, rp_id: &[], user: &[] };
        assert(c@ =~= action(title@, subtitle@));
        c
    }

    /// The registration of `user` at `rp_id`.
    pub fn register(rp_id: &'a [u8], user: &'a [u8]) -> (c: Self)
        ensures
            c@ == registration(rp_id@, user@),
    {
        Confirm { kind: ConfirmKind::Register, title: "", subtitle: "", rp_id, user }
    }
}

/// A difference stays once it was seen.
proof fn lemma_differs(d: u8, x: u8, y: u8)
    ensures
        (d | (x ^ y)) == 0 <==> d == 0 && x == y,
{
    assert((d | (x ^ y)) == 0 <==> d == 0 && x == y) by (bit_vector);
}

/// The byte strings are equal. All bytes are looked at whatever they hold, so
/// that the time tells nothing of where a tag differs.
pub fn same_bytes(a: &[u8], b: &[u8]) -> (r: bool)
    ensures
        r == (a@ == b@),
{
    if a.len() != b.len() {
        return false;
    }
    let mut differs: u8 = 0;
    let mut i: usize = 0;
    while i < a.len()
        invariant
            i <= a@.len(),
            a@.len() == b@.len(),
            differs == 0 <==> forall|x: int| 0 <= x < i ==> a@[x] == b@[x],
        decreases a@.len() - i,
    {
        proof {
            lemma_differs(differs, a@[i as int], b@[i as int]);
        }
        differs = differs | (a[i] ^ b[i]);
        i = i + 1;
    }
    assert(differs == 0 ==> a@ =~= b@);
    differs == 0
}

/// Copies 32 bytes.
pub(crate) fn array32(s: &[u8]) -> (r: [u8; 32])
    requires
        s@.len() == 32,
    ensures
        r@ == s@,
{
    let mut out = [0u8; 32];
    let mut i: usize = 0;
    while i < 32
        invariant
            i <= 32,
            s@.len() == 32,
            forall|x: int| 0 <= x < i ==> out@[x] == s@[x],
        decreases 32 - i,
    {
        out[i] = s[i];
        i += 1;
    }
    assert(out@ =~= s@);
    out
}

/// Copies 16 bytes.
pub(crate) fn array16(s: &[u8]) -> (r: [u8; 16])
    requires
        s@.len() == 16,
    ensures
        r@ == s@,
{
    let mut out = [0u8; 16];
    let mut i: usize = 0;
    while i < 16
        invariant
            i <= 16,
            s@.len() == 16,
            forall|x: int| 0 <= x < i ==> out@[x] == s@[x],
        decreases 16 - i,
    {
        out[i] = s[i];
        i += 1;
    }
    assert(out@ =~= s@);
    out
}

/// Copies 12 bytes.
pub(crate) fn array12(s: &[u8]) -> (r: [u8; 12])
    requires
        s@.len() == 12,
    ensures
        r@ == s@,
{
    let mut out = [0u8; 12];
    let mut i: usize = 0;
    while i < 12
        invariant
            i <= 12,
            s@.len() == 12,
            forall|x: int| 0 <= x < i ==> out@[x] == s@[x],
        decreases 12 - i,
    {
        out[i] = s[i];
        i += 1;
    }
    assert(out@ =~= s@);
    out
}

/// The number that four little-endian bytes write.
pub open spec fn le32_value(b: Seq<u8>) -> int {
    b[0] + 0x100 * b[1] + 0x1_0000 * b[2] + 0x100_0000 * b[3]
}

/// The four little-endian bytes of a number.
pub open spec fn le32(n: int) -> Seq<u8> {
    seq![
        (n % 0x100) as u8,
        (n / 0x100 % 0x100) as u8,
        (n / 0x1_0000 % 0x100) as u8,
        (n / 0x100_0000 % 0x100) as u8,
    ]
}

/// The four big-endian bytes of a number.
pub open spec fn be32(n: int) -> Seq<u8> {
    seq![
        (n / 0x100_0000 % 0x100) as u8,
        (n / 0x1_0000 % 0x100) as u8,
        (n / 0x100 % 0x100) as u8,
        (n % 0x100) as u8,
    ]
}

/// Writing a number and reading it again gives the number.
pub proof fn law_le32_round_trip(n: int)
    requires
        0 <= n <= u32::MAX,
    ensures
        le32(n).len() == 4,
        le32_value(le32(n)) == n,
{
    assert(n / 0x1_0000 == (n / 0x100) / 0x100);
    assert(n / 0x100_0000 == (n / 0x1_0000) / 0x100);
    assert(n / 0x100_0000 < 0x100);
}

/// The number that four little-endian bytes write.
pub(crate) fn le32_read(b: &[u8]) -> (n: u32)
    requires
        b@.len() == 4,
    ensures
        n == le32_value(b@),
{
    b[0] as u32 + 0x100 * b[1] as u32 + 0x1_0000 * b[2] as u32 + 0x100_0000 * b[3] as u32
}

/// The four little-endian bytes of a number.
pub(crate) fn le32_bytes(n: u32) -> (b: [u8; 4])
    ensures
        b@ == le32(n as int),
{
    let b: [u8; 4] = [
        (n % 0x100) as u8,
        (n / 0x100 % 0x100) as u8,
        (n / 0x1_0000 % 0x100) as u8,
        (n / 0x100_0000 % 0x100) as u8,
    ];
    assert(b@ =~= le32(n as int));
    b
}

/// The four big-endian bytes of a number.
pub(crate) fn be32_bytes(n: u32) -> (b: [u8; 4])
    ensures
        b@ == be32(n as int),
{
    let b: [u8; 4] = [
        (n / 0x100_0000 % 0x100) as u8,
        (n / 0x1_0000 % 0x100) as u8,
        (n / 0x100 % 0x100) as u8,
        (n % 0x100) as u8,
    ];
    assert(b@ =~= be32(n as int));
    b
}

/// The two big-endian bytes of a number.
pub open spec fn be16(n: int) -> Seq<u8> {
    seq![(n / 0x100 % 0x100) as u8, (n % 0x100) as u8]
}

/// The two big-endian bytes of a number.
pub(crate) fn be16_bytes(n: u16) -> (b: [u8; 2])
    ensures
        b@ == be16(n as int),
{
    let b: [u8; 2] = [(n / 0x100) as u8, (n % 0x100) as u8];
    assert(b@ =~= be16(n as int));
    b
}

/// A number written as four big-endian bytes reads as the number.
pub proof fn law_be32_round_trip(n: int)
    requires
        0 <= n <= u32::MAX,
    ensures
        crypto::be_value(be32(n)) == n,
{
    let b = be32(n);
    let b3 = b.drop_last();
    let b2 = b3.drop_last();
    let b1 = b2.drop_last();
    reveal_with_fuel(crypto::be_value, 5);
    assert(b1.drop_last().len() == 0);
    assert(crypto::be_value(b1) == n / 0x100_0000 % 0x100);
}

/// A number written as two big-endian bytes reads as the number.
pub proof fn law_be16_round_trip(n: int)
    requires
        0 <= n <= u16::MAX,
    ensures
        crypto::be_value(be16(n)) == n,
{
    let b = be16(n);
    reveal_with_fuel(crypto::be_value, 3);
    assert(b.drop_last().drop_last().len() == 0);
    assert(crypto::be_value(b.drop_last()) == n / 0x100 % 0x100);
}

/// The status words on the wire, each with its own code.
pub proof fn law_sw_codes(a: Sw, b: Sw)
    ensures
        sw_code(a) == sw_code(b) ==> a == b,
        sw_code(Sw::OK) == 0x9000,
        sw_code(Sw::EXEC_ERROR) == 0x6400,
        sw_code(Sw::MEMORY_FAILURE) == 0x6581,
        sw_code(Sw::WRONG_LENGTH) == 0x6700,
        sw_code(Sw::CONDITIONS_NOT_SATISFIED) == 0x6985,
        sw_code(Sw::COMMAND_NOT_ALLOWED) == 0x6986,
        sw_code(Sw::INCORRECT_PARAMS) == 0x6a80,
        sw_code(Sw::INCORRECT_P1P2) == 0x6a86,
        sw_code(Sw::INS_NOT_SUPPORTED) == 0x6d00,
        sw_code(Sw::CLA_NOT_SUPPORTED) == 0x6e00,
{
}

/// Every field of a prompt is seen under its own name; an action shows its title
/// and subtitle, a registration the relying party and the account.
pub proof fn law_prompt_fields(c: Confirm, rp_id: Seq<u8>, user: Seq<u8>, title: Seq<char>)
    ensures
        c@.kind == c.kind,
        c@.title == c.title@,
        c@.subtitle == c.subtitle@,
        c@.rp_id == c.rp_id@,
        c@.user == c.user@,
        registration(rp_id, user).rp_id == rp_id,
        registration(rp_id, user).user == user,
        registration(rp_id, user).kind == ConfirmKind::Register,
        action(title, ""@).title == title,
        action(title, ""@).kind == ConfirmKind::Action,
{
}

}
