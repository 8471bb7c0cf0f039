//! `EF_LED_CONF` wire-format codec: the persisted LED config block.
//!
//! The current block is `[steady, (effect, color, brightness, speed) x N_STATUS]`
//! (17 bytes). [`LedConfig::apply_block`] also accepts the older 13-byte
//! (pre-speed), 9-byte (pre-effect) and 2- or 3-byte (idle-only) layouts, so a
//! flash record survives a firmware upgrade: what the shorter block omits keeps
//! its current value.

use vstd::prelude::*;

verus! {

/// Number of device statuses (idle, processing, touch, boot), in that order.
pub const N_STATUS: usize = 4;

/// `EF_LED_CONF` length: `[steady, (effect, color, brightness, speed) x N_STATUS]`.
pub const CONF_LEN: usize = 17;

/// The flash FID that persists the config block, outside both reset scopes.
pub const EF_LED_CONF: u16 = 0x1123;

/// The look of one status. `color` is a palette index in 0..=7 (0 is off).
#[derive(Clone, Copy, PartialEq, Eq, Debug, Default, Structural)]
pub struct StatusCfg {
    pub effect: u8,
    pub color: u8,
    pub brightness: u8,
    pub speed: u8,
}

/// The whole block: a global `steady` flag and one [`StatusCfg`] per status.
#[derive(Clone, Copy, PartialEq, Eq, Debug, Default)]
pub struct LedConfig {
    pub steady: bool,
    pub status: [StatusCfg; N_STATUS],
}

/// The 17 bytes that stand for a config. Only the low three bits of a color are
/// kept.
pub open spec fn encoded(c: LedConfig) -> Seq<u8> {
    Seq::new(
        17,
        |p: int|
            if p == 0 {
                if c.steady {
                    1u8
                } else {
                    0u8
                }
            } else {
                let s = c.status@[(p - 1) / 4];
                if (p - 1) % 4 == 0 {
                    s.effect
                } else if (p - 1) % 4 == 1 {
                    s.color & 0x7
                } else if (p - 1) % 4 == 2 {
                    s.brightness
                } else {
                    s.speed
                }
            },
    )
}

/// What status `i` is after a block was laid over `s`.
pub open spec fn status_after(s: StatusCfg, i: int, b: Seq<u8>) -> StatusCfg {
    if b.len() >= 17 {
        StatusCfg {
            effect: b[1 + 4 * i],
            color: b[2 + 4 * i] & 0x7,
            brightness: b[3 + 4 * i],
            speed: b[4 + 4 * i],
        }
    } else if b.len() >= 13 {
        StatusCfg {
            effect: b[1 + 3 * i],
            color: b[2 + 3 * i] & 0x7,
            brightness: b[3 + 3 * i],
            speed: s.speed,
        }
    } else if b.len() >= 7 {
        if 2 + 2 * i < b.len() {
            StatusCfg {
                effect: s.effect,
                color: b[1 + 2 * i] & 0x7,
                brightness: b[2 + 2 * i],
                speed: s.speed,
            }
        } else {
            s
        }
    } else if b.len() >= 2 && i == 0 {
        StatusCfg { effect: s.effect, color: b[1] & 0x7, brightness: b[0], speed: s.speed }
    } else {
        s
    }
}

/// What the steady flag is after a block was laid over it.
pub open spec fn steady_after(steady: bool, b: Seq<u8>) -> bool {
    if b.len() >= 7 {
        b[0] != 0
    } else if b.len() >= 3 {
        b[2] != 0
    } else {
        steady
    }
}

impl LedConfig {
    /// Packs into the current 17-byte wire block. `color` is masked to its low
    /// three bits, so the encoding is canonical.
    pub fn encode(&self) -> (b: [u8; CONF_LEN])
        ensures
            b@ == encoded(*self),
    {
        let mut b = [0u8; CONF_LEN];
        b[0] = if self.steady {
            1
        } else {
            0
        };
        let mut i: usize = 0;
        while i < 4
            invariant
                i <= 4,
                forall|p: int| 0 <= p < 1 + 4 * i ==> #[trigger] b@[p] == encoded(*self)[p],
            decreases 4 - i,
        {
            let s: StatusCfg = self.status[i];
            b[1 + 4 * i] = s.effect;
            b[2 + 4 * i] = s.color & 0x7;
            b[3 + 4 * i] = s.brightness;
            b[4 + 4 * i] = s.speed;
            i = i + 1;
        }
        assert(b@ =~= encoded(*self));
        b
    }

    /// Lays a stored block over `self`. A field that a shorter block lacks
    /// keeps its value. Four formats, longest first:
    ///
    /// | Length | Layout |
    /// |--------|--------|
    /// | 17+   | `[steady, (effect, color, brightness, speed) x N]`, current |
    /// | 13-16 | `[steady, (effect, color, brightness) x N]`, pre-speed |
    /// | 7-12  | `[steady, (color, brightness) x N]`, pre-effect |
    /// | 2-6   | `[brightness, idle_color[, steady]]`, idle only |
    ///
    /// A block shorter than 2 bytes leaves `self` unchanged.
    pub fn apply_block(&mut self, b: &[u8])
        ensures
            final(self).steady == steady_after(old(self).steady, b@),
            forall|i: int|
                0 <= i < 4 ==> #[trigger] final(self).status@[i] == status_after(
                    old(self).status@[i],
                    i,
                    b@,
                ),
    {
        let n: usize = b.len();
        if n < 7 {
            if n >= 2 {
                let s: StatusCfg = self.status[0];
                self.status[0] = StatusCfg {
                    effect: s.effect,
                    color: b[1] & 0x7,
                    brightness: b[0],
                    speed: s.speed,
                };
                if n >= 3 {
                    self.steady = b[2] != 0;
                }
            }
            return;
        }
        let ghost before = *self;
        self.steady = b[0] != 0;
        let mut i: usize = 0;
        while i < 4
            invariant
                i <= 4,
                n == b@.len(),
                n >= 7,
                before == *old(self),
                self.steady == (b@[0] != 0),
                forall|x: int|
                    0 <= x < i ==> #[trigger] self.status@[x] == status_after(
                        before.status@[x],
                        x,
                        b@,
                    ),
                forall|x: int| i <= x < 4 ==> #[trigger] self.status@[x] == before.status@[x],
            decreases 4 - i,
        {
            let s: StatusCfg = self.status[i];
            if n >= 17 {
                self.status[i] = StatusCfg {
                    effect: b[1 + 4 * i],
                    color: b[2 + 4 * i] & 0x7,
                    brightness: b[3 + 4 * i],
                    speed: b[4 + 4 * i],
                };
            } else if n >= 13 {
                self.status[i] = StatusCfg {
                    effect: b[1 + 3 * i],
                    color: b[2 + 3 * i] & 0x7,
                    brightness: b[3 + 3 * i],
                    speed: s.speed,
                };
            } else if 2 + 2 * i < n {
                self.status[i] = StatusCfg {
                    effect: s.effect,
                    color: b[1 + 2 * i] & 0x7,
                    brightness: b[2 + 2 * i],
                    speed: s.speed,
                };
            }
            i = i + 1;
        }
    }
}

/// Clamps a runtime LED count to the compile-time ceiling. The count comes from
/// a host-writable record that survives factory resets, so a value that is too
/// large saturates.
pub fn clamp_leds(n: u8, max: u8) -> (r: u8)
    ensures
        r == (if n <= max {
            n
        } else {
            max
        }),
{
    if n <= max {
        n
    } else {
        max
    }
}

/// Applying an encoded config gives the config back, whatever it is laid over,
/// for every config whose colors are palette indices.
pub proof fn law_apply_encode(c: LedConfig, over: LedConfig)
    requires
        forall|i: int| 0 <= i < 4 ==> (#[trigger] c.status@[i]).color <= 7,
    ensures
        steady_after(over.steady, encoded(c)) == c.steady,
        forall|i: int|
            0 <= i < 4 ==> #[trigger] status_after(over.status@[i], i, encoded(c)) == c.status@[i],
{
    assert forall|i: int| 0 <= i < 4 implies #[trigger] status_after(
        over.status@[i],
        i,
        encoded(c),
    ) == c.status@[i] by {
        let k = c.status@[i].color;
        assert((k & 0x7) & 0x7 == k) by (bit_vector)
            requires
                k <= 7,
        ;
        let b = encoded(c);
        assert(b[1 + 4 * i] == c.status@[i].effect);
        assert(b[2 + 4 * i] == k & 0x7);
        assert(b[3 + 4 * i] == c.status@[i].brightness);
        assert(b[4 + 4 * i] == c.status@[i].speed);
    }
}

/// A block of fewer than two bytes changes nothing.
pub proof fn law_short_block_ignored(over: LedConfig, b: Seq<u8>, i: int)
    requires
        b.len() < 2,
        0 <= i < 4,
    ensures
        steady_after(over.steady, b) == over.steady,
        status_after(over.status@[i], i, b) == over.status@[i],
{
}

/// A block without speeds says what a whole block says in which the speeds are
/// those that were there.
pub proof fn law_block_without_speeds(over: LedConfig, b: Seq<u8>, i: int)
    requires
        b.len() == 13,
        0 <= i < 4,
    ensures
        ({
            let whole = Seq::new(
                17,
                |p: int|
                    if p == 0 {
                        b[0]
                    } else if (p - 1) % 4 == 3 {
                        over.status@[(p - 1) / 4].speed
                    } else {
                        b[1 + 3 * ((p - 1) / 4) + (p - 1) % 4]
                    },
            );
            &&& status_after(over.status@[i], i, b) == status_after(over.status@[i], i, whole)
            &&& steady_after(over.steady, b) == steady_after(over.steady, whole)
        }),
{
}

/// A color is one of eight, whatever the block says, and the steady flag of a
/// block is on exactly where its byte is not zero.
pub proof fn law_color_in_range(s: StatusCfg, i: int, b: Seq<u8>, steady: bool)
    requires
        s.color <= 7,
        0 <= i < 4,
    ensures
        status_after(s, i, b).color <= 7,
        b.len() >= 7 ==> (steady_after(steady, b) <==> b[0] != 0),
        b.len() < 3 ==> steady_after(steady, b) == steady,
{
    let x = b[2 + 4 * i];
    let y = b[2 + 3 * i];
    let z = b[1 + 2 * i];
    let u = b[1];
    assert(x & 0x7 <= 7) by (bit_vector);
    assert(y & 0x7 <= 7) by (bit_vector);
    assert(z & 0x7 <= 7) by (bit_vector);
    assert(u & 0x7 <= 7) by (bit_vector);
}

/// A block of pairs lays color and brightness over the statuses that it reaches,
/// and leaves effect and speed alone; a block of two or three bytes does so for the
/// first status, brightness first.
pub proof fn law_old_blocks(s: StatusCfg, i: int, b: Seq<u8>)
    requires
        0 <= i < 4,
        b.len() < 13,
    ensures
        status_after(s, i, b).effect == s.effect,
        status_after(s, i, b).speed == s.speed,
        b.len() >= 7 && 2 + 2 * i < b.len() ==> status_after(s, i, b).color == b[1 + 2 * i] & 0x7
            && status_after(s, i, b).brightness == b[2 + 2 * i],
        2 <= b.len() < 7 && i == 0 ==> status_after(s, i, b).color == b[1] & 0x7 && status_after(
            s,
            i,
            b,
        ).brightness == b[0],
        b.len() < 2 || (b.len() < 7 && i > 0) || (b.len() >= 7 && 2 + 2 * i >= b.len())
            ==> status_after(s, i, b) == s,
{
}

}
