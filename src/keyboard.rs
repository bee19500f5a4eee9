use vstd::prelude::*;

verus! {

/// Offset added to a key code before it is queued.
pub const KEYBOARD_OFFSET: u32 = 256;

/// Command that sets the keyboard's lamps.
pub const KEYCMD_LED: u8 = 0xed;

/// State of the three lock keys.
#[derive(Debug, Clone, Copy, PartialEq, Eq, Structural)]
pub struct LockKeys {
    pub scroll_lock: bool,
    pub num_lock: bool,
    pub caps_lock: bool,
}

impl LockKeys {
    /// The lamp byte of the keyboard: bit 0 scroll, bit 1 num, bit 2 caps.
    pub fn as_bytes(&self) -> (r: u8)
        ensures
            r == (if self.scroll_lock {
                1int
            } else {
                0
            }) + (if self.num_lock {
                2int
            } else {
                0
            }) + (if self.caps_lock {
                4int
            } else {
                0
            }),
    {
        let mut result: u8 = 0;
        result = result + if self.scroll_lock {
            1
        } else {
            0
        };
        result = result + if self.num_lock {
            2
        } else {
            0
        };
        result = result + if self.caps_lock {
            4
        } else {
            0
        };
        result
    }

    /// The lock keys as the boot loader records them, in bits 4 to 6 of
    /// `leds`.
    pub fn from_boot_info(leds: i16) -> (r: LockKeys)
        ensures
            r.scroll_lock == ((leds >> 4u32) & 1 != 0),
            r.num_lock == ((leds >> 4u32) & 2 != 0),
            r.caps_lock == ((leds >> 4u32) & 4 != 0),
    {
        let keys = leds >> 4u32;
        LockKeys {
            scroll_lock: (keys & 1) != 0,
            num_lock: (keys & 2) != 0,
            caps_lock: (keys & 4) != 0,
        }
    }
}

} // verus!
