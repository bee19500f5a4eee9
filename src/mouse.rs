use vstd::prelude::*;

verus! {

/// Byte the mouse sends when it accepts the enable command.
pub const MOUSE_ACK: u8 = 0xfa;

/// Where the decoder stands in the mouse's three-byte packets.
#[derive(Debug, Clone, Copy, PartialEq, Eq, Structural)]
pub enum MouseDecPhase {
    /// Waiting for the acknowledgement of the enable command.
    Start,
    /// Waiting for the first byte of a packet.
    First,
    Second,
    Third,
}

/// Decoder of the packets of a PS/2 mouse.
#[derive(Debug)]
pub struct MouseDec {
    pub buf: [u8; 3],
    pub phase: MouseDecPhase,
    /// Horizontal motion of the last packet.
    pub x: i32,
    /// Vertical motion of the last packet, upwards positive on screen.
    pub y: i32,
    /// Button bits of the last packet.
    pub btn: i32,
}

/// Whether `b` can be the first byte of a packet.
pub open spec fn is_header(b: u8) -> bool {
    b & 0xc8 == 0x08
}

/// A motion byte, sign-extended by the header's sign bit `sign`.
pub open spec fn motion(header: u8, b: u8, sign: u8) -> int {
    if header & sign != 0 {
        b as int - 256
    } else {
        b as int
    }
}

impl MouseDec {
    /// A decoder waiting for the acknowledgement.
    pub fn new() -> (r: MouseDec)
        ensures
            r.phase == MouseDecPhase::Start,
            r.x == 0 && r.y == 0 && r.btn == 0,
    {
        MouseDec { buf: [0u8; 3], phase: MouseDecPhase::Start, x: 0, y: 0, btn: 0 }
    }

    /// Feeds one byte. Returns `Some(())` when it completes a packet, whose
    /// buttons and motion are then in `btn`, `x` and `y`.
    pub fn decode(&mut self, data: u8) -> (r: Option<()>)
        ensures
            match old(self).phase {
                MouseDecPhase::Start => {
                    &&& r is None
                    &&& final(self).phase == if data == MOUSE_ACK {
                        MouseDecPhase::First
                    } else {
                        MouseDecPhase::Start
                    }
                    &&& final(self).buf == old(self).buf
                },
                MouseDecPhase::First => {
                    &&& r is None
                    &&& if is_header(data) {
                        &&& final(self).phase == MouseDecPhase::Second
                        &&& final(self).buf@ == old(self).buf@.update(0, data)
                    } else {
                        &&& final(self).phase == MouseDecPhase::First
                        &&& final(self).buf == old(self).buf
                    }
                },
                MouseDecPhase::Second => {
                    &&& r is None
                    &&& final(self).phase == MouseDecPhase::Third
                    &&& final(self).buf@ == old(self).buf@.update(1, data)
                },
                MouseDecPhase::Third => {
                    let h = old(self).buf[0];
                    &&& r is Some
                    &&& final(self).phase == MouseDecPhase::First
                    &&& final(self).buf@ == old(self).buf@.update(2, data)
                    &&& final(self).btn == (h & 0x07) as int
                    &&& final(self).x == motion(h, old(self).buf[1], 0x10)
                    &&& final(self).y == -motion(h, data, 0x20)
                },
            },
            old(self).phase != MouseDecPhase::Third ==> {
                &&& final(self).x == old(self).x
                &&& final(self).y == old(self).y
                &&& final(self).btn == old(self).btn
            },
    {
        match self.phase {
            MouseDecPhase::Start => {
                if data == MOUSE_ACK {
                    self.phase = MouseDecPhase::First;
                }
                None
            },
            MouseDecPhase::First => {
                if (data & 0xc8) == 0x08 {
                    self.buf[0] = data;
                    self.phase = MouseDecPhase::Second;
                }
                None
            },
            MouseDecPhase::Second => {
                self.buf[1] = data;
                self.phase = MouseDecPhase::Third;
                None
            },
            MouseDecPhase::Third => {
                self.buf[2] = data;
                self.phase = MouseDecPhase::First;
                let h = self.buf[0];
                let b1 = self.buf[1];
                self.btn = (h & 0x07) as i32;
                let mut x = b1 as i32;
                if (h & 0x10) != 0 {
                    x = (b1 as u32 | 0xffff_ff00) as i32;
                    assert((b1 as u32 | 0xffff_ff00u32) as i32 == b1 as i32 - 256) by (bit_vector);
                }
                let mut y = data as i32;
                if (h & 0x20) != 0 {
                    y = (data as u32 | 0xffff_ff00) as i32;
                    assert((data as u32 | 0xffff_ff00u32) as i32 == data as i32 - 256)
                        by (bit_vector);
                }
                self.x = x;
                self.y = -y;
                Some(())
            },
        }
    }
}

} // verus!
