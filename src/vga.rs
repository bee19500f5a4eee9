use vstd::prelude::*;

verus! {

/// The sixteen colors of the fixed part of the palette.
#[derive(Debug, Clone, Copy, PartialEq, Eq, Structural)]
pub enum Color {
    Black,
    LightRed,
    LightGreen,
    LightYellow,
    LightBlue,
    LightPurple,
    LightCyan,
    White,
    LightGray,
    DarkRed,
    DarkGreen,
    DarkYellow,
    DarkBlue,
    DarkPurple,
    DarkCyan,
    DarkGray,
}

/// Palette number of a color.
pub open spec fn color_code(c: Color) -> int {
    match c {
        Color::Black => 0,
        Color::LightRed => 1,
        Color::LightGreen => 2,
        Color::LightYellow => 3,
        Color::LightBlue => 4,
        Color::LightPurple => 5,
        Color::LightCyan => 6,
        Color::White => 7,
        Color::LightGray => 8,
        Color::DarkRed => 9,
        Color::DarkGreen => 10,
        Color::DarkYellow => 11,
        Color::DarkBlue => 12,
        Color::DarkPurple => 13,
        Color::DarkCyan => 14,
        Color::DarkGray => 15,
    }
}

/// The color with palette number `n`, if `n` is one of the sixteen.
pub fn to_color(n: i8) -> (r: Option<Color>)
    ensures
        (0 <= n < 16) <==> r.is_some(),
        r.is_some() ==> color_code(r.unwrap()) == n as int,
{
    match n {
        0 => Some(Color::Black),
        1 => Some(Color::LightRed),
        2 => Some(Color::LightGreen),
        3 => Some(Color::LightYellow),
        4 => Some(Color::LightBlue),
        5 => Some(Color::LightPurple),
        6 => Some(Color::LightCyan),
        7 => Some(Color::White),
        8 => Some(Color::LightGray),
        9 => Some(Color::DarkRed),
        10 => Some(Color::DarkGreen),
        11 => Some(Color::DarkYellow),
        12 => Some(Color::DarkBlue),
        13 => Some(Color::DarkPurple),
        14 => Some(Color::DarkCyan),
        15 => Some(Color::DarkGray),
        _ => None,
    }
}

/// Red, green and blue of the palette's color number `i`, for `i < 16`.
pub open spec fn base_rgb(i: int) -> (u8, u8, u8) {
    if i == 0 {
        (0x00, 0x00, 0x00)
    } else if i == 1 {
        (0xff, 0x00, 0x00)
    } else if i == 2 {
        (0x00, 0xff, 0x00)
    } else if i == 3 {
        (0xff, 0xff, 0x00)
    } else if i == 4 {
        (0x00, 0x00, 0xff)
    } else if i == 5 {
        (0xff, 0x00, 0xff)
    } else if i == 6 {
        (0x00, 0xff, 0xff)
    } else if i == 7 {
        (0xff, 0xff, 0xff)
    } else if i == 8 {
        (0xc6, 0xc6, 0xc6)
    } else if i == 9 {
        (0x84, 0x00, 0x00)
    } else if i == 10 {
        (0x00, 0x84, 0x00)
    } else if i == 11 {
        (0x84, 0x84, 0x00)
    } else if i == 12 {
        (0x00, 0x00, 0x84)
    } else if i == 13 {
        (0x84, 0x00, 0x84)
    } else if i == 14 {
        (0x00, 0x84, 0x84)
    } else {
        (0x84, 0x84, 0x84)
    }
}

/// Red, green and blue of color number `i` of the palette: the sixteen
/// fixed colors, then a 6 x 6 x 6 cube with levels 0, 51, ..., 255.
pub open spec fn palette_rgb(i: int) -> (u8, u8, u8) {
    if i < 16 {
        base_rgb(i)
    } else {
        let k = i - 16;
        ((k % 6 * 51) as u8, (k / 6 % 6 * 51) as u8, (k / 36 * 51) as u8)
    }
}

/// Number of palette entries that are set.
pub const PALETTE_COLORS: usize = 232;

fn base_rgb_exec(i: usize) -> (r: (u8, u8, u8))
    requires
        i < 16,
    ensures
        r == base_rgb(i as int),
{
    match i {
        0 => (0x00, 0x00, 0x00),
        1 => (0xff, 0x00, 0x00),
        2 => (0x00, 0xff, 0x00),
        3 => (0xff, 0xff, 0x00),
        4 => (0x00, 0x00, 0xff),
        5 => (0xff, 0x00, 0xff),
        6 => (0x00, 0xff, 0xff),
        7 => (0xff, 0xff, 0xff),
        8 => (0xc6, 0xc6, 0xc6),
        9 => (0x84, 0x00, 0x00),
        10 => (0x00, 0x84, 0x00),
        11 => (0x84, 0x84, 0x00),
        12 => (0x00, 0x00, 0x84),
        13 => (0x84, 0x00, 0x84),
        14 => (0x00, 0x84, 0x84),
        _ => (0x84, 0x84, 0x84),
    }
}

/// The bytes to send to the palette port, from color 0 on: red, green and
/// blue of each color, divided by 4 since the port takes six bits.
pub fn init_palette() -> (r: Vec<u8>)
    ensures
        r@.len() == 3 * PALETTE_COLORS,
        forall|i: int|
            0 <= i < PALETTE_COLORS ==> {
                let (red, green, blue) = #[trigger] palette_rgb(i);
                &&& r@[3 * i] == red / 4
                &&& r@[3 * i + 1] == green / 4
                &&& r@[3 * i + 2] == blue / 4
            },
{
    let mut r: Vec<u8> = Vec::new();
    let mut i: usize = 0;
    while i < PALETTE_COLORS
        invariant
            i <= PALETTE_COLORS,
            r@.len() == 3 * i,
            forall|j: int|
                0 <= j < i ==> {
                    let (red, green, blue) = #[trigger] palette_rgb(j);
                    &&& r@[3 * j] == red / 4
                    &&& r@[3 * j + 1] == green / 4
                    &&& r@[3 * j + 2] == blue / 4
                },
        decreases PALETTE_COLORS - i,
    {
        let (red, green, blue) = if i < 16 {
            base_rgb_exec(i)
        } else {
            let k = i - 16;
            ((k % 6 * 51) as u8, (k / 6 % 6 * 51) as u8, (k / 36 * 51) as u8)
        };
        r.push(red / 4);
        r.push(green / 4);
        r.push(blue / 4);
        proof {
            assert(palette_rgb(i as int) == (red, green, blue));
        }
        i = i + 1;
    }
    r
}

} // verus!
