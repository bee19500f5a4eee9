use vstd::prelude::*;

use crate::vga::Color;

verus! {

/// Number of sheets a manager holds.
pub const MAX_SHEETS: usize = 256;

/// Whether a sheet slot is handed out.
#[derive(Debug, Clone, Copy, PartialEq, Eq, Structural)]
pub enum SheetFlag {
    Available,
    Used,
}

/// A rectangular layer of pixels placed on the screen.
#[derive(Debug, Clone, Copy, PartialEq, Eq, Structural)]
pub struct Sheet {
    /// Address of the sheet's pixels, one byte each, row by row.
    pub buf_addr: usize,
    pub width: i32,
    pub height: i32,
    /// Screen position of the top left corner.
    pub x: i32,
    pub y: i32,
    /// Color drawn as see-through, if any.
    pub transparent: Option<Color>,
    /// Height in the stack of shown sheets, or `None` when hidden.
    pub z: Option<usize>,
    pub flag: SheetFlag,
}

impl Sheet {
    /// A free, hidden, empty sheet at the origin.
    pub fn new() -> (r: Sheet)
        ensures
            r == (Sheet {
                buf_addr: 0,
                width: 0,
                height: 0,
                x: 0,
                y: 0,
                transparent: None,
                z: None,
                flag: SheetFlag::Available,
            }),
    {
        Sheet {
            buf_addr: 0,
            width: 0,
            height: 0,
            x: 0,
            y: 0,
            transparent: None,
            z: None,
            flag: SheetFlag::Available,
        }
    }

    /// Gives the sheet its pixels, size and see-through color.
    pub fn set(&mut self, buf_addr: usize, width: i32, height: i32, transparent: Option<Color>)
        ensures
            *final(self) == (Sheet { buf_addr, width, height, transparent, ..*old(self) }),
    {
        self.buf_addr = buf_addr;
        self.width = width;
        self.height = height;
        self.transparent = transparent;
    }
}

/// The point `p + d` kept inside `[0, max]`.
pub open spec fn clamp_to(p: int, d: int, max: int) -> int {
    if p + d < 0 {
        0
    } else if p + d > max {
        max
    } else {
        p + d
    }
}

/// Every shown sheet records its height in the stack, and every sheet
/// that records a height is shown there.
pub open spec fn stack_ok(stack: Seq<usize>, data: Seq<Sheet>) -> bool {
    &&& stack.no_duplicates()
    &&& forall|h: int|
        0 <= h < stack.len() ==> #[trigger] stack[h] < MAX_SHEETS && data[stack[h] as int].z == Some(
            h as usize,
        )
    &&& forall|j: int|
        0 <= j < MAX_SHEETS && (#[trigger] data[j]).z is Some ==> {
            let h = data[j].z->0;
            h < stack.len() && stack[h as int] == j
        }
}

/// The stack after sheet `i` is taken out of it, if shown, and put back at
/// height `z`, or at the top if `z` is higher; or left out for `None`.
pub open spec fn restacked(stack: Seq<usize>, i: usize, old_z: Option<usize>, z: Option<usize>) -> Seq<
    usize,
> {
    let s0 = match old_z {
        Some(o) => stack.remove(o as int),
        None => stack,
    };
    match z {
        Some(h) => s0.insert(
            if h <= s0.len() {
                h as int
            } else {
                s0.len() as int
            },
            i,
        ),
        None => s0,
    }
}

/// What `restacked` keeps: distinct sheets, each one either `i` or shown
/// before, and every sheet shown before but `i` still shown.
proof fn lemma_restacked(stack: Seq<usize>, data: Seq<Sheet>, i: usize, z: Option<usize>)
    requires
        stack_ok(stack, data),
        data.len() == MAX_SHEETS,
        i < MAX_SHEETS,
    ensures
        ({
            let ns = restacked(stack, i, data[i as int].z, z);
            &&& ns.no_duplicates()
            &&& forall|p: int| 0 <= p < ns.len() ==> #[trigger] ns[p] < MAX_SHEETS
            &&& forall|j: usize| j != i && stack.contains(j) ==> #[trigger] ns.contains(j)
            &&& forall|j: usize| #[trigger] ns.contains(j) ==> j == i || stack.contains(j)
            &&& ns.contains(i) <==> z is Some
        }),
{
    let old_z = data[i as int].z;
    let s0 = match old_z {
        Some(o) => stack.remove(o as int),
        None => stack,
    };
    let ns = restacked(stack, i, old_z, z);
    match old_z {
        Some(o) => {
            assert(stack[o as int] == i);
            stack.remove_ensures(o as int);
            assert forall|q: int| 0 <= q < s0.len() implies #[trigger] s0[q] == stack[if q < o {
                q
            } else {
                q + 1
            }] by {}
        },
        None => {},
    }
    assert(!s0.contains(i)) by {
        if s0.contains(i) {
            let q = choose|q: int| 0 <= q < s0.len() && s0[q] == i;
            match old_z {
                Some(o) => {
                    let oq = if q < o { q } else { q + 1 };
                    assert(stack[oq] == stack[o as int]);
                },
                None => {
                    assert(data[i as int].z == Some(q as usize));
                },
            }
        }
    }
    assert(s0.no_duplicates()) by {
        match old_z {
            Some(o) => {
                assert forall|a: int, b: int| 0 <= a < b < s0.len() implies s0[a] != s0[b] by {
                    let oa = if a < o { a } else { a + 1 };
                    let ob = if b < o { b } else { b + 1 };
                    assert(stack[oa] != stack[ob]);
                }
            },
            None => {},
        }
    }
    assert forall|j: usize| j != i && stack.contains(j) implies #[trigger] s0.contains(j) by {
        match old_z {
            Some(o) => {
                let q = choose|q: int| 0 <= q < stack.len() && stack[q] == j;
                assert(q != o);
                if q < o {
                    assert(s0[q] == j);
                } else {
                    assert(s0[q - 1] == j);
                }
            },
            None => {},
        }
    }
    assert forall|j: usize| #[trigger] s0.contains(j) implies stack.contains(j) by {
        let q = choose|q: int| 0 <= q < s0.len() && s0[q] == j;
        match old_z {
            Some(o) => {
                let oq = if q < o { q } else { q + 1 };
                assert(stack[oq] == j);
            },
            None => {},
        }
    }
    match z {
        Some(h) => {
            let p = if h <= s0.len() {
                h as int
            } else {
                s0.len() as int
            };
            s0.insert_ensures(p, i);
            assert forall|q: int| 0 <= q < ns.len() implies #[trigger] ns[q] == if q < p {
                s0[q]
            } else if q == p {
                i
            } else {
                s0[q - 1]
            } by {}
            assert forall|a: int, b: int| 0 <= a < b < ns.len() implies ns[a] != ns[b] by {
                if a == p {
                    assert(s0.contains(ns[b]));
                } else if b == p {
                    assert(s0.contains(ns[a]));
                }
            }
            assert forall|j: usize| j != i && stack.contains(j) implies #[trigger] ns.contains(j) by {
                assert(s0.contains(j));
                let q = choose|q: int| 0 <= q < s0.len() && s0[q] == j;
                if q < p {
                    assert(ns[q] == j);
                } else {
                    assert(ns[q + 1] == j);
                }
            }
            assert forall|j: usize| #[trigger] ns.contains(j) implies j == i || stack.contains(j) by {
                let q = choose|q: int| 0 <= q < ns.len() && ns[q] == j;
                if q < p {
                    assert(s0.contains(s0[q]));
                } else if q > p {
                    assert(s0.contains(s0[q - 1]));
                }
            }
            assert(ns[p] == i);
            assert forall|q: int| 0 <= q < ns.len() implies #[trigger] ns[q] < MAX_SHEETS by {
                if q != p {
                    assert(stack.contains(ns[q]));
                    let w = choose|w: int| 0 <= w < stack.len() && stack[w] == ns[q];
                    assert(stack[w] < MAX_SHEETS);
                }
            }
        },
        None => {
            assert forall|q: int| 0 <= q < ns.len() implies #[trigger] ns[q] < MAX_SHEETS by {
                assert(s0.contains(ns[q]));
                assert(stack.contains(ns[q]));
                let w = choose|w: int| 0 <= w < stack.len() && stack[w] == ns[q];
                assert(stack[w] < MAX_SHEETS);
            }
        },
    }
}

/// Whether `a` and `b` differ at most in their height.
pub open spec fn same_but_z(a: Sheet, b: Sheet) -> bool {
    (Sheet { z: None, ..a }) == (Sheet { z: None, ..b })
}

/// The screen rectangle that sheet `sh` covers.
pub open spec fn area(sh: Sheet) -> (i64, i64, i64, i64) {
    (sh.x as i64, sh.y as i64, (sh.x + sh.width) as i64, (sh.y + sh.height) as i64)
}

/// The steps that redraw the area of `sh` after its height went from
/// `old_z` to `new_z`.
pub open spec fn restack_redraws(sh: Sheet, old_z: Option<usize>, new_z: Option<usize>) -> Seq<
    Redraw,
> {
    let (x0, y0, x1, y1) = area(sh);
    match (old_z, new_z) {
        (Some(o), Some(n)) => if o > n {
            seq![
                Redraw::Remap { x0, y0, x1, y1, z0: n },
                Redraw::Repaint { x0, y0, x1, y1, z0: n, z_end: (o + 1) as usize },
            ]
        } else if o < n {
            seq![
                Redraw::Remap { x0, y0, x1, y1, z0: n },
                Redraw::Repaint { x0, y0, x1, y1, z0: n, z_end: (n + 1) as usize },
            ]
        } else {
            Seq::empty()
        },
        (Some(o), None) => seq![
            Redraw::Remap { x0, y0, x1, y1, z0: 0 },
            Redraw::Repaint { x0, y0, x1, y1, z0: 0, z_end: o },
        ],
        (None, Some(n)) => seq![
            Redraw::Remap { x0, y0, x1, y1, z0: n },
            Redraw::Repaint { x0, y0, x1, y1, z0: n, z_end: (n + 1) as usize },
        ],
        (None, None) => Seq::empty(),
    }
}

/// The steps that redraw the area of `sh` after its height went from
/// `old_z` to `new_z`.
fn restack_steps(sh: Sheet, old_z: Option<usize>, new_z: Option<usize>) -> (r: Vec<Redraw>)
    requires
        old_z is Some ==> old_z->0 < usize::MAX,
        new_z is Some ==> new_z->0 < usize::MAX,
    ensures
        r@ == restack_redraws(sh, old_z, new_z),
{
    let x0 = sh.x as i64;
    let y0 = sh.y as i64;
    let x1 = sh.x as i64 + sh.width as i64;
    let y1 = sh.y as i64 + sh.height as i64;
    let mut r: Vec<Redraw> = Vec::new();
    match (old_z, new_z) {
        (Some(o), Some(n)) => {
            if o > n {
                r.push(Redraw::Remap { x0, y0, x1, y1, z0: n });
                r.push(Redraw::Repaint { x0, y0, x1, y1, z0: n, z_end: o + 1 });
            } else if o < n {
                r.push(Redraw::Remap { x0, y0, x1, y1, z0: n });
                r.push(Redraw::Repaint { x0, y0, x1, y1, z0: n, z_end: n + 1 });
            }
        },
        (Some(o), None) => {
            r.push(Redraw::Remap { x0, y0, x1, y1, z0: 0 });
            r.push(Redraw::Repaint { x0, y0, x1, y1, z0: 0, z_end: o });
        },
        (None, Some(n)) => {
            r.push(Redraw::Remap { x0, y0, x1, y1, z0: n });
            r.push(Redraw::Repaint { x0, y0, x1, y1, z0: n, z_end: n + 1 });
        },
        (None, None) => {},
    }
    proof {
        assert(r@ =~= restack_redraws(sh, old_z, new_z));
    }
    r
}

/// One step of bringing the screen up to date.
#[derive(Debug, Clone, Copy, PartialEq, Eq, Structural)]
pub enum Redraw {
    /// Record, over the rectangle, which sheet from height `z0` up shows.
    Remap { x0: i64, y0: i64, x1: i64, y1: i64, z0: usize },
    /// Copy to the screen, over the rectangle, the pixels of the sheets
    /// at heights `z0` up to but not including `z_end` that show.
    Repaint { x0: i64, y0: i64, x1: i64, y1: i64, z0: usize, z_end: usize },
}

/// The sheets of the screen.
pub struct SheetManager {
    /// Address of the map that records which sheet shows at each pixel.
    pub map_addr: i32,
    /// Width of the screen in pixels.
    pub screen_width: i32,
    /// Height of the screen in pixels.
    pub screen_height: i32,
    /// Slots of the shown sheets, from the bottom up.
    pub sheets: Vec<usize>,
    pub sheets_data: Vec<Sheet>,
}

impl SheetManager {
    /// The stack of shown sheets and the heights recorded in the sheets
    /// agree.
    pub open spec fn wf(&self) -> bool {
        &&& self.sheets_data@.len() == MAX_SHEETS
        &&& stack_ok(self.sheets@, self.sheets_data@)
    }

    /// A manager of a screen of the given size with every sheet free.
    pub fn new(map_addr: i32, screen_width: i32, screen_height: i32) -> (r: SheetManager)
        ensures
            r.wf(),
            r.sheets@ == Seq::<usize>::empty(),
            r.map_addr == map_addr,
            r.screen_width == screen_width,
            r.screen_height == screen_height,
            forall|i: int| 0 <= i < MAX_SHEETS ==> #[trigger] r.sheets_data@[i].flag == SheetFlag::Available
                && r.sheets_data@[i].z.is_none(),
    {
        let sheets: Vec<usize> = Vec::new();
        let mut sheets_data: Vec<Sheet> = Vec::new();
        let mut i: usize = 0;
        while i < MAX_SHEETS
            invariant
                i <= MAX_SHEETS,
                sheets@.len() == 0,
                sheets_data@.len() == i,
                forall|j: int|
                    0 <= j < i ==> #[trigger] sheets_data@[j].flag == SheetFlag::Available
                        && sheets_data@[j].z.is_none(),
            decreases MAX_SHEETS - i,
        {
            sheets_data.push(Sheet::new());
            i = i + 1;
        }
        let r = SheetManager { map_addr, screen_width, screen_height, sheets, sheets_data };
        proof {
            assert forall|j: int| 0 <= j < MAX_SHEETS implies !((#[trigger] r.sheets_data@[j]).z is Some) by {
                assert(r.sheets_data@[j].flag == SheetFlag::Available);
            }
        }
        r
    }

    /// Gives sheet `i` its pixels, size and see-through color.
    pub fn set_buf(
        &mut self,
        i: usize,
        buf_addr: usize,
        width: i32,
        height: i32,
        transparent: Option<Color>,
    )
        requires
            old(self).wf(),
            i < MAX_SHEETS,
        ensures
            final(self).wf(),
            final(self).sheets_data@ == old(self).sheets_data@.update(
                i as int,
                Sheet { buf_addr, width, height, transparent, ..old(self).sheets_data@[i as int] },
            ),
            final(self).sheets@ == old(self).sheets@,
    {
        let mut sh = self.sheets_data[i];
        sh.set(buf_addr, width, height, transparent);
        self.sheets_data.set(i, sh);
        proof {
            assert(forall|j: int|
                0 <= j < MAX_SHEETS ==> #[trigger] self.sheets_data@[j].z == old(
                    self,
                ).sheets_data@[j].z);
        }
    }

    /// Address of the pixels of sheet `i`.
    pub fn get_buf_addr(&self, i: usize) -> (r: usize)
        requires
            self.wf(),
            i < MAX_SHEETS,
        ensures
            r == self.sheets_data@[i as int].buf_addr,
    {
        self.sheets_data[i].buf_addr
    }

    /// Where sheet `i` lands when moved by `(dx, dy)`: its corner kept on
    /// the screen.
    pub fn get_new_point(&self, i: usize, dx: i32, dy: i32) -> (r: (i32, i32))
        requires
            self.wf(),
            i < MAX_SHEETS,
            self.screen_width >= 1,
            self.screen_height >= 1,
        ensures
            r.0 == clamp_to(
                self.sheets_data@[i as int].x as int,
                dx as int,
                self.screen_width - 1,
            ),
            r.1 == clamp_to(
                self.sheets_data@[i as int].y as int,
                dy as int,
                self.screen_height - 1,
            ),
    {
        let sheet = self.sheets_data[i];
        let nx: i64 = sheet.x as i64 + dx as i64;
        let ny: i64 = sheet.y as i64 + dy as i64;
        let xmax: i64 = self.screen_width as i64 - 1;
        let ymax: i64 = self.screen_height as i64 - 1;
        let new_x: i64 = if nx < 0 {
            0
        } else if nx > xmax {
            xmax
        } else {
            nx
        };
        let new_y: i64 = if ny < 0 {
            0
        } else if ny > ymax {
            ymax
        } else {
            ny
        };
        (new_x as i32, new_y as i32)
    }

    /// Height of the topmost shown sheet, `None` when none is shown.
    pub fn z_max(&self) -> (r: Option<usize>)
        ensures
            r == if self.sheets@.len() == 0 {
                None
            } else {
                Some((self.sheets@.len() - 1) as usize)
            },
    {
        if self.sheets.len() == 0 {
            None
        } else {
            Some(self.sheets.len() - 1)
        }
    }

    /// Hands out the lowest free sheet, marked used and hidden.
    pub fn allocate(&mut self) -> (r: Option<usize>)
        requires
            old(self).wf(),
        ensures
            final(self).wf(),
            final(self).sheets@ == old(self).sheets@,
            match r {
                Some(i) => {
                    &&& i < MAX_SHEETS
                    &&& old(self).sheets_data@[i as int].flag == SheetFlag::Available
                    &&& forall|j: int| 0 <= j < i ==> #[trigger] old(self).sheets_data@[j].flag == SheetFlag::Used
                    &&& final(self).sheets_data@ == old(self).sheets_data@.update(
                        i as int,
                        Sheet { flag: SheetFlag::Used, ..old(self).sheets_data@[i as int] },
                    )
                },
                None => {
                    &&& forall|j: int| 0 <= j < MAX_SHEETS ==> #[trigger] old(self).sheets_data@[j].flag == SheetFlag::Used
                    &&& final(self).sheets_data@ == old(self).sheets_data@
                },
            },
    {
        let mut i: usize = 0;
        while i < MAX_SHEETS
            invariant
                self.wf(),
                *self == *old(self),
                i <= MAX_SHEETS,
                forall|j: int| 0 <= j < i ==> #[trigger] self.sheets_data@[j].flag == SheetFlag::Used,
            decreases MAX_SHEETS - i,
        {
            if self.sheets_data[i].flag == SheetFlag::Available {
                let mut sh = self.sheets_data[i];
                sh.flag = SheetFlag::Used;
                self.sheets_data.set(i, sh);
                proof {
                    assert(forall|j: int|
                        0 <= j < MAX_SHEETS ==> #[trigger] self.sheets_data@[j].z == old(
                            self,
                        ).sheets_data@[j].z);
                }
                return Some(i);
            }
            i = i + 1;
        }
        None
    }

    /// Moves sheet `i` to height `z` of the stack of shown sheets (to the
    /// top if `z` is higher), or hides it for `None`; the sheets above move
    /// up or down to make room. Returns the steps that redraw its area.
    pub fn updown(&mut self, i: usize, z: Option<usize>) -> (r: Vec<Redraw>)
        requires
            old(self).wf(),
            i < MAX_SHEETS,
        ensures
            final(self).wf(),
            final(self).sheets@ == restacked(
                old(self).sheets@,
                i,
                old(self).sheets_data@[i as int].z,
                z,
            ),
            forall|j: int|
                0 <= j < MAX_SHEETS ==> same_but_z(
                    #[trigger] final(self).sheets_data@[j],
                    old(self).sheets_data@[j],
                ),
            r@ == restack_redraws(
                old(self).sheets_data@[i as int],
                old(self).sheets_data@[i as int].z,
                final(self).sheets_data@[i as int].z,
            ),
            final(self).map_addr == old(self).map_addr,
            final(self).screen_width == old(self).screen_width,
            final(self).screen_height == old(self).screen_height,
    {
        let ghost os = self.sheets@;
        let ghost od = self.sheets_data@;
        let sh = self.sheets_data[i];
        let old_z = sh.z;
        match old_z {
            Some(o) => {
                self.sheets.remove(o);
            },
            None => {},
        }
        let ghost s0 = self.sheets@;
        let new_z: Option<usize> = match z {
            Some(h) => {
                let p = if h <= self.sheets.len() {
                    h
                } else {
                    self.sheets.len()
                };
                self.sheets.insert(p, i);
                let len_now = self.sheets.len();
                proof {
                    assert(p < len_now);
                }
                Some(p)
            },
            None => None,
        };
        let ghost ns = self.sheets@;
        proof {
            assert(ns == restacked(os, i, old_z, z));
            lemma_restacked(os, od, i, z);
            assert forall|j: int|
                0 <= j < MAX_SHEETS && j != i && !ns.contains(j as usize) implies (
            #[trigger] od[j]).z is None by {
                if od[j].z is Some {
                    assert(os[od[j].z->0 as int] == j);
                    assert(os.contains(j as usize));
                }
            }
        }
        self.renumber(i, Ghost(od));
        proof {
            if new_z is Some {
                assert(ns[new_z->0 as int] == i);
            } else {
                assert(!ns.contains(i));
            }
        }
        restack_steps(sh, old_z, new_z)
    }

    /// Records in each sheet its height in the stack `sheets`, and no height
    /// in the sheets that are not there.
    fn renumber(&mut self, i: usize, od: Ghost<Seq<Sheet>>)
        requires
            old(self).sheets@.no_duplicates(),
            forall|p: int| 0 <= p < old(self).sheets@.len() ==> #[trigger] old(self).sheets@[p] < MAX_SHEETS,
            old(self).sheets_data@.len() == MAX_SHEETS,
            i < MAX_SHEETS,
            forall|j: int|
                0 <= j < MAX_SHEETS && j != i && !old(self).sheets@.contains(j as usize) ==> (
                #[trigger] old(self).sheets_data@[j]).z is None,
            forall|j: int| 0 <= j < MAX_SHEETS ==> same_but_z(#[trigger] old(self).sheets_data@[j], od@[j]),
        ensures
            final(self).wf(),
            final(self).sheets@ == old(self).sheets@,
            forall|j: int| 0 <= j < MAX_SHEETS ==> same_but_z(#[trigger] final(self).sheets_data@[j], od@[j]),
            forall|p: int|
                0 <= p < old(self).sheets@.len() ==> final(self).sheets_data@[#[trigger] old(self).sheets@[p] as int].z
                    == Some(p as usize),
            !final(self).sheets@.contains(i) ==> final(self).sheets_data@[i as int].z is None,
            final(self).map_addr == old(self).map_addr,
            final(self).screen_width == old(self).screen_width,
            final(self).screen_height == old(self).screen_height,
    {
        let ghost ns = self.sheets@;
        let mut c = self.sheets_data[i];
        c.z = None;
        self.sheets_data.set(i, c);
        let mut h: usize = 0;
        while h < self.sheets.len()
            invariant
                self.sheets@ == ns,
                ns.no_duplicates(),
                forall|p: int| 0 <= p < ns.len() ==> #[trigger] ns[p] < MAX_SHEETS,
                self.sheets_data@.len() == MAX_SHEETS,
                h <= ns.len(),
                forall|p: int| 0 <= p < h ==> self.sheets_data@[#[trigger] ns[p] as int].z == Some(p as usize),
                forall|j: int|
                    0 <= j < MAX_SHEETS && !ns.contains(j as usize) ==> (#[trigger] self.sheets_data@[j]).z
                        is None,
                forall|j: int| 0 <= j < MAX_SHEETS ==> same_but_z(#[trigger] self.sheets_data@[j], od@[j]),
                self.map_addr == old(self).map_addr,
                self.screen_width == old(self).screen_width,
                self.screen_height == old(self).screen_height,
            decreases ns.len() - h,
        {
            let j = self.sheets[h];
            let mut t = self.sheets_data[j];
            t.z = Some(h);
            self.sheets_data.set(j, t);
            proof {
                assert forall|p: int| 0 <= p < h implies ns[p] != j by {}
                assert(ns.contains(j));
            }
            h = h + 1;
        }
        proof {
            assert forall|j: int| 0 <= j < MAX_SHEETS && (#[trigger] self.sheets_data@[j]).z is Some implies {
                let hz = self.sheets_data@[j].z->0;
                hz < ns.len() && ns[hz as int] == j
            } by {
                if ns.contains(j as usize) {
                    let p = choose|p: int| 0 <= p < ns.len() && ns[p] == j as usize;
                    assert(self.sheets_data@[ns[p] as int].z == Some(p as usize));
                }
            }
        }
    }

    /// Hides sheet `i` if it is shown and frees it. Returns the steps that
    /// redraw its area.
    pub fn free(&mut self, i: usize) -> (r: Vec<Redraw>)
        requires
            old(self).wf(),
            i < MAX_SHEETS,
        ensures
            final(self).wf(),
            final(self).sheets@ == restacked(
                old(self).sheets@,
                i,
                old(self).sheets_data@[i as int].z,
                None,
            ),
            final(self).sheets_data@[i as int] == (Sheet {
                flag: SheetFlag::Available,
                z: None,
                ..old(self).sheets_data@[i as int]
            }),
            forall|j: int|
                0 <= j < MAX_SHEETS && j != i ==> same_but_z(
                    #[trigger] final(self).sheets_data@[j],
                    old(self).sheets_data@[j],
                ),
            r@ == restack_redraws(
                old(self).sheets_data@[i as int],
                old(self).sheets_data@[i as int].z,
                None,
            ),
    {
        let r = if self.sheets_data[i].z.is_some() {
            self.updown(i, None)
        } else {
            let r = restack_steps(self.sheets_data[i], None, None);
            proof {
                assert(restacked(self.sheets@, i, None, None) == self.sheets@);
            }
            r
        };
        proof {
            assert(!self.sheets@.contains(i)) by {
                lemma_restacked(old(self).sheets@, old(self).sheets_data@, i, None);
            }
            if self.sheets_data@[i as int].z is Some {
                let h = self.sheets_data@[i as int].z->0;
                assert(self.sheets@[h as int] == i);
            }
        }
        let ghost mid = self.sheets_data@;
        let mut sh = self.sheets_data[i];
        sh.flag = SheetFlag::Available;
        self.sheets_data.set(i, sh);
        proof {
            assert(forall|j: int|
                0 <= j < MAX_SHEETS ==> #[trigger] self.sheets_data@[j].z == mid[j].z);
        }
        r
    }

    /// Moves sheet `i` so that its corner is at `(x, y)`. Returns, if it is
    /// shown at height `h`, the steps that redraw its old and its new area:
    /// the map of both, then the sheets below it over the old area and the
    /// sheet itself over the new one.
    pub fn slide(&mut self, i: usize, x: i32, y: i32) -> (r: Vec<Redraw>)
        requires
            old(self).wf(),
            i < MAX_SHEETS,
        ensures
            final(self).wf(),
            final(self).sheets@ == old(self).sheets@,
            final(self).sheets_data@ == old(self).sheets_data@.update(
                i as int,
                Sheet { x, y, ..old(self).sheets_data@[i as int] },
            ),
            r@ == match old(self).sheets_data@[i as int].z {
                Some(h) => {
                    let (ox0, oy0, ox1, oy1) = area(old(self).sheets_data@[i as int]);
                    let (nx0, ny0, nx1, ny1) = area(final(self).sheets_data@[i as int]);
                    seq![
                        Redraw::Remap { x0: ox0, y0: oy0, x1: ox1, y1: oy1, z0: 0 },
                        Redraw::Remap { x0: nx0, y0: ny0, x1: nx1, y1: ny1, z0: h },
                        Redraw::Repaint { x0: ox0, y0: oy0, x1: ox1, y1: oy1, z0: 0, z_end: h },
                        Redraw::Repaint {
                            x0: nx0,
                            y0: ny0,
                            x1: nx1,
                            y1: ny1,
                            z0: h,
                            z_end: (h + 1) as usize,
                        },
                    ]
                },
                None => Seq::empty(),
            },
    {
        let sh = self.sheets_data[i];
        let mut moved = sh;
        moved.x = x;
        moved.y = y;
        self.sheets_data.set(i, moved);
        proof {
            assert forall|j: int| 0 <= j < MAX_SHEETS implies #[trigger] self.sheets_data@[j].z
                == old(self).sheets_data@[j].z by {}
        }
        let mut r: Vec<Redraw> = Vec::new();
        match sh.z {
            Some(h) => {
                let n = self.sheets.len();
                proof {
                    assert(h < n);
                }
                let ox0 = sh.x as i64;
                let oy0 = sh.y as i64;
                let ox1 = sh.x as i64 + sh.width as i64;
                let oy1 = sh.y as i64 + sh.height as i64;
                let nx0 = x as i64;
                let ny0 = y as i64;
                let nx1 = x as i64 + sh.width as i64;
                let ny1 = y as i64 + sh.height as i64;
                r.push(Redraw::Remap { x0: ox0, y0: oy0, x1: ox1, y1: oy1, z0: 0 });
                r.push(Redraw::Remap { x0: nx0, y0: ny0, x1: nx1, y1: ny1, z0: h });
                r.push(Redraw::Repaint { x0: ox0, y0: oy0, x1: ox1, y1: oy1, z0: 0, z_end: h });
                r.push(Redraw::Repaint { x0: nx0, y0: ny0, x1: nx1, y1: ny1, z0: h, z_end: h + 1 });
            },
            None => {},
        }
        proof {
            assert(self.sheets_data@[i as int] == (Sheet { x, y, ..old(self).sheets_data@[i as int] }));
            match sh.z {
                Some(h) => {
                    assert(r@ =~= seq![
                        Redraw::Remap { x0: sh.x as i64, y0: sh.y as i64, x1: (sh.x + sh.width) as i64, y1: (sh.y + sh.height) as i64, z0: 0 },
                        Redraw::Remap { x0: x as i64, y0: y as i64, x1: (x + sh.width) as i64, y1: (y + sh.height) as i64, z0: h },
                        Redraw::Repaint { x0: sh.x as i64, y0: sh.y as i64, x1: (sh.x + sh.width) as i64, y1: (sh.y + sh.height) as i64, z0: 0, z_end: h },
                        Redraw::Repaint { x0: x as i64, y0: y as i64, x1: (x + sh.width) as i64, y1: (y + sh.height) as i64, z0: h, z_end: (h + 1) as usize },
                    ]);
                },
                None => {
                    assert(r@ =~= Seq::<Redraw>::empty());
                },
            }
        }
        r
    }

    /// Moves sheet `i` by `(dx, dy)`, its corner kept on the screen.
    pub fn slide_by_diff(&mut self, i: usize, dx: i32, dy: i32) -> (r: Vec<Redraw>)
        requires
            old(self).wf(),
            i < MAX_SHEETS,
            old(self).screen_width >= 1,
            old(self).screen_height >= 1,
        ensures
            final(self).wf(),
            final(self).sheets@ == old(self).sheets@,
            final(self).sheets_data@ == old(self).sheets_data@.update(
                i as int,
                Sheet {
                    x: clamp_to(
                        old(self).sheets_data@[i as int].x as int,
                        dx as int,
                        old(self).screen_width - 1,
                    ) as i32,
                    y: clamp_to(
                        old(self).sheets_data@[i as int].y as int,
                        dy as int,
                        old(self).screen_height - 1,
                    ) as i32,
                    ..old(self).sheets_data@[i as int]
                },
            ),
            r@.len() == if old(self).sheets_data@[i as int].z is Some {
                4int
            } else {
                0
            },
    {
        let (nx, ny) = self.get_new_point(i, dx, dy);
        self.slide(i, nx, ny)
    }

    /// Redraws the part `(x0, y0)`-`(x1, y1)` of sheet `i`, in the sheet's
    /// own coordinates, if it is shown.
    pub fn refresh(&self, i: usize, x0: i32, y0: i32, x1: i32, y1: i32) -> (r: Vec<Redraw>)
        requires
            self.wf(),
            i < MAX_SHEETS,
        ensures
            r@ == match self.sheets_data@[i as int].z {
                Some(h) => {
                    let sh = self.sheets_data@[i as int];
                    seq![
                        Redraw::Repaint {
                            x0: (sh.x + x0) as i64,
                            y0: (sh.y + y0) as i64,
                            x1: (sh.x + x1) as i64,
                            y1: (sh.y + y1) as i64,
                            z0: h,
                            z_end: (h + 1) as usize,
                        },
                    ]
                },
                None => Seq::empty(),
            },
    {
        let sh = self.sheets_data[i];
        let mut r: Vec<Redraw> = Vec::new();
        match sh.z {
            Some(h) => {
                let n = self.sheets.len();
                proof {
                    assert(h < n);
                }
                r.push(
                    Redraw::Repaint {
                        x0: sh.x as i64 + x0 as i64,
                        y0: sh.y as i64 + y0 as i64,
                        x1: sh.x as i64 + x1 as i64,
                        y1: sh.y as i64 + y1 as i64,
                        z0: h,
                        z_end: h + 1,
                    },
                );
            },
            None => {},
        }
        proof {
            assert(r@ =~= match sh.z {
                Some(h) => seq![
                    Redraw::Repaint {
                        x0: (sh.x + x0) as i64,
                        y0: (sh.y + y0) as i64,
                        x1: (sh.x + x1) as i64,
                        y1: (sh.y + y1) as i64,
                        z0: h,
                        z_end: (h + 1) as usize,
                    },
                ],
                None => Seq::<Redraw>::empty(),
            });
        }
        r
    }
}

} // verus!
