use vstd::prelude::*;

verus! {

/// Number of entries of the root directory.
pub const MAX_FILE_INFO: usize = 224;

/// Number of entries of the file allocation table.
pub const MAX_FAT: usize = 2880;

/// Bytes of the packed table on the disk: 12 bits per entry.
pub const FAT_BYTES: usize = 4320;

/// Padding of name fields.
pub const SPACE: u8 = 0x20;

/// Separator of name and extension.
pub const DOT: u8 = 0x2e;

/// Lowest lower-case letter.
pub const LOWER_A: u8 = 0x61;

/// Highest lower-case letter.
pub const LOWER_Z: u8 = 0x7a;

/// First byte of the name of a deleted entry.
pub const ENTRY_DELETED: u8 = 0xe5;

/// Type bits of a directory or a volume label.
pub const TYPE_NOT_FILE: u8 = 0x18;

/// One entry of the root directory, in its disk layout.
#[derive(Debug, Clone, Copy)]
pub struct FileInfo {
    pub name: [u8; 8],
    pub ext: [u8; 3],
    pub ftype: u8,
    pub reserve: [i8; 10],
    pub time: u16,
    pub date: u16,
    pub clustno: u16,
    pub size: u32,
}

/// An open file of an application.
#[derive(Debug, Clone, Copy, PartialEq, Eq, Structural)]
pub struct FileHandler {
    pub buf_addr: usize,
    pub size: i32,
    pub pos: i32,
}

impl FileHandler {
    /// A handler that holds no file.
    pub fn new() -> (r: FileHandler)
        ensures
            r == (FileHandler { buf_addr: 0, size: 0, pos: 0 }),
    {
        FileHandler { buf_addr: 0, size: 0, pos: 0 }
    }
}

/// Entry `2k` of a packed 12-bit table: the low byte, and the low half of
/// the middle byte as its top four bits.
pub open spec fn fat_even(b0: u8, b1: u8) -> u32 {
    (b0 + (b1 % 16) * 256) as u32
}

/// Entry `2k + 1`: the high half of the middle byte, then the last byte.
pub open spec fn fat_odd(b1: u8, b2: u8) -> u32 {
    (b1 / 16 + b2 * 16) as u32
}

/// Unpacks the 12-bit file allocation table `img` into `fat`.
pub fn read_fat(fat: &mut Vec<u32>, img: &Vec<u8>)
    requires
        old(fat)@.len() == MAX_FAT,
        img@.len() >= FAT_BYTES,
    ensures
        final(fat)@.len() == MAX_FAT,
        forall|k: int|
            0 <= k < MAX_FAT / 2 ==> #[trigger] final(fat)@[2 * k] == fat_even(img@[3 * k], img@[3 * k + 1])
                && final(fat)@[2 * k + 1] == fat_odd(img@[3 * k + 1], img@[3 * k + 2]),
{
    let mut i: usize = 0;
    let mut j: usize = 0;
    let ghost mut h: int = 0;
    while i < MAX_FAT
        invariant
            fat@.len() == MAX_FAT,
            img@.len() >= FAT_BYTES,
            i == 2 * h,
            j == 3 * h,
            0 <= h <= MAX_FAT / 2,
            forall|k: int|
                0 <= k < h ==> #[trigger] fat@[2 * k] == fat_even(img@[3 * k], img@[3 * k + 1])
                    && fat@[2 * k + 1] == fat_odd(img@[3 * k + 1], img@[3 * k + 2]),
        decreases MAX_FAT - i,
    {
        let b0 = img[j];
        let b1 = img[j + 1];
        let b2 = img[j + 2];
        let even = ((b0 as u32) | (b1 as u32) << 8u32) & 0xfff;
        let odd = ((b1 as u32) >> 4u32 | (b2 as u32) << 4u32) & 0xfff;
        assert(((b0 as u32) | (b1 as u32) << 8u32) & 0xfffu32 == b0 as u32 + (b1 as u32 % 16)
            * 256) by (bit_vector);
        assert(((b1 as u32) >> 4u32 | (b2 as u32) << 4u32) & 0xfffu32 == b1 as u32 / 16 + b2 as u32
            * 16) by (bit_vector);
        fat.set(i, even);
        fat.set(i + 1, odd);
        proof {
            assert(fat@[2 * h] == fat_even(img@[3 * h], img@[3 * h + 1]));
            assert(fat@[2 * h + 1] == fat_odd(img@[3 * h + 1], img@[3 * h + 2]));
            h = h + 1;
        }
        i = i + 2;
        j = j + 3;
    }
}

/// `c` in upper case, if it is a lower-case letter.
pub open spec fn upper(c: u8) -> u8 {
    if LOWER_A <= c <= LOWER_Z {
        (c - 0x20) as u8
    } else {
        c
    }
}

/// The field of `n` bytes that holds `part` in a directory entry: upper
/// case, cut to `n` bytes, padded with spaces.
pub open spec fn padded(part: Seq<u8>, n: int) -> Seq<u8> {
    Seq::new(n as nat, |i: int| if i < part.len() { upper(part[i]) } else { SPACE })
}

/// Index of the first `.` of `s` at `from` or later, or the length of `s`.
pub open spec fn dot_at(s: Seq<u8>, from: int) -> int {
    if exists|i: int| from <= i < s.len() && s[i] == DOT {
        choose|i: int|
            from <= i < s.len() && s[i] == DOT && forall|k: int| from <= k < i ==> s[k] != DOT
    } else {
        s.len() as int
    }
}

/// Copies `part[lo..hi]` into a field of `N` bytes, as `padded` says.
fn pad_field<const N: usize>(part: &[u8], lo: usize, hi: usize) -> (r: [u8; N])
    requires
        lo <= hi <= part@.len(),
    ensures
        r@ == padded(part@.subrange(lo as int, hi as int), N as int),
{
    let mut r = [SPACE; N];
    let mut k: usize = 0;
    while k < N
        invariant
            lo <= hi <= part@.len(),
            k <= N,
            r@.len() == N,
            forall|m: int| 0 <= m < k ==> r@[m] == #[trigger] padded(part@.subrange(lo as int, hi as int), N as int)[m],
            forall|m: int| k <= m < N ==> r@[m] == SPACE,
        decreases N - k,
    {
        if k < hi - lo {
            let c = part[lo + k];
            r[k] = if LOWER_A <= c && c <= LOWER_Z {
                c - 0x20
            } else {
                c
            };
        }
        k = k + 1;
    }
    proof {
        assert(r@ =~= padded(part@.subrange(lo as int, hi as int), N as int));
    }
    r
}

/// Position of the first `.` of `s` at `from` or later, or its length.
fn find_dot(s: &[u8], from: usize) -> (r: usize)
    requires
        from <= s@.len(),
    ensures
        r == dot_at(s@, from as int),
        from <= r <= s@.len(),
{
    let mut i = from;
    while i < s.len() && s[i] != DOT
        invariant
            from <= i <= s@.len(),
            forall|k: int| from <= k < i ==> s@[k] != DOT,
        decreases s@.len() - i,
    {
        i = i + 1;
    }
    proof {
        if i < s@.len() {
            assert(from <= i < s@.len() && s@[i as int] == DOT);
            let c = choose|c: int|
                from <= c < s@.len() && s@[c] == DOT && forall|k: int| from <= k < c ==> s@[k] != DOT;
            assert(c == i) by {
                if c < i {
                    assert(s@[c] != DOT);
                } else if c > i {
                    assert(s@[i as int] != DOT);
                }
            }
        }
    }
    i
}

/// The name and extension fields a directory entry holds for `filename`:
/// the part before the first `.` and the part after it, up to a second
/// `.`, each in upper case, cut and padded with spaces.
pub fn split_name(filename: &[u8]) -> (r: ([u8; 8], [u8; 3]))
    ensures
        ({
            let s = filename@;
            let d = dot_at(s, 0);
            &&& r.0@ == padded(s.subrange(0, d), 8)
            &&& r.1@ == if d < s.len() {
                padded(s.subrange(d + 1, dot_at(s, d + 1)), 3)
            } else {
                padded(Seq::empty(), 3)
            }
        }),
{
    let d = find_dot(filename, 0);
    let b: [u8; 8] = pad_field(filename, 0, d);
    let e: [u8; 3] = if d < filename.len() {
        let d2 = find_dot(filename, d + 1);
        pad_field(filename, d + 1, d2)
    } else {
        let r: [u8; 3] = pad_field(filename, d, d);
        proof {
            assert(filename@.subrange(d as int, d as int) =~= Seq::<u8>::empty());
        }
        r
    };
    (b, e)
}

/// Whether `a` and `b` hold the same bytes.
fn same_bytes<const N: usize>(a: &[u8; N], b: &[u8; N]) -> (r: bool)
    ensures
        r == (a@ == b@),
{
    let mut k: usize = 0;
    while k < N
        invariant
            k <= N,
            forall|m: int| 0 <= m < k ==> a@[m] == b@[m],
        decreases N - k,
    {
        if a[k] != b[k] {
            return false;
        }
        k = k + 1;
    }
    proof {
        assert(a@ =~= b@);
    }
    true
}

/// Whether directory entry `f` is a file named `name`.`ext`.
#[verifier::opaque]
pub open spec fn entry_matches(f: FileInfo, name: Seq<u8>, ext: Seq<u8>) -> bool {
    &&& f.name[0] != ENTRY_DELETED
    &&& f.ftype & TYPE_NOT_FILE == 0
    &&& f.name@ == name
    &&& f.ext@ == ext
}

/// Index of the end of the directory from entry `i` on: the first entry
/// whose name starts with 0, or the number of entries.
pub open spec fn dir_end_from(dir: Seq<FileInfo>, i: int) -> int
    decreases dir.len() - i,
{
    if i < 0 || i >= dir.len() {
        dir.len() as int
    } else if dir[i].name[0] == 0 {
        i
    } else {
        dir_end_from(dir, i + 1)
    }
}

/// The directory from entry `i` on does not end before `i`.
proof fn lemma_dir_end_from_ge(dir: Seq<FileInfo>, i: int)
    requires
        0 <= i <= dir.len(),
    ensures
        i <= dir_end_from(dir, i) <= dir.len(),
    decreases dir.len() - i,
{
    if i < dir.len() && dir[i].name[0] != 0 {
        lemma_dir_end_from_ge(dir, i + 1);
    }
}

/// Index of the end of the directory.
pub open spec fn dir_end(dir: Seq<FileInfo>) -> int {
    dir_end_from(dir, 0)
}

/// What looking up the fields `name`.`ext` in `dir` may return: the first
/// matching file entry before the end of the directory, or nothing if none.
pub open spec fn lookup_ok(dir: Seq<FileInfo>, name: Seq<u8>, ext: Seq<u8>, r: Option<FileInfo>) -> bool {
    match r {
        Some(f) => exists|i: int|
            0 <= i < dir_end(dir) && dir[i] == f && entry_matches(f, name, ext) && forall|k: int|
                0 <= k < i ==> !entry_matches(#[trigger] dir[k], name, ext),
        None => forall|k: int| 0 <= k < dir_end(dir) ==> !entry_matches(#[trigger] dir[k], name, ext),
    }
}

/// Looks `filename` up in the root directory `dir`: the first file entry,
/// before the end of the directory, whose name and extension match.
pub fn search_file(dir: &Vec<FileInfo>, filename: &[u8]) -> (r: Option<FileInfo>)
    ensures
        lookup_ok(dir@, split_name_spec(filename@).0, split_name_spec(filename@).1, r),
{
    let (b, e) = split_name(filename);
    proof {
        reveal(split_name_spec);
    }
    search_entries(dir, &b, &e)
}

/// Looks the fields `b`.`e` up in `dir`.
fn search_entries(dir: &Vec<FileInfo>, b: &[u8; 8], e: &[u8; 3]) -> (r: Option<FileInfo>)
    ensures
        lookup_ok(dir@, b@, e@, r),
{
    proof {
        lemma_dir_end_from_ge(dir@, 0);
    }
    let mut i: usize = 0;
    while i < dir.len()
        invariant
            i <= dir@.len(),
            dir_end(dir@) == dir_end_from(dir@, i as int),
            dir_end(dir@) >= i,
            forall|k: int| 0 <= k < i ==> !entry_matches(#[trigger] dir@[k], b@, e@),
        decreases dir@.len() - i,
    {
        let f = dir[i];
        if f.name[0] == 0 {
            return None;
        }
        if f.name[0] != ENTRY_DELETED && (f.ftype & TYPE_NOT_FILE) == 0 && same_bytes(&f.name, b)
            && same_bytes(&f.ext, e) {
            proof {
                reveal(entry_matches);
                lemma_dir_end_from_ge(dir@, i as int + 1);
                assert(0 <= i < dir_end(dir@) && dir@[i as int] == f && entry_matches(f, b@, e@));
            }
            return Some(f);
        }
        proof {
            reveal(entry_matches);
            lemma_dir_end_from_ge(dir@, i as int + 1);
        }
        i = i + 1;
    }
    None
}

/// The name and extension fields for `filename`, as `split_name` returns.
#[verifier::opaque]
pub open spec fn split_name_spec(s: Seq<u8>) -> (Seq<u8>, Seq<u8>) {
    let d = dot_at(s, 0);
    (
        padded(s.subrange(0, d), 8),
        if d < s.len() {
            padded(s.subrange(d + 1, dot_at(s, d + 1)), 3)
        } else {
            padded(Seq::empty(), 3)
        },
    )
}

} // verus!
