//! Parsing of the tar container format.
//!
//! A tar stream is a sequence of 512-byte blocks. Each entry starts with
//! a header block: the declared path in bytes 0..100 up to the first NUL,
//! a 12-byte octal size field at offset 124, an 8-byte octal checksum
//! field at offset 148 covering the header with the checksum field read
//! as spaces, and a type flag at offset 156. The payload follows in
//! `size` bytes padded up to a block boundary. An all-zero block ends the
//! archive. Parsing is single pass and forward only: a malformed header
//! or a truncated payload ends the sequence, keeping the entries already
//! parsed, since the parser cannot resynchronize after a corrupt header.

use vstd::prelude::*;

verus! {

/// The kind of filesystem object an archive entry declares. Every type
/// flag other than a regular file or a directory (symlinks, hard links,
/// devices, fifos, ...) is `Other` and produces no filesystem effect.
#[derive(Clone, Copy, PartialEq, Eq, Structural, Debug)]
pub enum EntryKind {
    Regular,
    Directory,
    Other,
}

/// One parsed archive entry: the declared path bytes (untrusted), the
/// declared size from the header, the declared kind, and the payload.
pub struct ArchiveEntry {
    pub path: Vec<u8>,
    pub size: u64,
    pub kind: EntryKind,
    pub data: Vec<u8>,
}

/// Mathematical model of one archive entry.
pub ghost struct EntryModel {
    pub path: Seq<u8>,
    pub size: nat,
    pub kind: EntryKind,
    pub data: Seq<u8>,
}

impl View for ArchiveEntry {
    type V = EntryModel;

    open spec fn view(&self) -> EntryModel {
        EntryModel { path: self.path@, size: self.size as nat, kind: self.kind, data: self.data@ }
    }
}

/// The models of a sequence of parsed entries, in order.
pub open spec fn views_of(s: Seq<ArchiveEntry>) -> Seq<EntryModel> {
    s.map_values(|e: ArchiveEntry| e@)
}

/// 8 to the power `n`: the range of an `n`-digit octal field.
pub open spec fn pow8(n: nat) -> nat
    decreases n,
{
    if n == 0 {
        1
    } else {
        8 * pow8((n - 1) as nat)
    }
}

proof fn lemma_pow8_mono(a: nat, b: nat)
    requires
        a <= b,
    ensures
        pow8(a) <= pow8(b),
    decreases b,
{
    if a < b {
        lemma_pow8_mono(a, (b - 1) as nat);
        assert(pow8((b - 1) as nat) >= 0);
    }
}

/// Value of an octal header field over `s[i..end]`: leading spaces, then
/// octal digits, then space or NUL padding; anything else, or a field
/// with no digit at all, is malformed. `seen` records whether a digit
/// was read, `ended` whether padding began, `acc` the value so far.
pub open spec fn octal_from(s: Seq<u8>, i: int, end: int, seen: bool, ended: bool, acc: nat) -> Option<
    nat,
>
    decreases end - i when i <= end
{
    if i >= end {
        if seen {
            Some(acc)
        } else {
            None
        }
    } else {
        let c: u8 = s[i];
        if ended {
            if c == 32 || c == 0 {
                octal_from(s, i + 1, end, seen, true, acc)
            } else {
                None
            }
        } else if c == 32 && !seen {
            octal_from(s, i + 1, end, false, false, acc)
        } else if (c == 32 || c == 0) && seen {
            octal_from(s, i + 1, end, true, true, acc)
        } else if 48 <= c <= 55 {
            octal_from(s, i + 1, end, true, false, (acc * 8 + (c - 48)) as nat)
        } else {
            None
        }
    }
}

/// Value of the whole octal field at `s[start..end]`.
pub open spec fn octal_field(s: Seq<u8>, start: int, end: int) -> Option<nat> {
    octal_from(s, start, end, false, false, 0)
}

/// Reads an octal header field from `s[start..end]`.
fn parse_octal(s: &Vec<u8>, start: usize, end: usize) -> (r: Option<u64>)
    requires
        start <= end <= s.len(),
        end - start <= 12,
    ensures
        octal_field(s@, start as int, end as int) == match r {
            Some(v) => Some(v as nat),
            None => None::<nat>,
        },
{
    let mut i: usize = start;
    let mut seen: bool = false;
    let mut ended: bool = false;
    let mut acc: u64 = 0;
    proof {
        assert(pow8(12) == 0x1000000000) by {
            reveal_with_fuel(pow8, 13);
        }
    }
    while i < end
        invariant
            start <= i <= end <= s.len(),
            end - start <= 12,
            acc < pow8((i - start) as nat),
            pow8(12) == 0x1000000000,
            octal_field(s@, start as int, end as int) == octal_from(
                s@,
                i as int,
                end as int,
                seen,
                ended,
                acc as nat,
            ),
        decreases end - i,
    {
        proof {
            lemma_pow8_mono((i - start) as nat, 12);
        }
        let c: u8 = s[i];
        if ended {
            if c == 32 || c == 0 {
                // padding continues
            } else {
                return None;
            }
        } else if c == 32 && !seen {
            // leading space
        } else if (c == 32 || c == 0) && seen {
            ended = true;
        } else if 48 <= c && c <= 55 {
            proof {
                lemma_pow8_mono((i + 1 - start) as nat, 12);
                assert(pow8((i + 1 - start) as nat) == 8 * pow8((i - start) as nat));
            }
            acc = acc * 8 + ((c - 48) as u64);
            seen = true;
        } else {
            return None;
        }
        i = i + 1;
    }
    if seen {
        Some(acc)
    } else {
        None
    }
}

/// Sum of the 512 header bytes at `pos`, from block offset `i` on, with
/// the checksum field at offsets 148..156 read as ASCII spaces.
pub open spec fn sum_from(s: Seq<u8>, pos: int, i: int) -> nat
    decreases 512 - i when 0 <= i <= 512
{
    if i >= 512 {
        0
    } else {
        ((if 148 <= i < 156 {
            32 as nat
        } else {
            s[pos + i] as nat
        }) + sum_from(s, pos, i + 1)) as nat
    }
}

/// The checksum a well-formed header at `pos` must declare.
pub open spec fn header_sum(s: Seq<u8>, pos: int) -> nat {
    sum_from(s, pos, 0)
}

/// Computes the checksum of the header block at `pos`.
fn compute_header_sum(s: &Vec<u8>, pos: usize) -> (r: u64)
    requires
        pos + 512 <= s.len(),
    ensures
        r as nat == header_sum(s@, pos as int),
{
    let mut sum: u64 = 0;
    let mut i: usize = 0;
    while i < 512
        invariant
            0 <= i <= 512,
            pos + 512 <= s.len(),
            sum <= 255 * i,
            header_sum(s@, pos as int) == sum as nat + sum_from(s@, pos as int, i as int),
        decreases 512 - i,
    {
        let b: u64 = if 148 <= i && i < 156 {
            32
        } else {
            s[pos + i] as u64
        };
        sum = sum + b;
        i = i + 1;
    }
    sum
}

/// Offset of the first NUL in the `limit`-byte header field at `start`,
/// scanning from `i` on, or `limit` when the field is full.
pub open spec fn field_end(s: Seq<u8>, start: int, limit: int, i: int) -> int
    decreases limit - i when 0 <= i <= limit
{
    if i >= limit {
        limit
    } else if s[start + i] == 0 {
        i
    } else {
        field_end(s, start, limit, i + 1)
    }
}

/// The name field of the header at `pos`: 100 bytes up to the first NUL.
pub open spec fn name_of(s: Seq<u8>, pos: int) -> Seq<u8> {
    s.subrange(pos, pos + field_end(s, pos, 100, 0))
}

/// The prefix field of the header at `pos`: 155 bytes at offset 345 up
/// to the first NUL.
pub open spec fn prefix_of(s: Seq<u8>, pos: int) -> Seq<u8> {
    s.subrange(pos + 345, pos + 345 + field_end(s, pos + 345, 155, 0))
}

/// Whether the header at `pos` carries a path prefix: it declares the
/// POSIX ustar magic `ustar\0` and version `00`, and its prefix field is
/// non-empty. The prefix then holds the leading directories of a path
/// too long for the name field alone.
pub open spec fn has_prefix(s: Seq<u8>, pos: int) -> bool {
    &&& s[pos + 257] == 117 && s[pos + 258] == 115 && s[pos + 259] == 116
    &&& s[pos + 260] == 97 && s[pos + 261] == 114 && s[pos + 262] == 0
    &&& s[pos + 263] == 48 && s[pos + 264] == 48
    &&& s[pos + 345] != 0
}

/// The declared path of the header at `pos`: the prefix, a `/`, and the
/// name when a prefix is present, the name alone otherwise.
pub open spec fn path_of(s: Seq<u8>, pos: int) -> Seq<u8> {
    if has_prefix(s, pos) {
        prefix_of(s, pos) + seq![47u8] + name_of(s, pos)
    } else {
        name_of(s, pos)
    }
}

/// The declared kind of the header at `pos`, from its type flag byte.
pub open spec fn kind_of(s: Seq<u8>, pos: int) -> EntryKind {
    let t = s[pos + 156];
    if t == 48 || t == 0 {
        EntryKind::Regular
    } else if t == 53 {
        EntryKind::Directory
    } else {
        EntryKind::Other
    }
}

/// Whether the whole block at `pos` is zero: the end-of-archive marker.
pub open spec fn zero_block(s: Seq<u8>, pos: int) -> bool {
    forall|j: int| 0 <= j < 512 ==> #[trigger] s[pos + j] == 0
}

/// A header is well formed when its size and checksum fields parse as
/// octal numbers and the declared checksum matches the computed one.
pub open spec fn header_ok(s: Seq<u8>, pos: int) -> bool {
    &&& octal_field(s, pos + 124, pos + 136) is Some
    &&& octal_field(s, pos + 148, pos + 156) is Some
    &&& octal_field(s, pos + 148, pos + 156).unwrap() == header_sum(s, pos)
}

/// Bytes of padding after a payload of `size` bytes, up to the next
/// block boundary.
pub open spec fn pad_of(size: nat) -> nat {
    ((512 - size % 512) % 512) as nat
}

/// The parse of the tar stream `s` from byte offset `pos`: the entries
/// in archive order, and whether the stream ended cleanly (at an
/// all-zero block or at the end of input) rather than at a malformed
/// header or truncated payload.
pub open spec fn parse_from(s: Seq<u8>, pos: int) -> (Seq<EntryModel>, bool)
    decreases s.len() - pos when 0 <= pos <= s.len()
{
    if pos == s.len() {
        (seq![], true)
    } else if pos + 512 > s.len() {
        (seq![], false)
    } else if zero_block(s, pos) {
        (seq![], true)
    } else if !header_ok(s, pos) {
        (seq![], false)
    } else {
        let size = octal_field(s, pos + 124, pos + 136).unwrap();
        if pos + 512 + size > s.len() {
            (seq![], false)
        } else {
            let e = EntryModel {
                path: path_of(s, pos),
                size: size,
                kind: kind_of(s, pos),
                data: s.subrange(pos + 512, pos + 512 + size),
            };
            let next = if pos + 512 + size + pad_of(size) > s.len() {
                s.len() as int
            } else {
                pos + 512 + size + pad_of(size)
            };
            let rest = parse_from(s, next);
            (seq![e] + rest.0, rest.1)
        }
    }
}

/// The parse of a whole decompressed stream.
pub open spec fn parse_spec(s: Seq<u8>) -> (Seq<EntryModel>, bool) {
    parse_from(s, 0)
}

/// Copies `s[start..start + n]` into a fresh vector.
fn copy_range(s: &Vec<u8>, start: usize, n: usize) -> (r: Vec<u8>)
    requires
        start + n <= s.len(),
    ensures
        r@ == s@.subrange(start as int, start as int + n as int),
{
    let mut out: Vec<u8> = Vec::new();
    proof {
        assert(out@ =~= s@.subrange(start as int, start as int));
    }
    let mut j: usize = 0;
    while j < n
        invariant
            j <= n,
            start + n <= s.len(),
            out@ == s@.subrange(start as int, start as int + j as int),
        decreases n - j,
    {
        out.push(s[start + j]);
        proof {
            assert(out@ =~= s@.subrange(start as int, start as int + j as int + 1));
        }
        j = j + 1;
    }
    out
}

/// Reads the NUL-terminated header field of `limit` bytes at `start`.
fn read_field_bytes(s: &Vec<u8>, start: usize, limit: usize) -> (r: Vec<u8>)
    requires
        start + limit <= s.len(),
    ensures
        r@ == s@.subrange(
            start as int,
            start as int + field_end(s@, start as int, limit as int, 0),
        ),
{
    let mut i: usize = 0;
    while i < limit
        invariant
            0 <= i <= limit,
            start + limit <= s.len(),
            field_end(s@, start as int, limit as int, 0) == field_end(
                s@,
                start as int,
                limit as int,
                i as int,
            ),
        decreases limit - i,
    {
        if s[start + i] == 0 {
            return copy_range(s, start, i);
        }
        i = i + 1;
    }
    copy_range(s, start, limit)
}

/// Reads the declared path out of the header block at `pos`, joining the
/// ustar prefix onto the name when one is present.
fn read_path(s: &Vec<u8>, pos: usize) -> (r: Vec<u8>)
    requires
        pos + 512 <= s.len(),
    ensures
        r@ == path_of(s@, pos as int),
{
    let name = read_field_bytes(s, pos, 100);
    let ustar = s[pos + 257] == 117 && s[pos + 258] == 115 && s[pos + 259] == 116 && s[pos + 260]
        == 97 && s[pos + 261] == 114 && s[pos + 262] == 0 && s[pos + 263] == 48 && s[pos + 264]
        == 48;
    if ustar && s[pos + 345] != 0 {
        let mut full = read_field_bytes(s, pos + 345, 155);
        full.push(47);
        let ghost before = full@;
        let mut j: usize = 0;
        proof {
            assert(full@ =~= before + name@.take(0));
        }
        while j < name.len()
            invariant
                j <= name@.len(),
                full@ == before + name@.take(j as int),
            decreases name@.len() - j,
        {
            full.push(name[j]);
            proof {
                assert(full@ =~= before + name@.take(j as int + 1));
            }
            j = j + 1;
        }
        proof {
            assert(name@.take(name@.len() as int) =~= name@);
            assert(full@ =~= path_of(s@, pos as int));
        }
        full
    } else {
        name
    }
}

/// Whether the block at `pos` is all zero.
fn is_zero_block(s: &Vec<u8>, pos: usize) -> (r: bool)
    requires
        pos + 512 <= s.len(),
    ensures
        r == zero_block(s@, pos as int),
{
    let mut i: usize = 0;
    while i < 512
        invariant
            0 <= i <= 512,
            pos + 512 <= s.len(),
            forall|j: int| 0 <= j < i ==> #[trigger] s@[pos + j] == 0,
        decreases 512 - i,
    {
        if s[pos + i] != 0 {
            return false;
        }
        i = i + 1;
    }
    true
}

/// Parses a decompressed byte stream as a tar container. Returns the
/// entries that parse, in archive order, and whether the stream ended
/// cleanly; `false` means a malformed header or truncated payload ended
/// the sequence after the returned entries.
pub fn parse_archive(data: &Vec<u8>) -> (r: (Vec<ArchiveEntry>, bool))
    ensures
        views_of(r.0@) == parse_spec(data@).0,
        r.1 == parse_spec(data@).1,
{
    let n: usize = data.len();
    let mut out: Vec<ArchiveEntry> = Vec::new();
    let mut pos: usize = 0;
    proof {
        assert(views_of(out@) =~= Seq::<EntryModel>::empty());
    }
    while pos < n
        invariant
            pos <= n,
            n == data@.len(),
            parse_spec(data@).0 == views_of(out@) + parse_from(data@, pos as int).0,
            parse_spec(data@).1 == parse_from(data@, pos as int).1,
        decreases n - pos,
    {
        if n - pos < 512 {
            return (out, false);
        }
        if is_zero_block(data, pos) {
            return (out, true);
        }
        let declared = parse_octal(data, pos + 148, pos + 156);
        let computed = compute_header_sum(data, pos);
        let size_field = parse_octal(data, pos + 124, pos + 136);
        let ok = match declared {
            None => false,
            Some(c) => c == computed,
        };
        if !ok || size_field.is_none() {
            assert(!header_ok(data@, pos as int));
            return (out, false);
        }
        let size: u64 = size_field.unwrap();
        assert(header_ok(data@, pos as int));
        let rem: u64 = (n - pos - 512) as u64;
        if size > rem {
            return (out, false);
        }
        let size_us = size as usize;
        let name = read_path(data, pos);
        let tflag: u8 = data[pos + 156];
        let kind = if tflag == 48 || tflag == 0 {
            EntryKind::Regular
        } else if tflag == 53 {
            EntryKind::Directory
        } else {
            EntryKind::Other
        };
        let payload = copy_range(data, pos + 512, size_us);
        let entry = ArchiveEntry { path: name, size: size, kind: kind, data: payload };
        let ghost em = entry@;
        let ghost prev = views_of(out@);
        out.push(entry);
        proof {
            assert(views_of(out@) =~= prev.push(em));
        }
        let after: usize = pos + 512 + size_us;
        let pad: usize = (512 - (size_us % 512)) % 512;
        let next: usize = if n - after < pad {
            n
        } else {
            after + pad
        };
        proof {
            assert(pad as nat == pad_of(size as nat));
            let step = parse_from(data@, pos as int);
            let rest = parse_from(data@, next as int);
            assert(step.0 == seq![em] + rest.0 && step.1 == rest.1);
            assert(views_of(out@) + rest.0 =~= prev + step.0);
        }
        pos = next;
    }
    (out, true)
}

} // verus!
