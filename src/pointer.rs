//! The target process, the load address of `libkwin.so` in it, and the two
//! remote reads that lead from KWin's workspace singleton to the cursor position.
//!
//! Handles here are plain values: a process id and an address in that
//! process. Nothing here reads another process's memory. Each read is
//! described by a [`ReadRequest`]; the caller performs it and hands back what
//! it got as a [`Transfer`], which the next step checks.

use vstd::prelude::*;
use vstd::string::StringSliceAdditionalSpecFns;
use crate::bytes::{ByteOrder, read_word, word_value};
use crate::text::{
    is_line_start, line_end, line_end_at,
    find, find_from, index_from, index_of, lemma_find_from_bounds, lemma_find_from_first,
    lemma_find_from_none, lemma_index_from_at_most, lemma_index_from_bounds,
    lemma_nth_token_bounds, nth_token, occurs_at, parse_digits, parse_number, token,
};

verus! {

/// Text in the process list that marks the compositor's own line.
pub const KWIN_MARKER: &'static str = "/kwin_wayland ";

/// Name of the library whose load address anchors the pointer chase.
pub const KWIN_LIBRARY: &'static str = "libkwin.so";

/// Bytes in a pointer of the target process.
pub const POINTER_LEN: usize = 8;

/// Bytes in the cursor position: two 8-byte floating-point values, x then y.
pub const POSITION_LEN: usize = 16;

/// Process id of `kwin_wayland`.
///
/// The id is trusted to name that process for as long as handles derived
/// from it are used; nothing here can check that.
#[derive(Clone, Copy, Debug, PartialEq, Eq, Structural)]
pub struct KWinPid(pub i32);

/// Why the target process or its library could not be located.
#[derive(Clone, Copy, Debug, PartialEq, Eq, Structural)]
pub enum LocateError {
    /// No line of the process list names the compositor.
    ProcessNotFound,
    /// More than one line of the process list names the compositor.
    ProcessAmbiguous,
    /// The compositor's line does not start with a process id.
    ProcessFormat,
    /// The mapping table does not mention the library at all.
    MappingNotFound,
    /// The library is mapped, but no mapping of it is the read-only one at
    /// file offset zero with a readable start address.
    MappingFormat,
    /// The object's address would lie beyond the 64-bit address space.
    AddressOverflow,
}

/// Why a remote read did not yield what the next step needs.
#[derive(Clone, Copy, Debug, PartialEq, Eq, Structural)]
pub enum ChaseError {
    /// The read failed as a whole (the system call returned a negative count).
    ReadDenied,
    /// The read moved a number of bytes other than the one requested.
    PartialRead(i64),
    /// The object pointer read in the first hop is null.
    NullPointer,
    /// The field's address would lie beyond the 64-bit address space.
    AddressOverflow,
}

/// Address of KWin's workspace singleton inside the target process.
#[derive(Clone, Copy, Debug, PartialEq, Eq, Structural)]
pub struct Workspace {
    pub pid: KWinPid,
    pub address: u64,
}

/// Address of the cursor position field inside the target process.
#[derive(Clone, Copy, Debug, PartialEq, Eq, Structural)]
pub struct Mouse {
    pub pid: KWinPid,
    pub address: u64,
}

/// One remote read to perform: `len` bytes at `address` in process `pid`.
#[derive(Clone, Copy, Debug, PartialEq, Eq, Structural)]
pub struct ReadRequest {
    pub pid: i32,
    pub address: u64,
    pub len: usize,
}

/// The outcome of a remote read: the count that the system call returned,
/// and the local buffer that it filled.
#[derive(Clone, Debug)]
pub struct Transfer {
    pub returned: i64,
    pub data: Vec<u8>,
}

/// The cursor position as the bit patterns of its two 8-byte floating-point values.
#[derive(Clone, Copy, Debug, PartialEq, Eq, Structural)]
pub struct Position {
    pub x_bits: u64,
    pub y_bits: u64,
}

/// Starts of the lines from `i` on that contain `m`.
pub open spec fn lines_with(t: Seq<u8>, m: Seq<u8>, i: int) -> Seq<int>
    decreases t.len() + 1 - i,
{
    if i < 0 || i > t.len() {
        Seq::empty()
    } else {
        let e = line_end(t, i);
        let here = if find_from(t, m, i, e) is Some {
            seq![i]
        } else {
            Seq::empty()
        };
        if e >= t.len() || e < i {
            here
        } else {
            here + lines_with(t, m, e + 1)
        }
    }
}

/// The process id at the start of the line `t[i..e]`, as a decimal number.
pub open spec fn leading_pid(t: Seq<u8>, i: int, e: int) -> Result<KWinPid, LocateError> {
    match nth_token(t, i, e, 0) {
        None => Err(LocateError::ProcessFormat),
        Some((a, b)) => match parse_number(t, a, b, 10) {
            Some(v) => if v <= i32::MAX {
                Ok(KWinPid(v as i32))
            } else {
                Err(LocateError::ProcessFormat)
            },
            None => Err(LocateError::ProcessFormat),
        },
    }
}

/// The compositor's process id in a process list (as `ps` prints it): the
/// leading field of the one line that contains `marker`.
pub open spec fn listed_pid(t: Seq<u8>, marker: Seq<u8>) -> Result<KWinPid, LocateError> {
    let found = lines_with(t, marker, 0);
    if found.len() == 0 {
        Err(LocateError::ProcessNotFound)
    } else if found.len() > 1 {
        Err(LocateError::ProcessAmbiguous)
    } else {
        leading_pid(t, found[0], line_end(t, found[0]))
    }
}

/// The line `t[i..e]` of a mapping table (as `/proc/<pid>/maps` holds it)
/// maps `lib` read-only from file offset zero: its path (what follows the
/// fifth field) contains `lib`, its permissions read `r--p` (read-only, private),
/// and its offset field is hex zero.
pub open spec fn maps_library_start(t: Seq<u8>, lib: Seq<u8>, i: int, e: int) -> bool {
    match (nth_token(t, i, e, 1), nth_token(t, i, e, 2), nth_token(t, i, e, 4)) {
        (Some((p, q)), Some((a, b)), Some((_c, d))) => {
            &&& find_from(t, lib, d, e) is Some
            &&& q - p == 4 && t[p] == 114 && t[p + 1] == 45 && t[p + 2] == 45 && t[p + 3] == 112
            &&& parse_number(t, a, b, 16) == Some(0u64)
        },
        _ => false,
    }
}

/// The start of the first line from `i` on that maps `lib` read-only from file offset zero.
pub open spec fn first_library_line(t: Seq<u8>, lib: Seq<u8>, i: int) -> Option<int>
    decreases t.len() + 1 - i,
{
    if i < 0 || i > t.len() {
        None
    } else {
        let e = line_end(t, i);
        if maps_library_start(t, lib, i, e) {
            Some(i)
        } else if e >= t.len() || e < i {
            None
        } else {
            first_library_line(t, lib, e + 1)
        }
    }
}

/// The start address of the mapping on the line `t[i..e]`: the hex number
/// before the `-` of its first field.
pub open spec fn mapping_start(t: Seq<u8>, i: int, e: int) -> Option<u64> {
    match nth_token(t, i, e, 0) {
        None => None,
        Some((a, b)) => match index_from(t, 45, a, b) {
            None => None,
            Some(d) => parse_number(t, a, d, 16),
        },
    }
}

/// The load address of `lib` that a mapping table gives.
pub open spec fn library_base(t: Seq<u8>, lib: Seq<u8>) -> Result<u64, LocateError> {
    match first_library_line(t, lib, 0) {
        Some(i) => match mapping_start(t, i, line_end(t, i)) {
            Some(v) => Ok(v),
            None => Err(LocateError::MappingFormat),
        },
        None => if find_from(t, lib, 0, t.len() as int) is Some {
            Err(LocateError::MappingFormat)
        } else {
            Err(LocateError::MappingNotFound)
        },
    }
}

/// The bytes of a transfer of `len` bytes, if exactly `len` arrived.
pub open spec fn received(t: Transfer, len: nat) -> Result<Seq<u8>, ChaseError> {
    if t.returned < 0 {
        Err(ChaseError::ReadDenied)
    } else if t.returned != len || t.data@.len() != len {
        Err(ChaseError::PartialRead(t.returned))
    } else {
        Ok(t.data@)
    }
}

/// The first hop: from the workspace pointer that was read to the cursor field.
pub open spec fn first_hop(w: Workspace, pos_offset: u64, t: Transfer, order: ByteOrder) -> Result<
    Mouse,
    ChaseError,
> {
    match received(t, POINTER_LEN as nat) {
        Err(e) => Err(e),
        Ok(b) => {
            let object = word_value(b, order);
            if object == 0 {
                Err(ChaseError::NullPointer)
            } else if object + pos_offset > u64::MAX {
                Err(ChaseError::AddressOverflow)
            } else {
                Ok(Mouse { pid: w.pid, address: (object + pos_offset) as u64 })
            }
        },
    }
}

/// The second hop: the cursor position that was read.
pub open spec fn second_hop(t: Transfer, order: ByteOrder) -> Result<Position, ChaseError> {
    match received(t, POSITION_LEN as nat) {
        Err(e) => Err(e),
        Ok(b) => Ok(
            Position {
                x_bits: word_value(b.subrange(0, 8), order) as u64,
                y_bits: word_value(b.subrange(8, 16), order) as u64,
            },
        ),
    }
}

impl KWinPid {
    /// Takes `i` as the compositor's process id.
    pub fn from(i: i32) -> (r: Self)
        ensures
            r.0 == i,
    {
        KWinPid(i)
    }

    /// The process id.
    pub fn pid(&self) -> (r: i32)
        ensures
            r == self.0,
    {
        self.0
    }

    /// Finds the compositor in a process list (the output of `ps x` or `ps ax`).
    pub fn search(ps_output: &str) -> (r: Result<Self, LocateError>)
        ensures
            r == listed_pid(ps_output.spec_bytes(), KWIN_MARKER.spec_bytes()),
    {
        let t = ps_output.as_bytes();
        let m = KWIN_MARKER.as_bytes();
        let ghost tv = t@;
        let ghost mv = m@;
        let ghost mut found: Seq<int> = Seq::empty();
        let mut count: usize = 0;
        let mut first: usize = 0;
        let mut i: usize = 0;
        loop
            invariant_except_break
                lines_with(tv, mv, 0) == found + lines_with(tv, mv, i as int),
            invariant
                i <= t@.len(),
                tv == t@,
                mv == m@,
                count == (if found.len() < 2 { found.len() } else { 2 }),
                count > 0 ==> found[0] == first as int,
            ensures
                lines_with(tv, mv, 0) == found,
            decreases t@.len() - i,
        {
            let e = line_end_at(t, i);
            if find(t, m, i, e).is_some() {
                if count == 0 {
                    first = i;
                }
                proof {
                    found = found.push(i as int);
                }
                if count < 2 {
                    count = count + 1;
                }
            }
            if e >= t.len() {
                assert(lines_with(tv, mv, 0) =~= found);
                break;
            }
            proof {
                assert(lines_with(tv, mv, 0) =~= found + lines_with(tv, mv, e + 1));
            }
            i = e + 1;
        }
        if count == 0 {
            return Err(LocateError::ProcessNotFound);
        }
        if count > 1 {
            return Err(LocateError::ProcessAmbiguous);
        }
        proof {
            lemma_lines_with_bounds(tv, mv, 0);
            assert(0 <= found[0] <= tv.len());
        }
        let e = line_end_at(t, first);
        match token(t, first, e, 0) {
            None => Err(LocateError::ProcessFormat),
            Some((a, b)) => {
                proof {
                    lemma_nth_token_bounds(t@, first as int, e as int, 0);
                }
                match parse_digits(t, a, b, 10) {
                    Some(v) => if v <= 0x7fff_ffff {
                        Ok(KWinPid(v as i32))
                    } else {
                        Err(LocateError::ProcessFormat)
                    },
                    None => Err(LocateError::ProcessFormat),
                }
            },
        }
    }
}

proof fn lemma_lines_with_bounds(t: Seq<u8>, m: Seq<u8>, i: int)
    ensures
        forall|k: int| 0 <= k < lines_with(t, m, i).len() ==> 0 <= #[trigger] lines_with(t, m, i)[k] <= t.len(),
    decreases t.len() + 1 - i,
{
    if 0 <= i <= t.len() {
        let e = line_end(t, i);
        if !(e >= t.len() || e < i) {
            lemma_lines_with_bounds(t, m, e + 1);
            let here = if find_from(t, m, i, e) is Some {
                seq![i]
            } else {
                Seq::<int>::empty()
            };
            assert forall|k: int| 0 <= k < lines_with(t, m, i).len() implies 0 <= #[trigger] lines_with(t, m, i)[k] <= t.len() by {
                if k >= here.len() {
                    assert(lines_with(t, m, i)[k] == lines_with(t, m, e + 1)[k - here.len()]);
                }
            }
        }
    }
}

/// Whether the line `t[i..e]` maps `lib` read-only from file offset zero.
fn is_library_start(t: &[u8], lib: &[u8], i: usize, e: usize) -> (r: bool)
    requires
        i <= e <= t@.len(),
    ensures
        r == maps_library_start(t@, lib@, i as int, e as int),
{
    let perms = token(t, i, e, 1);
    let offset = token(t, i, e, 2);
    let inode = token(t, i, e, 4);
    match (perms, offset, inode) {
        (Some((p, q)), Some((a, b)), Some((_c, d))) => {
            proof {
                lemma_nth_token_bounds(t@, i as int, e as int, 1);
                lemma_nth_token_bounds(t@, i as int, e as int, 2);
                lemma_nth_token_bounds(t@, i as int, e as int, 4);
            }
            if find(t, lib, d, e).is_none() {
                return false;
            }
            if !(q - p == 4 && t[p] == 114 && t[p + 1] == 45 && t[p + 2] == 45 && t[p + 3] == 112) {
                return false;
            }
            match parse_digits(t, a, b, 16) {
                Some(v) => v == 0,
                None => false,
            }
        },
        _ => false,
    }
}

/// Reads the load address of `library` from a process's mapping table (the
/// text of `/proc/<pid>/maps`): the start of the first mapping of it that is
/// read-only and begins at file offset zero.
pub fn library_base_of(maps: &str, library: &str) -> (r: Result<u64, LocateError>)
    ensures
        r == library_base(maps.spec_bytes(), library.spec_bytes()),
{
    let t = maps.as_bytes();
    let lib = library.as_bytes();
    let mut i: usize = 0;
    let mut line: Option<usize> = None;
    loop
        invariant_except_break
            line is None,
        invariant
            i <= t@.len(),
            first_library_line(t@, lib@, 0) == first_library_line(t@, lib@, i as int),
        ensures
            match line {
                Some(k) => first_library_line(t@, lib@, 0) == Some(k as int) && k <= t@.len(),
                None => first_library_line(t@, lib@, 0) is None,
            },
        decreases t@.len() - i,
    {
        let e = line_end_at(t, i);
        if is_library_start(t, lib, i, e) {
            line = Some(i);
            break;
        }
        if e >= t.len() {
            break;
        }
        i = e + 1;
    }
    match line {
        None => {
            if find(t, lib, 0, t.len()).is_some() {
                Err(LocateError::MappingFormat)
            } else {
                Err(LocateError::MappingNotFound)
            }
        },
        Some(k) => {
            let e = line_end_at(t, k);
            let start = match token(t, k, e, 0) {
                None => return Err(LocateError::MappingFormat),
                Some(ab) => ab,
            };
            let (a, b) = start;
            proof {
                lemma_nth_token_bounds(t@, k as int, e as int, 0);
            }
            let d = match index_of(t, 45, a, b) {
                None => return Err(LocateError::MappingFormat),
                Some(d) => d,
            };
            proof {
                lemma_index_from_bounds(t@, 45, a as int, b as int);
            }
            match parse_digits(t, a, d, 16) {
                Some(v) => Ok(v),
                None => Err(LocateError::MappingFormat),
            }
        },
    }
}

/// Checks that a transfer moved exactly `len` bytes, and hands them out.
fn check_transfer(t: &Transfer, len: usize) -> (r: Result<&[u8], ChaseError>)
    requires
        len <= POSITION_LEN,
    ensures
        match r {
            Ok(b) => received(*t, len as nat) == Ok::<_, ChaseError>(b@),
            Err(e) => received(*t, len as nat) == Err::<Seq<u8>, _>(e),
        },
{
    if t.returned < 0 {
        return Err(ChaseError::ReadDenied);
    }
    if t.returned != len as i64 || t.data.len() != len {
        return Err(ChaseError::PartialRead(t.returned));
    }
    Ok(t.data.as_slice())
}

impl Workspace {
    /// Locates the workspace singleton of process `pid`: the load address of
    /// `libkwin.so` in its mapping table `maps`, plus `workspace_offset`.
    pub fn get(pid: KWinPid, maps: &str, workspace_offset: u64) -> (r: Result<Self, LocateError>)
        ensures
            r == (match library_base(maps.spec_bytes(), KWIN_LIBRARY.spec_bytes()) {
                Err(e) => Err(e),
                Ok(base) => if base + workspace_offset > u64::MAX {
                    Err(LocateError::AddressOverflow)
                } else {
                    Ok(Workspace { pid, address: (base + workspace_offset) as u64 })
                },
            }),
    {
        let base = match library_base_of(maps, KWIN_LIBRARY) {
            Err(e) => return Err(e),
            Ok(b) => b,
        };
        if base > u64::MAX - workspace_offset {
            return Err(LocateError::AddressOverflow);
        }
        Ok(Workspace { pid, address: base + workspace_offset })
    }

    /// The first hop's read: the workspace pointer.
    pub fn read_request(&self) -> (r: ReadRequest)
        ensures
            r == (ReadRequest { pid: self.pid.0, address: self.address, len: POINTER_LEN }),
    {
        ReadRequest { pid: self.pid.0, address: self.address, len: POINTER_LEN }
    }

    /// Follows the workspace pointer that the first hop read (`transfer`, in
    /// the target's byte order `order`) to the cursor field at `pos_offset`
    /// inside the workspace object.
    pub fn get_mouse(&self, pos_offset: u64, transfer: &Transfer, order: ByteOrder) -> (r: Result<
        Mouse,
        ChaseError,
    >)
        ensures
            r == first_hop(*self, pos_offset, *transfer, order),
    {
        let b = match check_transfer(transfer, POINTER_LEN) {
            Err(e) => return Err(e),
            Ok(b) => b,
        };
        let object = read_word(b, 0, POINTER_LEN, order);
        assert(b@.subrange(0, 8) =~= b@);
        if object == 0 {
            return Err(ChaseError::NullPointer);
        }
        if object > u64::MAX - pos_offset {
            return Err(ChaseError::AddressOverflow);
        }
        Ok(Mouse { pid: self.pid, address: object + pos_offset })
    }
}

impl Mouse {
    /// The second hop's read: the cursor position.
    pub fn read_request(&self) -> (r: ReadRequest)
        ensures
            r == (ReadRequest { pid: self.pid.0, address: self.address, len: POSITION_LEN }),
    {
        ReadRequest { pid: self.pid.0, address: self.address, len: POSITION_LEN }
    }

    /// The cursor position that the second hop read (`transfer`, in the
    /// target's byte order `order`).
    pub fn loc(&self, transfer: &Transfer, order: ByteOrder) -> (r: Result<Position, ChaseError>)
        ensures
            r == second_hop(*transfer, order),
    {
        let b = match check_transfer(transfer, POSITION_LEN) {
            Err(e) => return Err(e),
            Ok(b) => b,
        };
        let x_bits = read_word(b, 0, 8, order);
        let y_bits = read_word(b, 8, 8, order);
        Ok(Position { x_bits, y_bits })
    }
}

proof fn lemma_next_line_start(t: Seq<u8>, i0: int, i: int)
    requires
        0 <= i0 < i <= t.len(),
        is_line_start(t, i),
    ensures
        i0 <= line_end(t, i0) < i,
        line_end(t, i0) < t.len(),
        is_line_start(t, line_end(t, i0) + 1),
{
    lemma_index_from_at_most(t, 10, i0, t.len() as int, i - 1);
}

proof fn lemma_first_library_line_at(t: Seq<u8>, lib: Seq<u8>, i0: int, i: int)
    requires
        0 <= i0 <= i <= t.len(),
        is_line_start(t, i),
        maps_library_start(t, lib, i, line_end(t, i)),
        forall|j: int|
            i0 <= j < i && is_line_start(t, j) ==> !maps_library_start(t, lib, j, line_end(t, j)),
        is_line_start(t, i0),
    ensures
        first_library_line(t, lib, i0) == Some(i),
    decreases i - i0,
{
    if i0 < i {
        lemma_next_line_start(t, i0, i);
        lemma_first_library_line_at(t, lib, line_end(t, i0) + 1, i);
    }
}

proof fn lemma_first_library_line_none(t: Seq<u8>, lib: Seq<u8>, i0: int)
    requires
        0 <= i0 <= t.len(),
        is_line_start(t, i0),
        forall|j: int|
            i0 <= j <= t.len() && is_line_start(t, j) ==> !maps_library_start(
                t,
                lib,
                j,
                line_end(t, j),
            ),
    ensures
        first_library_line(t, lib, i0) is None,
    decreases t.len() + 1 - i0,
{
    lemma_index_from_bounds(t, 10, i0, t.len() as int);
    let e = line_end(t, i0);
    if i0 <= e < t.len() {
        lemma_first_library_line_none(t, lib, e + 1);
    }
}

/// When exactly one line of a mapping table maps `lib` read-only from file
/// offset zero, and its first field reads `<start>-<end>` in hex, resolution
/// gives that start address.
pub proof fn lemma_library_base_unique(t: Seq<u8>, lib: Seq<u8>, i: int)
    requires
        0 <= i <= t.len(),
        is_line_start(t, i),
        maps_library_start(t, lib, i, line_end(t, i)),
        forall|j: int|
            0 <= j <= t.len() && j != i && is_line_start(t, j) ==> !maps_library_start(
                t,
                lib,
                j,
                line_end(t, j),
            ),
        mapping_start(t, i, line_end(t, i)) is Some,
    ensures
        library_base(t, lib) == Ok::<u64, LocateError>(
            mapping_start(t, i, line_end(t, i))->Some_0,
        ),
{
    lemma_first_library_line_at(t, lib, 0, i);
}

/// When no line of a mapping table maps `lib` read-only from file offset
/// zero, resolution fails: with `MappingFormat` where `lib` occurs in the
/// table, with `MappingNotFound` where it does not.
pub proof fn lemma_library_base_absent(t: Seq<u8>, lib: Seq<u8>)
    requires
        forall|j: int|
            0 <= j <= t.len() && is_line_start(t, j) ==> !maps_library_start(
                t,
                lib,
                j,
                line_end(t, j),
            ),
    ensures
        library_base(t, lib) == (if exists|k: int| occurs_at(t, lib, k) {
            Err::<u64, LocateError>(LocateError::MappingFormat)
        } else {
            Err::<u64, LocateError>(LocateError::MappingNotFound)
        }),
{
    lemma_first_library_line_none(t, lib, 0);
    if exists|k: int| occurs_at(t, lib, k) {
        let k = choose|k: int| occurs_at(t, lib, k);
        lemma_find_from_bounds(t, lib, 0, t.len() as int);
        if find_from(t, lib, 0, t.len() as int) is None {
            assert forall|j: int| 0 <= j < k implies !occurs_at(t, lib, j) by {
                if occurs_at(t, lib, j) {
                    lemma_find_from_first_some(t, lib, j);
                }
            }
            lemma_find_from_first(t, lib, 0, t.len() as int, k);
        }
    } else {
        lemma_find_from_none(t, lib, 0, t.len() as int);
    }
}

proof fn lemma_find_from_first_some(t: Seq<u8>, lib: Seq<u8>, j: int)
    requires
        occurs_at(t, lib, j),
    ensures
        find_from(t, lib, 0, t.len() as int) is Some,
    decreases j,
{
    if exists|m: int| 0 <= m < j && occurs_at(t, lib, m) {
        let m = choose|m: int| 0 <= m < j && occurs_at(t, lib, m);
        lemma_find_from_first_some(t, lib, m);
    } else {
        lemma_find_from_first(t, lib, 0, t.len() as int, j);
    }
}

/// A first-hop read that moved any count but the requested 8 bytes (more or
/// fewer, or none at all) yields no cursor field.
pub proof fn lemma_first_hop_exact(w: Workspace, pos_offset: u64, t: Transfer, order: ByteOrder)
    requires
        t.returned != POINTER_LEN,
    ensures
        first_hop(w, pos_offset, t, order) == Err::<Mouse, ChaseError>(
            if t.returned < 0 {
                ChaseError::ReadDenied
            } else {
                ChaseError::PartialRead(t.returned)
            },
        ),
{
}

/// A second-hop read that moved any count but the requested 16 bytes (more
/// or fewer, or none at all) yields no position.
pub proof fn lemma_second_hop_exact(t: Transfer, order: ByteOrder)
    requires
        t.returned != POSITION_LEN,
    ensures
        second_hop(t, order) == Err::<Position, ChaseError>(
            if t.returned < 0 {
                ChaseError::ReadDenied
            } else {
                ChaseError::PartialRead(t.returned)
            },
        ),
{
}

} // verus!
