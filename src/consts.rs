//! Offsets found in tool output, and the record in which the executable
//! keeps them in its own file.

use vstd::prelude::*;
use vstd::string::StringSliceAdditionalSpecFns;
use crate::bytes::{
    lemma_byte_bound_word, lemma_word_round_trip, push_word, read_word, word_bytes, word_value,
    ByteOrder,
};
use crate::text::{
    all_digits, bytes_equal, digits_value, field, find, find_from, index_from, index_of,
    is_space, last_index_in, last_index_of, lemma_nth_field_bounds, lemma_skip_space_bounds,
    lemma_trim_end_past, line_end, line_end_at, matches_at, nth_field, occurs_at, parse_digits,
    parse_number, skip_space, skip_spaces, trim_end, trim_end_at,
};

verus! {

/// Why an offset could not be read from a tool's output.
#[derive(Clone, Copy, Debug, PartialEq, Eq, Structural)]
pub enum ExtractError {
    /// The name that was looked for does not occur in the text.
    NotFound,
    /// The name occurs, but the text around it is not laid out as expected.
    Format,
    /// The field that should hold the number is not a number that fits.
    Number,
}

/// The symbol whose value is the offset of KWin's workspace singleton in `libkwin.so`.
pub const WORKSPACE_SYMBOL: &'static str = "KWin::Workspace::_self";

/// The expression in generated bindings that states where the cursor position lies
/// inside KWin's workspace object.
pub const POS_FIELD_MARKER: &'static str = "offset_of!(KWin_Workspace, focusMousePos)";

/// Section that holds the offset record itself.
pub const OFFSET_SECTION: &'static str = ".kwin.mouse.loc.offset";

/// Section that holds the cursor field offset.
pub const POS_SECTION: &'static str = ".kwin.mouse.loc.pos";

/// Section that holds the workspace singleton offset.
pub const KWIN_SECTION: &'static str = ".kwin.mouse.loc.kwin";

/// A number field read in base `radix`, or `Number` where it is none.
pub open spec fn number_field(t: Seq<u8>, lo: int, hi: int, radix: nat) -> Result<u64, ExtractError> {
    match parse_number(t, lo, hi, radix) {
        Some(v) => Ok(v),
        None => Err(ExtractError::Number),
    }
}

/// The value that a symbol table (as `readelf -Ws` prints it) gives `symbol`.
///
/// The symbol's line is the line of its first occurrence, which must follow a
/// line break. After the line's first `:`, with white space trimmed from both
/// ends of what lies before the symbol, the value is the text up to the first
/// space, in hex; there must be such a space.
pub open spec fn symbol_value(t: Seq<u8>, symbol: Seq<u8>) -> Result<u64, ExtractError> {
    match find_from(t, symbol, 0, t.len() as int) {
        None => Err(ExtractError::NotFound),
        Some(k) => match last_index_in(t, 10, 0, k) {
            None => Err(ExtractError::Format),
            Some(nl) => match index_from(t, 58, nl + 1, k) {
                None => Err(ExtractError::Format),
                Some(colon) => {
                    let a = skip_space(t, colon + 1, k);
                    match index_from(t, 32, a, trim_end(t, a, k)) {
                        None => Err(ExtractError::Format),
                        Some(sp) => number_field(t, a, sp, 16),
                    }
                },
            },
        },
    }
}

/// The file offset that a section header table (as `readelf -WS` prints it)
/// gives `section`: after the section's first occurrence, with white space
/// trimmed from both ends of the rest of the text, the third non-empty field
/// between spaces, in hex.
pub open spec fn section_offset(t: Seq<u8>, section: Seq<u8>) -> Result<u64, ExtractError> {
    match find_from(t, section, 0, t.len() as int) {
        None => Err(ExtractError::NotFound),
        Some(k) => {
            let a = skip_space(t, k + section.len(), t.len() as int);
            match nth_field(t, 32, a, trim_end(t, a, t.len() as int), 2) {
                None => Err(ExtractError::Format),
                Some((x, y)) => number_field(t, x, y, 16),
            }
        },
    }
}

/// End of the digits of an integer literal in `t[a..b]`: a trailing `usize`
/// suffix, after at least one other byte, is not part of them.
pub open spec fn literal_digits_end(t: Seq<u8>, a: int, b: int, suffix: Seq<u8>) -> int {
    if b - a > suffix.len() && occurs_at(t, suffix, b - suffix.len()) {
        b - suffix.len()
    } else {
        b
    }
}

/// The offset `K` that generated layout bindings state for a field, in the
/// expression `<marker> - K]`: the text between the first `-` after the marker
/// and the next `]`, with white space trimmed from both ends, must be a
/// decimal integer literal, with or without a `usize` suffix.
pub open spec fn field_offset(t: Seq<u8>, marker: Seq<u8>, suffix: Seq<u8>) -> Result<u64, ExtractError> {
    match find_from(t, marker, 0, t.len() as int) {
        None => Err(ExtractError::NotFound),
        Some(k) => match index_from(t, 93, k + marker.len(), t.len() as int) {
            None => Err(ExtractError::Format),
            Some(close) => match index_from(t, 45, k + marker.len(), close) {
                None => Err(ExtractError::Format),
                Some(minus) => {
                    let a = skip_space(t, minus + 1, close);
                    let b = trim_end(t, a, close);
                    number_field(t, a, literal_digits_end(t, a, b, suffix), 10)
                },
            },
        },
    }
}

fn number_at(t: &[u8], lo: usize, hi: usize, radix: u64) -> (r: Result<u64, ExtractError>)
    requires
        lo <= hi <= t@.len(),
        2 <= radix <= 16,
    ensures
        r == number_field(t@, lo as int, hi as int, radix as nat),
{
    match parse_digits(t, lo, hi, radix) {
        Some(v) => Ok(v),
        None => Err(ExtractError::Number),
    }
}

/// Reads the value that a symbol table gives `symbol`.
pub fn symbol_offset(table: &str, symbol: &str) -> (r: Result<u64, ExtractError>)
    ensures
        r == symbol_value(table.spec_bytes(), symbol.spec_bytes()),
{
    let t = table.as_bytes();
    let m = symbol.as_bytes();
    let k = match find(t, m, 0, t.len()) {
        None => return Err(ExtractError::NotFound),
        Some(k) => k,
    };
    proof {
        crate::text::lemma_find_from_bounds(t@, m@, 0, t@.len() as int);
    }
    let nl = match last_index_of(t, 10, 0, k) {
        None => return Err(ExtractError::Format),
        Some(nl) => nl,
    };
    proof {
        crate::text::lemma_last_index_bounds(t@, 10, 0, k as int);
    }
    let colon = match index_of(t, 58, nl + 1, k) {
        None => return Err(ExtractError::Format),
        Some(c) => c,
    };
    proof {
        crate::text::lemma_index_from_bounds(t@, 58, nl + 1, k as int);
    }
    let a = skip_spaces(t, colon + 1, k);
    proof {
        lemma_skip_space_bounds(t@, colon + 1, k as int);
    }
    let e = trim_end_at(t, a, k);
    match index_of(t, 32, a, e) {
        None => Err(ExtractError::Format),
        Some(sp) => {
            proof {
                crate::text::lemma_index_from_bounds(t@, 32, a as int, e as int);
            }
            number_at(t, a, sp, 16)
        },
    }
}

/// Reads the offset of KWin's workspace singleton from the symbol table of `libkwin.so`.
pub fn offset_kwin(symbols: &str) -> (r: Result<u64, ExtractError>)
    ensures
        r == symbol_value(symbols.spec_bytes(), WORKSPACE_SYMBOL.spec_bytes()),
{
    symbol_offset(symbols, WORKSPACE_SYMBOL)
}

/// Reads the file offset of `section` from a section header table.
pub fn get_offset(data: &str, section: &str) -> (r: Result<u64, ExtractError>)
    ensures
        r == section_offset(data.spec_bytes(), section.spec_bytes()),
{
    let t = data.as_bytes();
    let m = section.as_bytes();
    let k = match find(t, m, 0, t.len()) {
        None => return Err(ExtractError::NotFound),
        Some(k) => k,
    };
    proof {
        crate::text::lemma_find_from_bounds(t@, m@, 0, t@.len() as int);
    }
    let a = skip_spaces(t, k + m.len(), t.len());
    proof {
        lemma_skip_space_bounds(t@, k + m@.len(), t@.len() as int);
    }
    let e = trim_end_at(t, a, t.len());
    match field(t, 32, a, e, 2) {
        None => Err(ExtractError::Format),
        Some((x, y)) => {
            proof {
                lemma_nth_field_bounds(t@, 32, a as int, e as int, 2);
            }
            number_at(t, x, y, 16)
        },
    }
}

/// Reads the offset of the cursor position inside KWin's workspace object from
/// generated layout bindings.
pub fn offset_pos(bindings: &str) -> (r: Result<u64, ExtractError>)
    ensures
        r == field_offset(bindings.spec_bytes(), POS_FIELD_MARKER.spec_bytes(), "usize".spec_bytes()),
{
    let t = bindings.as_bytes();
    let m = POS_FIELD_MARKER.as_bytes();
    let suffix = "usize".as_bytes();
    let k = match find(t, m, 0, t.len()) {
        None => return Err(ExtractError::NotFound),
        Some(k) => k,
    };
    proof {
        crate::text::lemma_find_from_bounds(t@, m@, 0, t@.len() as int);
    }
    let from = k + m.len();
    let close = match index_of(t, 93, from, t.len()) {
        None => return Err(ExtractError::Format),
        Some(c) => c,
    };
    proof {
        crate::text::lemma_index_from_bounds(t@, 93, from as int, t@.len() as int);
    }
    let minus = match index_of(t, 45, from, close) {
        None => return Err(ExtractError::Format),
        Some(d) => d,
    };
    proof {
        crate::text::lemma_index_from_bounds(t@, 45, from as int, close as int);
    }
    let a = skip_spaces(t, minus + 1, close);
    proof {
        lemma_skip_space_bounds(t@, minus + 1, close as int);
    }
    let b = trim_end_at(t, a, close);
    let n = suffix.len();
    let end = if b - a > n && matches_at(t, suffix, b - n) {
        b - n
    } else {
        b
    };
    number_at(t, a, end, 10)
}

/// Which stored offset a value belongs to.
#[derive(Clone, Copy, Debug, PartialEq, Eq, Structural)]
pub enum Offset {
    /// The file position of the offset record itself.
    Offset,
    /// The file position of the cursor field offset.
    Pos,
    /// The file position of the workspace singleton offset.
    Kwin,
}

/// Width of one stored word, in bytes.
pub const WORD_LEN: usize = 8;

/// Width of the offset record, in bytes.
pub const RECORD_LEN: usize = 24;

/// First word of the record before it is filled in.
pub const SENTINEL_OFFSET: u64 = 0;

/// Second word of the record before it is filled in.
pub const SENTINEL_POS: u64 = 0xface_feed_cafe_babe;

/// Third word of the record before it is filled in.
pub const SENTINEL_KWIN: u64 = 0xdead_beef_fee1_dead;

/// The three file positions that the executable keeps in its reserved
/// `.kwin.mouse.loc.offset` section: where that section lies, and where the
/// sections that hold the cursor field offset and the workspace offset lie.
#[derive(Clone, Copy, Debug, PartialEq, Eq, Structural)]
pub struct OffsetSet {
    pub offset: u64,
    pub pos: u64,
    pub kwin: u64,
}

impl OffsetSet {
    /// The record still holds the pattern that the build put there.
    pub open spec fn is_sentinel(self) -> bool {
        self.offset == SENTINEL_OFFSET && self.pos == SENTINEL_POS && self.kwin == SENTINEL_KWIN
    }

    /// The stored position of `item`.
    pub open spec fn slot(self, item: Offset) -> u64 {
        match item {
            Offset::Offset => self.offset,
            Offset::Pos => self.pos,
            Offset::Kwin => self.kwin,
        }
    }

    /// The record as the build leaves it, before any offset is found.
    pub fn sentinel() -> (r: Self)
        ensures
            r.is_sentinel(),
    {
        OffsetSet { offset: SENTINEL_OFFSET, pos: SENTINEL_POS, kwin: SENTINEL_KWIN }
    }

    /// Whether the record has been filled in.
    pub fn is_initialized(&self) -> (r: bool)
        ensures
            r == !self.is_sentinel(),
    {
        !(self.offset == SENTINEL_OFFSET && self.pos == SENTINEL_POS && self.kwin == SENTINEL_KWIN)
    }
}

/// The record's bytes: its three words in order, each in `order`.
pub open spec fn record_bytes(s: OffsetSet, order: ByteOrder) -> Seq<u8> {
    word_bytes(s.offset as nat, 8, order) + word_bytes(s.pos as nat, 8, order) + word_bytes(
        s.kwin as nat,
        8,
        order,
    )
}

/// The record that exactly `RECORD_LEN` bytes hold.
pub open spec fn record_value(b: Seq<u8>, order: ByteOrder) -> Option<OffsetSet> {
    if b.len() == RECORD_LEN {
        Some(
            OffsetSet {
                offset: word_value(b.subrange(0, 8), order) as u64,
                pos: word_value(b.subrange(8, 16), order) as u64,
                kwin: word_value(b.subrange(16, 24), order) as u64,
            },
        )
    } else {
        None
    }
}

/// The positions of the three sections, read from the executable's own section headers.
pub open spec fn located_offsets(t: Seq<u8>) -> Result<OffsetSet, ExtractError> {
    match section_offset(t, OFFSET_SECTION.spec_bytes()) {
        Err(e) => Err(e),
        Ok(offset) => match section_offset(t, POS_SECTION.spec_bytes()) {
            Err(e) => Err(e),
            Ok(pos) => match section_offset(t, KWIN_SECTION.spec_bytes()) {
                Err(e) => Err(e),
                Ok(kwin) => Ok(OffsetSet { offset, pos, kwin }),
            },
        },
    }
}

/// Bytes to be written into the executable's file at a position.
#[derive(Clone, Debug)]
pub struct FileWrite {
    pub position: u64,
    pub bytes: Vec<u8>,
}

/// A planned write as a position and a byte sequence, or why there is none.
pub open spec fn written(r: Result<FileWrite, CacheError>) -> Result<(u64, Seq<u8>), CacheError> {
    match r {
        Ok(w) => Ok((w.position, w.bytes@)),
        Err(e) => Err(e),
    }
}

/// Why the offset record may not be written.
#[derive(Clone, Copy, Debug, PartialEq, Eq, Structural)]
pub enum CacheError {
    /// The record was filled in before; it is not written over.
    AlreadyInitialized,
    /// A value cannot be stored before the record is filled in.
    NotInitialized,
    /// The file does not hold the sentinel where the record should lie.
    SentinelMismatch,
    /// The record cannot lie at the start of the file.
    InvalidLocation,
    /// The value would be written inside the record itself.
    RecordSlot,
}

/// What filling in the record comes to: the position and bytes to write, or why not.
pub open spec fn commit_result(current: OffsetSet, located: OffsetSet, on_disk: Seq<u8>, order: ByteOrder)
    -> Result<(u64, Seq<u8>), CacheError>
{
    if !current.is_sentinel() {
        Err(CacheError::AlreadyInitialized)
    } else if located.offset == 0 {
        Err(CacheError::InvalidLocation)
    } else if on_disk != record_bytes(current, order) {
        Err(CacheError::SentinelMismatch)
    } else {
        Ok((located.offset, record_bytes(located, order)))
    }
}

/// What storing `val` for `item` comes to.
pub open spec fn store_result(table: OffsetSet, val: u64, item: Offset, order: ByteOrder) -> Result<
    (u64, Seq<u8>),
    CacheError,
> {
    if table.is_sentinel() {
        Err(CacheError::NotInitialized)
    } else if inside_record(table.slot(item), table.offset) {
        Err(CacheError::RecordSlot)
    } else {
        Ok((table.slot(item), word_bytes(val as nat, 8, order)))
    }
}

/// A word at `slot` would share a byte with the record at `record`.
pub open spec fn inside_record(slot: u64, record: u64) -> bool {
    slot < record + RECORD_LEN && record < slot + WORD_LEN
}

/// What storing `val` for `item` comes to, given the record as this run holds
/// it (`current`), where the sections lie (`located`, found where the record
/// is not yet filled in) and the bytes that the file holds where `located`
/// puts the record (`on_disk`): the record afterwards and the writes, in order.
///
/// An unfilled record is filled in first, after the sentinel check; the value
/// is then written at its slot, which may not lie inside the record.
pub open spec fn save_result(
    current: OffsetSet,
    located: Option<OffsetSet>,
    on_disk: Seq<u8>,
    val: u64,
    item: Offset,
    order: ByteOrder,
) -> Result<(OffsetSet, Seq<(u64, Seq<u8>)>), CacheError> {
    if current.is_sentinel() {
        match located {
            None => Err(CacheError::NotInitialized),
            Some(l) => match commit_result(current, l, on_disk, order) {
                Err(e) => Err(e),
                Ok(record) => match store_result(l, val, item, order) {
                    Err(e) => Err(e),
                    Ok(value) => Ok((l, seq![record, value])),
                },
            },
        }
    } else {
        match store_result(current, val, item, order) {
            Err(e) => Err(e),
            Ok(value) => Ok((current, seq![value])),
        }
    }
}

/// The record after a save, and the writes that it takes.
#[derive(Clone, Debug)]
pub struct SavePlan {
    pub table: OffsetSet,
    pub writes: Vec<FileWrite>,
}

/// A planned save as a record and a sequence of positions and bytes, or why there is none.
pub open spec fn planned(r: Result<SavePlan, CacheError>) -> Result<
    (OffsetSet, Seq<(u64, Seq<u8>)>),
    CacheError,
> {
    match r {
        Ok(p) => Ok((p.table, p.writes@.map_values(|w: FileWrite| (w.position, w.bytes@)))),
        Err(e) => Err(e),
    }
}

/// The file after `bytes` are written at `position`.
pub open spec fn apply_write(file: Seq<u8>, position: int, bytes: Seq<u8>) -> Seq<u8> {
    file.subrange(0, position) + bytes + file.subrange(position + bytes.len(), file.len() as int)
}

/// The bytes of the offset record.
pub fn encode_offsets(s: &OffsetSet, order: ByteOrder) -> (r: Vec<u8>)
    ensures
        r@ == record_bytes(*s, order),
{
    let mut out: Vec<u8> = Vec::new();
    push_word(&mut out, s.offset, WORD_LEN, order);
    push_word(&mut out, s.pos, WORD_LEN, order);
    push_word(&mut out, s.kwin, WORD_LEN, order);
    assert(out@ =~= record_bytes(*s, order));
    out
}

/// The offset record that `bytes` hold, if they are exactly as long as one.
pub fn decode_offsets(bytes: &[u8], order: ByteOrder) -> (r: Option<OffsetSet>)
    ensures
        r == record_value(bytes@, order),
{
    if bytes.len() != RECORD_LEN {
        return None;
    }
    let offset = read_word(bytes, 0, WORD_LEN, order);
    let pos = read_word(bytes, 8, WORD_LEN, order);
    let kwin = read_word(bytes, 16, WORD_LEN, order);
    Some(OffsetSet { offset, pos, kwin })
}

/// Reads where the three sections lie from the executable's section header table.
pub fn locate_offsets(sections: &str) -> (r: Result<OffsetSet, ExtractError>)
    ensures
        r == located_offsets(sections.spec_bytes()),
{
    let offset = match get_offset(sections, OFFSET_SECTION) {
        Err(e) => return Err(e),
        Ok(v) => v,
    };
    let pos = match get_offset(sections, POS_SECTION) {
        Err(e) => return Err(e),
        Ok(v) => v,
    };
    let kwin = match get_offset(sections, KWIN_SECTION) {
        Err(e) => return Err(e),
        Ok(v) => v,
    };
    Ok(OffsetSet { offset, pos, kwin })
}

/// Decides whether the record may be filled in with `located`, given the
/// record as this run holds it (`current`) and the bytes that the file holds
/// where `located` says the record lies (`on_disk`).
pub fn commit_offsets(current: &OffsetSet, located: &OffsetSet, on_disk: &[u8], order: ByteOrder) -> (r:
    Result<FileWrite, CacheError>)
    ensures
        written(r) == commit_result(*current, *located, on_disk@, order),
{
    if current.is_initialized() {
        return Err(CacheError::AlreadyInitialized);
    }
    if located.offset == 0 {
        return Err(CacheError::InvalidLocation);
    }
    let expected = encode_offsets(current, order);
    if !bytes_equal(on_disk, expected.as_slice()) {
        return Err(CacheError::SentinelMismatch);
    }
    Ok(FileWrite { position: located.offset, bytes: encode_offsets(located, order) })
}

/// Decides where and how `val` is stored for `item` in a filled-in record.
fn store_offset(table: &OffsetSet, val: u64, item: Offset, order: ByteOrder) -> (r: Result<
    FileWrite,
    CacheError,
>)
    ensures
        written(r) == store_result(*table, val, item, order),
{
    if !table.is_initialized() {
        return Err(CacheError::NotInitialized);
    }
    let position = match item {
        Offset::Offset => table.offset,
        Offset::Pos => table.pos,
        Offset::Kwin => table.kwin,
    };
    if (position as u128) < table.offset as u128 + RECORD_LEN as u128 && (table.offset as u128)
        < position as u128 + WORD_LEN as u128 {
        return Err(CacheError::RecordSlot);
    }
    let mut bytes: Vec<u8> = Vec::new();
    push_word(&mut bytes, val, WORD_LEN, order);
    Ok(FileWrite { position, bytes })
}

/// Plans storing `val` for `item` in this executable's file: given the record
/// as this run holds it (`current`), where the sections lie (`located`,
/// needed only while the record is unfilled) and the bytes that the file
/// holds where `located` puts the record (`on_disk`), returns the record
/// afterwards and the writes to make, in order.
pub fn save_offset(
    current: &OffsetSet,
    located: Option<OffsetSet>,
    on_disk: &[u8],
    val: u64,
    item: Offset,
    order: ByteOrder,
) -> (r: Result<SavePlan, CacheError>)
    ensures
        planned(r) == save_result(*current, located, on_disk@, val, item, order),
{
    let mut writes: Vec<FileWrite> = Vec::new();
    let table = if current.is_initialized() {
        *current
    } else {
        let l = match located {
            None => return Err(CacheError::NotInitialized),
            Some(l) => l,
        };
        let record = match commit_offsets(current, &l, on_disk, order) {
            Err(e) => return Err(e),
            Ok(w) => w,
        };
        writes.push(record);
        l
    };
    let value = match store_offset(&table, val, item, order) {
        Err(e) => return Err(e),
        Ok(w) => w,
    };
    writes.push(value);
    let ghost ws = writes@.map_values(|w: FileWrite| (w.position, w.bytes@));
    assert(ws =~= save_result(*current, located, on_disk@, val, item, order)->Ok_0.1);
    Ok(SavePlan { table, writes })
}

/// Encoding a record and decoding its bytes gives the record back.
pub proof fn lemma_record_round_trip(s: OffsetSet, order: ByteOrder)
    ensures
        record_bytes(s, order).len() == RECORD_LEN,
        record_value(record_bytes(s, order), order) == Some(s),
{
    lemma_byte_bound_word();
    lemma_word_round_trip(s.offset as nat, 8, order);
    lemma_word_round_trip(s.pos as nat, 8, order);
    lemma_word_round_trip(s.kwin as nat, 8, order);
    let b = record_bytes(s, order);
    assert(b.subrange(0, 8) =~= word_bytes(s.offset as nat, 8, order));
    assert(b.subrange(8, 16) =~= word_bytes(s.pos as nat, 8, order));
    assert(b.subrange(16, 24) =~= word_bytes(s.kwin as nat, 8, order));
}

/// Filling in the record and then reading the file back where it lies, as the
/// next run does, gives exactly the offsets that were written.
pub proof fn lemma_commit_read_back(
    current: OffsetSet,
    located: OffsetSet,
    file: Seq<u8>,
    order: ByteOrder,
)
    requires
        located.offset + RECORD_LEN <= file.len(),
        commit_result(
            current,
            located,
            file.subrange(located.offset as int, located.offset + RECORD_LEN),
            order,
        ) is Ok,
    ensures
        ({
            let (position, bytes) = commit_result(
                current,
                located,
                file.subrange(located.offset as int, located.offset + RECORD_LEN),
                order,
            )->Ok_0;
            let after = apply_write(file, position as int, bytes);
            &&& after.len() == file.len()
            &&& record_value(after.subrange(position as int, position + RECORD_LEN), order) == Some(
                located,
            )
        }),
{
    lemma_record_round_trip(located, order);
    let bytes = record_bytes(located, order);
    let p = located.offset as int;
    let after = apply_write(file, p, bytes);
    assert(after.subrange(p, p + RECORD_LEN) =~= bytes);
}

/// Once the record is filled in, filling it in again is refused, whatever is
/// found the second time: both later in the same run, which holds the new
/// record, and in a later run, which reads the record back from the file.
pub proof fn lemma_commit_once(
    current: OffsetSet,
    located: OffsetSet,
    file: Seq<u8>,
    order: ByteOrder,
    located_again: OffsetSet,
    on_disk_again: Seq<u8>,
)
    requires
        located.offset + RECORD_LEN <= file.len(),
        commit_result(
            current,
            located,
            file.subrange(located.offset as int, located.offset + RECORD_LEN),
            order,
        ) is Ok,
    ensures
        commit_result(located, located_again, on_disk_again, order) == Err::<(u64, Seq<u8>), _>(
            CacheError::AlreadyInitialized,
        ),
        ({
            let (position, bytes) = commit_result(
                current,
                located,
                file.subrange(located.offset as int, located.offset + RECORD_LEN),
                order,
            )->Ok_0;
            let after = apply_write(file, position as int, bytes);
            let next_run = record_value(after.subrange(position as int, position + RECORD_LEN), order)->Some_0;
            commit_result(next_run, located_again, on_disk_again, order) == Err::<(u64, Seq<u8>), _>(
                CacheError::AlreadyInitialized,
            )
        }),
{
    lemma_commit_read_back(current, located, file, order);
}

/// Writing outside `file[r..r + n]` leaves those bytes as they were.
proof fn lemma_apply_write_elsewhere(file: Seq<u8>, p: int, bytes: Seq<u8>, r: int, n: int)
    requires
        0 <= p,
        p + bytes.len() <= file.len(),
        0 <= r,
        0 <= n,
        r + n <= file.len(),
        p + bytes.len() <= r || r + n <= p,
    ensures
        apply_write(file, p, bytes).len() == file.len(),
        apply_write(file, p, bytes).subrange(r, r + n) == file.subrange(r, r + n),
{
    let after = apply_write(file, p, bytes);
    assert(after.len() == file.len());
    assert forall|i: int| r <= i < r + n implies after[i] == file[i] by {
        if i < p {
            assert(after[i] == file.subrange(0, p)[i]);
        } else {
            let k = i - p - bytes.len();
            assert(after[i] == file.subrange(p + bytes.len(), file.len() as int)[k]);
        }
    }
    assert(after.subrange(r, r + n) =~= file.subrange(r, r + n));
}

/// The first save of an unfilled record fills it in: the plan holds the
/// located record, which is no longer the sentinel, and after its writes the
/// file holds that record at its place, read back byte for byte as the next
/// run reads it, and the value at its slot.
pub proof fn lemma_save_fills_record(
    current: OffsetSet,
    located: OffsetSet,
    file: Seq<u8>,
    val: u64,
    item: Offset,
    order: ByteOrder,
)
    requires
        current.is_sentinel(),
        located.offset + RECORD_LEN <= file.len(),
        located.slot(item) + WORD_LEN <= file.len(),
        save_result(
            current,
            Some(located),
            file.subrange(located.offset as int, located.offset + RECORD_LEN),
            val,
            item,
            order,
        ) is Ok,
    ensures
        ({
            let (table, writes) = save_result(
                current,
                Some(located),
                file.subrange(located.offset as int, located.offset + RECORD_LEN),
                val,
                item,
                order,
            )->Ok_0;
            let once = apply_write(file, writes[0].0 as int, writes[0].1);
            let after = apply_write(once, writes[1].0 as int, writes[1].1);
            &&& table == located
            &&& !table.is_sentinel()
            &&& writes.len() == 2
            &&& after.len() == file.len()
            &&& record_value(after.subrange(located.offset as int, located.offset + RECORD_LEN), order)
                == Some(located)
            &&& word_value(after.subrange(located.slot(item) as int, located.slot(item) + WORD_LEN), order)
                == val
        }),
{
    let on_disk = file.subrange(located.offset as int, located.offset + RECORD_LEN);
    let (table, writes) = save_result(current, Some(located), on_disk, val, item, order)->Ok_0;
    lemma_commit_read_back(current, located, file, order);
    lemma_byte_bound_word();
    lemma_word_round_trip(val as nat, 8, order);
    let once = apply_write(file, writes[0].0 as int, writes[0].1);
    let p = located.slot(item) as int;
    lemma_apply_write_elsewhere(
        once,
        p,
        writes[1].1,
        located.offset as int,
        RECORD_LEN as int,
    );
    let after = apply_write(once, p, writes[1].1);
    assert(after.subrange(p, p + WORD_LEN) =~= writes[1].1);
}

/// Saving into a filled-in record never touches it: the plan keeps the record
/// and writes only outside it, so the stored triple reads back unchanged.
pub proof fn lemma_save_keeps_record(
    current: OffsetSet,
    located: Option<OffsetSet>,
    on_disk: Seq<u8>,
    file: Seq<u8>,
    val: u64,
    item: Offset,
    order: ByteOrder,
)
    requires
        !current.is_sentinel(),
        current.offset + RECORD_LEN <= file.len(),
        current.slot(item) + WORD_LEN <= file.len(),
        save_result(current, located, on_disk, val, item, order) is Ok,
    ensures
        ({
            let (table, writes) = save_result(current, located, on_disk, val, item, order)->Ok_0;
            let after = apply_write(file, writes[0].0 as int, writes[0].1);
            &&& table == current
            &&& writes.len() == 1
            &&& after.len() == file.len()
            &&& after.subrange(current.offset as int, current.offset + RECORD_LEN) == file.subrange(
                current.offset as int,
                current.offset + RECORD_LEN,
            )
        }),
{
    lemma_byte_bound_word();
    lemma_word_round_trip(val as nat, 8, order);
    let (table, writes) = save_result(current, located, on_disk, val, item, order)->Ok_0;
    lemma_apply_write_elsewhere(
        file,
        writes[0].0 as int,
        writes[0].1,
        current.offset as int,
        RECORD_LEN as int,
    );
}

/// While the record is unfilled, a file that does not hold the sentinel where
/// the record should lie (a wrong position, or a file that another run has
/// patched already) is not written: the save fails with `SentinelMismatch`.
pub proof fn lemma_save_checks_sentinel(
    current: OffsetSet,
    located: OffsetSet,
    on_disk: Seq<u8>,
    val: u64,
    item: Offset,
    order: ByteOrder,
)
    requires
        current.is_sentinel(),
        located.offset != 0,
        on_disk != record_bytes(current, order),
    ensures
        save_result(current, Some(located), on_disk, val, item, order) == Err::<
            (OffsetSet, Seq<(u64, Seq<u8>)>),
            CacheError,
        >(CacheError::SentinelMismatch),
{
}

/// In a symbol table whose line for `symbol` reads
/// `<index>: <hex value> <more fields> <symbol>`, extraction gives that hex
/// value.
///
/// The line runs from just after the line feed at `nl` to the symbol's first
/// occurrence at `k`; its first `:` is at `colon`, the value is `t[a..b]`
/// after white space, a space follows it, and a later field at `j` comes
/// before the symbol.
pub proof fn lemma_symbol_value_listed(
    t: Seq<u8>,
    symbol: Seq<u8>,
    k: int,
    nl: int,
    colon: int,
    a: int,
    b: int,
    j: int,
)
    requires
        occurs_at(t, symbol, k),
        forall|i: int| 0 <= i < k ==> !occurs_at(t, symbol, i),
        0 <= nl < colon < a < b < j < k,
        t[nl] == 10,
        forall|i: int| nl < i < k ==> t[i] != 10,
        t[colon] == 58,
        forall|i: int| nl < i < colon ==> t[i] != 58,
        forall|i: int| colon < i < a ==> is_space(#[trigger] t[i]),
        forall|i: int| a <= i < b ==> !is_space(#[trigger] t[i]),
        t[b] == 32,
        !is_space(t[j]),
        all_digits(t, a, b, 16),
        digits_value(t, a, b, 16) <= u64::MAX,
    ensures
        symbol_value(t, symbol) == Ok::<u64, ExtractError>(digits_value(t, a, b, 16) as u64),
{
    crate::text::lemma_find_from_first(t, symbol, 0, t.len() as int, k);
    crate::text::lemma_last_index_last(t, 10, 0, k, nl);
    crate::text::lemma_index_from_first(t, 58, nl + 1, k, colon);
    crate::text::lemma_skip_space_at(t, colon + 1, a, k);
    lemma_trim_end_past(t, a, k, j);
    crate::text::lemma_index_from_first(t, 32, a, trim_end(t, a, k), b);
}

/// A symbol table in which `symbol` does not occur gives `NotFound`.
pub proof fn lemma_symbol_value_missing(t: Seq<u8>, symbol: Seq<u8>)
    requires
        forall|j: int| !occurs_at(t, symbol, j),
    ensures
        symbol_value(t, symbol) == Err::<u64, ExtractError>(ExtractError::NotFound),
{
    crate::text::lemma_find_from_none(t, symbol, 0, t.len() as int);
}

/// The entries of a list of directories, one per line: each line with the
/// white space around it left out, and empty lines skipped.
pub open spec fn listed_dirs(t: Seq<u8>, i: int) -> Seq<(int, int)>
    decreases t.len() + 1 - i,
{
    if i < 0 || i > t.len() {
        Seq::empty()
    } else {
        let e = line_end(t, i);
        let a = skip_space(t, i, e);
        let b = trim_end(t, a, e);
        let here = if a < b {
            seq![(a, b)]
        } else {
            Seq::empty()
        };
        if e >= t.len() || e < i {
            here
        } else {
            here + listed_dirs(t, e + 1)
        }
    }
}

/// Byte ranges as specification integers.
pub open spec fn ranges(v: Seq<(usize, usize)>) -> Seq<(int, int)> {
    v.map_values(|p: (usize, usize)| (p.0 as int, p.1 as int))
}

/// The byte ranges of the directories in a list of header directories, one
/// per line, for the `-I` arguments of the layout generator.
pub fn include_dirs(list: &str) -> (r: Vec<(usize, usize)>)
    ensures
        ranges(r@) == listed_dirs(list.spec_bytes(), 0),
{
    let t = list.as_bytes();
    let ghost tv = t@;
    let mut out: Vec<(usize, usize)> = Vec::new();
    let mut i: usize = 0;
    loop
        invariant_except_break
            listed_dirs(tv, 0) == ranges(out@) + listed_dirs(tv, i as int),
        invariant
            i <= t@.len(),
            tv == t@,
        ensures
            listed_dirs(tv, 0) == ranges(out@),
        decreases t@.len() - i,
    {
        let e = line_end_at(t, i);
        let a = skip_spaces(t, i, e);
        proof {
            lemma_skip_space_bounds(tv, i as int, e as int);
        }
        let b = trim_end_at(t, a, e);
        let ghost before = out@;
        if a < b {
            out.push((a, b));
            assert(ranges(out@) =~= ranges(before).push((a as int, b as int)));
        }
        if e >= t.len() {
            assert(listed_dirs(tv, 0) =~= ranges(out@));
            break;
        }
        assert(listed_dirs(tv, 0) =~= ranges(out@) + listed_dirs(tv, e + 1));
        i = e + 1;
    }
    out
}

} // verus!
