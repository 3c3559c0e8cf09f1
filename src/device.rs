//! Key names and the event stream of a virtual input device.
//!
//! The codes are those of Linux's `input-event-codes.h`. Opening the device
//! and writing to it is left to the caller; [`EventQueue`] decides which
//! bytes to write.

use vstd::prelude::*;
use vstd::string::StrSliceExecFns;
use crate::bytes::{push_word, word_bytes, ByteOrder};

verus! {

pub const EV_SYN: u16 = 0x00;
pub const EV_KEY: u16 = 0x01;
pub const EV_REL: u16 = 0x02;
pub const SYN_REPORT: u16 = 0;
pub const REL_X: u16 = 0x00;
pub const REL_Y: u16 = 0x01;
pub const BUS_VIRTUAL: u16 = 0x06;

pub const KEY_RESERVED: u32 = 0;
pub const KEY_ESC: u32 = 1;
pub const KEY_1: u32 = 2;
pub const KEY_2: u32 = 3;
pub const KEY_3: u32 = 4;
pub const KEY_4: u32 = 5;
pub const KEY_5: u32 = 6;
pub const KEY_6: u32 = 7;
pub const KEY_7: u32 = 8;
pub const KEY_8: u32 = 9;
pub const KEY_9: u32 = 10;
pub const KEY_0: u32 = 11;
pub const KEY_MINUS: u32 = 12;
pub const KEY_EQUAL: u32 = 13;
pub const KEY_TAB: u32 = 15;
pub const KEY_Q: u32 = 16;
pub const KEY_W: u32 = 17;
pub const KEY_E: u32 = 18;
pub const KEY_R: u32 = 19;
pub const KEY_T: u32 = 20;
pub const KEY_Y: u32 = 21;
pub const KEY_U: u32 = 22;
pub const KEY_I: u32 = 23;
pub const KEY_O: u32 = 24;
pub const KEY_P: u32 = 25;
pub const KEY_LEFTBRACE: u32 = 26;
pub const KEY_RIGHTBRACE: u32 = 27;
pub const KEY_ENTER: u32 = 28;
pub const KEY_A: u32 = 30;
pub const KEY_S: u32 = 31;
pub const KEY_D: u32 = 32;
pub const KEY_F: u32 = 33;
pub const KEY_G: u32 = 34;
pub const KEY_H: u32 = 35;
pub const KEY_J: u32 = 36;
pub const KEY_K: u32 = 37;
pub const KEY_L: u32 = 38;
pub const KEY_SEMICOLON: u32 = 39;
pub const KEY_APOSTROPHE: u32 = 40;
pub const KEY_LEFTSHIFT: u32 = 42;
pub const KEY_BACKSLASH: u32 = 43;
pub const KEY_Z: u32 = 44;
pub const KEY_X: u32 = 45;
pub const KEY_C: u32 = 46;
pub const KEY_V: u32 = 47;
pub const KEY_B: u32 = 48;
pub const KEY_N: u32 = 49;
pub const KEY_M: u32 = 50;
pub const KEY_COMMA: u32 = 51;
pub const KEY_DOT: u32 = 52;
pub const KEY_SLASH: u32 = 53;
pub const KEY_RIGHTSHIFT: u32 = 54;
pub const KEY_SPACE: u32 = 57;
pub const KEY_UP: u32 = 103;
pub const KEY_LEFT: u32 = 105;
pub const KEY_RIGHT: u32 = 106;
pub const KEY_DOWN: u32 = 108;
pub const KEY_MICMUTE: u32 = 248;
pub const BTN_LEFT: u32 = 0x110;
pub const BTN_RIGHT: u32 = 0x111;
pub const BTN_MIDDLE: u32 = 0x112;

/// The key of the `i`-th letter of the alphabet, from zero.
pub open spec fn letter_key(i: int) -> u32 {
    if i == 0 { KEY_A }
    else if i == 1 { KEY_B }
    else if i == 2 { KEY_C }
    else if i == 3 { KEY_D }
    else if i == 4 { KEY_E }
    else if i == 5 { KEY_F }
    else if i == 6 { KEY_G }
    else if i == 7 { KEY_H }
    else if i == 8 { KEY_I }
    else if i == 9 { KEY_J }
    else if i == 10 { KEY_K }
    else if i == 11 { KEY_L }
    else if i == 12 { KEY_M }
    else if i == 13 { KEY_N }
    else if i == 14 { KEY_O }
    else if i == 15 { KEY_P }
    else if i == 16 { KEY_Q }
    else if i == 17 { KEY_R }
    else if i == 18 { KEY_S }
    else if i == 19 { KEY_T }
    else if i == 20 { KEY_U }
    else if i == 21 { KEY_V }
    else if i == 22 { KEY_W }
    else if i == 23 { KEY_X }
    else if i == 24 { KEY_Y }
    else { KEY_Z }
}

/// `c` is a lower-case ASCII letter.
pub open spec fn is_lower(c: char) -> bool {
    'a' as u32 <= c as u32 && c as u32 <= 'z' as u32
}

/// `c` is an upper-case ASCII letter.
pub open spec fn is_upper(c: char) -> bool {
    'A' as u32 <= c as u32 && c as u32 <= 'Z' as u32
}

/// The code of the key that a character names. Upper-case `W`, `S`, `A`,
/// `D` are the arrow keys and `L`, `R`, `M` the mouse buttons; other letters
/// name their key in either case; anything unknown is `KEY_ESC`.
pub open spec fn char_keycode(c: char) -> u32 {
    if c == 'W' { KEY_UP }
    else if c == 'S' { KEY_DOWN }
    else if c == 'A' { KEY_LEFT }
    else if c == 'D' { KEY_RIGHT }
    else if c == 'L' { BTN_LEFT }
    else if c == 'R' { BTN_RIGHT }
    else if c == 'M' { BTN_MIDDLE }
    else if is_lower(c) { letter_key(c as u32 - 'a' as u32) }
    else if is_upper(c) { letter_key(c as u32 - 'A' as u32) }
    else if c == ' ' { KEY_SPACE }
    else if c == '\n' { KEY_ENTER }
    else if c == '\t' { KEY_TAB }
    else if c == ';' { KEY_SEMICOLON }
    else if c == '\'' { KEY_APOSTROPHE }
    else if c == '[' { KEY_LEFTBRACE }
    else if c == ']' { KEY_RIGHTBRACE }
    else if c == '\\' { KEY_BACKSLASH }
    else if c == '/' { KEY_SLASH }
    else if c == ',' { KEY_COMMA }
    else if c == '.' { KEY_DOT }
    else if '1' as u32 <= c as u32 && c as u32 <= '9' as u32 { (c as u32 - '1' as u32 + KEY_1) as u32 }
    else if c == '0' { KEY_0 }
    else if c == '-' { KEY_MINUS }
    else if c == '=' { KEY_EQUAL }
    else { KEY_ESC }
}

/// The code of the key that a name gives. A single lower-case letter names
/// its key; `W`, `S`, `A`, `D` (or `up`, `down`, `left`, `right`) the arrow
/// keys; `L`, `R`, `M` (or `click`, `rclick`, `middle`) the mouse buttons;
/// anything unknown is `BTN_LEFT`.
pub open spec fn str_keycode(s: Seq<char>) -> u32 {
    if s.len() == 1 && is_lower(s[0]) { letter_key(s[0] as u32 - 'a' as u32) }
    else if s == "shift"@ || s == "lshift"@ { KEY_LEFTSHIFT }
    else if s == "rshift"@ { KEY_RIGHTSHIFT }
    else if s == "esc"@ { KEY_ESC }
    else if s == "W"@ || s == "up"@ { KEY_UP }
    else if s == "S"@ || s == "down"@ { KEY_DOWN }
    else if s == "A"@ || s == "left"@ { KEY_LEFT }
    else if s == "D"@ || s == "right"@ { KEY_RIGHT }
    else if s == "L"@ || s == "click"@ { BTN_LEFT }
    else if s == "R"@ || s == "rclick"@ { BTN_RIGHT }
    else if s == "M"@ || s == "middle"@ { BTN_MIDDLE }
    else if s == " "@ || s == "space"@ { KEY_SPACE }
    else if s == "\n"@ || s == "enter"@ { KEY_ENTER }
    else { BTN_LEFT }
}

/// A value that names a key.
pub trait ParseKeyCode: Sized {
    /// The code of the key that the value names.
    spec fn keycode(&self) -> u32;

    fn parse_keycode(self) -> (r: u32)
        ensures
            r == self.keycode(),
    ;
}

/// The code of the key that `x` names.
pub fn parse<T: ParseKeyCode>(x: T) -> (r: u32)
    ensures
        r == x.keycode(),
{
    x.parse_keycode()
}

fn letter_code(i: u32) -> (r: u32)
    requires
        i < 26,
    ensures
        r == letter_key(i as int),
{
    match i {
        0 => KEY_A,
        1 => KEY_B,
        2 => KEY_C,
        3 => KEY_D,
        4 => KEY_E,
        5 => KEY_F,
        6 => KEY_G,
        7 => KEY_H,
        8 => KEY_I,
        9 => KEY_J,
        10 => KEY_K,
        11 => KEY_L,
        12 => KEY_M,
        13 => KEY_N,
        14 => KEY_O,
        15 => KEY_P,
        16 => KEY_Q,
        17 => KEY_R,
        18 => KEY_S,
        19 => KEY_T,
        20 => KEY_U,
        21 => KEY_V,
        22 => KEY_W,
        23 => KEY_X,
        24 => KEY_Y,
        _ => KEY_Z,
    }
}

/// Whether two strings hold the same characters.
fn same_text(a: &str, b: &str) -> (r: bool)
    ensures
        r == (a@ == b@),
{
    let n = a.unicode_len();
    if n != b.unicode_len() {
        return false;
    }
    let mut i: usize = 0;
    while i < n
        invariant
            i <= n == a@.len() == b@.len(),
            a@.subrange(0, i as int) =~= b@.subrange(0, i as int),
        decreases n - i,
    {
        if a.get_char(i) != b.get_char(i) {
            return false;
        }
        assert(a@.subrange(0, i + 1) =~= a@.subrange(0, i as int).push(a@[i as int]));
        assert(b@.subrange(0, i + 1) =~= b@.subrange(0, i as int).push(b@[i as int]));
        i = i + 1;
    }
    assert(a@ =~= a@.subrange(0, n as int));
    assert(b@ =~= b@.subrange(0, n as int));
    true
}

impl<'a> ParseKeyCode for &'a str {
    open spec fn keycode(&self) -> u32 {
        str_keycode(self@)
    }

    fn parse_keycode(self) -> (r: u32) {
        if self.unicode_len() == 1 {
            let c = self.get_char(0);
            if 'a' as u32 <= c as u32 && c as u32 <= 'z' as u32 {
                return letter_code(c as u32 - 'a' as u32);
            }
        }
        if same_text(self, "shift") || same_text(self, "lshift") {
            KEY_LEFTSHIFT
        } else if same_text(self, "rshift") {
            KEY_RIGHTSHIFT
        } else if same_text(self, "esc") {
            KEY_ESC
        } else if same_text(self, "W") || same_text(self, "up") {
            KEY_UP
        } else if same_text(self, "S") || same_text(self, "down") {
            KEY_DOWN
        } else if same_text(self, "A") || same_text(self, "left") {
            KEY_LEFT
        } else if same_text(self, "D") || same_text(self, "right") {
            KEY_RIGHT
        } else if same_text(self, "L") || same_text(self, "click") {
            BTN_LEFT
        } else if same_text(self, "R") || same_text(self, "rclick") {
            BTN_RIGHT
        } else if same_text(self, "M") || same_text(self, "middle") {
            BTN_MIDDLE
        } else if same_text(self, " ") || same_text(self, "space") {
            KEY_SPACE
        } else if same_text(self, "\n") || same_text(self, "enter") {
            KEY_ENTER
        } else {
            BTN_LEFT
        }
    }
}

impl ParseKeyCode for char {
    open spec fn keycode(&self) -> u32 {
        char_keycode(*self)
    }

    fn parse_keycode(self) -> (r: u32) {
        let v = self as u32;
        if self == 'W' {
            KEY_UP
        } else if self == 'S' {
            KEY_DOWN
        } else if self == 'A' {
            KEY_LEFT
        } else if self == 'D' {
            KEY_RIGHT
        } else if self == 'L' {
            BTN_LEFT
        } else if self == 'R' {
            BTN_RIGHT
        } else if self == 'M' {
            BTN_MIDDLE
        } else if 'a' as u32 <= v && v <= 'z' as u32 {
            letter_code(v - 'a' as u32)
        } else if 'A' as u32 <= v && v <= 'Z' as u32 {
            letter_code(v - 'A' as u32)
        } else if self == ' ' {
            KEY_SPACE
        } else if self == '\n' {
            KEY_ENTER
        } else if self == '\t' {
            KEY_TAB
        } else if self == ';' {
            KEY_SEMICOLON
        } else if self == '\'' {
            KEY_APOSTROPHE
        } else if self == '[' {
            KEY_LEFTBRACE
        } else if self == ']' {
            KEY_RIGHTBRACE
        } else if self == '\\' {
            KEY_BACKSLASH
        } else if self == '/' {
            KEY_SLASH
        } else if self == ',' {
            KEY_COMMA
        } else if self == '.' {
            KEY_DOT
        } else if '1' as u32 <= v && v <= '9' as u32 {
            v - '1' as u32 + KEY_1
        } else if self == '0' {
            KEY_0
        } else if self == '-' {
            KEY_MINUS
        } else if self == '=' {
            KEY_EQUAL
        } else {
            KEY_ESC
        }
    }
}

/// A value that stands for a 16-bit event code.
pub trait IntoU16: Copy {
    /// The 16-bit code.
    spec fn code(&self) -> u16;

    fn into(self) -> (r: u16)
        ensures
            r == self.code(),
    ;
}

impl IntoU16 for u32 {
    /// The low 16 bits.
    open spec fn code(&self) -> u16 {
        *self as u16
    }

    fn into(self) -> (r: u16) {
        self as u16
    }
}

impl IntoU16 for u16 {
    open spec fn code(&self) -> u16 {
        *self
    }

    fn into(self) -> (r: u16) {
        self
    }
}

/// Microseconds in a second.
pub const USEC_PER_SEC: i64 = 1_000_000;

/// Microseconds by which the event clock advances at each report.
pub const USEC_STEP: i64 = 1_000;

/// Bytes in one `input_event`: the time's seconds and microseconds (8 bytes
/// each), the type and code (2 bytes each) and the value (4 bytes).
pub const EVENT_LEN: usize = 24;

/// The time stamp carried by events.
#[derive(Clone, Copy, Debug, PartialEq, Eq, Structural)]
pub struct EventTime {
    pub sec: i64,
    pub usec: i64,
}

impl EventTime {
    /// The microseconds lie within one second.
    pub open spec fn wf(self) -> bool {
        0 <= self.usec < USEC_PER_SEC
    }
}

/// The time stamp after one report: a millisecond later, carried into the
/// seconds (which wrap around at their largest value).
pub open spec fn next_time(t: EventTime) -> EventTime {
    if t.usec + USEC_STEP >= USEC_PER_SEC {
        EventTime {
            sec: if t.sec == i64::MAX { i64::MIN } else { (t.sec + 1) as i64 },
            usec: (t.usec + USEC_STEP - USEC_PER_SEC) as i64,
        }
    } else {
        EventTime { sec: t.sec, usec: (t.usec + USEC_STEP) as i64 }
    }
}

/// The bytes of one `input_event` with time stamp `t`, each field in `order`.
pub open spec fn event_bytes(t: EventTime, type_: u16, code: u16, value: i32, order: ByteOrder) -> Seq<u8> {
    word_bytes(t.sec as u64 as nat, 8, order) + word_bytes(t.usec as u64 as nat, 8, order)
        + word_bytes(type_ as nat, 2, order) + word_bytes(code as nat, 2, order) + word_bytes(
        value as u32 as nat,
        4,
        order,
    )
}

/// Events waiting to be written to a virtual input device, and the time
/// stamp that the next ones carry.
#[derive(Debug)]
pub struct EventQueue {
    pub time: EventTime,
    pub pending: Vec<u8>,
    pub order: ByteOrder,
}

impl EventQueue {
    /// An empty queue whose clock starts at zero; events are laid out in `order`.
    pub fn new(order: ByteOrder) -> (r: Self)
        ensures
            r.time == (EventTime { sec: 0, usec: 0 }),
            r.pending@ == Seq::<u8>::empty(),
            r.order == order,
    {
        EventQueue { time: EventTime { sec: 0, usec: 0 }, pending: Vec::new(), order }
    }

    /// Queues one event.
    pub fn event(&mut self, type_: u16, code: u16, value: i32)
        ensures
            final(self).pending@ == old(self).pending@ + event_bytes(
                old(self).time,
                type_,
                code,
                value,
                old(self).order,
            ),
            final(self).time == old(self).time,
            final(self).order == old(self).order,
    {
        let order = self.order;
        let t = self.time;
        push_word(&mut self.pending, t.sec as u64, 8, order);
        push_word(&mut self.pending, t.usec as u64, 8, order);
        push_word(&mut self.pending, type_ as u64, 2, order);
        push_word(&mut self.pending, code as u64, 2, order);
        push_word(&mut self.pending, value as u32 as u64, 4, order);
        assert(self.pending@ =~= old(self).pending@ + event_bytes(t, type_, code, value, order));
    }

    /// Ends a report: queues the synchronisation event, hands out every
    /// queued byte to be written at once, and advances the clock.
    pub fn sync(&mut self) -> (r: Vec<u8>)
        requires
            old(self).time.wf(),
        ensures
            r@ == old(self).pending@ + event_bytes(
                old(self).time,
                EV_SYN,
                SYN_REPORT,
                0,
                old(self).order,
            ),
            final(self).pending@ == Seq::<u8>::empty(),
            final(self).time == next_time(old(self).time),
            final(self).time.wf(),
            final(self).order == old(self).order,
    {
        self.event(EV_SYN, SYN_REPORT, 0);
        let out = self.pending.split_off(0);
        let mut usec = self.time.usec + USEC_STEP;
        let mut sec = self.time.sec;
        if usec >= USEC_PER_SEC {
            sec = if sec == i64::MAX {
                i64::MIN
            } else {
                sec + 1
            };
            usec = usec - USEC_PER_SEC;
        }
        self.time = EventTime { sec, usec };
        out
    }

    /// Queues one event and ends the report.
    pub fn send(&mut self, type_: u16, code: u16, val: i32) -> (r: Vec<u8>)
        requires
            old(self).time.wf(),
        ensures
            r@ == old(self).pending@ + event_bytes(old(self).time, type_, code, val, old(self).order)
                + event_bytes(old(self).time, EV_SYN, SYN_REPORT, 0, old(self).order),
            final(self).pending@ == Seq::<u8>::empty(),
            final(self).time == next_time(old(self).time),
            final(self).time.wf(),
            final(self).order == old(self).order,
    {
        self.event(type_, code, val);
        self.sync()
    }

    /// Moves the pointer by `x` and `y` in one report.
    pub fn move_mouse(&mut self, x: i32, y: i32) -> (r: Vec<u8>)
        requires
            old(self).time.wf(),
        ensures
            r@ == old(self).pending@ + event_bytes(
                old(self).time,
                EV_REL,
                REL_X,
                x,
                old(self).order,
            ) + event_bytes(old(self).time, EV_REL, REL_Y, y, old(self).order) + event_bytes(
                old(self).time,
                EV_SYN,
                SYN_REPORT,
                0,
                old(self).order,
            ),
            final(self).pending@ == Seq::<u8>::empty(),
            final(self).time == next_time(old(self).time),
            final(self).time.wf(),
            final(self).order == old(self).order,
    {
        self.event(EV_REL, REL_X, x);
        self.send(EV_REL, REL_Y, y)
    }

    /// Presses the key or button `btn` in one report.
    pub fn press<B: IntoU16>(&mut self, btn: B) -> (r: Vec<u8>)
        requires
            old(self).time.wf(),
        ensures
            r@ == old(self).pending@ + event_bytes(old(self).time, EV_KEY, btn.code(), 1, old(self).order)
                + event_bytes(old(self).time, EV_SYN, SYN_REPORT, 0, old(self).order),
            final(self).pending@ == Seq::<u8>::empty(),
            final(self).time == next_time(old(self).time),
            final(self).time.wf(),
            final(self).order == old(self).order,
    {
        self.send(EV_KEY, btn.into(), 1)
    }

    /// Releases the key or button `btn` in one report.
    pub fn release<B: IntoU16>(&mut self, btn: B) -> (r: Vec<u8>)
        requires
            old(self).time.wf(),
        ensures
            r@ == old(self).pending@ + event_bytes(old(self).time, EV_KEY, btn.code(), 0, old(self).order)
                + event_bytes(old(self).time, EV_SYN, SYN_REPORT, 0, old(self).order),
            final(self).pending@ == Seq::<u8>::empty(),
            final(self).time == next_time(old(self).time),
            final(self).time.wf(),
            final(self).order == old(self).order,
    {
        self.send(EV_KEY, btn.into(), 0)
    }
}

} // verus!
