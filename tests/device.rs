use kwin_mouse_loc::bytes::ByteOrder;
use kwin_mouse_loc::device::{
    parse, EventQueue, EventTime, IntoU16, ParseKeyCode, BTN_LEFT, BTN_MIDDLE, BTN_RIGHT, KEY_1,
    KEY_9, KEY_A, KEY_B, KEY_ENTER, KEY_ESC, KEY_LEFTSHIFT, KEY_SPACE, KEY_UP, KEY_W, KEY_Z,
};

fn event(sec: i64, usec: i64, type_: u16, code: u16, value: i32) -> Vec<u8> {
    let mut b = sec.to_le_bytes().to_vec();
    b.extend_from_slice(&usec.to_le_bytes());
    b.extend_from_slice(&type_.to_le_bytes());
    b.extend_from_slice(&code.to_le_bytes());
    b.extend_from_slice(&value.to_le_bytes());
    b
}

#[test]
fn key_names() {
    assert_eq!(parse("a"), KEY_A);
    assert_eq!(parse("z"), KEY_Z);
    assert_eq!(parse("w"), KEY_W);
    assert_eq!(parse("W"), KEY_UP);
    assert_eq!(parse("up"), KEY_UP);
    assert_eq!(parse("lshift"), KEY_LEFTSHIFT);
    assert_eq!(parse("shift"), KEY_LEFTSHIFT);
    assert_eq!(parse("rclick"), BTN_RIGHT);
    assert_eq!(parse("M"), BTN_MIDDLE);
    assert_eq!(parse("space"), KEY_SPACE);
    assert_eq!(parse("\n"), KEY_ENTER);
    assert_eq!(parse("B"), BTN_LEFT);
    assert_eq!(parse("unknown"), BTN_LEFT);
    assert_eq!("esc".parse_keycode(), KEY_ESC);
}

#[test]
fn key_chars() {
    assert_eq!(parse('a'), KEY_A);
    assert_eq!(parse('B'), KEY_B);
    assert_eq!(parse('b'), KEY_B);
    assert_eq!(parse('W'), KEY_UP);
    assert_eq!(parse('w'), KEY_W);
    assert_eq!(parse('L'), BTN_LEFT);
    assert_eq!(parse('1'), KEY_1);
    assert_eq!(parse('9'), KEY_9);
    assert_eq!(parse('0'), 11);
    assert_eq!(parse('\t'), 15);
    assert_eq!(parse('~'), KEY_ESC);
}

#[test]
fn codes_fit_sixteen_bits() {
    assert_eq!(IntoU16::into(BTN_LEFT), 0x110u16);
    assert_eq!(IntoU16::into(0x1_0110u32), 0x110u16);
    assert_eq!(IntoU16::into(7u16), 7u16);
}

#[test]
fn press_is_one_report() {
    let mut q = EventQueue::new(ByteOrder::Little);
    let out = q.press(BTN_LEFT);
    let mut expected = event(0, 0, 1, 0x110, 1);
    expected.extend(event(0, 0, 0, 0, 0));
    assert_eq!(out, expected);
    assert!(q.pending.is_empty());
    assert_eq!(q.time, EventTime { sec: 0, usec: 1000 });
    let out = q.release(BTN_LEFT);
    let mut expected = event(0, 1000, 1, 0x110, 0);
    expected.extend(event(0, 1000, 0, 0, 0));
    assert_eq!(out, expected);
}

#[test]
fn move_mouse_sends_both_axes() {
    let mut q = EventQueue::new(ByteOrder::Little);
    let out = q.move_mouse(-3, 5);
    let mut expected = event(0, 0, 2, 0, -3);
    expected.extend(event(0, 0, 2, 1, 5));
    expected.extend(event(0, 0, 0, 0, 0));
    assert_eq!(out, expected);
}

#[test]
fn clock_carries_into_seconds() {
    let mut q = EventQueue::new(ByteOrder::Little);
    for _ in 0..999 {
        q.sync();
    }
    assert_eq!(q.time, EventTime { sec: 0, usec: 999_000 });
    q.sync();
    assert_eq!(q.time, EventTime { sec: 1, usec: 0 });
}
