use kwin_mouse_loc::bytes::ByteOrder;
use kwin_mouse_loc::consts::offset_kwin;
use kwin_mouse_loc::pointer::{
    library_base_of, ChaseError, KWinPid, LocateError, Mouse, Position, ReadRequest, Transfer,
    Workspace,
};

const MAPS: &str = "5555f0a00000-5555f0a01000 r--p 00000000 103:02 131 /usr/bin/kwin_wayland\n700000000000-70000014a000 r--p 00000000 103:02 3323906                   /usr/lib/libkwin.so.6.1.4\n70000014a000-70000054a000 r-xp 0014a000 103:02 3323906                   /usr/lib/libkwin.so.6.1.4\n";

const PS: &str = "    PID TTY      STAT   TIME COMMAND\n    912 ?        Ss     0:00 /usr/lib/systemd/systemd --user\n   1043 ?        Ssl   12:41 /usr/bin/kwin_wayland --wayland-fd 7 --socket wayland-0\n   1101 ?        Sl     0:02 /usr/bin/Xwayland :0\n";

fn transfer(returned: i64, data: Vec<u8>) -> Transfer {
    Transfer { returned, data }
}

fn position_bytes(x: f64, y: f64) -> Vec<u8> {
    let mut b = x.to_le_bytes().to_vec();
    b.extend_from_slice(&y.to_le_bytes());
    b
}

#[test]
fn search_finds_the_one_compositor() {
    assert_eq!(KWinPid::search(PS), Ok(KWinPid(1043)));
    assert_eq!(KWinPid::search(PS).unwrap().pid(), 1043);
}

#[test]
fn search_errors() {
    assert_eq!(KWinPid::search("  PID CMD\n  1 /sbin/init\n"), Err(LocateError::ProcessNotFound));
    assert_eq!(KWinPid::search(""), Err(LocateError::ProcessNotFound));
    let two = format!("{PS}   2000 ?  Sl  0:00 /usr/bin/kwin_wayland --replace\n");
    assert_eq!(KWinPid::search(&two), Err(LocateError::ProcessAmbiguous));
    assert_eq!(KWinPid::search("  x1043 /usr/bin/kwin_wayland --x\n"), Err(LocateError::ProcessFormat));
    assert_eq!(KWinPid::search("  3000000000 /usr/bin/kwin_wayland --x"), Err(LocateError::ProcessFormat));
}

#[test]
fn base_is_start_of_read_only_zero_offset_mapping() {
    assert_eq!(library_base_of(MAPS, "libkwin.so"), Ok(0x7000_0000_0000));
    assert_eq!(library_base_of(MAPS, "kwin_wayland"), Ok(0x5555_f0a0_0000));
}

#[test]
fn base_skips_other_mappings_of_the_library() {
    let maps = "70000014a000-70000054a000 r-xp 0014a000 103:02 3323906 /usr/lib/libkwin.so.6\n7000000a0000-7000000b0000 r--p 00001000 103:02 3323906 /usr/lib/libkwin.so.6\n700000000000-70000014a000 r--p 00000000 103:02 3323906 /usr/lib/libkwin.so.6\n";
    assert_eq!(library_base_of(maps, "libkwin.so"), Ok(0x7000_0000_0000));
}

#[test]
fn base_errors_are_distinct() {
    let no_zero = "70000014a000-70000054a000 r-xp 0014a000 103:02 3323906 /usr/lib/libkwin.so.6\n";
    assert_eq!(library_base_of(no_zero, "libkwin.so"), Err(LocateError::MappingFormat));
    let writable = "700000000000-70000014a000 rw-p 00000000 103:02 3323906 /usr/lib/libkwin.so.6\n";
    assert_eq!(library_base_of(writable, "libkwin.so"), Err(LocateError::MappingFormat));
    assert_eq!(library_base_of(MAPS, "libplasma.so"), Err(LocateError::MappingNotFound));
    let bad_start = "70000000zz00-70000014a000 r--p 00000000 103:02 3323906 /usr/lib/libkwin.so.6\n";
    assert_eq!(library_base_of(bad_start, "libkwin.so"), Err(LocateError::MappingFormat));
}

#[test]
fn workspace_address_is_base_plus_offset() {
    let w = Workspace::get(KWinPid::from(1043), MAPS, 0x1C8).unwrap();
    assert_eq!(w, Workspace { pid: KWinPid(1043), address: 0x7000_0000_01C8 });
    assert_eq!(
        w.read_request(),
        ReadRequest { pid: 1043, address: 0x7000_0000_01C8, len: 8 }
    );
    assert_eq!(
        Workspace::get(KWinPid(1), MAPS, u64::MAX),
        Err(LocateError::AddressOverflow)
    );
}

#[test]
fn pointer_chase_end_to_end() {
    let w = Workspace::get(KWinPid(1043), MAPS, 0x1C8).unwrap();
    assert_eq!(w.address, 0x7000_0000_01C8);
    let first_read = transfer(8, 0x5555_0000_1000u64.to_le_bytes().to_vec());
    let m = w.get_mouse(0xB0, &first_read, ByteOrder::Little).unwrap();
    assert_eq!(m, Mouse { pid: KWinPid(1043), address: 0x5555_0000_10B0 });
    assert_eq!(m.read_request(), ReadRequest { pid: 1043, address: 0x5555_0000_10B0, len: 16 });
    let second_read = transfer(16, position_bytes(123.5, 77.25));
    let p = m.loc(&second_read, ByteOrder::Little).unwrap();
    assert_eq!(f64::from_bits(p.x_bits), 123.5);
    assert_eq!(f64::from_bits(p.y_bits), 77.25);
}

#[test]
fn short_second_hop_yields_no_position() {
    let m = Mouse { pid: KWinPid(1043), address: 0x5555_0000_10B0 };
    let mut data = position_bytes(123.5, 77.25);
    data.truncate(12);
    assert_eq!(m.loc(&transfer(12, data), ByteOrder::Little), Err(ChaseError::PartialRead(12)));
    let full = position_bytes(123.5, 77.25);
    assert_eq!(m.loc(&transfer(12, full), ByteOrder::Little), Err(ChaseError::PartialRead(12)));
}

#[test]
fn transfers_of_wrong_length_are_rejected() {
    let w = Workspace { pid: KWinPid(7), address: 0x1000 };
    let ptr = 0x5555_0000_1000u64.to_le_bytes().to_vec();
    for n in [0i64, 4, 7, 9, 16] {
        assert_eq!(w.get_mouse(0xB0, &transfer(n, ptr.clone()), ByteOrder::Little), Err(ChaseError::PartialRead(n)));
    }
    assert_eq!(w.get_mouse(0xB0, &transfer(-1, ptr.clone()), ByteOrder::Little), Err(ChaseError::ReadDenied));
    let m = Mouse { pid: KWinPid(7), address: 0x2000 };
    let pos = position_bytes(1.0, 2.0);
    for n in [0i64, 8, 15, 17, 24] {
        assert_eq!(m.loc(&transfer(n, pos.clone()), ByteOrder::Little), Err(ChaseError::PartialRead(n)));
    }
    assert_eq!(m.loc(&transfer(-1, pos), ByteOrder::Little), Err(ChaseError::ReadDenied));
}

#[test]
fn first_hop_rejects_null_and_overflow() {
    let w = Workspace { pid: KWinPid(7), address: 0x1000 };
    assert_eq!(w.get_mouse(0xB0, &transfer(8, vec![0; 8]), ByteOrder::Little), Err(ChaseError::NullPointer));
    let high = u64::MAX.to_le_bytes().to_vec();
    assert_eq!(w.get_mouse(1, &transfer(8, high), ByteOrder::Little), Err(ChaseError::AddressOverflow));
}

#[test]
fn big_endian_target_words() {
    let w = Workspace { pid: KWinPid(7), address: 0x1000 };
    let first_read = transfer(8, 0x5555_0000_1000u64.to_be_bytes().to_vec());
    let m = w.get_mouse(0x10, &first_read, ByteOrder::Big).unwrap();
    assert_eq!(m.address, 0x5555_0000_1010);
    let mut b = 2.5f64.to_be_bytes().to_vec();
    b.extend_from_slice(&(-4.0f64).to_be_bytes());
    let p = m.loc(&transfer(16, b), ByteOrder::Big).unwrap();
    assert_eq!(p, Position { x_bits: 2.5f64.to_bits(), y_bits: (-4.0f64).to_bits() });
}

#[test]
fn equality() {
    let symbols = "\n  1234: 00000000000001c8     8 OBJECT  GLOBAL DEFAULT   27 KWin::Workspace::_self\n";
    let pid = KWinPid::search(PS).unwrap();
    let offset = offset_kwin(symbols).unwrap();
    let w1 = Workspace::get(KWinPid::from(1043), MAPS, 0x1C8).unwrap();
    let w2 = Workspace::get(pid, MAPS, offset).unwrap();
    assert!(w1 == w2);
    assert!(0x1C8 == offset);
}

#[test]
fn get_loc() {
    let workspace = Workspace::get(KWinPid::search(PS).unwrap(), MAPS, 0x1C8).unwrap();
    let first_read = transfer(8, 0x5555_0000_1000u64.to_le_bytes().to_vec());
    let mouse = workspace.get_mouse(0xB0, &first_read, ByteOrder::Little).unwrap();
    let loc = mouse.loc(&transfer(16, position_bytes(10.0, 20.0)), ByteOrder::Little).unwrap();
    println!("{:?} {}", (f64::from_bits(loc.x_bits), f64::from_bits(loc.y_bits)), mouse.address);
}
