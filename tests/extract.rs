use kwin_mouse_loc::consts::{
    get_offset, include_dirs, locate_offsets, offset_kwin, offset_pos, symbol_offset, ExtractError,
    OffsetSet,
};

const SYMBOLS: &str = "\nSymbol table '.dynsym' contains 3 entries:\n   Num:    Value          Size Type    Bind   Vis      Ndx Name\n     0: 0000000000000000     0 NOTYPE  LOCAL  DEFAULT  UND \n  1234: 00000000006a3f48     8 OBJECT  GLOBAL DEFAULT   27 KWin::Workspace::_self\n  1235: 00000000006a3f50     8 OBJECT  GLOBAL DEFAULT   27 KWin::Workspace::other\n";

const SECTIONS: &str = "There are 3 section headers, starting at offset 0x1000:\n\nSection Headers:\n  [Nr] Name              Type            Address          Off    Size   ES Flg Lk Inf Al\n  [26] .kwin.mouse.loc.pos PROGBITS        0000000000a1a000 a19000 000008 00  WA  0   0  8\n  [27] .kwin.mouse.loc.kwin PROGBITS        0000000000a1a008 a19008 000008 00  WA  0   0  8\n  [28] .kwin.mouse.loc.offset PROGBITS        0000000000a1b000 a1a000 000018 00  WA  0   0  8\n";

const BINDINGS: &str = "#[allow(clippy::unnecessary_operation, clippy::identity_op)]\nconst _: () = {\n    [\"Size of KWin_Workspace\"][::core::mem::size_of::<KWin_Workspace>() - 720usize];\n    [\"Offset of field: KWin_Workspace::focusMousePos\"]\n        [::core::mem::offset_of!(KWin_Workspace, focusMousePos) - 176usize];\n};\n";

#[test]
fn symbol_value_is_read_from_its_line() {
    assert_eq!(offset_kwin(SYMBOLS), Ok(0x6a3f48));
    assert_eq!(symbol_offset(SYMBOLS, "KWin::Workspace::other"), Ok(0x6a3f50));
}

#[test]
fn symbol_missing_is_not_found() {
    assert_eq!(offset_kwin("  1: 0000000000001000 8 OBJECT GLOBAL DEFAULT 27 Other\n"), Err(ExtractError::NotFound));
    assert_eq!(offset_kwin(""), Err(ExtractError::NotFound));
}

#[test]
fn symbol_without_line_break_is_format_error() {
    assert_eq!(
        offset_kwin("1234: 00000000006a3f48 8 OBJECT GLOBAL DEFAULT 27 KWin::Workspace::_self"),
        Err(ExtractError::Format)
    );
}

#[test]
fn symbol_without_colon_is_format_error() {
    assert_eq!(offset_kwin("\n 00000000006a3f48 KWin::Workspace::_self"), Err(ExtractError::Format));
}

#[test]
fn symbol_value_not_hex_is_number_error() {
    assert_eq!(offset_kwin("\n  12: 00000000006a3g48 8 KWin::Workspace::_self"), Err(ExtractError::Number));
    assert_eq!(
        offset_kwin("\n  12: 1ffffffffffffffff 8 KWin::Workspace::_self"),
        Err(ExtractError::Number)
    );
}

#[test]
fn section_offset_is_third_field() {
    assert_eq!(get_offset(SECTIONS, ".kwin.mouse.loc.offset"), Ok(0xa1a000));
    assert_eq!(get_offset(SECTIONS, ".kwin.mouse.loc.pos"), Ok(0xa19000));
    assert_eq!(get_offset(SECTIONS, ".kwin.mouse.loc.kwin"), Ok(0xa19008));
}

#[test]
fn section_errors() {
    assert_eq!(get_offset(SECTIONS, ".text"), Err(ExtractError::NotFound));
    assert_eq!(get_offset("[1] .text PROGBITS 00000010", ".text"), Err(ExtractError::Format));
    assert_eq!(get_offset("[1] .text PROGBITS 00000010 zz 08", ".text"), Err(ExtractError::Number));
}

#[test]
fn locate_all_three_sections() {
    assert_eq!(
        locate_offsets(SECTIONS),
        Ok(OffsetSet { offset: 0xa1a000, pos: 0xa19000, kwin: 0xa19008 })
    );
    assert_eq!(locate_offsets("  [26] .kwin.mouse.loc.offset PROGBITS 0 10 8\n"), Err(ExtractError::NotFound));
}

#[test]
fn field_offset_from_bindings() {
    assert_eq!(offset_pos(BINDINGS), Ok(176));
    assert_eq!(offset_pos("offset_of!(KWin_Workspace, focusMousePos) - 208 ]"), Ok(208));
}

#[test]
fn field_offset_errors() {
    assert_eq!(offset_pos("offset_of!(KWin_Workspace, other) - 8usize]"), Err(ExtractError::NotFound));
    assert_eq!(offset_pos("offset_of!(KWin_Workspace, focusMousePos) - 176usize"), Err(ExtractError::Format));
    assert_eq!(offset_pos("offset_of!(KWin_Workspace, focusMousePos) + 176usize]"), Err(ExtractError::Format));
    assert_eq!(offset_pos("offset_of!(KWin_Workspace, focusMousePos) - 1 2]"), Err(ExtractError::Number));
    assert_eq!(offset_pos("offset_of!(KWin_Workspace, focusMousePos) - ]"), Err(ExtractError::Number));
    assert_eq!(offset_pos("offset_of!(KWin_Workspace, focusMousePos) -  ]"), Err(ExtractError::Number));
    assert_eq!(offset_pos("offset_of!(KWin_Workspace, focusMousePos) - 0x10]"), Err(ExtractError::Number));
    assert_eq!(offset_pos("offset_of!(KWin_Workspace, focusMousePos) - usize]"), Err(ExtractError::Number));
}

#[test]
fn include_dirs_are_trimmed_lines() {
    let list = "\n    /usr/include\n\n  /usr/include/kwin  \r\n\t/opt/qt6";
    let dirs: Vec<&str> = include_dirs(list).into_iter().map(|(a, b)| &list[a..b]).collect();
    assert_eq!(dirs, vec!["/usr/include", "/usr/include/kwin", "/opt/qt6"]);
    assert!(include_dirs("  \n \n").is_empty());
}

#[test]
fn symbol_value_needs_a_space_after_it() {
    assert_eq!(offset_kwin("\n  7: 1cKWin::Workspace::_self"), Err(ExtractError::Format));
    assert_eq!(offset_kwin("\n  7: 1c KWin::Workspace::_self"), Err(ExtractError::Format));
    assert_eq!(offset_kwin("\n  7: 1c\t8 KWin::Workspace::_self"), Err(ExtractError::Format));
    assert_eq!(offset_kwin("\n  7: 1c\t8 9 KWin::Workspace::_self"), Err(ExtractError::Number));
    assert_eq!(offset_kwin("\n  7:   1c 8 KWin::Workspace::_self"), Ok(0x1c));
}

#[test]
fn section_fields_are_split_on_spaces_only() {
    assert_eq!(get_offset(".s A\nB C D", ".s"), Ok(0xd));
    assert_eq!(get_offset(".s A B C\nD", ".s"), Err(ExtractError::Number));
    assert_eq!(get_offset(".s A\nB C", ".s"), Err(ExtractError::Format));
    assert_eq!(get_offset(".s  A   B   1f  \n", ".s"), Ok(0x1f));
}
