use tuning_studio::die::Value;
use tuning_studio::dwarf_eval::{
    evaluate_expr_to_status, evaluate_location_list, evaluate_location_to_status,
    evaluate_member_offset_expr, evaluate_simple_location_expr,
};
use tuning_studio::dwarf_index::{
    find_file, find_indexed_address, find_indexed_list, find_indexed_text, find_list_expressions,
    root_is_readable,
};
use tuning_studio::dwarf_load::load_units;
use tuning_studio::dwarf_source::Sections;
use tuning_studio::variable_status::VariableStatus;

const LATE_END: &str = "Hit the end of input before it was expected";

fn uleb(mut v: u64) -> Vec<u8> {
    let mut out = Vec::new();
    loop {
        let low = (v & 0x7f) as u8;
        v >>= 7;
        if v == 0 {
            out.push(low);
            return out;
        }
        out.push(low | 0x80);
    }
}

fn joined(parts: &[&[u8]]) -> Vec<u8> {
    parts.concat()
}

/// One unit of version 5 with these entries and abbreviations.
fn unit(dies: &[u8], abbrev: &[u8], others: &[(&str, &[u8])]) -> Sections {
    let mut info = Vec::new();
    info.extend(((dies.len() + 8) as u32).to_le_bytes());
    info.extend([5, 0, 1, 4, 0, 0, 0, 0]);
    info.extend(dies);
    sections(info, abbrev, others)
}

/// The same with offsets of eight bytes.
fn wide_unit(dies: &[u8], abbrev: &[u8], others: &[(&str, &[u8])]) -> Sections {
    let mut info = vec![0xff, 0xff, 0xff, 0xff];
    info.extend(((dies.len() + 12) as u64).to_le_bytes());
    info.extend([5, 0, 1, 4]);
    info.extend([0; 8]);
    info.extend(dies);
    sections(info, abbrev, others)
}

fn sections(info: Vec<u8>, abbrev: &[u8], others: &[(&str, &[u8])]) -> Sections {
    let mut contents = vec![
        (".debug_info".to_string(), info),
        (".debug_abbrev".to_string(), abbrev.to_vec()),
    ];
    for (name, data) in others {
        contents.push((name.to_string(), data.to_vec()));
    }
    Sections {
        little_endian: true,
        contents,
    }
}

/// A root without attributes.
const BARE: [u8; 6] = [1, 0x11, 0, 0, 0, 0];

fn bare(others: &[(&str, &[u8])]) -> Sections {
    unit(&[1], &BARE, others)
}

/// `DW_OP_piece` of so many bytes.
fn piece(size: u64) -> Vec<u8> {
    joined(&[&[0x93], &uleb(size)])
}

#[test]
fn an_evaluation_stops_before_a_piece_past_64_bits() {
    let s = bare(&[]);
    let addr = [0x03, 0x10, 0, 0, 0x20];
    let status = |code: &[u8]| evaluate_expr_to_status(&s, 0, code);

    let fits = joined(&[&addr, &piece((1 << 61) - 1)]);
    assert!(matches!(status(&fits), VariableStatus::Valid { address: 0x2000_0010 }));
    assert_eq!(evaluate_simple_location_expr(&s, 0, &fits), Some(0x2000_0010));
    for size in [1 << 61, 1 << 62, 1 << 63, u64::MAX] {
        let code = joined(&[&addr, &piece(size)]);
        assert!(matches!(status(&code), VariableStatus::NoLocation), "{size:#x}");
        assert_eq!(evaluate_simple_location_expr(&s, 0, &code), None);
        let in_register = joined(&[&[0x50], &piece(size)]);
        assert!(matches!(status(&in_register), VariableStatus::NoLocation));
    }
    // What stops the evaluation first still says what it needs
    let on_stack = joined(&[&[0x91, 0x78], &piece(1 << 62)]);
    assert!(matches!(
        status(&on_stack),
        VariableStatus::LocalVariable { reason } if reason == "Stack variable (requires frame base)"
    ));
    // The same bytes as data are no piece
    let data = joined(&[&[0x9e, 11], &piece(1 << 62), &[0]]);
    assert_eq!(data.len(), 13);
    assert!(matches!(status(&data), VariableStatus::ImplicitValue));
    // A branch that leads to the piece
    let jump = joined(&[&[0x2f, 0, 0], &addr, &piece(1 << 62)]);
    assert!(matches!(status(&jump), VariableStatus::NoLocation));
    let plain_jump = joined(&[&[0x2f, 0, 0], &addr]);
    assert!(matches!(status(&plain_jump), VariableStatus::Valid { address: 0x2000_0010 }));
}

#[test]
fn a_piece_past_64_bits_matters_only_where_it_is_reached() {
    let s = bare(&[]);
    let addr = [0x03, 0x10, 0, 0, 0x20];
    let big = piece(1 << 62);
    let len = big.len() as u8;
    let status = |code: &[u8]| evaluate_expr_to_status(&s, 0, code);
    let valid = |code: &[u8]| matches!(status(code), VariableStatus::Valid { address: 0x2000_0010 });

    // DW_OP_skip over the piece
    let over = joined(&[&[0x2f, len, 0], &big, &addr]);
    assert!(valid(&over), "{:?}", status(&over));
    assert_eq!(evaluate_simple_location_expr(&s, 0, &over), Some(0x2000_0010));
    // into it
    let into = joined(&[&[0x2f, 5, 0], &addr, &big]);
    assert!(matches!(status(&into), VariableStatus::NoLocation));
    // back to it
    let back = joined(&[&[0x2f, len, 0], &big, &[0x2f, (-(len as i8) - 3) as u8, 0xff]]);
    assert!(matches!(status(&back), VariableStatus::NoLocation));
    // An address after which nothing follows but the end
    let behind_the_end = joined(&[&addr, &[0x2f, len, 0], &big]);
    assert!(valid(&behind_the_end));
    // The bytes of a piece as the operand of a constant that a branch leads past
    let operand = joined(&[&[0x2f, 0, 0], &[0x0e, 0x93], &[0x80; 7], &[0x13], &addr]);
    assert!(valid(&operand), "{:?}", status(&operand));
    // DW_OP_bra over operations that do nothing
    let choice = joined(&[&[0x31, 0x28, len, 0], &[0x96; 10], &addr]);
    assert_eq!(len, 10);
    assert!(valid(&choice), "{:?}", status(&choice));
}

#[test]
fn a_generic_value_needs_no_type() {
    let s = bare(&[]);
    // DW_OP_const_type of the unit's entry at 12, one byte long, and DW_OP_convert to generic
    let code = [0xa4, 12, 1, 7, 0xa8, 0];
    let status = evaluate_expr_to_status(&s, 0, &code);
    assert!(!matches!(status, VariableStatus::LocalVariable { .. }), "{status:?}");
}

#[test]
fn operations_end_at_a_piece_past_64_bits() {
    let s = bare(&[]);
    assert_eq!(evaluate_member_offset_expr(&s, 0, &[0x23, 8]), 8);
    assert_eq!(evaluate_member_offset_expr(&s, 0, &[0x96, 0x10, 5]), 5);
    let after_piece = joined(&[&piece(4), &[0x23, 8]]);
    assert_eq!(evaluate_member_offset_expr(&s, 0, &after_piece), 8);
    let cut_off = joined(&[&piece(1 << 61), &[0x23, 8]]);
    assert_eq!(evaluate_member_offset_expr(&s, 0, &cut_off), 0);
}

/// A root with children, and a variable with a location block and a size.
const BLOCK: [u8; 16] = [1, 0x11, 1, 0, 0, 2, 0x34, 0, 0x02, 0x18, 0x0b, 0x0b, 0, 0, 0, 0];

#[test]
fn a_block_past_the_end_is_refused() {
    let whole = joined(&[&[1, 2, 1, 0x9c, 4], &[0]]);
    assert_eq!(load_units(&unit(&whole, &BLOCK, &[])).unwrap()[0].dies.len(), 2);
    for len in [9, 1 << 32, u64::MAX - 1, u64::MAX] {
        let dies = joined(&[&[1, 2], &uleb(len), &[4, 0]]);
        assert_eq!(
            load_units(&unit(&dies, &BLOCK, &[])).unwrap_err(),
            format!("Failed to read DWARF entry: {LATE_END}"),
            "{len:#x}"
        );
    }
}

/// A root whose name is an index.
const NAMED: [u8; 8] = [1, 0x11, 0, 0x03, 0x1a, 0, 0, 0];

/// A root whose lowest address is an index.
const PLACED: [u8; 8] = [1, 0x11, 0, 0x11, 0x1b, 0, 0, 0];

#[test]
fn an_index_of_the_root_must_fit() {
    let named = |index: u64| unit(&joined(&[&[1], &uleb(index)]), &NAMED, &[]);
    assert!(load_units(&named((1 << 62) - 1)).is_ok(), "a name that is not there is none");
    assert!(root_is_readable(&named((1 << 62) - 1), 0));
    assert!(!root_is_readable(&named(1 << 62), 0));
    let refused = format!("Failed to parse DWARF unit: {LATE_END}");
    assert_eq!(load_units(&named(1 << 62)).unwrap_err(), refused);
    let placed = |index: u64| unit(&joined(&[&[1], &uleb(index)]), &PLACED, &[(".debug_addr", &[4, 0, 0, 0])]);
    assert!(load_units(&placed(0)).is_ok());
    assert_eq!(load_units(&placed(1)).unwrap_err(), refused);
    assert_eq!(load_units(&placed(1 << 62)).unwrap_err(), refused);
    assert_eq!(find_indexed_address(&placed(1 << 62), 0, 0), None);
    assert!(find_list_expressions(&placed(1 << 62), 0, 0).is_empty());
    assert!(matches!(find_file(&placed(1 << 62), 0, 0), (None, None)));
}

#[test]
fn the_root_is_the_first_entry_that_is_no_null() {
    let refused = format!("Failed to parse DWARF unit: {LATE_END}");
    let named = |index: u64| unit(&joined(&[&[0, 1], &uleb(index)]), &NAMED, &[]);
    assert!(root_is_readable(&named((1 << 62) - 1), 0));
    for far in [1 << 62, 1 << 63, u64::MAX] {
        assert!(!root_is_readable(&named(far), 0), "{far:#x}");
        assert_eq!(load_units(&named(far)).unwrap_err(), refused, "{far:#x}");
    }
    let addr: [(&str, &[u8]); 1] = [(".debug_addr", &[4, 0, 0, 0])];
    let placed = |index: u64| unit(&joined(&[&[0, 0, 1], &uleb(index)]), &PLACED, &addr);
    assert!(load_units(&placed(0)).is_ok());
    assert_eq!(load_units(&placed(1 << 63)).unwrap_err(), refused);

    let lists = [0, 0, 0, 0, 8, 0, 0, 0];
    let s = unit(&[0, 1, 4, 0, 0, 0], &LISTED, &[(".debug_loclists", &lists)]);
    assert_eq!(find_indexed_list(&s, 0, 0), Some(12));
}

#[test]
fn indices_stand_for_texts_and_addresses() {
    let s = bare(&[
        (".debug_str", b"ab\0cde\0"),
        (".debug_str_offsets", &[0, 0, 0, 0, 3, 0, 0, 0]),
        (".debug_addr", &[8, 0, 0, 0x20, 0, 0, 0, 0]),
    ]);
    assert_eq!(find_indexed_text(&s, 0, 0).as_deref(), Some(&b"ab"[..]));
    assert_eq!(find_indexed_text(&s, 0, 1).as_deref(), Some(&b"cde"[..]));
    assert_eq!(find_indexed_address(&s, 0, 0), Some(0x2000_0008));
    for far in [2, 1 << 61, 1 << 62, usize::MAX] {
        assert_eq!(find_indexed_text(&s, 0, far), None);
        assert_eq!(find_indexed_address(&s, 0, far), None);
        assert!(matches!(
            evaluate_location_to_status(&s, 0, &Value::AddressIndex(far)),
            VariableStatus::NoLocation
        ));
    }
    assert!(matches!(
        evaluate_location_to_status(&s, 0, &Value::AddressIndex(0)),
        VariableStatus::Valid { address: 0x2000_0008 }
    ));
    // DW_OP_addrx
    assert!(matches!(
        evaluate_expr_to_status(&s, 0, &[0xa1, 0]),
        VariableStatus::Valid { address: 0x2000_0008 }
    ));
    let far = joined(&[&[0xa1], &uleb(1 << 62)]);
    assert!(matches!(evaluate_expr_to_status(&s, 0, &far), VariableStatus::NoLocation));
}

/// A root that says where its location lists start.
const LISTED: [u8; 9] = [1, 0x11, 0, 0x8c, 0x01, 0x17, 0, 0, 0];

#[test]
fn list_indices_count_from_where_the_lists_start() {
    let lists = [0, 0, 0, 0, 8, 0, 0, 0];
    let s = unit(&[1, 4, 0, 0, 0], &LISTED, &[(".debug_loclists", &lists)]);
    assert_eq!(find_indexed_list(&s, 0, 0), Some(12));
    for far in [1, 1 << 62, usize::MAX] {
        assert_eq!(find_indexed_list(&s, 0, far), None);
        assert!(matches!(
            evaluate_location_to_status(&s, 0, &Value::LocationListIndex(far)),
            VariableStatus::NoLocation
        ));
    }
    let from_zero = bare(&[(".debug_loclists", &lists)]);
    assert_eq!(find_indexed_list(&from_zero, 0, 1), Some(8));
    let past = unit(&[1, 9, 0, 0, 0], &LISTED, &[(".debug_loclists", &lists)]);
    assert_eq!(find_indexed_list(&past, 0, 0), None);

    let mut wide = vec![0; 4];
    wide.extend((u64::MAX - 3).to_le_bytes());
    wide.extend((u64::MAX - 4).to_le_bytes());
    let s = wide_unit(&[1, 4, 0, 0, 0, 0, 0, 0, 0], &LISTED, &[(".debug_loclists", &wide)]);
    assert_eq!(find_indexed_list(&s, 0, 0), None, "past the last offset");
    assert_eq!(find_indexed_list(&s, 0, 1), Some(usize::MAX));
}

#[test]
fn a_location_list_is_read_up_to_an_index_that_does_not_fit() {
    let addr = |at: u8| vec![5, 0x03, at, 0, 0, 0x20];
    // DW_LLE_startx_length, DW_LLE_startx_endx and DW_LLE_default_location
    let first = joined(&[&[0x03, 0, 4], &addr(0x40)]);
    let second = |end: u64| joined(&[&[0x02, 0], &uleb(end), &addr(0x44)]);
    let third = joined(&[&[0x05], &addr(0x48)]);
    let with = |end: u64| {
        let list = joined(&[&first, &second(end), &third, &[0]]);
        bare(&[(".debug_loclists", &list), (".debug_addr", &[0, 1, 0, 0, 0, 2, 0, 0])])
    };
    let read = find_list_expressions(&with(1), 0, 0);
    assert_eq!(read.len(), 3);
    assert_eq!(read[1], [0x03, 0x44, 0, 0, 0x20]);
    for far in [2, 1 << 61, 1 << 62, u64::MAX] {
        let read = find_list_expressions(&with(far), 0, 0);
        assert_eq!(read, [vec![0x03, 0x40, 0, 0, 0x20]], "{far:#x}");
    }
    assert_eq!(evaluate_location_list(&with(1 << 62), 0, 0), Some(0x2000_0040));
    assert_eq!(evaluate_location_list(&with(1), 0, 1000), None);
}
