use dex_parser::dex::debug_info::{parse_debug_info, parse_debug_info_with_types, DBG_END_SEQUENCE, DBG_START_LOCAL};
use dex_parser::error::{DexError, Result};

#[test]
fn parse_end_sequence_only() {
    // line_start=1, parameters_size=0, END_SEQUENCE
    let dbg = parse_debug_info(&[0x01, 0x00, 0x00], 0, &|_| Ok(String::new())).unwrap();
    assert!(dbg.parameter_names.is_empty());
    assert!(dbg.register_names.is_empty());
}

#[test]
fn parse_params_and_start_local() {
    // line_start=1, parameters_size=1, param name string_idx=0,
    // START_LOCAL reg=1 name=0 type=-1, END_SEQUENCE
    let mut data = Vec::new();
    data.push(0x01); // line_start
    data.push(0x01); // parameters_size
    data.push(0x01); // uleb128p1 → string 0
    data.push(DBG_START_LOCAL);
    data.push(0x01); // reg 1
    data.push(0x01); // name string 0
    data.push(0x00); // type no-index (uleb128p1 of 0 → -1)
    data.push(DBG_END_SEQUENCE);

    let get_string = |idx: u32| -> Result<String> {
        match idx {
            0 => Ok("count".into()),
            _ => Err(DexError::Parse(format!("string {idx}"))),
        }
    };
    let dbg = parse_debug_info(&data, 0, &get_string).unwrap();
    assert_eq!(dbg.parameter_names, vec![Some("count".into())]);
    assert_eq!(dbg.name_for_reg(1), Some("count"));
}

#[test]
fn parse_start_local_with_type() {
    let mut data = Vec::new();
    data.push(0x01);
    data.push(0x00);
    data.push(DBG_START_LOCAL);
    data.push(0x02); // reg 2
    data.push(0x01); // name string 0
    data.push(0x01); // type_idx 0
    data.push(DBG_END_SEQUENCE);
    let get_string = |idx: u32| -> Result<String> {
        match idx {
            0 => Ok("fff".into()),
            _ => Err(DexError::Parse(format!("string {idx}"))),
        }
    };
    let get_type = |idx: u32| -> Result<String> {
        match idx {
            0 => Ok("F".into()),
            _ => Err(DexError::Parse(format!("type {idx}"))),
        }
    };
    let dbg = parse_debug_info_with_types(&data, 0, &get_string, Some(&get_type)).unwrap();
    assert_eq!(dbg.name_for_reg(2), Some("fff"));
    assert_eq!(dbg.type_for_reg(2), Some("F"));
}

#[test]
fn debug_info_truncated_is_error() {
    // parameters_size = 1 but no name follows
    let r = parse_debug_info(&[0x01, 0x01], 0, &|_| Ok(String::new()));
    assert!(matches!(r, Err(DexError::Truncated(_))));
}

#[test]
fn debug_info_locals_reuse_register() {
    // two locals on register 0, the second after an END_LOCAL
    let data = vec![
        0x01, 0x00, // line_start, no params
        DBG_START_LOCAL, 0x00, 0x01, 0x00, // reg 0, name 0, no type
        0x05, 0x00, // END_LOCAL reg 0
        DBG_START_LOCAL, 0x00, 0x02, 0x00, // reg 0, name 1, no type
        DBG_END_SEQUENCE,
    ];
    let get_string = |idx: u32| -> Result<String> {
        match idx {
            0 => Ok("a".into()),
            1 => Ok("b".into()),
            _ => Err(DexError::Parse(format!("string {idx}"))),
        }
    };
    let dbg = parse_debug_info(&data, 0, &get_string).unwrap();
    assert_eq!(dbg.name_for_reg(0), Some("b"));
    let locals = dbg.locals_for_reg(0);
    assert_eq!(locals.len(), 2);
    assert_eq!(locals[0].name, "a");
    assert_eq!(locals[1].name, "b");
    assert_eq!(dbg.type_for_reg(0), None);
}
