use romtools::trap_names::{read_traps, TrapNamesError};

#[test]
fn reads_names_by_table_index() {
    let m = read_traps("A9EB,_FP68K\nA01F,_DisposPtr\n").unwrap();
    assert_eq!(m.len(), 2);
    assert_eq!(m[&0x1eb], "_FP68K");
    assert_eq!(m[&0x21f], "_DisposPtr");
}

#[test]
fn reads_crlf_and_unterminated_last_line() {
    let m = read_traps("A800,_A\r\na801,_B").unwrap();
    assert_eq!(m.len(), 2);
    assert_eq!(m[&0x000], "_A");
    assert_eq!(m[&0x001], "_B");
}

#[test]
fn accepts_plus_sign_and_empty_text() {
    let m = read_traps("+a0ff,_X\n").unwrap();
    assert_eq!(m[&0x2ff], "_X");
    assert!(read_traps("").unwrap().is_empty());
}

#[test]
fn missing_comma_is_an_error() {
    assert_eq!(read_traps("A800\n"), Err(TrapNamesError::MissingName("A800".to_string())));
    assert_eq!(read_traps("A800,_A\n\nA801,_B\n"), Err(TrapNamesError::MissingName(String::new())));
}

#[test]
fn extra_field_is_an_error() {
    assert_eq!(
        read_traps("A800,_A,x\n"),
        Err(TrapNamesError::ExtraField("A800,_A,x".to_string()))
    );
}

#[test]
fn bad_numbers_are_errors() {
    assert_eq!(read_traps("ZZ,_A"), Err(TrapNamesError::BadNumber("ZZ".to_string())));
    assert_eq!(read_traps(",_A"), Err(TrapNamesError::BadNumber(String::new())));
    assert_eq!(read_traps("+,_A"), Err(TrapNamesError::BadNumber("+".to_string())));
    assert_eq!(
        read_traps("100000000,_A"),
        Err(TrapNamesError::BadNumber("100000000".to_string()))
    );
    assert_eq!(read_traps("-A800,_A"), Err(TrapNamesError::BadNumber("-A800".to_string())));
}

#[test]
fn largest_number_is_accepted() {
    let m = read_traps("FFFFFFFF,_Max").unwrap();
    assert_eq!(m[&0x1ff], "_Max");
}

#[test]
fn same_trap_twice_is_an_error() {
    assert_eq!(
        read_traps("A02F,_PostEvent\nA12F,_PPostEvent\n"),
        Err(TrapNamesError::Duplicate {
            index: 0x22f,
            name: "_PPostEvent".to_string(),
            existing: "_PostEvent".to_string()
        })
    );
}
