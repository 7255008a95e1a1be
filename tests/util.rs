use solhat::util::{
    append_file_name, filename_char_at_pos, replace_image_extension, string_is_valid_i32,
    string_is_valid_u8, string_is_valid_usize, stringvec, stringvec_b,
};

#[test]
fn integer_validation() {
    assert!(string_is_valid_i32("-2147483648"));
    assert!(string_is_valid_i32("2147483647"));
    assert!(!string_is_valid_i32("2147483648"));
    assert!(string_is_valid_i32("+5"));
    assert!(string_is_valid_i32("-0"));
    assert!(!string_is_valid_i32(""));
    assert!(!string_is_valid_i32("-"));
    assert!(!string_is_valid_i32("12a"));
    assert!(!string_is_valid_i32(" 1"));
    assert!(string_is_valid_usize("0000000000000000000000042"));
    assert!(!string_is_valid_usize("-0"));
    assert!(string_is_valid_u8("255"));
    assert!(!string_is_valid_u8("256"));
    assert!(!string_is_valid_u8("99999999999999999999999999999999999999999"));
}

#[test]
fn agrees_with_std_parsing() {
    for s in ["1", "-1", "+", "+-1", "007", "4294967296", "-2147483649", "١", "1_0"] {
        assert_eq!(string_is_valid_i32(s), s.parse::<i32>().is_ok(), "{}", s);
        assert_eq!(string_is_valid_u8(s), s.parse::<u8>().is_ok(), "{}", s);
        assert_eq!(string_is_valid_usize(s), s.parse::<usize>().is_ok(), "{}", s);
    }
}

#[test]
fn image_extensions() {
    assert_eq!(replace_image_extension("sun.png", "-x.png"), "sun-x.png");
    assert_eq!(replace_image_extension("SUN.TIF", "-x.png"), "SUN-x.png");
    assert_eq!(replace_image_extension("a.jpg.png", "!"), "a!!");
    assert_eq!(replace_image_extension("a.ser", "!"), "a.ser");
    assert_eq!(append_file_name("/tmp/img.TIF", "rjcal"), "/tmp/img-rjcal.png");
    assert_eq!(append_file_name("stack.jpg", "mask"), "stack-mask.png");
}

#[test]
fn file_name_characters() {
    assert_eq!(filename_char_at_pos("/data/Sun_150729.ser", 4), '1');
    assert_eq!(filename_char_at_pos("Moon.ser", 0), 'M');
}

#[test]
fn string_pairs() {
    assert_eq!(stringvec("a", "b"), vec!["a".to_string(), "b".to_string()]);
    assert_eq!(stringvec_b("a", "c".to_string()), vec!["a".to_string(), "c".to_string()]);
}
