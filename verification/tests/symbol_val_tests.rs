use minilex::registry::OperatorRegistry;
use minilex::symbol::Table;
use minilex::val::{
    integer_fits_in_type, make_negative_i64, max_integer_value_of_type, min_integer_value_of_type,
    number_tag_to_type, parse_instruction, Type, Verb,
};

#[test]
fn it_interns() {
    let mut tab = Table::new();
    let mut tab2 = Table::new();
    assert_eq!(tab.intern("test"), tab.intern(&"test".to_owned()));
    assert!(tab.intern("test") != tab2.intern("test"));
}

#[test]
fn interning_is_idempotent() {
    let mut tab = Table::new();
    assert!(!tab.is_interned("alpha"));
    let first = tab.intern("alpha");
    assert!(tab.is_interned("alpha"));
    let second = tab.intern("alpha");
    assert_eq!(first, second);
    let other = tab.intern("beta");
    assert!(first != other);
    assert_eq!(tab.entries.len(), 2);
}

#[test]
fn registry_keeps_spellings_sorted_and_unique() {
    let mut ops = OperatorRegistry::new();
    ops.register("++");
    ops.register("+");
    ops.register("+-");
    ops.register("+");
    assert_eq!(ops.spellings, vec!["+".to_owned(), "++".to_owned(), "+-".to_owned()]);
}

#[test]
fn longest_match_is_maximal() {
    let mut ops = OperatorRegistry::new();
    ops.register("a");
    ops.register("abc");
    ops.register("ab");
    assert_eq!(ops.longest_match("abcd", 0), Some(&"abc".to_owned()));
    assert_eq!(ops.longest_match("abd", 0), Some(&"ab".to_owned()));
    assert_eq!(ops.longest_match("xabc", 1), Some(&"abc".to_owned()));
    assert_eq!(ops.longest_match("x", 0), None);
}

#[test]
fn tags_map_to_types() {
    assert_eq!(number_tag_to_type("u8"), Ok(Type::U8));
    assert_eq!(number_tag_to_type("u16"), Ok(Type::U16));
    assert_eq!(number_tag_to_type("u32"), Ok(Type::U32));
    assert_eq!(number_tag_to_type("i8"), Ok(Type::I8));
    assert_eq!(number_tag_to_type("i16"), Ok(Type::I16));
    assert_eq!(number_tag_to_type("i32"), Ok(Type::I32));
    assert_eq!(number_tag_to_type("f32"), Ok(Type::F32));
    assert_eq!(number_tag_to_type("f64"), Ok(Type::F64));
    assert_eq!(
        number_tag_to_type("u64"),
        Err("Uknown numeric tag u64".to_owned())
    );
}

#[test]
fn integer_bounds_are_exact() {
    assert_eq!(max_integer_value_of_type(&Type::U8), 255);
    assert_eq!(max_integer_value_of_type(&Type::I8), 127);
    assert_eq!(max_integer_value_of_type(&Type::U64), u64::MAX);
    assert_eq!(max_integer_value_of_type(&Type::I64), i64::MAX as u64);
    assert_eq!(min_integer_value_of_type(&Type::U8), 0);
    assert_eq!(min_integer_value_of_type(&Type::I8), -128);
    assert_eq!(min_integer_value_of_type(&Type::I64), i64::MIN);
}

#[test]
fn fitting_respects_bounds() {
    assert!(integer_fits_in_type(255, false, &Type::U8));
    assert!(!integer_fits_in_type(256, false, &Type::U8));
    assert!(integer_fits_in_type(128, true, &Type::I8));
    assert!(!integer_fits_in_type(129, true, &Type::I8));
    assert!(integer_fits_in_type(127, false, &Type::I8));
    assert!(!integer_fits_in_type(128, false, &Type::I8));
}

#[test]
fn negation_covers_the_extra_value() {
    assert_eq!(make_negative_i64(0), 0);
    assert_eq!(make_negative_i64(5), -5);
    assert_eq!(make_negative_i64(0x8000_0000_0000_0000), i64::MIN);
}

#[test]
fn instruction_names_parse() {
    assert_eq!(parse_instruction("+", None), Ok(Verb::Add));
    assert_eq!(parse_instruction("<=", None), Ok(Verb::LessEqual));
    assert_eq!(parse_instruction("f2i", None), Ok(Verb::F2I));
    assert_eq!(
        parse_instruction("+", Some(1)),
        Err("Unknown verb +".to_owned())
    );
    assert_eq!(
        parse_instruction("frob", None),
        Err("Unknown verb frob".to_owned())
    );
}
