use jolt_transpiler::size_class::{find_class, find_class_by_name, find_class_for_program, size_classes};

#[test]
fn test_find_class_smallest() {
    let class = find_class(12, 4096, 4096).unwrap();
    assert_eq!(class.name, "S");
}

#[test]
fn test_find_class_exact_boundary() {
    let class = find_class(14, 8192, 8192).unwrap();
    assert_eq!(class.name, "S");
}

#[test]
fn test_find_class_bumps_to_m() {
    let class = find_class(15, 8192, 8192).unwrap();
    assert_eq!(class.name, "M");
}

#[test]
fn test_find_class_too_large() {
    assert!(find_class(25, 131072, 131072).is_none());
}

#[test]
fn test_find_class_by_name() {
    assert_eq!(find_class_by_name("m").unwrap().name, "M");
    assert_eq!(find_class_by_name("XL").unwrap().name, "XL");
    assert!(find_class_by_name("XXL").is_none());
}

#[test]
fn size_classes_are_ordered_smallest_first() {
    let classes = size_classes();
    assert_eq!(classes.len(), 4);
    for w in classes.windows(2) {
        assert!(w[0].max_log_t < w[1].max_log_t);
        assert!(w[0].max_bytecode_k < w[1].max_bytecode_k);
    }
    for c in &classes {
        assert_eq!(c.max_program_words, c.max_bytecode_k / 2 + 1);
    }
}

#[test]
fn find_class_picks_smallest_that_fits_every_bound() {
    assert_eq!(find_class(10, 16384, 100).unwrap().name, "M");
    assert_eq!(find_class(10, 100, 65536).unwrap().name, "XL");
    assert_eq!(find_class(24, 1, 1).unwrap().name, "XL");
    assert!(find_class(10, 65537, 1).is_none());
}

#[test]
fn find_class_for_program_rounds_up_to_powers_of_two() {
    // 5000 instructions round up to 8192; a trace of 16384 steps is 2^14.
    assert_eq!(find_class_for_program(5000, 16384).unwrap().name, "S");
    // 8193 instructions round up to 16384.
    assert_eq!(find_class_for_program(8193, 16384).unwrap().name, "M");
    // A trace of 16385 steps needs 2^15.
    assert_eq!(find_class_for_program(10, 16385).unwrap().name, "M");
    assert!(find_class_for_program(100_000, 16).is_none());
}

#[test]
fn find_class_by_name_ignores_ascii_case() {
    assert_eq!(find_class_by_name("s").unwrap().name, "S");
    assert_eq!(find_class_by_name("xL").unwrap().name, "XL");
    assert!(find_class_by_name("").is_none());
    assert!(find_class_by_name("M ").is_none());
}
