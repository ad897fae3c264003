use pipit_config::format::c_array::{
    format_c_array, format_c_array2, is_rectangular, make_c_array, to_string_vec, wrap_in_braces,
};
use pipit_config::{CArray, CCode, CTree, Error};

fn strings(items: &[&str]) -> Vec<String> {
    items.iter().map(|s| s.to_string()).collect()
}

fn numbers(n: usize) -> Vec<String> {
    (1..=n).map(|i| i.to_string()).collect()
}

#[test]
fn nine_items_make_three_lines() {
    assert_eq!(
        to_string_vec(&numbers(9)),
        strings(&["1, 2, 3, 4, ", "5, 6, 7, 8, ", "9, "])
    );
    assert_eq!(to_string_vec(&numbers(8)).len(), 2);
    assert_eq!(to_string_vec(&numbers(0)).len(), 0);
}

#[test]
fn lines_are_wrapped_once() {
    assert_eq!(
        wrap_in_braces(&strings(&["a", "b"])),
        strings(&["{", " a", " b", "}"])
    );
    assert_eq!(
        make_c_array(&numbers(9)),
        "{\n 1, 2, 3, 4, \n 5, 6, 7, 8, \n 9, \n}"
    );
    assert_eq!(make_c_array(&numbers(0)), "{\n}");
}

#[test]
fn extern_array_is_declared_and_defined() {
    let f = format_c_array("pins", &numbers(2), "uint8_t", true);
    assert_eq!(f.h, "extern const uint8_t pins[];\n");
    assert_eq!(f.c, "extern const uint8_t pins[] = {\n 1, 2, \n};\n\n");
    let g = format_c_array("pins", &numbers(2), "uint8_t", false);
    assert_eq!(g.h, "");
    assert_eq!(g.c, "const uint8_t pins[] = {\n 1, 2, \n};\n\n");
}

#[test]
fn rectangle_or_not() {
    assert!(is_rectangular(&vec![numbers(2), numbers(2)]));
    assert!(!is_rectangular(&vec![numbers(2), numbers(3)]));
    assert!(!is_rectangular(&Vec::new()));
    assert!(is_rectangular(&vec![Vec::new(), Vec::new()]));
}

#[test]
fn two_dimensional_array() {
    let f = format_c_array2("grid", &vec![numbers(2), numbers(2)], "int", true);
    assert_eq!(f.h, "extern const int grid[][2];\n");
    assert_eq!(
        f.c,
        "extern const int grid[][2] = {\n {\n  1, 2, \n }\n {\n  1, 2, \n }\n};\n\n"
    );
}

#[test]
fn array_builder() {
    let f = CArray::new("a").fill_1d(&numbers(1)).format().unwrap();
    assert_eq!(f.h, "extern const uint8_t a[];\n");
    let g = CArray::new("b")
        .is_extern(false)
        .c_type("char")
        .fill_1d(&strings(&["'x'"]))
        .format()
        .unwrap();
    assert_eq!(g.h, "");
    assert_eq!(g.c, "const char b[] = {\n 'x', \n};\n\n");
    let h = CArray::new("c").fill_2d(&vec![numbers(1)]).format().unwrap();
    assert_eq!(h.h, "extern const uint8_t c[][1];\n");
}

#[test]
fn rows_of_different_lengths_are_rejected() {
    let rows = vec![numbers(2), numbers(3)];
    assert_eq!(
        CArray::new("bad").fill_2d(&rows).format(),
        Err(Error::NotRectangular {
            name: "bad".to_string()
        })
    );
    let tree = CTree::Group(vec![
        CTree::define("BEFORE", CCode::new("1")),
        CTree::Array2D {
            name: CCode::new("bad"),
            values: vec![
                vec![CCode::new("1"), CCode::new("2")],
                vec![CCode::new("1"), CCode::new("2"), CCode::new("3")],
            ],
            c_type: CCode::new("uint8_t"),
            is_extern: true,
        },
    ]);
    assert_eq!(
        tree.format("config"),
        Err(Error::NotRectangular {
            name: "bad".to_string()
        })
    );
}

#[test]
fn defines_and_conditionals() {
    let f = CTree::define("NUM_ROWS", CCode::new("3")).format("x").unwrap();
    assert_eq!(f.h, "#define NUM_ROWS 3\n");
    assert_eq!(f.c, "");
    assert_eq!(CTree::ifdef("HAS_BATTERY", true).format("x").unwrap().h, "#define HAS_BATTERY\n");
    assert_eq!(CTree::ifdef("HAS_BATTERY", false).format("x").unwrap().h, "");
    let inner = CTree::define("KEY_A", CCode::new("4"));
    let f = CTree::ifndef(CCode::new("KEY_A"), inner).format("x").unwrap();
    assert_eq!(f.h, "#ifndef KEY_A\n#define KEY_A 4\n#endif\n");
}

#[test]
fn constants_and_literals() {
    let f = CTree::const_var("MAX", CCode::new("7"), "uint8_t").format("x").unwrap();
    assert_eq!(f.h, "extern const uint8_t MAX;\n");
    assert_eq!(f.c, "extern const uint8_t MAX = 7;\n\n");
    let hidden = CTree::ConstVar {
        name: CCode::new("k"),
        value: CCode::new("1"),
        c_type: CCode::new("int"),
        is_extern: false,
    };
    let f = hidden.format("x").unwrap();
    assert_eq!(f.h, "");
    assert_eq!(f.c, "const int k = 1;\n\n");
    assert_eq!(CTree::literal_h("abc").format("x").unwrap().h, "abc");
    assert_eq!(CTree::LiteralC(CCode::new("abc")).format("x").unwrap().c, "abc");
    assert_eq!(
        CTree::IncludeH { path: CCode::new("<stdint.h>") }.format("x").unwrap().h,
        "#include <stdint.h>\n"
    );
    assert_eq!(
        CTree::IncludeSelf.format("auto_config").unwrap().c,
        "#include \"auto_config.h\"\n"
    );
}

#[test]
fn enumerations_and_namespaces() {
    let e = CTree::enum_decl("Mode", vec![CCode::new("a"), CCode::new("b")]);
    assert_eq!(e.format("x").unwrap().h, "enum Mode : uint8_t {\n  a,\n  b,\n};\n\n");
    let plain = CTree::EnumDecl {
        name: CCode::new("E"),
        variants: vec![],
        size: None,
    };
    assert_eq!(plain.format("x").unwrap().h, "enum E {\n};\n\n");
    let n = CTree::namespace(
        "conf",
        CTree::group(vec![
            CTree::define("A", CCode::new("1")),
            CTree::LiteralC(CCode::new("body\n")),
        ]),
    );
    let f = n.format("x").unwrap();
    assert_eq!(f.h, "namespace conf {\n\n#define A 1\n\n} // namespace conf\n");
    assert_eq!(f.c, "namespace conf {\n\nbody\n\n} // namespace conf\n");
}

#[test]
fn the_same_tree_gives_the_same_text() {
    let make = || {
        CTree::group(vec![
            CTree::define("A", CCode::new("1")),
            CTree::array("v", vec![CCode::new("1"), CCode::new("2")], "uint8_t"),
        ])
    };
    assert_eq!(make().format("f"), make().format("f"));
    assert_eq!(make().copy(), make());
}
