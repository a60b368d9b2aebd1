use glsl_include::{Context, Error};

#[test]
fn no_include() {
    let src = "void main() {\n}";
    let expand_src = Context::new().expand(src).unwrap();
    assert_eq!(src, &expand_src);
}

#[test]
fn single_line_comments() {
    let src = "//#include <A.glsl>\n// #include \"A.glsl\"\nvoid main() {}";
    let expand_src = Context::new().expand(src).unwrap();
    assert_eq!(src, &expand_src);
}

#[test]
fn angle_bracket_include() {
    let src = "#include <A.glsl>\nvoid main() {}";
    let expand_src = Context::new()
        .register("A.glsl", "void A() {}")
        .expand(src)
        .unwrap();
    let expected = "void A() {}\n#line 1 0\nvoid main() {}";
    assert_eq!(expected, expand_src);
}

#[test]
fn quote_include() {
    let src = "#include \"A.glsl\"\nvoid main() {}";
    let expand_src = Context::new()
        .register("A.glsl", "void A() {}")
        .expand(src)
        .unwrap();
    let expected = "void A() {}\n#line 1 0\nvoid main() {}";
    assert_eq!(expected, expand_src);
}

#[test]
fn duplicate_includes() {
    let src = "#include \"A.glsl\"\n#include \"A.glsl\"\n#include <A.glsl>\nvoid main() {}";
    let expand_src = Context::new()
        .register("A.glsl", "void A() {}")
        .expand(src)
        .unwrap();
    let expected = "void A() {}\n#line 3 0\nvoid main() {}";
    assert_eq!(expected, expand_src);
}

#[test]
fn recursive_duplicate_includes() {
    let src = "#include \"A.glsl\"\n#include \"A.glsl\"\n#include <A.glsl>\nvoid main() {}";
    let a_src = "#include \"B.glsl\"\n#include \"B.glsl\"\nvoid A() {}";
    let b_src = "#include \"C.glsl\"\n#include \"C.glsl\"\nvoid B() {}";
    let c_src = "void C() {}";
    let expand_src = Context::new()
        .register("A.glsl", a_src)
        .register("B.glsl", b_src)
        .register("C.glsl", c_src)
        .expand(src)
        .unwrap();
    let expected = "void C() {}\n#line 2 0\nvoid B() {}\n#line 2 0\nvoid A() {}\n#line 3 0\nvoid main() {}";
    assert_eq!(expected, expand_src);
}

#[test]
fn pragma_include() {
    let src = "#pragma  include \"A.glsl\"\nvoid main() {}";
    let expand_src = Context::new()
        .register("A.glsl", "void A() {}")
        .expand(src)
        .unwrap();
    let expected = "void A() {}\n#line 1 0\nvoid main() {}";
    assert_eq!(expected, expand_src);
}

#[test]
fn weird_pragma_include() {
    let src = "#pragmapragma include \"A.glsl\"\n#pragma pragma include \"A.glsl\"\n# pragma  include \"A.glsl\"\nvoid main() {}";
    let expand_src = Context::new()
        .register("A.glsl", "void A() {}")
        .expand(src)
        .unwrap();
    let expected = "#pragmapragma include \"A.glsl\"\n#pragma pragma include \"A.glsl\"\nvoid A() {}\n#line 3 0\nvoid main() {}";
    assert_eq!(expected, expand_src);
}

#[test]
#[should_panic]
fn recursive_include() {
    let src = "#include \"A.glsl\"\nvoid main() {}";
    let a_src = "#include \"A.glsl\"\nvoid A() {}";
    Context::new().register("A.glsl", a_src).expand(src).unwrap();
}

#[test]
#[should_panic]
fn deep_recursive_include() {
    let src = "#include \"A.glsl\"\nvoid main() {}";
    let a_src = "#include <B.glsl>\nvoid A() {}";
    let b_src = "#include \"C.glsl\"\nvoid B() {}";
    let c_src = "#include \"A.glsl\"\nvoid C() {}";
    let result = Context::new()
        .register("A.glsl", a_src)
        .register("B.glsl", b_src)
        .register("C.glsl", c_src)
        .expand(src);
    match result {
        Err(ref e) => println!("{}", e.message()),
        Ok(_) => (),
    };
    result.unwrap();
}

#[test]
#[should_panic]
fn non_existent_include() {
    let src = "#include \"A.glsl\"\nvoid main() {}";
    let result = Context::new().expand(src);
    match result {
        Err(ref e) => println!("{}", e.message()),
        Ok(_) => (),
    };
    result.unwrap();
}

#[test]
fn self_cycle_is_reported() {
    let src = "#include <A.glsl>\nvoid main() {}";
    let result = Context::new()
        .register("A.glsl", "#include <A.glsl>\nvoid A() {}")
        .expand(src);
    let expected = Error::RecursiveInclude {
        in_file: Some("A.glsl".to_string()),
        line_num: 0,
        problem_include: "A.glsl".to_string(),
        include_stack: vec!["A.glsl".to_string()],
    };
    assert_eq!(result, Err(expected));
}

#[test]
fn mutual_cycle_reports_stack_in_traversal_order() {
    let src = "#include \"A\"\nvoid main() {}";
    let result = Context::new()
        .register("A", "#include \"B\"\nvoid A() {}")
        .register("B", "#include \"C\"\nvoid B() {}")
        .register("C", "void C0() {}\n#include \"A\"\nvoid C() {}")
        .expand(src);
    let expected = Error::RecursiveInclude {
        in_file: Some("C".to_string()),
        line_num: 1,
        problem_include: "A".to_string(),
        include_stack: vec!["A".to_string(), "B".to_string(), "C".to_string()],
    };
    assert_eq!(result, Err(expected));
}

#[test]
fn missing_reference_is_reported_with_top_level_context() {
    let src = "void main() {}\n#include \"A\"";
    let result = Context::new().expand(src);
    let expected = Error::FileNotFound {
        in_file: None,
        line_num: 1,
        problem_include: "A".to_string(),
    };
    assert_eq!(result, Err(expected));
}

#[test]
fn missing_reference_inside_registered_file() {
    let result = Context::new()
        .register("A", "\n\n#include <B>")
        .expand("#include <A>");
    let expected = Error::FileNotFound {
        in_file: Some("A".to_string()),
        line_num: 2,
        problem_include: "B".to_string(),
    };
    assert_eq!(result, Err(expected));
}

#[test]
fn scenario_output_and_source_map() {
    let mut ctx = Context::new();
    ctx.register("A", "void A(){}");
    let (text, map) = ctx.expand_to_string("#include <A>\nvoid main(){}").unwrap();
    assert_eq!(text, "void A(){}\n#line 1 0\nvoid main(){}");
    assert_eq!(map.len(), 2);
    let first = map.get(0).unwrap();
    assert_eq!(first.file, Some("A".to_string()));
    assert_eq!(first.line, 0);
    let second = map.get(1).unwrap();
    assert_eq!(second.file, None);
    assert_eq!(second.line, 1);
    assert!(map.get(2).is_none());
}

#[test]
fn plain_text_is_unchanged_with_one_entry_per_line() {
    let src = "a\n\n#version 410\n/* note */ b\n";
    let (text, map) = Context::new().expand_to_string(src).unwrap();
    assert_eq!(text, src);
    assert_eq!(map.len(), 5);
    for i in 0..5 {
        let entry = map.get(i).unwrap();
        assert_eq!(entry.file, None);
        assert_eq!(entry.line, i);
    }
}

#[test]
fn empty_source_is_one_empty_line() {
    let (text, map) = Context::new().expand_to_string("").unwrap();
    assert_eq!(text, "");
    assert_eq!(map.len(), 1);
}

#[test]
fn directives_in_block_comments_are_ignored() {
    let src = "/* #include <A.glsl>\n#include \"A.glsl\" */\nvoid main() {}";
    let expand_src = Context::new().expand(src).unwrap();
    assert_eq!(src, expand_src);
}

#[test]
fn directive_after_comments_is_found() {
    let src = "// #include <X>\n/* #include <Y> */\n#include <A>\nmain";
    let expand_src = Context::new().register("A", "a").expand(src).unwrap();
    assert_eq!(expand_src, "// #include <X>\n/* #include <Y> */\na\n#line 3 0\nmain");
}

#[test]
fn include_once_keeps_one_copy() {
    let src = "#include <A>\n#include <A>\n#include <A>\nmain";
    let (text, map) = Context::new()
        .register("A", "void A(){}")
        .expand_to_string(src)
        .unwrap();
    assert_eq!(text.matches("void A(){}").count(), 1);
    assert_eq!(map.len(), 2);
}

#[test]
fn marker_holds_multi_digit_line() {
    let mut src = String::new();
    for _ in 0..11 {
        src.push_str("x\n");
    }
    src.push_str("#include <A>\nend");
    let expand_src = Context::new().register("A", "a").expand(&src).unwrap();
    assert!(expand_src.ends_with("\na\n#line 12 0\nend"));
}

#[test]
fn text_after_directive_on_its_line_is_kept() {
    let src = "#include <A> trailing\nnext";
    let (text, map) = Context::new()
        .register("A", "a")
        .expand_to_string(src)
        .unwrap();
    assert_eq!(text, "a\n#line 0 0\ntrailing\nnext");
    assert_eq!(map.len(), 3);
    assert_eq!(map.get(1).unwrap().line, 0);
    assert_eq!(map.get(2).unwrap().line, 1);
}

#[test]
fn crlf_line_ends_are_taken_in() {
    let src = "#include <A>\r\nnext";
    let expand_src = Context::new().register("A", "a").expand(src).unwrap();
    assert_eq!(expand_src, "a\n#line 1 0\nnext");
}

#[test]
fn last_registration_wins() {
    let expand_src = Context::new()
        .register("A", "first")
        .register("B", "b")
        .register("A", "second")
        .expand("#include <A>")
        .unwrap();
    assert_eq!(expand_src, "second");
}

#[test]
fn pragma_needs_whitespace_after_it() {
    let src = "#pragmainclude <A>";
    let expand_src = Context::new().register("A", "a").expand(src).unwrap();
    assert_eq!(expand_src, src);
}

#[test]
fn keyword_needs_whitespace_after_it() {
    let src = "#include<A>";
    let expand_src = Context::new().register("A", "a").expand(src).unwrap();
    assert_eq!(expand_src, src);
}

#[test]
fn unclosed_name_is_not_a_directive() {
    let src = "#include <A\nb>";
    let expand_src = Context::new().register("A", "a").expand(src).unwrap();
    assert_eq!(expand_src, src);
}

#[test]
fn nested_expansion_maps_lines_to_their_files() {
    let (text, map) = Context::new()
        .register("A", "a0\n#include <B>\na2")
        .register("B", "b0")
        .expand_to_string("top0\n#include <A>\ntop2")
        .unwrap();
    assert_eq!(text, "top0\na0\nb0\n#line 2 0\na2\n#line 2 0\ntop2");
    let entries: Vec<(Option<String>, usize)> = (0..map.len())
        .map(|i| {
            let e = map.get(i).unwrap();
            (e.file.clone(), e.line)
        })
        .collect();
    assert_eq!(
        entries,
        vec![
            (None, 0),
            (Some("A".to_string()), 0),
            (Some("B".to_string()), 0),
            (Some("A".to_string()), 2),
            (None, 2),
        ]
    );
}

#[test]
fn error_messages() {
    let cycle = Error::RecursiveInclude {
        in_file: Some("C".to_string()),
        line_num: 12,
        problem_include: "A".to_string(),
        include_stack: vec!["A".to_string(), "B".to_string(), "C".to_string()],
    };
    assert_eq!(
        cycle.message(),
        "Detected recursive include of file \"A\" in file Some(\"C\"), line 12, include stack [\"A\", \"B\", \"C\"]"
    );
    assert_eq!(cycle.description(), "Detected recursive #include");
    let missing = Error::FileNotFound {
        in_file: None,
        line_num: 3,
        problem_include: "B.glsl".to_string(),
    };
    assert_eq!(
        missing.message(),
        "Could not find file \"B.glsl\", included from file None, line 3\nhelp: Call Context::file with the file name and contents"
    );
    assert_eq!(missing.description(), "Could not find #include file");
}

#[test]
fn error_message_of_self_cycle() {
    let result = Context::new()
        .register("A.glsl", "#include <A.glsl>")
        .expand("#include <A.glsl>");
    assert_eq!(
        result.unwrap_err().message(),
        "Detected recursive include of file \"A.glsl\" in file Some(\"A.glsl\"), line 0, include stack [\"A.glsl\"]"
    );
}

#[test]
fn error_message_escapes_names() {
    let cycle = Error::RecursiveInclude {
        in_file: Some("a\"b".to_string()),
        line_num: 0,
        problem_include: "a\"b".to_string(),
        include_stack: vec!["a\"b".to_string()],
    };
    assert_eq!(
        cycle.message(),
        "Detected recursive include of file \"a\"b\" in file Some(\"a\\\"b\"), line 0, include stack [\"a\\\"b\"]"
    );
}

#[test]
fn composed_message_uses_given_renderings() {
    let missing = Error::FileNotFound {
        in_file: Some("x".to_string()),
        line_num: 7,
        problem_include: "y".to_string(),
    };
    let text = missing.compose_message(&Some("<x>".to_string()), &Vec::new());
    assert_eq!(
        text,
        "Could not find file \"y\", included from file Some(<x>), line 7\nhelp: Call Context::file with the file name and contents"
    );
}

#[test]
fn code_before_hash_keeps_the_line_as_text() {
    let src = "int x; #include <A>\nmain";
    let expand_src = Context::new().register("A", "a").expand(src).unwrap();
    assert_eq!(expand_src, src);
}

#[test]
fn second_directive_on_a_line_stays_text() {
    let expand_src = Context::new()
        .register("A", "a")
        .register("B", "b")
        .expand("#include <A> #include <B>")
        .unwrap();
    assert_eq!(expand_src, "a\n#line 0 0\n#include <B>");
}
