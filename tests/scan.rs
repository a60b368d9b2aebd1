use glsl_include::Directives;

#[test]
fn scanner_reports_positions_and_lines() {
    let text = "x\n  #include <A.glsl>  \n#pragma include \"B\" tail";
    let mut scanner = Directives::new(text);
    let first = scanner.next_directive().unwrap();
    assert_eq!(first.included_file, "A.glsl");
    assert_eq!(first.line_num, 1);
    assert_eq!(first.start, 4);
    assert_eq!(first.end, 23);
    assert_eq!(first.line_end, 23);
    let second = scanner.next_directive().unwrap();
    assert_eq!(second.included_file, "B");
    assert_eq!(second.line_num, 2);
    assert_eq!(second.start, 24);
    assert_eq!(second.end, 44);
    assert_eq!(second.line_end, 48);
    assert!(scanner.next_directive().is_none());
    assert!(scanner.next_directive().is_none());
}

#[test]
fn scanner_skips_comments() {
    let text = "// #include <A>\n/* #include <B>\n */\n#include <C> /* #include <D> */";
    let mut scanner = Directives::new(text);
    let all = scanner.collect_all();
    assert_eq!(all.len(), 1);
    assert_eq!(all[0].included_file, "C");
    assert_eq!(all[0].line_num, 3);
}

#[test]
fn hash_after_code_is_not_a_directive() {
    let mut scanner = Directives::new("int x; #include <A.glsl>");
    assert!(scanner.next_directive().is_none());
    let mut scanner = Directives::new("/* note */ #include <A.glsl>");
    assert!(scanner.next_directive().is_none());
}

#[test]
fn one_directive_per_line() {
    let mut scanner = Directives::new("#include <A> #include <B>\n\t #include <C>");
    let all = scanner.collect_all();
    assert_eq!(all.len(), 2);
    assert_eq!(all[0].included_file, "A");
    assert_eq!(all[1].included_file, "C");
    assert_eq!(all[1].line_num, 1);
}

#[test]
fn offsets_are_utf8_bytes() {
    let text = "\u{e9}\n#include <\u{e9}> ";
    let mut scanner = Directives::new(text);
    let d = scanner.next_directive().unwrap();
    assert_eq!(d.included_file, "\u{e9}");
    assert_eq!(d.start, 3);
    assert_eq!(d.end, text.len());
    assert_eq!(d.line_end, text.len());
    assert_eq!(&text[d.start..d.end], "#include <\u{e9}> ");
    assert_eq!(d.char_start, 2);
    assert_eq!(d.char_end, 15);
}

#[test]
fn unterminated_block_comment_hides_the_rest() {
    let mut scanner = Directives::new("/* #include <A>\n#include <B>");
    assert!(scanner.next_directive().is_none());
}

#[test]
fn name_may_hold_any_characters_but_the_closing_one() {
    let mut scanner = Directives::new("#include <a \"b\" c>");
    let d = scanner.next_directive().unwrap();
    assert_eq!(d.included_file, "a \"b\" c");
}
