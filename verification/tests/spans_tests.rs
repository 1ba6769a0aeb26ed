use llvm_ir_tool::spans::{find_function_line_spans, lookup_span};

fn to_lines(raw: &[&str]) -> Vec<String> {
    raw.iter().map(|s| s.to_string()).collect()
}

#[test]
fn two_functions_with_closing_braces() {
    let lines = to_lines(&[
        "; ModuleID = 'demo'",
        "define i32 @main(i32 %0) {",
        "  %2 = alloca i32, align 4",
        "  ret i32 0",
        "}",
        "",
        "define void @helper() {",
        "  ret void",
        "}",
    ]);
    let spans = find_function_line_spans(&lines);
    assert_eq!(spans.len(), 2);
    assert_eq!(lookup_span(&spans, "main"), Some((1, 4)));
    assert_eq!(lookup_span(&spans, "helper"), Some((6, 8)));
    assert_eq!(lookup_span(&spans, "absent"), None);
}

#[test]
fn unterminated_function_closes_at_last_line() {
    let lines = to_lines(&["define void @tail() {", "  ret void"]);
    let spans = find_function_line_spans(&lines);
    assert_eq!(lookup_span(&spans, "tail"), Some((0, 1)));
}

#[test]
fn new_definition_closes_previous_defensively() {
    let lines = to_lines(&[
        "define i32 @a() {",
        "  ret i32 1",
        "define i32 @b() {",
        "  ret i32 2",
        "}",
    ]);
    let spans = find_function_line_spans(&lines);
    assert_eq!(lookup_span(&spans, "a"), Some((0, 1)));
    assert_eq!(lookup_span(&spans, "b"), Some((2, 4)));
}

#[test]
fn define_without_name_markers_is_ignored() {
    let lines = to_lines(&["define with no marker", "}", "define i32 @ok() {", "}"]);
    let spans = find_function_line_spans(&lines);
    assert_eq!(spans.len(), 1);
    assert_eq!(lookup_span(&spans, "ok"), Some((2, 3)));
}

#[test]
fn closing_brace_without_open_function_is_noop() {
    let lines = to_lines(&["}", "}", "define void @f() {", "}"]);
    let spans = find_function_line_spans(&lines);
    assert_eq!(spans.len(), 1);
    assert_eq!(lookup_span(&spans, "f"), Some((2, 3)));
}

#[test]
fn indented_define_and_padded_brace() {
    let lines = to_lines(&["   define void @g(i8 %x) {", "  ret void", "  }  "]);
    let spans = find_function_line_spans(&lines);
    assert_eq!(lookup_span(&spans, "g"), Some((0, 2)));
}

#[test]
fn repeated_name_keeps_latest_closing() {
    let lines = to_lines(&[
        "define void @f() {",
        "}",
        "define void @f() {",
        "  ret void",
        "}",
    ]);
    let spans = find_function_line_spans(&lines);
    assert_eq!(spans.len(), 2);
    assert_eq!(lookup_span(&spans, "f"), Some((2, 4)));
}

#[test]
fn empty_input_has_no_spans() {
    let lines: Vec<String> = Vec::new();
    let spans = find_function_line_spans(&lines);
    assert!(spans.is_empty());
}
