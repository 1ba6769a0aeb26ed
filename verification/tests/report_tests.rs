use llvm_ir_tool::ir::{aggregate, BasicBlock, Function, Instruction, Module};
use llvm_ir_tool::report::{assemble_report, usize_to_string};
use llvm_ir_tool::spans::find_function_line_spans;

fn to_lines(raw: &[&str]) -> Vec<String> {
    raw.iter().map(|s| s.to_string()).collect()
}

fn demo_lines() -> Vec<String> {
    to_lines(&[
        "define i32 @main(i32 %0) {",
        "  %2 = alloca i32, align 4",
        "  %3 = load i32, ptr %2, align 4",
        "  ret i32 %3",
        "}",
    ])
}

fn demo_module() -> Module {
    Module {
        functions: vec![Function {
            name: "main".to_string(),
            basic_blocks: vec![BasicBlock {
                instrs: vec![
                    Instruction { text: "Alloca { dest: %2 }".to_string() },
                    Instruction { text: "Load { dest: %3 }".to_string() },
                    Instruction { text: "Ret { value: %3 }".to_string() },
                ],
            }],
        }],
    }
}

#[test]
fn counts_section_sorted_with_total() {
    let m = demo_module();
    let lines = demo_lines();
    let spans = find_function_line_spans(&lines);
    let table = aggregate(&m, None);
    let out = assemble_report(&table, &spans, &lines, None, None);
    assert_eq!(out[0], "Function: main");
    assert_eq!(out[1], format!("  {:<15} {}", "Alloca", 1));
    assert_eq!(out[2], format!("  {:<15} {}", "Load", 1));
    assert_eq!(out[3], format!("  {:<15} {}", "Ret", 1));
    assert_eq!(out[4], "  Total: 3");
    assert_eq!(out[5], "");
    assert_eq!(out.len(), 6);
}

#[test]
fn filtered_report_lists_source_lines() {
    let m = demo_module();
    let lines = demo_lines();
    let spans = find_function_line_spans(&lines);
    let table = aggregate(&m, Some("main"));
    let out = assemble_report(&table, &spans, &lines, Some("main"), None);
    assert_eq!(out[6], "Lines for function 'main' (lines 1 to 5):");
    assert_eq!(out[7], format!("{:4} | {}", 1, "define i32 @main(i32 %0) {"));
    assert_eq!(out[11], format!("{:4} | {}", 5, "}"));
    assert_eq!(out.len(), 12);
}

#[test]
fn explain_request_inside_span() {
    let m = demo_module();
    let lines = demo_lines();
    let spans = find_function_line_spans(&lines);
    let table = aggregate(&m, Some("main"));
    let out = assemble_report(&table, &spans, &lines, Some("main"), Some(3));
    assert_eq!(
        out[out.len() - 1],
        "Load the value pointed to by register %2 into register %3 (type i32)."
    );
}

#[test]
fn explain_request_one_past_span_is_out_of_range() {
    let m = demo_module();
    let lines = demo_lines();
    let spans = find_function_line_spans(&lines);
    let table = aggregate(&m, Some("main"));
    let out = assemble_report(&table, &spans, &lines, Some("main"), Some(6));
    assert_eq!(out[out.len() - 2], "");
    assert_eq!(out[out.len() - 1], "Line number 6 is out of range for function 'main'.");
}

#[test]
fn function_missing_from_module() {
    let m = demo_module();
    let lines = demo_lines();
    let spans = find_function_line_spans(&lines);
    let table = aggregate(&m, Some("ghost"));
    let out = assemble_report(&table, &spans, &lines, Some("ghost"), None);
    assert!(out.contains(&"Function 'ghost' not found in module.".to_string()));
    assert!(out.contains(&"Function 'ghost' not found in source file.".to_string()));
}

#[test]
fn function_in_module_but_not_in_source() {
    let m = Module {
        functions: vec![Function {
            name: "phantom".to_string(),
            basic_blocks: vec![BasicBlock {
                instrs: vec![Instruction { text: "Ret { value: 0 }".to_string() }],
            }],
        }],
    };
    let lines = demo_lines();
    let spans = find_function_line_spans(&lines);
    let table = aggregate(&m, Some("phantom"));
    let out = assemble_report(&table, &spans, &lines, Some("phantom"), None);
    assert!(!out.contains(&"Function 'phantom' not found in module.".to_string()));
    assert_eq!(out[out.len() - 1], "Function 'phantom' not found in source file.");
}

#[test]
fn decimal_rendering() {
    assert_eq!(usize_to_string(0), "0");
    assert_eq!(usize_to_string(7), "7");
    assert_eq!(usize_to_string(10), "10");
    assert_eq!(usize_to_string(12345), "12345");
}
