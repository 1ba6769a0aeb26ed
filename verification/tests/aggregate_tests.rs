use llvm_ir_tool::ir::{aggregate, BasicBlock, Function, Instruction, Module};

fn instr(text: &str) -> Instruction {
    Instruction { text: text.to_string() }
}

fn demo_module() -> Module {
    Module {
        functions: vec![
            Function {
                name: "main".to_string(),
                basic_blocks: vec![
                    BasicBlock {
                        instrs: vec![
                            instr("Alloca { dest: %2 }"),
                            instr("Store { value: %0 }"),
                            instr("Load { dest: %3 }"),
                        ],
                    },
                    BasicBlock {
                        instrs: vec![instr("Load { dest: %4 }"), instr("Ret { value: %4 }")],
                    },
                ],
            },
            Function {
                name: "helper".to_string(),
                basic_blocks: vec![BasicBlock { instrs: vec![instr("Ret { value: 0 }")] }],
            },
        ],
    }
}

fn counts_of<'a>(
    table: &'a [llvm_ir_tool::ir::FuncCount],
    name: &str,
) -> &'a llvm_ir_tool::ir::FuncCount {
    table.iter().find(|fc| fc.name == name).expect("function missing from table")
}

fn count(fc: &llvm_ir_tool::ir::FuncCount, op: &str) -> usize {
    fc.counts.iter().find(|e| e.opcode == op).map(|e| e.count).unwrap_or(0)
}

#[test]
fn counts_per_opcode() {
    let m = demo_module();
    let table = aggregate(&m, None);
    assert_eq!(table.len(), 2);
    let main = counts_of(&table, "main");
    assert_eq!(count(main, "Load"), 2);
    assert_eq!(count(main, "Store"), 1);
    assert_eq!(count(main, "Alloca"), 1);
    assert_eq!(count(main, "Ret"), 1);
    let helper = counts_of(&table, "helper");
    assert_eq!(count(helper, "Ret"), 1);
}

#[test]
fn opcode_counts_sum_to_instruction_total() {
    let m = demo_module();
    let table = aggregate(&m, None);
    let main = counts_of(&table, "main");
    let sum: usize = main.counts.iter().map(|e| e.count).sum();
    let instrs: usize = m.functions[0].basic_blocks.iter().map(|b| b.instrs.len()).sum();
    assert_eq!(sum, instrs);
    assert_eq!(sum, 5);
}

#[test]
fn unfiltered_total_equals_sum_of_filtered_totals() {
    let m = demo_module();
    let all = aggregate(&m, None);
    let total_all: usize =
        all.iter().map(|fc| fc.counts.iter().map(|e| e.count).sum::<usize>()).sum();
    let mut total_each: usize = 0;
    for f in &m.functions {
        let one = aggregate(&m, Some(&f.name));
        total_each +=
            one.iter().map(|fc| fc.counts.iter().map(|e| e.count).sum::<usize>()).sum::<usize>();
    }
    assert_eq!(total_all, total_each);
}

#[test]
fn filter_keeps_exactly_the_named_function() {
    let m = demo_module();
    let table = aggregate(&m, Some("helper"));
    assert_eq!(table.len(), 1);
    assert_eq!(table[0].name, "helper");
}

#[test]
fn filter_miss_gives_empty_table() {
    let m = demo_module();
    let table = aggregate(&m, Some("nonexistent"));
    assert!(table.is_empty());
}

#[test]
fn blank_rendering_counts_as_unknown() {
    let m = Module {
        functions: vec![Function {
            name: "f".to_string(),
            basic_blocks: vec![BasicBlock { instrs: vec![instr("   "), instr("")] }],
        }],
    };
    let table = aggregate(&m, None);
    assert_eq!(count(&table[0], "Unknown"), 2);
}

#[test]
fn opcode_name_takes_leading_token() {
    let i = instr("  Phi { .. }");
    assert_eq!(i.opcode_name(), "Phi");
}
