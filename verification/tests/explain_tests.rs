use llvm_ir_tool::explain::explain_llvm_line;

#[test]
fn load_line() {
    assert_eq!(
        explain_llvm_line("%1 = load i32, ptr %0, align 4"),
        "Load the value pointed to by register %0 into register %1 (type i32)."
    );
}

#[test]
fn store_line() {
    assert_eq!(
        explain_llvm_line("store i32 %0, ptr %3, align 4"),
        "Store the value %0 into the memory pointed to by register %3."
    );
}

#[test]
fn add_by_keyword() {
    assert_eq!(
        explain_llvm_line("%3 = add nsw i32 %1, %2"),
        "Add the values of registers %1 and %2, store the result in register %3."
    );
}

#[test]
fn mul_by_keyword() {
    assert_eq!(
        explain_llvm_line("%3 = mul nsw i32 %1, %2"),
        "Multiply the values of registers %1 and %2, store the result in register %3."
    );
}

#[test]
fn call_with_destination() {
    assert_eq!(
        explain_llvm_line("%5 = call i32 @foo(i32 %4)"),
        "Call function 'foo' and store the return value in register %5."
    );
}

#[test]
fn call_without_destination() {
    assert_eq!(explain_llvm_line("call void @bar()"), "Call function 'bar'.");
}

#[test]
fn alloca_line() {
    assert_eq!(
        explain_llvm_line("%3 = alloca i32, align 4"),
        "Allocate space on the stack for type i32 and assign its pointer to register %3."
    );
}

#[test]
fn ret_line_with_debug_metadata() {
    assert_eq!(
        explain_llvm_line("ret i32 %22, !dbg !53"),
        "Return the value %22 of type i32 from the function."
    );
}

#[test]
fn br_line() {
    assert_eq!(explain_llvm_line("br label %7"), "Branch instruction: label %7.");
}

#[test]
fn icmp_line() {
    assert_eq!(
        explain_llvm_line("%10 = icmp slt i32 %8, %9"),
        "Integer compare (slt) between registers %8 and %9, result stored in %10."
    );
}

#[test]
fn phi_line() {
    assert_eq!(
        explain_llvm_line("%5 = phi i32 [ %4, %2 ], [ %7, %6 ]"),
        "PHI node in register %5 selecting among values: [ %4, %2 ], [ %7, %6 ]."
    );
}

#[test]
fn bitcast_line() {
    assert_eq!(
        explain_llvm_line("%4 = bitcast i8 %3 to i64"),
        "Bitcast value in register %3 from type i8 to type i64, store in %4."
    );
}

#[test]
fn fallback_unrecognized() {
    assert_eq!(
        explain_llvm_line("unreachable"),
        "No detailed explanation available for this instruction: unreachable"
    );
}

#[test]
fn fallback_trims_and_strips_metadata() {
    assert_eq!(
        explain_llvm_line("   switch i32 %1, label %4 , !dbg !9"),
        "No detailed explanation available for this instruction: switch i32 %1, label %4 ,"
    );
}

#[test]
fn explain_is_total_and_nonempty() {
    let inputs = [
        "",
        "   ",
        "!dbg",
        "%1 = load",
        "store",
        "define i32 @main() {",
        "}",
        "%x = weird stuff, here",
    ];
    for line in inputs {
        assert!(!explain_llvm_line(line).is_empty());
    }
}
