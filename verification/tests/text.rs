use bril_passes::text::{fold_terms, format_rhs, join_spaced};

fn strs(v: &[&str]) -> Vec<String> {
    v.iter().map(|s| s.to_string()).collect()
}

#[test]
fn terms_are_transformed_and_joined() {
    let out = fold_terms(&strs(&["a", "b", "c"]), |s: &String| format!(".{}", s));
    assert_eq!(out, ".a .b .c");
    assert_eq!(fold_terms(&strs(&[]), |s: &String| s.clone()), "");
    assert_eq!(fold_terms(&strs(&["one"]), |s: &String| s.to_uppercase()), "ONE");
}

#[test]
fn joining_puts_one_space_between() {
    assert_eq!(join_spaced(&strs(&["a", "", "b"])), "a  b");
    assert_eq!(join_spaced(&strs(&[])), "");
    assert_eq!(join_spaced(&strs(&["", ""])), " ");
}

#[test]
fn right_hand_side_of_a_branch() {
    assert_eq!(
        format_rhs("br".to_string(), &strs(&[]), &strs(&["c"]), &strs(&["then", "else"])),
        "br c .then .else"
    );
}

#[test]
fn right_hand_side_passes_over_the_empty_parts() {
    assert_eq!(format_rhs("add".to_string(), &strs(&[]), &strs(&["a", "b"]), &strs(&[])), "add a b");
    assert_eq!(format_rhs("jmp".to_string(), &strs(&[]), &strs(&[]), &strs(&["l"])), "jmp .l");
    assert_eq!(format_rhs("nop".to_string(), &strs(&[]), &strs(&[]), &strs(&[])), "nop");
    assert_eq!(
        format_rhs("call".to_string(), &strs(&["f"]), &strs(&["a"]), &strs(&["l"])),
        "call @f a .l"
    );
    assert_eq!(format_rhs("".to_string(), &strs(&[]), &strs(&[]), &strs(&[])), "");
    assert_eq!(format_rhs("".to_string(), &strs(&["f", "g"]), &strs(&[]), &strs(&["l"])), "@f @g .l");
}
