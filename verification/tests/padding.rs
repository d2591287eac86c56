use bst_tree::levels::calc_padding;

#[test]
fn padding_for_zero() {
    let depth: u32 = 0;
    assert_eq!(calc_padding(&depth), 1);
}

#[test]
fn padding_for_one() {
    let depth: u32 = 1;
    assert_eq!(calc_padding(&depth), 3);
}

#[test]
fn padding_for_three() {
    let depth: u32 = 3;
    assert_eq!(calc_padding(&depth), 15);
}

#[test]
fn padding_for_five() {
    let depth: u32 = 5;
    assert_eq!(calc_padding(&depth), 63);
}

#[test]
fn padding_for_fifteen_is_largest() {
    let depth: u32 = 15;
    assert_eq!(calc_padding(&depth), 65535);
}
