use dirtree::order::{compare, same_text, Relation};

#[test]
fn compare_tells_before_same_and_after() {
    assert_eq!(compare("a", "b"), Relation::Before);
    assert_eq!(compare("b", "a"), Relation::After);
    assert_eq!(compare("a", "a"), Relation::Same);
    assert_eq!(compare("", ""), Relation::Same);
    assert_eq!(compare("", "a"), Relation::Before);
    assert_eq!(compare("a", ""), Relation::After);
}

#[test]
fn compare_puts_a_name_before_its_extensions() {
    assert_eq!(compare("a", "ab"), Relation::Before);
    assert_eq!(compare("ab", "a"), Relation::After);
    assert_eq!(compare("abc", "abd"), Relation::Before);
    assert_eq!(compare("abd", "abc"), Relation::After);
    assert_eq!(compare("ab", "b"), Relation::Before);
}

#[test]
fn compare_goes_by_code_points() {
    assert_eq!(compare("B", "a"), Relation::Before);
    assert_eq!(compare("Z", "a"), Relation::Before);
    assert_eq!(compare("10", "9"), Relation::Before);
    assert_eq!(compare("z", "é"), Relation::Before);
    assert_eq!(compare("é", "😀"), Relation::Before);
    assert_eq!(compare("\u{ffff}", "\u{10000}"), Relation::Before);
    assert_eq!(compare("😀", "😀"), Relation::Same);
}

#[test]
fn compare_agrees_with_the_order_of_strings() {
    let names = ["", "a", "A", "ab", "b", "a b", "é", "e", "z", "😀", "\u{ffff}", "\u{10000}", "aa"];
    for a in names {
        for b in names {
            let relation = compare(a, b);
            assert_eq!(relation == Relation::Before, a < b);
            assert_eq!(relation == Relation::Same, a == b);
            assert_eq!(relation == Relation::After, a > b);
        }
    }
}

#[test]
fn same_text_tells_equal_strings() {
    assert!(same_text("MOVE", "MOVE"));
    assert!(same_text("", ""));
    assert!(!same_text("MOVE", "MOVED"));
    assert!(!same_text("MOVE", "move"));
    assert!(!same_text("a", ""));
}
