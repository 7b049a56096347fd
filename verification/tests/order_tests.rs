use diode::order::{natural_compare, lex_compare};
use diode::sorting::{dedup_strings, sorted_strings_lex, sorted_strings_natural};
use diode::StrOrder;

fn to_order(o: std::cmp::Ordering) -> StrOrder {
    match o {
        std::cmp::Ordering::Less => StrOrder::Less,
        std::cmp::Ordering::Equal => StrOrder::Equal,
        std::cmp::Ordering::Greater => StrOrder::Greater,
    }
}

#[test]
fn natural_order_compares_digit_runs_by_value() {
    assert_eq!(natural_compare("R2", "R10"), StrOrder::Less);
    assert_eq!(natural_compare("R10", "R2"), StrOrder::Greater);
    assert_eq!(natural_compare("R10", "R10"), StrOrder::Equal);
    assert_eq!(natural_compare("a1b", "a1c"), StrOrder::Less);
    assert_eq!(natural_compare("pic2", "pic100"), StrOrder::Less);
    assert_eq!(natural_compare("x", "x1"), StrOrder::Less);
    assert_eq!(natural_compare("12", "9"), StrOrder::Greater);
    assert_eq!(natural_compare("", "a"), StrOrder::Less);
    assert_eq!(natural_compare("", ""), StrOrder::Equal);
}

#[test]
fn natural_order_agrees_with_the_reference_comparator() {
    // No whitespace and no leading zeros: on such inputs the natural
    // order matches the classic natural-sort comparator.
    let samples = [
        "a", "a1", "a1a", "a1b", "a2", "a10", "a20", "x2-g8", "x2-y7", "x2-y8", "x8-y8", "fred",
        "jane", "pic1", "pic2", "pic2a", "pic3", "pic100", "pic100a", "pic120", "pic121",
        "pic2000", "tom", "R1", "R2", "R10", "R19", "R100",
    ];
    for a in samples.iter() {
        for b in samples.iter() {
            assert_eq!(
                natural_compare(a, b),
                to_order(natord::compare(a, b)),
                "disagreement on ({}, {})",
                a,
                b
            );
        }
    }
}

#[test]
fn lex_order_is_plain_code_point_order() {
    assert_eq!(lex_compare("R10", "R2"), StrOrder::Less);
    assert_eq!(lex_compare("abc", "abd"), StrOrder::Less);
    assert_eq!(lex_compare("ab", "abc"), StrOrder::Less);
    assert_eq!(lex_compare("b", "ab"), StrOrder::Greater);
    assert_eq!(lex_compare("same", "same"), StrOrder::Equal);
}

#[test]
fn sorts_are_stable_and_ordered() {
    let input: Vec<String> = ["R10", "R2", "C1", "R2", "C10", "C2"]
        .iter()
        .map(|s| s.to_string())
        .collect();
    let natural = sorted_strings_natural(&input);
    assert_eq!(natural, ["C1", "C2", "C10", "R2", "R2", "R10"]);
    let lex = sorted_strings_lex(&input);
    assert_eq!(lex, ["C1", "C10", "C2", "R10", "R2", "R2"]);
}

#[test]
fn dedup_removes_consecutive_duplicates() {
    let input: Vec<String> = ["a", "a", "b", "b", "b", "c"].iter().map(|s| s.to_string()).collect();
    assert_eq!(dedup_strings(&input), ["a", "b", "c"]);
    let empty: Vec<String> = Vec::new();
    assert_eq!(dedup_strings(&empty), Vec::<String>::new());
}

#[test]
fn equal_valued_runs_break_ties_by_length() {
    // "1" and "01" carry the same value; the shorter run (fewer leading
    // zeros) sorts first, keeping the order total.
    assert_eq!(natural_compare("1", "01"), StrOrder::Less);
    assert_eq!(natural_compare("01", "1"), StrOrder::Greater);
    assert_eq!(natural_compare("a01b", "a1b"), StrOrder::Greater);
    assert_eq!(natural_compare("007", "10"), StrOrder::Less);
}
