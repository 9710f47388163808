use std::cmp::Ordering;

use img_tool::natord::{compare, compare_code, natural_sort_order, split_chunks, Chunk};

#[test]
fn numbers_compare_by_value() {
    assert_eq!(compare("2", "10"), Ordering::Less);
    assert_eq!(compare("img2.png", "img10.png"), Ordering::Less);
    assert_eq!(compare("img10.png", "img2.png"), Ordering::Greater);
    assert_eq!(compare("a", "a"), Ordering::Equal);
}

#[test]
fn numbers_before_text_and_shorter_first() {
    // a number chunk sorts before a text chunk
    assert_eq!(compare("1", "a"), Ordering::Less);
    // equal prefixes: fewer chunks first
    assert_eq!(compare("img", "img1"), Ordering::Less);
    // leading zeros compare by value: a tie
    assert_eq!(compare("f01", "f1"), Ordering::Equal);
    // runs beyond u64 still compare by value
    assert_eq!(compare("a99999999999999999999", "a1"), Ordering::Greater);
    assert_eq!(compare("99999999999999999999999", "99999999999999999999998"), Ordering::Greater);
    assert_eq!(compare("000123456789012345678901", "123456789012345678901"), Ordering::Equal);
    assert_eq!(compare("0009", "10"), Ordering::Less);
    // text compares by code point
    assert_eq!(compare("B", "a"), Ordering::Less);
}

#[test]
fn order_laws_on_samples() {
    let names = [
        "", "a", "a1", "a01", "a2", "a10", "b", "1", "10", "x9y", "x10y", "ä3",
        "a99999999999999999999", "a100000000000000000000", "0",
    ];
    for a in names {
        assert_eq!(compare_code(a, a), 0);
        for b in names {
            assert_eq!(compare_code(a, b), -compare_code(b, a));
            for c in names {
                if compare_code(a, b) <= 0 && compare_code(b, c) <= 0 {
                    assert!(compare_code(a, c) <= 0);
                }
            }
        }
    }
}

#[test]
fn natural_sort_is_stable() {
    let names: Vec<String> = ["img10.png", "img2.png", "img02.png", "img1.png", "a.png"]
        .iter()
        .map(|s| s.to_string())
        .collect();
    let order = natural_sort_order(&names);
    let sorted: Vec<&str> = order.iter().map(|&i| names[i].as_str()).collect();
    assert_eq!(sorted, vec!["a.png", "img1.png", "img2.png", "img02.png", "img10.png"]);
    let mut expected: Vec<&String> = names.iter().collect();
    expected.sort_by(|a, b| compare(a, b));
    assert_eq!(sorted, expected.iter().map(|s| s.as_str()).collect::<Vec<_>>());
}

#[test]
fn names_split_into_maximal_runs() {
    let text: Vec<char> = "img007b12.png".chars().collect();
    let parts: Vec<(bool, String)> = split_chunks(&text)
        .into_iter()
        .map(|c| match c {
            Chunk::Num(d) => (true, d.into_iter().collect()),
            Chunk::Str(t) => (false, t.into_iter().collect()),
        })
        .collect();
    assert_eq!(
        parts,
        vec![
            (false, "img".to_string()),
            (true, "007".to_string()),
            (false, "b".to_string()),
            (true, "12".to_string()),
            (false, ".png".to_string()),
        ]
    );
    assert!(split_chunks(&Vec::new()).is_empty());
}
