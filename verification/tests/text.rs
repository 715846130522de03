use course_planner::text::bucket_index;
use course_planner::text::order_texts;
use course_planner::text::TextOrder;

#[test]
fn order_of_equal_texts() {
    assert_eq!(order_texts("", ""), TextOrder::Same);
    assert_eq!(order_texts("CSCI100", "CSCI100"), TextOrder::Same);
}

#[test]
fn order_is_decided_by_the_first_difference() {
    assert_eq!(order_texts("CSCI100", "CSCI101"), TextOrder::Before);
    assert_eq!(order_texts("CSCI101", "CSCI100"), TextOrder::After);
    assert_eq!(order_texts("MATH201", "CSCI300"), TextOrder::After);
    assert_eq!(order_texts("Z", "a"), TextOrder::Before);
}

#[test]
fn a_prefix_comes_first() {
    assert_eq!(order_texts("", "a"), TextOrder::Before);
    assert_eq!(order_texts("CSCI", "CSCI1"), TextOrder::Before);
    assert_eq!(order_texts("CSCI1", "CSCI"), TextOrder::After);
}

#[test]
fn order_goes_by_code_point() {
    assert_eq!(order_texts("z", "\u{e9}"), TextOrder::Before);
    assert_eq!(order_texts("\u{ffff}", "\u{10000}"), TextOrder::Before);
    assert_eq!(order_texts("\u{10ffff}", "\u{e000}"), TextOrder::After);
}

#[test]
fn order_agrees_with_the_order_of_strings() {
    let samples = [
        "", "a", "A", "ab", "abc", "b", "CSCI100", "CSCI101", "MATH201", "math201", "\u{e9}",
        "e\u{301}", "\u{ffff}", "\u{10000}", "\u{d7ff}", "\u{e000}", " ", "1", "10", "9",
    ];
    for a in samples.iter() {
        for b in samples.iter() {
            let expected = match a.cmp(b) {
                std::cmp::Ordering::Less => TextOrder::Before,
                std::cmp::Ordering::Equal => TextOrder::Same,
                std::cmp::Ordering::Greater => TextOrder::After,
            };
            assert_eq!(order_texts(a, b), expected);
        }
    }
}

#[test]
fn bucket_index_is_the_sum_modulo_the_size() {
    assert_eq!(bucket_index("", 8), 0);
    assert_eq!(bucket_index("CSCI100", 8), 3);
    assert_eq!(bucket_index("CSCI100", 436), 435);
    assert_eq!(bucket_index("CSCI100", 435), 0);
    assert_eq!(bucket_index("AB", 1), 0);
    assert_eq!(bucket_index("AB", 100), 31);
}

#[test]
fn bucket_index_agrees_with_a_plain_sum() {
    let samples = ["", "a", "CSCI100", "MATH201", "\u{e9}t\u{e9}", "\u{10000}x", "  "];
    for s in samples.iter() {
        for size in [1usize, 2, 3, 8, 97, 1 << 20].iter() {
            let sum: usize = s.chars().map(|c| c as usize).sum();
            assert_eq!(bucket_index(s, *size), sum % size);
        }
    }
}

#[test]
fn bucket_index_does_not_overflow() {
    let key: String = std::iter::repeat('\u{10ffff}').take(5000).collect();
    assert_eq!(bucket_index(&key, usize::MAX), 5000 * 0x10ffff);
    assert_eq!(bucket_index(&key, usize::MAX - 1), 5000 * 0x10ffff);
    assert_eq!(bucket_index(&key, 8), (5000 * 0x10ffff) % 8);
    assert_eq!(bucket_index("CSCI100", usize::MAX), 435);
}
