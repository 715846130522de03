use course_planner::hash_table::course::Course;
use course_planner::hash_table::node::Node;
use course_planner::hash_table::HashTable;
use course_planner::hash_table::DEFAULT_SIZE;

fn course(number: &str, name: &str, prerequisites: &[&str]) -> Course {
    Course::new(
        number.to_string(),
        name.to_string(),
        prerequisites.iter().map(|p| p.to_string()).collect(),
    )
}

fn numbers(courses: &[Course]) -> Vec<String> {
    courses.iter().map(|c| c.course_number.clone()).collect()
}

#[test]
fn course_new_keeps_its_parts() {
    let c = course("CSCI200", "Data Structures", &["CSCI101", "MATH201"]);
    assert_eq!(c.course_number, "CSCI200");
    assert_eq!(c.name, "Data Structures");
    assert_eq!(c.prerequisites, vec!["CSCI101".to_string(), "MATH201".to_string()]);
}

#[test]
fn course_clone_is_equal_field_by_field() {
    let c = course("CSCI200", "Data Structures", &["CSCI101", "MATH201"]);
    let d = c.clone();
    assert_eq!(d.course_number, c.course_number);
    assert_eq!(d.name, c.name);
    assert_eq!(d.prerequisites, c.prerequisites);
}

#[test]
fn course_line_with_no_prerequisite() {
    let c = course("CSCI100", "Intro to CS", &[]);
    assert_eq!(c.line(), "CSCI100 | Intro to CS | Prerequisites: ");
}

#[test]
fn course_line_with_one_prerequisite() {
    let c = course("CSCI101", "Intro to Programming", &["CSCI100"]);
    assert_eq!(c.line(), "CSCI101 | Intro to Programming | Prerequisites: CSCI100");
}

#[test]
fn course_line_with_two_prerequisites() {
    let c = course("CSCI200", "Data Structures", &["CSCI101", "MATH201"]);
    assert_eq!(c.line(), "CSCI200 | Data Structures | Prerequisites: CSCI101, MATH201");
}

#[test]
fn node_new_has_nothing_behind_it() {
    let n = Node::new(course("CSCI100", "Intro to CS", &[]), 3);
    assert_eq!(n.key, 3);
    assert_eq!(n.course.course_number, "CSCI100");
    assert!(n.next.is_none());
}

#[test]
fn node_append_goes_to_the_tail() {
    let mut head = Node::new(course("A", "first", &[]), 1);
    head.append(Box::new(Node::new(course("I", "second", &[]), 1)));
    head.append(Box::new(Node::new(course("Q", "third", &[]), 1)));
    let second = head.next.as_ref().unwrap();
    let third = second.next.as_ref().unwrap();
    assert_eq!(head.course.course_number, "A");
    assert_eq!(second.course.course_number, "I");
    assert_eq!(third.course.course_number, "Q");
    assert!(third.next.is_none());
}

#[test]
fn default_size_is_eight() {
    assert_eq!(DEFAULT_SIZE, 8);
}

#[test]
fn hash_is_the_sum_of_code_points_modulo_the_size() {
    let table = HashTable::new();
    // 67 + 83 + 67 + 73 + 49 + 48 + 48 = 435, and 435 = 54 * 8 + 3
    assert_eq!(table.hash("CSCI100"), 3);
    assert_eq!(table.hash("A"), 1);
    assert_eq!(table.hash("H"), 0);
    // U+00E9 is 233, and 233 = 29 * 8 + 1
    assert_eq!(table.hash("\u{e9}"), 1);
    // U+10FFFF is 1114111, and 1114111 = 139263 * 8 + 7
    assert_eq!(table.hash("\u{10ffff}"), 7);
}

#[test]
fn hash_of_the_empty_key_is_zero() {
    assert_eq!(HashTable::new().hash(""), 0);
    assert_eq!(HashTable::with_size(5).hash(""), 0);
}

#[test]
fn hash_follows_the_table_size() {
    assert_eq!(HashTable::with_size(1).hash("CSCI100"), 0);
    assert_eq!(HashTable::with_size(7).hash("CSCI100"), 435 % 7);
    assert_eq!(HashTable::with_size(1000).hash("CSCI100"), 435);
}

#[test]
fn anagrams_share_a_bucket_and_are_both_found() {
    let mut table = HashTable::new();
    assert_eq!(table.hash("CS101"), table.hash("101CS"));
    assert_eq!(table.hash("CS101"), table.hash("1C0S1"));
    table.insert(course("CS101", "one", &[]));
    table.insert(course("101CS", "two", &[]));
    table.insert(course("1C0S1", "three", &[]));
    assert_eq!(table.search("CS101").unwrap().name, "one");
    assert_eq!(table.search("101CS").unwrap().name, "two");
    assert_eq!(table.search("1C0S1").unwrap().name, "three");
    assert!(table.search("S101C").is_none());
    assert_eq!(table.all_sorted().len(), 3);
}

#[test]
fn empty_table_lists_nothing_and_finds_nothing() {
    let table = HashTable::new();
    assert!(table.all_sorted().is_empty());
    assert!(table.search("CSCI100").is_none());
    assert!(table.search("").is_none());
}

#[test]
fn two_courses_are_listed_in_order_and_found() {
    let mut table = HashTable::new();
    table.insert(course("CSCI100", "Intro to CS", &[]));
    table.insert(course("CSCI101", "Intro to Programming", &["CSCI100"]));
    let all = table.all_sorted();
    assert_eq!(numbers(&all), vec!["CSCI100".to_string(), "CSCI101".to_string()]);
    let found = table.search("CSCI101").unwrap();
    assert_eq!(found.course_number, "CSCI101");
    assert_eq!(found.name, "Intro to Programming");
    assert_eq!(found.prerequisites, vec!["CSCI100".to_string()]);
    assert!(table.search("MATH999").is_none());
}

#[test]
fn the_head_of_a_chain_is_found() {
    let mut table = HashTable::new();
    table.insert(course("CSCI100", "Intro to CS", &[]));
    let found = table.search("CSCI100").unwrap();
    assert_eq!(found.name, "Intro to CS");
    assert!(found.prerequisites.is_empty());
}

#[test]
fn every_insertion_is_listed() {
    let mut table = HashTable::new();
    let mut expected: Vec<String> = Vec::new();
    for i in 0..100 {
        let number = format!("C{:03}", (i * 37) % 100);
        table.insert(course(&number, &format!("course {}", i), &[]));
        expected.push(number);
        assert_eq!(table.all_sorted().len(), i + 1);
    }
    expected.sort();
    assert_eq!(numbers(&table.all_sorted()), expected);
}

#[test]
fn every_inserted_course_is_found_by_its_number() {
    let mut table = HashTable::new();
    for i in 0..60 {
        let number = format!("MATH{}", i);
        let before = format!("MATH{}", i + 1000);
        table.insert(course(&number, &format!("course {}", i), &[&before]));
    }
    for i in 0..60 {
        let number = format!("MATH{}", i);
        let found = table.search(&number).unwrap();
        assert_eq!(found.course_number, number);
        assert_eq!(found.name, format!("course {}", i));
        assert_eq!(found.prerequisites, vec![format!("MATH{}", i + 1000)]);
    }
    assert!(table.search("MATH60").is_none());
    assert!(table.search("math0").is_none());
    assert!(table.search("MATH").is_none());
    assert!(table.search("MATH00").is_none());
}

#[test]
fn listing_ascends_whatever_the_order_of_insertion() {
    let orders: [[&str; 5]; 3] = [
        ["CSCI300", "CSCI100", "MATH201", "CSCI200", "CSCI101"],
        ["MATH201", "CSCI300", "CSCI200", "CSCI101", "CSCI100"],
        ["CSCI100", "CSCI101", "CSCI200", "CSCI300", "MATH201"],
    ];
    for order in orders.iter() {
        let mut table = HashTable::new();
        for number in order.iter() {
            table.insert(course(number, "x", &[]));
        }
        assert_eq!(
            numbers(&table.all_sorted()),
            vec![
                "CSCI100".to_string(),
                "CSCI101".to_string(),
                "CSCI200".to_string(),
                "CSCI300".to_string(),
                "MATH201".to_string()
            ]
        );
    }
}

#[test]
fn listing_orders_by_code_point() {
    let mut table = HashTable::new();
    for number in ["b", "B", "a", "", "ab", "\u{e9}", "z", "A1", "10", "9"].iter() {
        table.insert(course(number, "x", &[]));
    }
    assert_eq!(
        numbers(&table.all_sorted()),
        vec!["", "10", "9", "A1", "B", "a", "ab", "b", "z", "\u{e9}"]
            .into_iter()
            .map(|s| s.to_string())
            .collect::<Vec<String>>()
    );
}

#[test]
fn a_second_course_of_the_same_number_is_kept_behind_the_first() {
    let mut table = HashTable::new();
    table.insert(course("CSCI100", "first", &[]));
    table.insert(course("MATH201", "other", &[]));
    table.insert(course("CSCI100", "second", &["MATH201"]));
    let all = table.all_sorted();
    assert_eq!(all.len(), 3);
    assert_eq!(all[0].name, "first");
    assert_eq!(all[1].name, "second");
    assert_eq!(all[2].name, "other");
    assert_eq!(table.search("CSCI100").unwrap().name, "first");
}

#[test]
fn course_numbers_are_case_sensitive() {
    let mut table = HashTable::new();
    table.insert(course("math201", "lower", &[]));
    assert!(table.search("MATH201").is_none());
    assert_eq!(table.search("math201").unwrap().name, "lower");
}

#[test]
fn one_bucket_holds_everything() {
    let mut table = HashTable::with_size(1);
    for number in ["C", "A", "B", "A"].iter() {
        table.insert(course(number, number, &[]));
    }
    assert_eq!(
        numbers(&table.all_sorted()),
        vec!["A".to_string(), "A".to_string(), "B".to_string(), "C".to_string()]
    );
    assert_eq!(table.search("B").unwrap().name, "B");
    assert!(table.search("D").is_none());
}

#[test]
fn a_listing_is_a_copy() {
    let mut table = HashTable::new();
    table.insert(course("CSCI100", "Intro to CS", &[]));
    let before = table.all_sorted();
    table.insert(course("CSCI101", "Intro to Programming", &["CSCI100"]));
    assert_eq!(before.len(), 1);
    assert_eq!(table.all_sorted().len(), 2);
}

#[test]
fn a_prerequisite_need_not_exist() {
    let mut table = HashTable::new();
    table.insert(course("CSCI200", "Data Structures", &["NOPE999"]));
    assert_eq!(table.search("CSCI200").unwrap().prerequisites, vec!["NOPE999".to_string()]);
    assert!(table.search("NOPE999").is_none());
}
