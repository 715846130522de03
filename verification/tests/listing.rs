use course_planner::hash_table::course::Course;
use course_planner::hash_table::listing::sort_by_number;

fn course(number: &str, name: &str) -> Course {
    Course::new(number.to_string(), name.to_string(), Vec::new())
}

fn sorted_names(courses: &[Course]) -> Vec<String> {
    let refs: Vec<&Course> = courses.iter().collect();
    sort_by_number(&refs).iter().map(|c| c.name.clone()).collect()
}

#[test]
fn sorting_nothing_gives_nothing() {
    assert!(sorted_names(&[]).is_empty());
}

#[test]
fn sorting_one_course_gives_it_back() {
    assert_eq!(sorted_names(&[course("A", "only")]), vec!["only".to_string()]);
}

#[test]
fn sorting_orders_by_number() {
    let courses = [
        course("MATH201", "4"),
        course("CSCI300", "3"),
        course("CSCI100", "0"),
        course("CSCI200", "2"),
        course("CSCI101", "1"),
    ];
    assert_eq!(
        sorted_names(&courses),
        vec!["0".to_string(), "1".to_string(), "2".to_string(), "3".to_string(), "4".to_string()]
    );
}

#[test]
fn sorting_keeps_courses_of_one_number_in_their_order() {
    let courses = [
        course("B", "b1"),
        course("A", "a1"),
        course("B", "b2"),
        course("A", "a2"),
        course("B", "b3"),
        course("A", "a3"),
        course("B", "b4"),
    ];
    assert_eq!(
        sorted_names(&courses),
        vec!["a1", "a2", "a3", "b1", "b2", "b3", "b4"]
            .into_iter()
            .map(|s| s.to_string())
            .collect::<Vec<String>>()
    );
}

#[test]
fn sorting_agrees_with_a_stable_sort_of_strings() {
    let mut courses: Vec<Course> = Vec::new();
    let mut seed: u64 = 12345;
    for i in 0..500 {
        seed = seed.wrapping_mul(6364136223846793005).wrapping_add(1442695040888963407);
        let number = format!("K{}", (seed >> 33) % 40);
        courses.push(course(&number, &format!("{}", i)));
    }
    let mut expected: Vec<&Course> = courses.iter().collect();
    expected.sort_by(|a, b| a.course_number.cmp(&b.course_number));
    let expected: Vec<String> = expected.iter().map(|c| c.name.clone()).collect();
    assert_eq!(sorted_names(&courses), expected);
}
