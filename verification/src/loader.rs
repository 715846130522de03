//! From rows of fields to courses in the index.

use crate::hash_table::course::Course;
use crate::hash_table::course::CourseView;
use crate::hash_table::model::inserted_all;
use crate::hash_table::model::records;
use crate::hash_table::model::well_hashed;
use crate::hash_table::HashTable;
use crate::parser::parse_source;
use crate::parser::rows_of;
use crate::parser::rows_view;
use crate::text::texts;
use vstd::prelude::*;

verus! {

/// The fewest fields that make a course: its number and its name.
pub const FEWEST_FIELDS: usize = 2;

/// The course that a row of at least two fields stands for: the first field
/// is its number, the second its name, and every further field the number
/// of a prerequisite.
pub open spec fn course_of_row(row: Seq<Seq<char>>) -> CourseView
    recommends
        row.len() >= FEWEST_FIELDS,
{
    CourseView { course_number: row[0], name: row[1], prerequisites: row.skip(2) }
}

/// The courses that rows stand for, in the order of the rows. A row of
/// fewer than two fields stands for none and is passed over.
pub open spec fn courses_of_rows(rows: Seq<Seq<Seq<char>>>) -> Seq<CourseView>
    decreases rows.len(),
{
    if rows.len() == 0 {
        Seq::empty()
    } else if rows.last().len() >= FEWEST_FIELDS {
        courses_of_rows(rows.drop_last()).push(course_of_row(rows.last()))
    } else {
        courses_of_rows(rows.drop_last())
    }
}

/// Builds the course that a row stands for, if the row has the two fields
/// that every course needs.
pub fn course_from_row(row: &Vec<String>) -> (course: Option<Course>)
    ensures
        course is Some <==> row@.len() >= FEWEST_FIELDS,
        course matches Some(c) ==> c@ == course_of_row(texts(row@)),
{
    if row.len() < FEWEST_FIELDS {
        return None;
    }
    let mut prerequisites: Vec<String> = Vec::new();
    let mut i: usize = FEWEST_FIELDS;
    while i < row.len()
        invariant
            FEWEST_FIELDS <= i <= row@.len(),
            prerequisites@.len() == i - FEWEST_FIELDS,
            forall|j: int|
                0 <= j < prerequisites@.len() ==> prerequisites@[j]@ == row@[j
                    + FEWEST_FIELDS]@,
        decreases row@.len() - i,
    {
        prerequisites.push(row[i].clone());
        i += 1;
    }
    let course = Course::new(row[0].clone(), row[1].clone(), prerequisites);
    assert(course@.prerequisites =~= texts(row@).skip(2));
    Some(course)
}

/// Inserts the course of each row into `table`, in the order of the rows.
/// A row of fewer than two fields is passed over, and the rows behind it
/// are still read.
pub fn load_rows(rows: &Vec<Vec<String>>, table: &mut HashTable)
    ensures
        final(table)@ == inserted_all(old(table)@, courses_of_rows(rows_view(rows@))),
        well_hashed(final(table)@),
        records(final(table)@).len() == records(old(table)@).len() + courses_of_rows(
            rows_view(rows@),
        ).len(),
{
    let mut i: usize = 0;
    assert(rows_view(rows@).take(0) =~= Seq::empty());
    proof {
        use_type_invariant(&*table);
        table.lemma_well_formed();
    }
    while i < rows.len()
        invariant
            i <= rows@.len(),
            well_hashed(table@),
            well_hashed(old(table)@),
            table@ == inserted_all(
                old(table)@,
                courses_of_rows(rows_view(rows@).take(i as int)),
            ),
            records(table@).len() == records(old(table)@).len() + courses_of_rows(
                rows_view(rows@).take(i as int),
            ).len(),
        decreases rows@.len() - i,
    {
        proof {
            let longer = rows_view(rows@).take(i + 1);
            assert(longer.drop_last() =~= rows_view(rows@).take(i as int));
            assert(longer.last() == texts(rows@[i as int]@));
        }
        match course_from_row(&rows[i]) {
            Some(course) => {
                proof {
                    let placed = courses_of_rows(rows_view(rows@).take(i + 1));
                    assert(placed.drop_last() =~= courses_of_rows(
                        rows_view(rows@).take(i as int),
                    ));
                }
                table.insert(course);
            },
            None => {},
        }
        i += 1;
    }
    assert(rows_view(rows@).take(rows@.len() as int) =~= rows_view(rows@));
}

/// Reads a source and inserts its courses into `table`, in the order of its
/// lines. Lines that cannot be read and rows of fewer than two fields are
/// passed over. A source without rows leaves the table as it is.
pub fn load_courses(source: &[u8], table: &mut HashTable)
    ensures
        final(table)@ == inserted_all(old(table)@, courses_of_rows(rows_of(source@))),
        well_hashed(final(table)@),
        records(final(table)@).len() == records(old(table)@).len() + courses_of_rows(
            rows_of(source@),
        ).len(),
{
    let rows = parse_source(source);
    load_rows(&rows, table);
}

} // verus!
