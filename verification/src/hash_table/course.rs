//! The record that the index stores.

use crate::text::texts;
use vstd::prelude::*;
use vstd::string::StringExecFns;

verus! {

/// What a course is, as mathematics: its number, its name and the numbers of
/// its prerequisites, each a sequence of characters.
pub struct CourseView {
    pub course_number: Seq<char>,
    pub name: Seq<char>,
    pub prerequisites: Seq<Seq<char>>,
}

/// A course: the number that identifies it, the name it is shown under, and
/// the numbers of its prerequisites in the order in which they were given.
/// A prerequisite need not name a course that exists.
#[derive(Debug)]
pub struct Course {
    pub course_number: String,
    pub name: String,
    pub prerequisites: Vec<String>,
}

impl View for Course {
    type V = CourseView;

    open spec fn view(&self) -> CourseView {
        CourseView {
            course_number: self.course_number@,
            name: self.name@,
            prerequisites: texts(self.prerequisites@),
        }
    }
}

/// The texts of `parts` in a row, with `between` between each two.
pub open spec fn joined(parts: Seq<Seq<char>>, between: Seq<char>) -> Seq<char>
    decreases parts.len(),
{
    if parts.len() == 0 {
        Seq::empty()
    } else if parts.len() == 1 {
        parts[0]
    } else {
        joined(parts.drop_last(), between) + between + parts.last()
    }
}

/// The line that shows a course: its number, its name and its
/// prerequisites, the three set apart by bars and the prerequisites by
/// commas.
pub open spec fn line_of(course: CourseView) -> Seq<char> {
    course.course_number + " | "@ + course.name + " | Prerequisites: "@ + joined(
        course.prerequisites,
        ", "@,
    )
}

impl Course {
    /// Builds a course from its three parts, which it takes over unchanged.
    pub fn new(course_number: String, name: String, prerequisites: Vec<String>) -> (course: Self)
        ensures
            course.course_number == course_number,
            course.name == name,
            course.prerequisites == prerequisites,
            course@ == (CourseView {
                course_number: course_number@,
                name: name@,
                prerequisites: texts(prerequisites@),
            }),
    {
        Course { course_number, name, prerequisites }
    }

    /// The line that shows this course. A course without prerequisites ends
    /// behind the colon and the blank that follows it.
    pub fn line(&self) -> (line: String)
        ensures
            line@ == line_of(self@),
    {
        let mut line = self.course_number.clone();
        line.append(" | ");
        line.append(self.name.as_str());
        line.append(" | Prerequisites: ");
        let ghost head = line@;
        let mut i: usize = 0;
        assert(texts(self.prerequisites@).take(0) =~= Seq::empty());
        assert(line@ =~= head + joined(texts(self.prerequisites@).take(0), ", "@));
        while i < self.prerequisites.len()
            invariant
                i <= self.prerequisites@.len(),
                head == self@.course_number + " | "@ + self@.name + " | Prerequisites: "@,
                line@ == head + joined(texts(self.prerequisites@).take(i as int), ", "@),
            decreases self.prerequisites@.len() - i,
        {
            let ghost before = texts(self.prerequisites@).take(i as int);
            let ghost after = texts(self.prerequisites@).take(i + 1);
            proof {
                assert(after.drop_last() =~= before);
                assert(after.last() == self.prerequisites@[i as int]@);
            }
            if i > 0 {
                line.append(", ");
            }
            line.append(self.prerequisites[i].as_str());
            proof {
                if i == 0 {
                    assert(joined(before, ", "@) =~= Seq::<char>::empty());
                    assert(line@ =~= head + joined(after, ", "@));
                } else {
                    assert(line@ =~= head + joined(after, ", "@));
                }
            }
            i += 1;
        }
        assert(texts(self.prerequisites@).take(self.prerequisites@.len() as int) =~= texts(
            self.prerequisites@,
        ));
        line
    }
}

impl Clone for Course {
    /// A copy that holds the same number, name and prerequisites.
    fn clone(&self) -> (copy: Self)
        ensures
            copy@ == self@,
    {
        let mut prerequisites: Vec<String> = Vec::new();
        let mut i: usize = 0;
        while i < self.prerequisites.len()
            invariant
                i <= self.prerequisites.len(),
                prerequisites@.len() == i,
                forall|j: int| 0 <= j < i ==> prerequisites@[j]@ == self.prerequisites@[j]@,
            decreases self.prerequisites.len() - i,
        {
            prerequisites.push(self.prerequisites[i].clone());
            i += 1;
        }
        let copy = Course {
            course_number: self.course_number.clone(),
            name: self.name.clone(),
            prerequisites,
        };
        assert(copy@.prerequisites =~= self@.prerequisites);
        copy
    }
}

} // verus!
