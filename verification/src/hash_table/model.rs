//! The index as mathematics: a sequence of buckets, each the sequence of the
//! records placed in it, oldest first.

use super::course::CourseView;
use crate::text::bucket_of;
use vstd::prelude::*;

verus! {

/// `size` buckets with nothing in them.
pub open spec fn empty_buckets(size: nat) -> Seq<Seq<CourseView>> {
    Seq::new(size, |i: int| Seq::<CourseView>::empty())
}

/// There is at least one bucket, and every record lies in the bucket that
/// its course number hashes to.
pub open spec fn well_hashed(buckets: Seq<Seq<CourseView>>) -> bool {
    &&& buckets.len() >= 1
    &&& forall|i: int, j: int|
        0 <= i < buckets.len() && 0 <= j < buckets[i].len() ==> bucket_of(
            #[trigger] buckets[i][j].course_number,
            buckets.len(),
        ) == i
}

/// The buckets after `course` has been placed: it goes to the end of the
/// bucket that its number hashes to, and nothing else changes.
pub open spec fn inserted(buckets: Seq<Seq<CourseView>>, course: CourseView) -> Seq<
    Seq<CourseView>,
>
    recommends
        buckets.len() >= 1,
{
    let b = bucket_of(course.course_number, buckets.len()) as int;
    buckets.update(b, buckets[b].push(course))
}

/// The buckets after each of `courses` has been placed in turn.
pub open spec fn inserted_all(buckets: Seq<Seq<CourseView>>, courses: Seq<CourseView>) -> Seq<
    Seq<CourseView>,
>
    recommends
        buckets.len() >= 1,
    decreases courses.len(),
{
    if courses.len() == 0 {
        buckets
    } else {
        inserted(inserted_all(buckets, courses.drop_last()), courses.last())
    }
}

/// The buckets after each of `courses` has been placed in turn, starting
/// from `size` empty buckets.
pub open spec fn after_inserts(size: nat, courses: Seq<CourseView>) -> Seq<Seq<CourseView>>
    recommends
        size >= 1,
{
    inserted_all(empty_buckets(size), courses)
}

/// The first record of `courses` whose number is `key`, if there is one.
pub open spec fn first_with_key(courses: Seq<CourseView>, key: Seq<char>) -> Option<CourseView>
    decreases courses.len(),
{
    if courses.len() == 0 {
        None
    } else if courses[0].course_number == key {
        Some(courses[0])
    } else {
        first_with_key(courses.drop_first(), key)
    }
}

/// What a search for `key` finds: the first record with that number in the
/// bucket that `key` hashes to.
pub open spec fn found(buckets: Seq<Seq<CourseView>>, key: Seq<char>) -> Option<CourseView>
    recommends
        buckets.len() >= 1,
{
    first_with_key(buckets[bucket_of(key, buckets.len()) as int], key)
}

/// Every record of the index: bucket after bucket, and within a bucket in
/// the order of insertion.
pub open spec fn records(buckets: Seq<Seq<CourseView>>) -> Seq<CourseView> {
    buckets.flatten()
}

} // verus!
