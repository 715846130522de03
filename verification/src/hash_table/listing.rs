//! The sorted listing: what it is, and the merge sort that produces it.

use super::course::Course;
use super::course::CourseView;
use crate::text::lemma_lex_le_transitive;
use crate::text::lemma_order_flips;
use crate::text::lex_le;
use crate::text::order_texts;
use crate::text::text_order;
use crate::text::TextOrder;
use vstd::prelude::*;

verus! {

/// The course numbers never go down from one record to the next.
pub open spec fn ascending(courses: Seq<CourseView>) -> bool {
    forall|i: int, j: int|
        #![trigger courses[i], courses[j]]
        0 <= i <= j < courses.len() ==> lex_le(courses[i].course_number, courses[j].course_number)
}

/// The test that a record is numbered `key`.
pub open spec fn has_key(key: Seq<char>) -> spec_fn(CourseView) -> bool {
    |course: CourseView| course.course_number == key
}

/// The records of `courses` that are numbered `key`, in the order they have
/// there.
pub open spec fn with_key(courses: Seq<CourseView>, key: Seq<char>) -> Seq<CourseView> {
    courses.filter(has_key(key))
}

/// `listing` is `courses` sorted by number: it holds the same records, the
/// numbers ascend, and records that share a number keep the order they have
/// in `courses`.
pub open spec fn is_listing_of(listing: Seq<CourseView>, courses: Seq<CourseView>) -> bool {
    &&& listing.to_multiset() == courses.to_multiset()
    &&& ascending(listing)
    &&& forall|key: Seq<char>| #[trigger] with_key(listing, key) == with_key(courses, key)
}

/// What a sequence of borrowed courses holds.
pub open spec fn views_of(courses: Seq<&Course>) -> Seq<CourseView> {
    Seq::new(courses.len(), |i: int| courses[i]@)
}

/// What a sequence of courses holds.
pub open spec fn course_views(courses: Seq<Course>) -> Seq<CourseView> {
    Seq::new(courses.len(), |i: int| courses[i]@)
}

/// Where no record is numbered `key`, none is picked out.
pub proof fn lemma_with_key_absent(courses: Seq<CourseView>, key: Seq<char>)
    requires
        forall|i: int| 0 <= i < courses.len() ==> (#[trigger] courses[i]).course_number != key,
    ensures
        with_key(courses, key) == Seq::<CourseView>::empty(),
    decreases courses.len(),
{
    if courses.len() == 0 {
        reveal(Seq::filter);
    } else {
        let front = courses.drop_last();
        lemma_with_key_absent(front, key);
        front.lemma_filter_push(courses.last(), has_key(key));
        assert(front.push(courses.last()) =~= courses);
    }
}

/// The state of a merge: `out` holds the first `i` records of `left` and
/// the first `j` of `right` in ascending order, nothing in it comes later
/// than a record still to be merged, and a record of `right` went in ahead
/// of the rest of `left` only where its number differs from theirs.
spec fn merging(
    out: Seq<CourseView>,
    left: Seq<CourseView>,
    right: Seq<CourseView>,
    i: int,
    j: int,
) -> bool {
    &&& 0 <= i <= left.len()
    &&& 0 <= j <= right.len()
    &&& ascending(left)
    &&& ascending(right)
    &&& ascending(out)
    &&& forall|p: int, q: int|
        #![trigger out[p], left[q]]
        0 <= p < out.len() && i <= q < left.len() ==> lex_le(
            out[p].course_number,
            left[q].course_number,
        )
    &&& forall|p: int, q: int|
        #![trigger out[p], right[q]]
        0 <= p < out.len() && j <= q < right.len() ==> lex_le(
            out[p].course_number,
            right[q].course_number,
        )
    &&& forall|p: int, q: int|
        #![trigger right[p], left[q]]
        0 <= p < j && i <= q < left.len() ==> right[p].course_number != left[q].course_number
    &&& out.to_multiset() == left.take(i).to_multiset().add(right.take(j).to_multiset())
    &&& forall|key: Seq<char>| #[trigger]
        with_key(out, key) == with_key(left.take(i), key) + with_key(right.take(j), key)
}

/// A merge begins with nothing merged.
proof fn lemma_merge_begins(left: Seq<CourseView>, right: Seq<CourseView>)
    requires
        ascending(left),
        ascending(right),
    ensures
        merging(Seq::empty(), left, right, 0, 0),
{
    broadcast use vstd::seq_lib::group_to_multiset_ensures;

    let nothing = Seq::<CourseView>::empty();
    assert(left.take(0) =~= nothing);
    assert(right.take(0) =~= nothing);
    assert(nothing.to_multiset().len() == 0);
    assert(nothing.to_multiset() =~= nothing.to_multiset().add(nothing.to_multiset()));
    assert forall|key: Seq<char>| #[trigger]
        with_key(nothing, key) == with_key(left.take(0), key) + with_key(right.take(0), key) by {
        lemma_with_key_absent(nothing, key);
        assert(nothing + nothing =~= nothing);
    }
}

/// A merge may go on with the next record of `left` where `right` is used
/// up or its next record comes no earlier.
proof fn lemma_merge_takes_left(
    out: Seq<CourseView>,
    left: Seq<CourseView>,
    right: Seq<CourseView>,
    i: int,
    j: int,
)
    requires
        merging(out, left, right, i, j),
        i < left.len(),
        j < right.len() ==> lex_le(left[i].course_number, right[j].course_number),
    ensures
        merging(out.push(left[i]), left, right, i + 1, j),
{
    broadcast use vstd::seq_lib::group_to_multiset_ensures;

    let x = left[i];
    let next = out.push(x);
    assert(ascending(next)) by {
        assert forall|p: int, q: int| 0 <= p <= q < next.len() implies lex_le(
            next[p].course_number,
            next[q].course_number,
        ) by {
            if q < out.len() {
                assert(lex_le(out[p].course_number, out[q].course_number));
            } else if p < out.len() {
                assert(lex_le(out[p].course_number, left[i].course_number));
            } else {
                crate::text::lemma_lex_le_reflexive(x.course_number);
            }
        }
    }
    assert forall|p: int, q: int| 0 <= p < next.len() && i + 1 <= q < left.len() implies lex_le(
        next[p].course_number,
        left[q].course_number,
    ) by {
        if p < out.len() {
            assert(lex_le(out[p].course_number, left[q].course_number));
        } else {
            assert(lex_le(left[i].course_number, left[q].course_number));
        }
    }
    assert forall|p: int, q: int| 0 <= p < next.len() && j <= q < right.len() implies lex_le(
        next[p].course_number,
        right[q].course_number,
    ) by {
        if p < out.len() {
            assert(lex_le(out[p].course_number, right[q].course_number));
        } else {
            assert(lex_le(right[j].course_number, right[q].course_number));
            lemma_lex_le_transitive(
                x.course_number,
                right[j].course_number,
                right[q].course_number,
            );
        }
    }
    left.lemma_take_succ_push(i);
    assert(left.take(i + 1) == left.take(i).push(x));
    assert(next.to_multiset() =~= left.take(i + 1).to_multiset().add(
        right.take(j).to_multiset(),
    ));
    assert forall|key: Seq<char>| #[trigger]
        with_key(next, key) == with_key(left.take(i + 1), key) + with_key(
            right.take(j),
            key,
        ) by {
        out.lemma_filter_push(x, has_key(key));
        left.take(i).lemma_filter_push(x, has_key(key));
        assert(with_key(out, key) == with_key(left.take(i), key) + with_key(right.take(j), key));
        if x.course_number == key {
            assert forall|p: int| 0 <= p < right.take(j).len() implies (#[trigger] right.take(
                j,
            )[p]).course_number != key by {
                assert(right[p].course_number != left[i].course_number);
            }
            lemma_with_key_absent(right.take(j), key);
            assert(with_key(next, key) =~= with_key(left.take(i + 1), key) + with_key(
                right.take(j),
                key,
            ));
        }
    }
}

/// A merge may go on with the next record of `right` where `left` is used
/// up or its next record comes strictly later.
proof fn lemma_merge_takes_right(
    out: Seq<CourseView>,
    left: Seq<CourseView>,
    right: Seq<CourseView>,
    i: int,
    j: int,
)
    requires
        merging(out, left, right, i, j),
        j < right.len(),
        i < left.len() ==> text_order(left[i].course_number, right[j].course_number)
            == TextOrder::After,
    ensures
        merging(out.push(right[j]), left, right, i, j + 1),
{
    broadcast use vstd::seq_lib::group_to_multiset_ensures;

    let y = right[j];
    let next = out.push(y);
    if i < left.len() {
        lemma_order_flips(right[j].course_number, left[i].course_number);
    }
    assert(ascending(next)) by {
        assert forall|p: int, q: int| 0 <= p <= q < next.len() implies lex_le(
            next[p].course_number,
            next[q].course_number,
        ) by {
            if q < out.len() {
                assert(lex_le(out[p].course_number, out[q].course_number));
            } else if p < out.len() {
                assert(lex_le(out[p].course_number, right[j].course_number));
            } else {
                crate::text::lemma_lex_le_reflexive(y.course_number);
            }
        }
    }
    assert forall|p: int, q: int| 0 <= p < next.len() && i <= q < left.len() implies lex_le(
        next[p].course_number,
        left[q].course_number,
    ) by {
        if p < out.len() {
            assert(lex_le(out[p].course_number, left[q].course_number));
        } else {
            assert(lex_le(left[i].course_number, left[q].course_number));
            lemma_lex_le_transitive(y.course_number, left[i].course_number, left[q].course_number);
        }
    }
    assert forall|p: int, q: int| 0 <= p < next.len() && j + 1 <= q < right.len() implies lex_le(
        next[p].course_number,
        right[q].course_number,
    ) by {
        if p < out.len() {
            assert(lex_le(out[p].course_number, right[q].course_number));
        } else {
            assert(lex_le(right[j].course_number, right[q].course_number));
        }
    }
    assert forall|p: int, q: int| 0 <= p < j + 1 && i <= q < left.len() implies right[p].course_number
        != left[q].course_number by {
        if p < j {
            assert(right[p].course_number != left[q].course_number);
        } else if right[j].course_number == left[q].course_number {
            assert(lex_le(left[i].course_number, left[q].course_number));
        }
    }
    right.lemma_take_succ_push(j);
    assert(right.take(j + 1) == right.take(j).push(y));
    assert(next.to_multiset() =~= left.take(i).to_multiset().add(
        right.take(j + 1).to_multiset(),
    ));
    assert forall|key: Seq<char>| #[trigger]
        with_key(next, key) == with_key(left.take(i), key) + with_key(
            right.take(j + 1),
            key,
        ) by {
        out.lemma_filter_push(y, has_key(key));
        right.take(j).lemma_filter_push(y, has_key(key));
        assert(with_key(out, key) == with_key(left.take(i), key) + with_key(right.take(j), key));
        assert(with_key(next, key) =~= with_key(left.take(i), key) + with_key(
            right.take(j + 1),
            key,
        ));
    }
}

/// A merge that has used up both sides has sorted the two together.
proof fn lemma_merge_is_done(out: Seq<CourseView>, left: Seq<CourseView>, right: Seq<CourseView>)
    requires
        merging(out, left, right, left.len() as int, right.len() as int),
    ensures
        is_listing_of(out, left + right),
{
    assert(left.take(left.len() as int) =~= left);
    assert(right.take(right.len() as int) =~= right);
    vstd::seq_lib::lemma_multiset_commutative(left, right);
    assert forall|key: Seq<char>| #[trigger] with_key(out, key) == with_key(left + right, key) by {
        Seq::filter_distributes_over_add(left, right, has_key(key));
        assert(with_key(out, key) == with_key(left.take(left.len() as int), key) + with_key(
            right.take(right.len() as int),
            key,
        ));
    }
}

/// Sorting two halves and sorting what that gives sorts the whole.
proof fn lemma_listing_of_halves(
    out: Seq<CourseView>,
    left: Seq<CourseView>,
    right: Seq<CourseView>,
    first: Seq<CourseView>,
    second: Seq<CourseView>,
)
    requires
        is_listing_of(left, first),
        is_listing_of(right, second),
        is_listing_of(out, left + right),
    ensures
        is_listing_of(out, first + second),
{
    vstd::seq_lib::lemma_multiset_commutative(left, right);
    vstd::seq_lib::lemma_multiset_commutative(first, second);
    assert forall|key: Seq<char>| #[trigger]
        with_key(out, key) == with_key(first + second, key) by {
        Seq::filter_distributes_over_add(left, right, has_key(key));
        Seq::filter_distributes_over_add(first, second, has_key(key));
        assert(with_key(out, key) == with_key(left + right, key));
        assert(with_key(left, key) == with_key(first, key));
        assert(with_key(right, key) == with_key(second, key));
    }
}

/// Merges two ascending runs into one. Where a record of `left` and one of
/// `right` share a number, the one of `left` goes first.
fn merge<'a>(left: &Vec<&'a Course>, right: &Vec<&'a Course>) -> (out: Vec<&'a Course>)
    requires
        ascending(views_of(left@)),
        ascending(views_of(right@)),
    ensures
        is_listing_of(views_of(out@), views_of(left@) + views_of(right@)),
{
    let mut out: Vec<&'a Course> = Vec::new();
    let mut i: usize = 0;
    let mut j: usize = 0;
    proof {
        assert(views_of(out@) =~= Seq::empty());
        lemma_merge_begins(views_of(left@), views_of(right@));
    }
    while i < left.len() || j < right.len()
        invariant
            merging(views_of(out@), views_of(left@), views_of(right@), i as int, j as int),
        decreases (left.len() - i) + (right.len() - j),
    {
        let ghost before = views_of(out@);
        let from_left = if j >= right.len() {
            true
        } else if i >= left.len() {
            false
        } else {
            match order_texts(
                left[i].course_number.as_str(),
                right[j].course_number.as_str(),
            ) {
                TextOrder::After => false,
                _ => true,
            }
        };
        if from_left {
            proof {
                lemma_merge_takes_left(
                    before,
                    views_of(left@),
                    views_of(right@),
                    i as int,
                    j as int,
                );
            }
            out.push(left[i]);
            i += 1;
        } else {
            proof {
                lemma_merge_takes_right(
                    before,
                    views_of(left@),
                    views_of(right@),
                    i as int,
                    j as int,
                );
            }
            out.push(right[j]);
            j += 1;
        }
        assert(views_of(out@) =~= before.push(views_of(out@).last()));
    }
    proof {
        lemma_merge_is_done(views_of(out@), views_of(left@), views_of(right@));
    }
    out
}

/// Sorts the courses from position `from` up to `to` by merge sort.
fn sort_range<'a>(courses: &Vec<&'a Course>, from: usize, to: usize) -> (out: Vec<&'a Course>)
    requires
        from <= to <= courses.len(),
    ensures
        is_listing_of(views_of(out@), views_of(courses@).subrange(from as int, to as int)),
    decreases to - from,
{
    let ghost range = views_of(courses@).subrange(from as int, to as int);
    if to - from <= 1 {
        let mut out: Vec<&'a Course> = Vec::new();
        if to - from == 1 {
            out.push(courses[from]);
        }
        proof {
            assert(views_of(out@) =~= range);
            if range.len() == 1 {
                crate::text::lemma_lex_le_reflexive(range[0].course_number);
            }
        }
        out
    } else {
        let middle = from + (to - from) / 2;
        let left = sort_range(courses, from, middle);
        let right = sort_range(courses, middle, to);
        let out = merge(&left, &right);
        proof {
            let first = views_of(courses@).subrange(from as int, middle as int);
            let second = views_of(courses@).subrange(middle as int, to as int);
            assert(first + second =~= range);
            lemma_listing_of_halves(
                views_of(out@),
                views_of(left@),
                views_of(right@),
                first,
                second,
            );
        }
        out
    }
}

/// Sorts `courses` by course number, ascending in lexicographic order.
/// Courses that share a number keep the order in which they stand.
pub fn sort_by_number<'a>(courses: &Vec<&'a Course>) -> (out: Vec<&'a Course>)
    ensures
        is_listing_of(views_of(out@), views_of(courses@)),
        out@.len() == courses@.len(),
{
    let out = sort_range(courses, 0, courses.len());
    proof {
        broadcast use vstd::seq_lib::group_to_multiset_ensures;

        assert(views_of(courses@).subrange(0, courses@.len() as int) =~= views_of(courses@));
        assert(views_of(out@).len() == views_of(out@).to_multiset().len());
        assert(views_of(courses@).len() == views_of(courses@).to_multiset().len());
    }
    out
}

} // verus!
