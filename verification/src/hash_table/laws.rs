//! What holds of every index, whatever was inserted and in whatever order.

use super::course::CourseView;
use super::listing::ascending;
use super::listing::has_key;
use super::listing::is_listing_of;
use super::listing::lemma_with_key_absent;
use super::listing::with_key;
use super::model::after_inserts;
use super::model::empty_buckets;
use super::model::first_with_key;
use super::model::found;
use super::model::inserted;
use super::model::records;
use super::model::well_hashed;
use crate::text::bucket_of;
use crate::text::code_point_sum;
use crate::text::lemma_lex_le_antisymmetric;
use crate::text::lex_le;
use vstd::prelude::*;

verus! {

/// A sequence of buckets, flattened, is what lies before bucket `at`, then
/// that bucket, then what lies behind it.
pub proof fn lemma_records_split(buckets: Seq<Seq<CourseView>>, at: int)
    requires
        0 <= at < buckets.len(),
    ensures
        records(buckets) == records(buckets.take(at)) + buckets[at] + records(
            buckets.skip(at + 1),
        ),
{
    let before = buckets.take(at);
    let behind = buckets.skip(at + 1);
    assert(buckets =~= before + seq![buckets[at]] + behind);
    vstd::seq_lib::lemma_flatten_concat(before + seq![buckets[at]], behind);
    vstd::seq_lib::lemma_flatten_concat(before, seq![buckets[at]]);
    seq![buckets[at]].lemma_flatten_singleton();
}

/// Every record of the flattened buckets lies in one of the buckets.
pub proof fn lemma_record_has_a_bucket(buckets: Seq<Seq<CourseView>>, at: int) -> (place: (
    int,
    int,
))
    requires
        0 <= at < records(buckets).len(),
    ensures
        0 <= place.0 < buckets.len(),
        0 <= place.1 < buckets[place.0].len(),
        buckets[place.0][place.1] == records(buckets)[at],
    decreases buckets.len(),
{
    if at < buckets.first().len() {
        (0, at)
    } else {
        let rest = buckets.drop_first();
        let place = lemma_record_has_a_bucket(rest, at - buckets.first().len());
        (place.0 + 1, place.1)
    }
}

/// Every record of a bucket is a record of the flattened buckets.
pub proof fn lemma_bucket_record_is_a_record(buckets: Seq<Seq<CourseView>>, i: int, j: int) -> (at:
    int)
    requires
        0 <= i < buckets.len(),
        0 <= j < buckets[i].len(),
    ensures
        0 <= at < records(buckets).len(),
        records(buckets)[at] == buckets[i][j],
{
    lemma_records_split(buckets, i);
    records(buckets.take(i)).len() + j
}

/// What `first_with_key` gives, said directly: nothing exactly when no
/// record has the number, and otherwise the record that has it and stands
/// before every other that has it.
pub proof fn lemma_first_with_key_is_first(courses: Seq<CourseView>, key: Seq<char>)
    ensures
        first_with_key(courses, key) is None <==> forall|i: int|
            0 <= i < courses.len() ==> (#[trigger] courses[i]).course_number != key,
        first_with_key(courses, key) matches Some(course) ==> exists|i: int|
            {
                &&& 0 <= i < courses.len()
                &&& #[trigger] courses[i] == course
                &&& course.course_number == key
                &&& forall|j: int| 0 <= j < i ==> (#[trigger] courses[j]).course_number != key
            },
    decreases courses.len(),
{
    if courses.len() > 0 {
        let rest = courses.drop_first();
        lemma_first_with_key_is_first(rest, key);
        if courses[0].course_number == key {
            assert(courses[0] == first_with_key(courses, key)->0);
        } else {
            assert forall|i: int| 0 <= i < rest.len() implies rest[i] == courses[i + 1] by {}
            if first_with_key(rest, key) is None {
                assert forall|i: int| 0 <= i < courses.len() implies (
                #[trigger] courses[i]).course_number != key by {
                    if i > 0 {
                        assert(rest[i - 1].course_number != key);
                    }
                }
            } else {
                let course = first_with_key(rest, key)->0;
                let i = choose|i: int|
                    {
                        &&& 0 <= i < rest.len()
                        &&& #[trigger] rest[i] == course
                        &&& course.course_number == key
                        &&& forall|j: int|
                            0 <= j < i ==> (#[trigger] rest[j]).course_number != key
                    };
                assert(courses[i + 1] == course);
                assert forall|j: int| 0 <= j < i + 1 implies (
                #[trigger] courses[j]).course_number != key by {
                    if j > 0 {
                        assert(rest[j - 1].course_number != key);
                    }
                }
                assert(courses[i + 1].course_number == key);
            }
        }
    }
}

/// The first record with a number in two sequences joined is the first in
/// the front one, or, where that has none, the first in the back one.
pub proof fn lemma_first_with_key_of_joined(
    front: Seq<CourseView>,
    back: Seq<CourseView>,
    key: Seq<char>,
)
    ensures
        first_with_key(front + back, key) == if first_with_key(front, key) is Some {
            first_with_key(front, key)
        } else {
            first_with_key(back, key)
        },
    decreases front.len(),
{
    if front.len() == 0 {
        assert(front + back =~= back);
    } else {
        assert((front + back).drop_first() =~= front.drop_first() + back);
        lemma_first_with_key_of_joined(front.drop_first(), back, key);
    }
}

/// Empty buckets are well hashed and hold no record.
pub proof fn lemma_empty_buckets(size: nat)
    requires
        size >= 1,
    ensures
        well_hashed(empty_buckets(size)),
        records(empty_buckets(size)) == Seq::<CourseView>::empty(),
        forall|key: Seq<char>| found(empty_buckets(size), key) is None,
    decreases size,
{
    let buckets = empty_buckets(size);
    if records(buckets).len() > 0 {
        let place = lemma_record_has_a_bucket(buckets, 0);
    }
    assert(records(buckets) =~= Seq::<CourseView>::empty());
    assert forall|key: Seq<char>| found(buckets, key) is None by {
        vstd::arithmetic::div_mod::lemma_mod_bound(code_point_sum(key) as int, size as int);
    }
}

/// An insertion keeps the buckets well hashed.
pub proof fn lemma_inserted_is_well_hashed(buckets: Seq<Seq<CourseView>>, course: CourseView)
    requires
        well_hashed(buckets),
    ensures
        well_hashed(inserted(buckets, course)),
        inserted(buckets, course).len() == buckets.len(),
{
    vstd::arithmetic::div_mod::lemma_mod_bound(
        code_point_sum(course.course_number) as int,
        buckets.len() as int,
    );
    let after = inserted(buckets, course);
    let b = bucket_of(course.course_number, buckets.len()) as int;
    assert forall|i: int, j: int| 0 <= i < after.len() && 0 <= j < after[i].len() implies bucket_of(
        #[trigger] after[i][j].course_number,
        after.len(),
    ) == i by {
        if i == b && j == buckets[b].len() {
        } else {
            assert(after[i][j] == buckets[i][j]);
        }
    }
}

/// An insertion adds one record, the one inserted, and drops none: no
/// record is lost and none is merged with another of the same number.
pub proof fn lemma_inserted_adds_one_record(buckets: Seq<Seq<CourseView>>, course: CourseView)
    requires
        buckets.len() >= 1,
    ensures
        records(inserted(buckets, course)).to_multiset() == records(
            buckets,
        ).to_multiset().insert(course),
        records(inserted(buckets, course)).len() == records(buckets).len() + 1,
{
    broadcast use vstd::seq_lib::group_to_multiset_ensures;

    vstd::arithmetic::div_mod::lemma_mod_bound(
        code_point_sum(course.course_number) as int,
        buckets.len() as int,
    );
    let b = bucket_of(course.course_number, buckets.len()) as int;
    let after = inserted(buckets, course);
    lemma_records_split(buckets, b);
    lemma_records_split(after, b);
    assert(after.take(b) =~= buckets.take(b));
    assert(after.skip(b + 1) =~= buckets.skip(b + 1));
    let before = records(buckets.take(b));
    let behind = records(buckets.skip(b + 1));
    vstd::seq_lib::lemma_multiset_commutative(before + buckets[b], behind);
    vstd::seq_lib::lemma_multiset_commutative(before, buckets[b]);
    vstd::seq_lib::lemma_multiset_commutative(before + after[b], behind);
    vstd::seq_lib::lemma_multiset_commutative(before, after[b]);
    assert(after[b].to_multiset() =~= buckets[b].to_multiset().insert(course));
    assert(records(after).to_multiset() =~= records(buckets).to_multiset().insert(course));
}

/// What a search finds after an insertion: what it found before, or, where
/// it found nothing, the record inserted if that has the number looked for.
/// Records in the same bucket do not hide one another.
pub proof fn lemma_found_after_insert(
    buckets: Seq<Seq<CourseView>>,
    course: CourseView,
    key: Seq<char>,
)
    requires
        buckets.len() >= 1,
    ensures
        found(inserted(buckets, course), key) == if found(buckets, key) is Some {
            found(buckets, key)
        } else if course.course_number == key {
            Some(course)
        } else {
            None
        },
{
    let size = buckets.len();
    vstd::arithmetic::div_mod::lemma_mod_bound(
        code_point_sum(course.course_number) as int,
        size as int,
    );
    vstd::arithmetic::div_mod::lemma_mod_bound(code_point_sum(key) as int, size as int);
    let b = bucket_of(course.course_number, size) as int;
    let k = bucket_of(key, size) as int;
    if b == k {
        let chain = buckets[b];
        assert(chain.push(course) =~= chain + seq![course]);
        lemma_first_with_key_of_joined(chain, seq![course], key);
        assert(seq![course].drop_first() =~= Seq::<CourseView>::empty());
        assert(first_with_key(Seq::<CourseView>::empty(), key) is None);
    }
}

/// A record that is inserted under a number that no earlier record of its
/// bucket has is found again by that number, exactly as it went in.
pub proof fn lemma_insert_then_search(buckets: Seq<Seq<CourseView>>, course: CourseView)
    requires
        buckets.len() >= 1,
        found(buckets, course.course_number) is None,
    ensures
        found(inserted(buckets, course), course.course_number) == Some(course),
{
    lemma_found_after_insert(buckets, course, course.course_number);
}

/// In well-hashed buckets a search, which looks into one bucket only, finds
/// the first record of the whole index that has the number.
pub proof fn lemma_found_is_first_record(buckets: Seq<Seq<CourseView>>, key: Seq<char>)
    requires
        well_hashed(buckets),
    ensures
        found(buckets, key) == first_with_key(records(buckets), key),
        found(buckets, key) is None <==> forall|i: int|
            0 <= i < records(buckets).len() ==> (#[trigger] records(buckets)[i]).course_number
                != key,
{
    let size = buckets.len();
    vstd::arithmetic::div_mod::lemma_mod_bound(code_point_sum(key) as int, size as int);
    let k = bucket_of(key, size) as int;
    let before = records(buckets.take(k));
    let behind = records(buckets.skip(k + 1));
    lemma_records_split(buckets, k);
    assert forall|i: int| 0 <= i < before.len() implies (#[trigger] before[i]).course_number
        != key by {
        let place = lemma_record_has_a_bucket(buckets.take(k), i);
        assert(buckets[place.0][place.1] == before[i]);
    }
    assert forall|i: int| 0 <= i < behind.len() implies (#[trigger] behind[i]).course_number
        != key by {
        let place = lemma_record_has_a_bucket(buckets.skip(k + 1), i);
        assert(buckets[place.0 + k + 1][place.1] == behind[i]);
    }
    lemma_first_with_key_is_first(before, key);
    lemma_first_with_key_is_first(behind, key);
    lemma_first_with_key_of_joined(before + buckets[k], behind, key);
    lemma_first_with_key_of_joined(before, buckets[k], key);
    lemma_first_with_key_is_first(records(buckets), key);
}

/// A search for a number that no record of the index has finds nothing.
pub proof fn lemma_absent_key_is_not_found(buckets: Seq<Seq<CourseView>>, key: Seq<char>)
    requires
        buckets.len() >= 1,
        forall|i: int|
            0 <= i < records(buckets).len() ==> (#[trigger] records(buckets)[i]).course_number
                != key,
    ensures
        found(buckets, key) is None,
{
    let size = buckets.len();
    vstd::arithmetic::div_mod::lemma_mod_bound(code_point_sum(key) as int, size as int);
    let k = bucket_of(key, size) as int;
    lemma_first_with_key_is_first(buckets[k], key);
    assert forall|j: int| 0 <= j < buckets[k].len() implies (#[trigger] buckets[k][j]).course_number
        != key by {
        let at = lemma_bucket_record_is_a_record(buckets, k, j);
        assert(records(buckets)[at].course_number != key);
    }
}

/// After any sequence of insertions into empty buckets the index is well
/// hashed and holds exactly the records inserted, each as often as it was
/// inserted: as many records as there were insertions.
pub proof fn lemma_after_inserts_holds_all(size: nat, courses: Seq<CourseView>)
    requires
        size >= 1,
    ensures
        well_hashed(after_inserts(size, courses)),
        after_inserts(size, courses).len() == size,
        records(after_inserts(size, courses)).to_multiset() == courses.to_multiset(),
        records(after_inserts(size, courses)).len() == courses.len(),
    decreases courses.len(),
{
    broadcast use vstd::seq_lib::group_to_multiset_ensures;

    if courses.len() == 0 {
        lemma_empty_buckets(size);
        assert(courses =~= Seq::<CourseView>::empty());
    } else {
        let front = courses.drop_last();
        lemma_after_inserts_holds_all(size, front);
        lemma_inserted_is_well_hashed(after_inserts(size, front), courses.last());
        lemma_inserted_adds_one_record(after_inserts(size, front), courses.last());
        assert(front.push(courses.last()) =~= courses);
    }
}

/// After any sequence of insertions into empty buckets, a search by a
/// number finds the first record that was inserted under it, and finds
/// nothing exactly when no record was inserted under it.
pub proof fn lemma_search_finds_first_inserted(
    size: nat,
    courses: Seq<CourseView>,
    key: Seq<char>,
)
    requires
        size >= 1,
    ensures
        found(after_inserts(size, courses), key) == first_with_key(courses, key),
        found(after_inserts(size, courses), key) is None <==> forall|i: int|
            0 <= i < courses.len() ==> (#[trigger] courses[i]).course_number != key,
    decreases courses.len(),
{
    if courses.len() == 0 {
        lemma_empty_buckets(size);
    } else {
        let front = courses.drop_last();
        let last = courses.last();
        lemma_search_finds_first_inserted(size, front, key);
        lemma_after_inserts_holds_all(size, front);
        lemma_found_after_insert(after_inserts(size, front), last, key);
        assert(front + seq![last] =~= courses);
        lemma_first_with_key_of_joined(front, seq![last], key);
        assert(seq![last].drop_first() =~= Seq::<CourseView>::empty());
        assert(first_with_key(Seq::<CourseView>::empty(), key) is None);
    }
    lemma_first_with_key_is_first(courses, key);
}

/// A record that was inserted, and before which no record of the same
/// number was inserted, is what a search by its number returns.
pub proof fn lemma_inserted_record_is_found(size: nat, courses: Seq<CourseView>, at: int)
    requires
        size >= 1,
        0 <= at < courses.len(),
        forall|j: int|
            0 <= j < at ==> (#[trigger] courses[j]).course_number != courses[at].course_number,
    ensures
        found(after_inserts(size, courses), courses[at].course_number) == Some(courses[at]),
{
    let key = courses[at].course_number;
    lemma_search_finds_first_inserted(size, courses, key);
    lemma_first_with_key_is_first(courses, key);
    let got = first_with_key(courses, key);
    assert(got is Some);
    let i = choose|i: int|
        {
            &&& 0 <= i < courses.len()
            &&& #[trigger] courses[i] == got->0
            &&& (got->0).course_number == key
            &&& forall|j: int| 0 <= j < i ==> (#[trigger] courses[j]).course_number != key
        };
    if i < at {
        assert(courses[i].course_number != key);
    } else if at < i {
        assert(courses[at].course_number != key);
    }
}

/// Taking one character out of a text takes its code point out of the sum.
pub proof fn lemma_sum_without(text: Seq<char>, at: int)
    requires
        0 <= at < text.len(),
    ensures
        code_point_sum(text) == code_point_sum(text.remove(at)) + (text[at] as u32 as nat),
    decreases text.len(),
{
    if at == text.len() - 1 {
        assert(text.remove(at) =~= text.drop_last());
    } else {
        lemma_sum_without(text.drop_last(), at);
        assert(text.remove(at).drop_last() =~= text.drop_last().remove(at));
    }
}

/// Two texts made of the same characters, each as often in one as in the
/// other, have the same sum of code points.
pub proof fn lemma_anagrams_sum_alike(a: Seq<char>, b: Seq<char>)
    requires
        a.to_multiset() == b.to_multiset(),
    ensures
        code_point_sum(a) == code_point_sum(b),
    decreases a.len(),
{
    broadcast use vstd::seq_lib::group_to_multiset_ensures;

    if a.len() == 0 {
        assert(b.len() == b.to_multiset().len());
        assert(a.len() == a.to_multiset().len());
    } else {
        let x = a.last();
        let front = a.drop_last();
        assert(front.push(x) =~= a);
        assert(a.to_multiset().count(x) > 0);
        assert(b.contains(x));
        let at = choose|at: int| 0 <= at < b.len() && b[at] == x;
        let rest = b.remove(at);
        assert(rest.to_multiset() =~= front.to_multiset()) by {
            assert(rest.to_multiset() == b.to_multiset().remove(x));
            assert(a.to_multiset() =~= front.to_multiset().insert(x));
        }
        lemma_anagrams_sum_alike(front, rest);
        lemma_sum_without(b, at);
    }
}

/// Two course numbers made of the same characters, each as often in one as
/// in the other, fall into the same bucket, whatever the number of buckets.
pub proof fn lemma_anagrams_share_a_bucket(a: Seq<char>, b: Seq<char>, size: nat)
    requires
        a.to_multiset() == b.to_multiset(),
    ensures
        bucket_of(a, size) == bucket_of(b, size),
{
    lemma_anagrams_sum_alike(a, b);
}

/// Two records whose numbers differ, inserted one after the other into an
/// index that holds neither number, are both found again, each by its own
/// number, also where the two numbers fall into one bucket.
pub proof fn lemma_colliding_records_are_both_found(
    buckets: Seq<Seq<CourseView>>,
    first: CourseView,
    second: CourseView,
)
    requires
        buckets.len() >= 1,
        first.course_number != second.course_number,
        found(buckets, first.course_number) is None,
        found(buckets, second.course_number) is None,
    ensures
        found(inserted(inserted(buckets, first), second), first.course_number) == Some(first),
        found(inserted(inserted(buckets, first), second), second.course_number) == Some(second),
{
    vstd::arithmetic::div_mod::lemma_mod_bound(
        code_point_sum(first.course_number) as int,
        buckets.len() as int,
    );
    let once = inserted(buckets, first);
    lemma_found_after_insert(buckets, first, first.course_number);
    lemma_found_after_insert(buckets, first, second.course_number);
    lemma_found_after_insert(once, second, first.course_number);
    lemma_found_after_insert(once, second, second.course_number);
}

/// The empty text comes first of all texts and falls into bucket 0.
pub proof fn lemma_empty_key(size: nat, other: Seq<char>)
    requires
        size >= 1,
    ensures
        bucket_of(Seq::<char>::empty(), size) == 0,
        lex_le(Seq::<char>::empty(), other),
{
    vstd::arithmetic::div_mod::lemma_small_mod(0, size);
}

/// A listing holds as many records as the sequence it lists.
pub proof fn lemma_listing_keeps_every_record(listing: Seq<CourseView>, courses: Seq<CourseView>)
    requires
        is_listing_of(listing, courses),
    ensures
        listing.len() == courses.len(),
        forall|i: int| 0 <= i < courses.len() ==> listing.contains(#[trigger] courses[i]),
        forall|i: int| 0 <= i < listing.len() ==> courses.contains(#[trigger] listing[i]),
{
    broadcast use vstd::seq_lib::group_to_multiset_ensures;

    assert(listing.len() == listing.to_multiset().len());
    assert(courses.len() == courses.to_multiset().len());
    assert forall|i: int| 0 <= i < courses.len() implies listing.contains(
        #[trigger] courses[i],
    ) by {
        assert(courses.contains(courses[i]));
        assert(courses.to_multiset().count(courses[i]) > 0);
    }
    assert forall|i: int| 0 <= i < listing.len() implies courses.contains(
        #[trigger] listing[i],
    ) by {
        assert(listing.contains(listing[i]));
        assert(listing.to_multiset().count(listing[i]) > 0);
    }
}

/// Two ascending sequences that pick out the same records for every number
/// are the same sequence.
pub proof fn lemma_ascending_is_unique(a: Seq<CourseView>, b: Seq<CourseView>)
    requires
        ascending(a),
        ascending(b),
        forall|key: Seq<char>| #[trigger] with_key(a, key) == with_key(b, key),
    ensures
        a == b,
    decreases a.len() + b.len(),
{
    if a.len() == 0 || b.len() == 0 {
        if a.len() > 0 {
            lemma_last_is_picked(a);
            lemma_nothing_is_picked_of_nothing(b, a.last().course_number);
        }
        if b.len() > 0 {
            lemma_last_is_picked(b);
            lemma_nothing_is_picked_of_nothing(a, b.last().course_number);
        }
        assert(a =~= b);
    } else {
        let ka = a.last().course_number;
        let kb = b.last().course_number;
        lemma_last_is_picked(a);
        lemma_last_is_picked(b);
        // Each last number occurs in the other sequence, which ends no lower.
        lemma_picked_is_present(b, ka);
        lemma_picked_is_present(a, kb);
        let i = choose|i: int| 0 <= i < b.len() && (#[trigger] b[i]).course_number == ka;
        let j = choose|j: int| 0 <= j < a.len() && (#[trigger] a[j]).course_number == kb;
        assert(lex_le(b[i].course_number, b[b.len() - 1].course_number));
        assert(lex_le(a[j].course_number, a[a.len() - 1].course_number));
        lemma_lex_le_antisymmetric(ka, kb);
        assert(a.last() == b.last()) by {
            assert(with_key(a, ka) == with_key(b, ka));
        }
        let fa = a.drop_last();
        let fb = b.drop_last();
        assert forall|key: Seq<char>| #[trigger] with_key(fa, key) == with_key(fb, key) by {
            fa.lemma_filter_push(a.last(), has_key(key));
            fb.lemma_filter_push(b.last(), has_key(key));
            assert(fa.push(a.last()) =~= a);
            assert(fb.push(b.last()) =~= b);
            assert(with_key(a, key) == with_key(b, key));
            if key == ka {
                assert(with_key(fa, key) =~= with_key(a, key).drop_last());
                assert(with_key(fb, key) =~= with_key(b, key).drop_last());
            }
        }
        assert(ascending(fa)) by {
            assert forall|p: int, q: int| 0 <= p <= q < fa.len() implies lex_le(
                fa[p].course_number,
                fa[q].course_number,
            ) by {
                assert(lex_le(a[p].course_number, a[q].course_number));
            }
        }
        assert(ascending(fb)) by {
            assert forall|p: int, q: int| 0 <= p <= q < fb.len() implies lex_le(
                fb[p].course_number,
                fb[q].course_number,
            ) by {
                assert(lex_le(b[p].course_number, b[q].course_number));
            }
        }
        lemma_ascending_is_unique(fa, fb);
        assert(a =~= fa.push(a.last()));
        assert(b =~= fb.push(b.last()));
    }
}

/// The last record of a sequence is the last of those picked out for its
/// number.
proof fn lemma_last_is_picked(courses: Seq<CourseView>)
    requires
        courses.len() > 0,
    ensures
        with_key(courses, courses.last().course_number).len() > 0,
        with_key(courses, courses.last().course_number).last() == courses.last(),
{
    courses.drop_last().lemma_filter_push(
        courses.last(),
        has_key(courses.last().course_number),
    );
    assert(courses.drop_last().push(courses.last()) =~= courses);
}

/// Nothing is picked out of an empty sequence.
proof fn lemma_nothing_is_picked_of_nothing(courses: Seq<CourseView>, key: Seq<char>)
    requires
        courses.len() == 0,
    ensures
        with_key(courses, key).len() == 0,
{
    courses.lemma_filter_len(has_key(key));
}

/// Where records are picked out for a number, a record has that number.
proof fn lemma_picked_is_present(courses: Seq<CourseView>, key: Seq<char>)
    requires
        with_key(courses, key).len() > 0,
    ensures
        exists|i: int| 0 <= i < courses.len() && (#[trigger] courses[i]).course_number == key,
{
    let picked = with_key(courses, key);
    courses.lemma_filter_pred(has_key(key), 0);
    assert(picked.contains(picked[0]));
    courses.lemma_filter_contains_rev(has_key(key), picked[0]);
    let i = choose|i: int| 0 <= i < courses.len() && courses[i] == picked[0];
    assert(courses[i].course_number == key);
}

/// A sequence of records has one listing only: the contract of the listing
/// leaves nothing open, not even the order of records that share a number.
pub proof fn lemma_listing_is_unique(
    one: Seq<CourseView>,
    other: Seq<CourseView>,
    courses: Seq<CourseView>,
)
    requires
        is_listing_of(one, courses),
        is_listing_of(other, courses),
    ensures
        one == other,
{
    assert forall|key: Seq<char>| #[trigger] with_key(one, key) == with_key(other, key) by {
        assert(with_key(one, key) == with_key(courses, key));
        assert(with_key(other, key) == with_key(courses, key));
    }
    lemma_ascending_is_unique(one, other);
}

/// In well-hashed buckets an insertion puts the record behind every record
/// of its number: the records of any one number stand in the index in the
/// order in which they were inserted.
pub proof fn lemma_inserted_keeps_order(
    buckets: Seq<Seq<CourseView>>,
    course: CourseView,
    key: Seq<char>,
)
    requires
        well_hashed(buckets),
    ensures
        with_key(records(inserted(buckets, course)), key) == if course.course_number == key {
            with_key(records(buckets), key).push(course)
        } else {
            with_key(records(buckets), key)
        },
{
    let size = buckets.len();
    vstd::arithmetic::div_mod::lemma_mod_bound(
        code_point_sum(course.course_number) as int,
        size as int,
    );
    let b = bucket_of(course.course_number, size) as int;
    let after = inserted(buckets, course);
    lemma_records_split(buckets, b);
    lemma_records_split(after, b);
    assert(after.take(b) =~= buckets.take(b));
    assert(after.skip(b + 1) =~= buckets.skip(b + 1));
    let before = records(buckets.take(b));
    let behind = records(buckets.skip(b + 1));
    let picks = has_key(key);
    Seq::filter_distributes_over_add(before + buckets[b], behind, picks);
    Seq::filter_distributes_over_add(before, buckets[b], picks);
    Seq::filter_distributes_over_add(before + after[b], behind, picks);
    Seq::filter_distributes_over_add(before, after[b], picks);
    buckets[b].lemma_filter_push(course, picks);
    if course.course_number == key {
        assert forall|i: int| 0 <= i < behind.len() implies (#[trigger] behind[i]).course_number
            != key by {
            let place = lemma_record_has_a_bucket(buckets.skip(b + 1), i);
            assert(buckets[place.0 + b + 1][place.1] == behind[i]);
        }
        lemma_with_key_absent(behind, key);
        assert(with_key(records(after), key) =~= with_key(records(buckets), key).push(course));
    }
}

/// The listing of an index is the listing of what was inserted into it: the
/// courses in ascending order of number, those of one number in the order
/// of their insertion. The number of buckets makes no difference to it.
pub proof fn lemma_listing_follows_insertions(
    size: nat,
    courses: Seq<CourseView>,
    listing: Seq<CourseView>,
)
    requires
        size >= 1,
        is_listing_of(listing, records(after_inserts(size, courses))),
    ensures
        is_listing_of(listing, courses),
{
    lemma_after_inserts_holds_all(size, courses);
    assert forall|key: Seq<char>| #[trigger] with_key(listing, key) == with_key(courses, key) by {
        lemma_after_inserts_keep_order(size, courses, key);
        assert(with_key(listing, key) == with_key(records(after_inserts(size, courses)), key));
    }
}

/// After any sequence of insertions into empty buckets, the records of any
/// one number stand in the index in the order of their insertion.
pub proof fn lemma_after_inserts_keep_order(size: nat, courses: Seq<CourseView>, key: Seq<char>)
    requires
        size >= 1,
    ensures
        with_key(records(after_inserts(size, courses)), key) == with_key(courses, key),
    decreases courses.len(),
{
    if courses.len() == 0 {
        lemma_empty_buckets(size);
        assert(courses =~= Seq::<CourseView>::empty());
    } else {
        let front = courses.drop_last();
        lemma_after_inserts_keep_order(size, front, key);
        lemma_after_inserts_holds_all(size, front);
        lemma_inserted_keeps_order(after_inserts(size, front), courses.last(), key);
        front.lemma_filter_push(courses.last(), has_key(key));
        assert(front.push(courses.last()) =~= courses);
    }
}

/// A listing of records that are already in ascending order is those
/// records as they stand.
pub proof fn lemma_listing_of_ascending(courses: Seq<CourseView>)
    requires
        ascending(courses),
    ensures
        is_listing_of(courses, courses),
{
}

} // verus!
