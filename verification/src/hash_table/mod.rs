//! The course index: a fixed number of buckets, each a chain of records in
//! the order in which they were inserted.

pub mod course;
pub mod laws;
pub mod listing;
pub mod model;
pub mod node;

use crate::text::bucket_index;
use crate::text::bucket_of;
use crate::text::order_texts;
use crate::text::TextOrder;
use course::Course;
use course::CourseView;
use listing::course_views;
use listing::is_listing_of;
use listing::sort_by_number;
use listing::views_of;
use model::empty_buckets;
use model::first_with_key;
use model::found;
use model::inserted;
use model::records;
use model::well_hashed;
use node::Node;
use vstd::prelude::*;

verus! {

/// The number of buckets of a table that is made without naming one.
pub const DEFAULT_SIZE: usize = 8;

/// A hash table of courses with a fixed number of buckets. Courses whose
/// numbers hash alike share a bucket and are chained there in the order in
/// which they came. Nothing is ever removed, replaced or rehashed.
#[derive(Debug)]
pub struct HashTable {
    nodes: Vec<Option<Node>>,
    table_size: usize,
}

/// The records of the chain that a slot holds.
spec fn slot_chain(slot: Option<Node>) -> Seq<CourseView> {
    match slot {
        Some(head) => head.chain(),
        None => Seq::empty(),
    }
}

/// The buckets that a vector of slots stands for.
spec fn buckets_of(nodes: Seq<Option<Node>>) -> Seq<Seq<CourseView>> {
    Seq::new(nodes.len(), |i: int| slot_chain(nodes[i]))
}

/// What holds of the slots of every table: there are `size` of them and at
/// least one, each node carries the index of its slot, and each record lies
/// in the bucket that its number hashes to.
spec fn sound(nodes: Seq<Option<Node>>, size: usize) -> bool {
    &&& size >= 1
    &&& nodes.len() == size
    &&& forall|i: int|
        0 <= i < nodes.len() ==> match #[trigger] nodes[i] {
            Some(head) => head.keyed(i as usize),
            None => true,
        }
    &&& well_hashed(buckets_of(nodes))
}

/// Makes `node` the head of the empty slot `key`.
fn start_chain(nodes: &mut Vec<Option<Node>>, size: usize, key: usize, node: Node)
    requires
        sound(old(nodes)@, size),
        key == bucket_of(node.course@.course_number, size as nat),
        old(nodes)@[key as int] is None,
        node.next is None,
        node.key == key,
    ensures
        sound(final(nodes)@, size),
        buckets_of(final(nodes)@) == inserted(buckets_of(old(nodes)@), node.course@),
    no_unwind
{
    proof {
        vstd::arithmetic::div_mod::lemma_mod_bound(
            crate::text::code_point_sum(node.course@.course_number) as int,
            size as int,
        );
    }
    nodes[key] = Some(node);
    assert(buckets_of(nodes@) =~= inserted(buckets_of(old(nodes)@), node.course@));
}

/// Hangs `node` behind the chain that slot `key` holds.
fn extend_chain(nodes: &mut Vec<Option<Node>>, size: usize, key: usize, node: Box<Node>)
    requires
        sound(old(nodes)@, size),
        key == bucket_of(node.course@.course_number, size as nat),
        old(nodes)@[key as int] is Some,
        node.next is None,
        node.key == key,
    ensures
        sound(final(nodes)@, size),
        buckets_of(final(nodes)@) == inserted(buckets_of(old(nodes)@), node.course@),
    no_unwind
{
    proof {
        vstd::arithmetic::div_mod::lemma_mod_bound(
            crate::text::code_point_sum(node.course@.course_number) as int,
            size as int,
        );
    }
    let ghost added = node.course@;
    match &mut nodes[key] {
        Some(head) => {
            head.append(node);
        },
        None => {},
    }
    assert(buckets_of(nodes@) =~= inserted(buckets_of(old(nodes)@), added));
}

impl View for HashTable {
    type V = Seq<Seq<CourseView>>;

    /// The buckets, each with the records of its chain.
    closed spec fn view(&self) -> Seq<Seq<CourseView>> {
        buckets_of(self.nodes@)
    }
}

impl HashTable {
    /// What holds of every table at all times: it has at least one bucket,
    /// every node carries the index of its bucket, and every course lies in
    /// the bucket that its number hashes to.
    #[verifier::type_invariant]
    pub closed spec fn well_formed(&self) -> bool {
        sound(self.nodes@, self.table_size)
    }

    /// The buckets of a well-formed table are well hashed.
    pub proof fn lemma_well_formed(&self)
        requires
            self.well_formed(),
        ensures
            well_hashed(self@),
    {
    }

    /// A table of eight empty buckets.
    pub fn new() -> (table: Self)
        ensures
            table@ == empty_buckets(DEFAULT_SIZE as nat),
    {
        HashTable::with_size(DEFAULT_SIZE)
    }

    /// A table of `size` empty buckets.
    pub fn with_size(size: usize) -> (table: Self)
        requires
            size >= 1,
        ensures
            table@ == empty_buckets(size as nat),
    {
        let mut nodes: Vec<Option<Node>> = Vec::new();
        let mut i: usize = 0;
        while i < size
            invariant
                i <= size,
                nodes@.len() == i,
                forall|j: int| 0 <= j < i ==> nodes@[j] is None,
            decreases size - i,
        {
            nodes.push(None);
            i += 1;
        }
        let table = HashTable { nodes, table_size: size };
        assert(table@ =~= empty_buckets(size as nat));
        table
    }

    /// The bucket of `course_number`: the sum of its code points, reduced
    /// modulo the number of buckets.
    pub fn hash(&self, course_number: &str) -> (bucket: usize)
        ensures
            well_hashed(self@),
            bucket == bucket_of(course_number@, self@.len()),
            bucket < self@.len(),
    {
        proof {
            use_type_invariant(self);
        }
        bucket_index(course_number, self.table_size)
    }

    /// Places `course` at the end of the chain of the bucket that its number
    /// hashes to. A course whose number the table already holds is placed
    /// all the same, behind the earlier one.
    pub fn insert(&mut self, course: Course)
        ensures
            final(self)@ == inserted(old(self)@, course@),
            well_hashed(final(self)@),
            records(final(self)@).len() == records(old(self)@).len() + 1,
            records(final(self)@).to_multiset() == records(old(self)@).to_multiset().insert(
                course@,
            ),
    {
        proof {
            use_type_invariant(&*self);
            laws::lemma_inserted_adds_one_record(self@, course@);
        }
        let key = self.hash(course.course_number.as_str());
        let node = Node::new(course, key);
        match self.nodes[key] {
            Some(_) => {
                extend_chain(&mut self.nodes, self.table_size, key, Box::new(node));
            },
            None => {
                start_chain(&mut self.nodes, self.table_size, key, node);
            },
        }
    }

    /// Looks for the course numbered `course_number`: walks the chain of the
    /// bucket that the number hashes to, from its head, and returns a copy
    /// of the first record whose number is exactly that, if there is one.
    pub fn search(&self, course_number: &str) -> (result: Option<Course>)
        ensures
            well_hashed(self@),
            match result {
                Some(course) => found(self@, course_number@) == Some(course@),
                None => found(self@, course_number@) is None,
            },
            found(self@, course_number@) == first_with_key(records(self@), course_number@),
            result is None <==> forall|i: int|
                0 <= i < records(self@).len() ==> (#[trigger] records(self@)[i]).course_number
                    != course_number@,
    {
        proof {
            use_type_invariant(self);
            laws::lemma_found_is_first_record(self@, course_number@);
        }
        let key = self.hash(course_number);
        match &self.nodes[key] {
            None => None,
            Some(head) => {
                let mut current: &Node = head;
                loop
                    invariant
                        well_hashed(self@),
                        found(self@, course_number@) == first_with_key(
                            records(self@),
                            course_number@,
                        ),
                        found(self@, course_number@) is None <==> forall|i: int|
                            0 <= i < records(self@).len() ==> (#[trigger] records(
                                self@,
                            )[i]).course_number != course_number@,
                        found(self@, course_number@) == first_with_key(
                            current.chain(),
                            course_number@,
                        ),
                    decreases current.chain().len(),
                {
                    proof {
                        crate::text::lemma_same_is_equal(
                            current.course@.course_number,
                            course_number@,
                        );
                    }
                    match order_texts(current.course.course_number.as_str(), course_number) {
                        TextOrder::Same => {
                            return Some(current.course.clone());
                        },
                        _ => {},
                    }
                    match &current.next {
                        Some(next) => {
                            assert(current.chain().drop_first() =~= next.chain());
                            current = next;
                        },
                        None => {
                            assert(first_with_key(
                                current.chain().drop_first(),
                                course_number@,
                            ) is None);
                            return None;
                        },
                    }
                }
            },
        }
    }

    /// Every course of the table, bucket after bucket and each chain from
    /// its head.
    fn gather<'a>(&'a self) -> (all: Vec<&'a Course>)
        ensures
            views_of(all@) == records(self@),
    {
        let mut all: Vec<&'a Course> = Vec::new();
        let mut i: usize = 0;
        assert(views_of(all@) =~= self@.take(0).flatten());
        while i < self.nodes.len()
            invariant
                i <= self.nodes@.len(),
                self@.len() == self.nodes@.len(),
                views_of(all@) == self@.take(i as int).flatten(),
            decreases self.nodes@.len() - i,
        {
            let ghost before = views_of(all@);
            match &self.nodes[i] {
                Some(head) => {
                    let mut current: &Node = head;
                    let ghost mut walked: Seq<CourseView> = Seq::empty();
                    loop
                        invariant_except_break
                            views_of(all@) == before + walked,
                            walked + current.chain() == head.chain(),
                        ensures
                            views_of(all@) == before + head.chain(),
                        decreases current.chain().len(),
                    {
                        let ghost so_far = views_of(all@);
                        all.push(&current.course);
                        proof {
                            assert(views_of(all@) =~= so_far.push(current.course@));
                            assert(so_far.push(current.course@) =~= before + walked.push(
                                current.course@,
                            ));
                            walked = walked.push(current.course@);
                        }
                        match &current.next {
                            Some(next) => {
                                assert(walked + next.chain() =~= head.chain());
                                current = next;
                            },
                            None => {
                                assert(walked =~= head.chain());
                                break ;
                            },
                        }
                    }
                },
                None => {
                    assert(before + Seq::<CourseView>::empty() =~= before);
                },
            }
            proof {
                assert(views_of(all@) == before + self@[i as int]);
                self@.lemma_take_succ_push(i as int);
                self@.take(i as int).lemma_flatten_push(self@[i as int]);
            }
            i += 1;
        }
        assert(self@.take(self@.len() as int) =~= self@);
        all
    }

    /// Every course of the table, sorted by course number in ascending
    /// lexicographic order. Courses that share a number come in the order in
    /// which they were inserted. The listing is a copy: later insertions do
    /// not change it.
    pub fn all_sorted(&self) -> (listing: Vec<Course>)
        ensures
            well_hashed(self@),
            is_listing_of(course_views(listing@), records(self@)),
            listing@.len() == records(self@).len(),
    {
        proof {
            use_type_invariant(self);
        }
        let all = self.gather();
        let sorted = sort_by_number(&all);
        let mut listing: Vec<Course> = Vec::new();
        let mut i: usize = 0;
        while i < sorted.len()
            invariant
                i <= sorted@.len(),
                listing@.len() == i,
                forall|j: int| 0 <= j < i ==> listing@[j]@ == sorted@[j]@,
            decreases sorted@.len() - i,
        {
            listing.push(sorted[i].clone());
            i += 1;
        }
        assert(course_views(listing@) =~= views_of(sorted@));
        listing
    }
}

} // verus!
