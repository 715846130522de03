//! A link of a bucket's chain.

use super::course::Course;
use super::course::CourseView;
use vstd::prelude::*;

verus! {

/// One record of a chain, the bucket it was placed in, and the rest of the
/// chain behind it.
#[derive(Debug)]
pub struct Node {
    pub course: Course,
    pub key: usize,
    pub next: Option<Box<Node>>,
}

impl Node {
    /// The records from this node to the end of its chain, this node's first.
    pub open spec fn chain(&self) -> Seq<CourseView>
        decreases self,
    {
        match self.next {
            Some(next) => seq![self.course@] + next.chain(),
            None => seq![self.course@],
        }
    }

    /// The bucket indices that the nodes carry, from this node to the end of
    /// its chain.
    pub open spec fn keys(&self) -> Seq<usize>
        decreases self,
    {
        match self.next {
            Some(next) => seq![self.key] + next.keys(),
            None => seq![self.key],
        }
    }

    /// Every node from this one to the end of its chain carries `key`.
    pub open spec fn keyed(&self, key: usize) -> bool {
        forall|i: int| 0 <= i < self.keys().len() ==> #[trigger] self.keys()[i] == key
    }

    /// Builds a node that holds `course` under `key` and has nothing behind it.
    pub fn new(course: Course, key: usize) -> (node: Self)
        ensures
            node.course == course,
            node.key == key,
            node.next is None,
            node.chain() == seq![course@],
            node.keys() == seq![key],
    {
        Node { course, key, next: None }
    }

    /// Hangs `node` behind the last node of this chain.
    pub fn append(&mut self, node: Box<Node>)
        requires
            node.next is None,
        ensures
            final(self).chain() == old(self).chain().push(node.course@),
            final(self).keys() == old(self).keys().push(node.key),
        no_unwind
    {
        let ghost key = node.key;
        let ghost added = node.course@;
        let ghost mut passed: Seq<CourseView> = Seq::empty();
        let ghost mut passed_keys: Seq<usize> = Seq::empty();
        let mut last: &mut Node = self;
        loop
            invariant
                after_borrow(*self).chain() == passed + final(last).chain(),
                after_borrow(*self).keys() == passed_keys + final(last).keys(),
                old(self).chain() == passed + last.chain(),
                old(self).keys() == passed_keys + last.keys(),
            ensures
                last.next is None,
            decreases last.chain().len(),
        {
            let ghost here = last.course@;
            let ghost here_key = last.key;
            match last.next {
                Some(ref mut next) => {
                    last = next;
                    proof {
                        passed = passed.push(here);
                        passed_keys = passed_keys.push(here_key);
                    }
                },
                None => {
                    break ;
                },
            }
        }
        let ghost tail = last.chain();
        let ghost tail_keys = last.keys();
        assert(node.chain() == seq![added]);
        assert(node.keys() == seq![key]);
        last.next = Some(node);
        assert(last.chain() == tail + seq![added]);
        assert(last.keys() == tail_keys + seq![key]);
        assert(self.chain() =~= old(self).chain().push(added));
        assert(self.keys() =~= old(self).keys().push(key));
    }
}

impl Clone for Node {
    /// A copy of this node and of the chain behind it.
    fn clone(&self) -> (copy: Self)
        ensures
            copy.chain() == self.chain(),
            copy.keys() == self.keys(),
        decreases self,
    {
        let next = match &self.next {
            Some(next) => Some(Box::new((&**next).clone())),
            None => None,
        };
        Node { course: self.course.clone(), key: self.key, next }
    }
}

} // verus!
