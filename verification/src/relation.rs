//! A finite function on triples of numbers, filled one record at a time.
use vstd::prelude::*;

verus! {

/// The arguments of a record.
pub type RelationKey = (usize, usize, Option<usize>);

/// Records of a value for a key; a later record of the same key takes the place of an earlier one.
pub struct Relation {
    records: Vec<(RelationKey, usize)>,
}

/// The function that a list of records gives.
spec fn function_of(records: Seq<(RelationKey, usize)>) -> Map<RelationKey, usize>
    decreases records.len(),
{
    if records.len() == 0 {
        Map::empty()
    } else {
        function_of(records.drop_last()).insert(records.last().0, records.last().1)
    }
}

fn same_key(a: RelationKey, b: RelationKey) -> (same: bool)
    ensures
        same == (a == b),
{
    a.0 == b.0 && a.1 == b.1 && match (a.2, b.2) {
        (Some(x), Some(y)) => x == y,
        (None, None) => true,
        _ => false,
    }
}

impl View for Relation {
    type V = Map<RelationKey, usize>;

    closed spec fn view(&self) -> Map<RelationKey, usize> {
        function_of(self.records@)
    }
}

impl Relation {
    pub fn new() -> (relation: Relation)
        ensures
            relation@ == (Map::<RelationKey, usize>::empty()),
    {
        Relation { records: Vec::new() }
    }

    /// Gives `key` the value `value`.
    pub fn record(&mut self, key: RelationKey, value: usize)
        ensures
            final(self)@ == old(self)@.insert(key, value),
    {
        self.records.push((key, value));
        assert(self.records@.drop_last() == old(self).records@);
    }

    /// The value of `key`, if it has one.
    pub fn get(&self, key: RelationKey) -> (value: Option<usize>)
        ensures
            value == self@.get(key),
    {
        let mut i: usize = self.records.len();
        assert(self.records@.take(i as int) == self.records@);
        while i > 0
            invariant
                i <= self.records@.len(),
                function_of(self.records@).get(key) == function_of(
                    self.records@.take(i as int),
                ).get(key),
            decreases i,
        {
            let ghost front = self.records@.take(i as int);
            i = i - 1;
            assert(front.drop_last() == self.records@.take(i as int));
            if same_key(self.records[i].0, key) {
                return Some(self.records[i].1);
            }
        }
        None
    }
}

} // verus!
