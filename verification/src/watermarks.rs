//! The high-water marks of the partitions whose marks could be read.

use vstd::prelude::*;

use crate::model::PartitionKey;

verus! {

/// The high-water mark of one partition.
#[derive(Debug)]
struct Mark {
    topic: String,
    partition: i32,
    high: i64,
}

spec fn key_of(mark: Mark) -> PartitionKey {
    (mark.topic@, mark.partition as int)
}

/// The map that a sequence of marks stands for.
spec fn as_map(marks: Seq<Mark>) -> Map<PartitionKey, int>
    decreases marks.len(),
{
    if marks.len() == 0 {
        Map::empty()
    } else {
        as_map(marks.drop_last()).insert(key_of(marks.last()), marks.last().high as int)
    }
}

/// No partition has two marks.
spec fn keys_unique(marks: Seq<Mark>) -> bool {
    forall|i: int, j: int|
        #![trigger marks[i], marks[j]]
        0 <= i < j < marks.len() ==> key_of(marks[i]) != key_of(marks[j])
}

/// A partition is in the map exactly when it has a mark.
proof fn lemma_as_map_domain(marks: Seq<Mark>, key: PartitionKey)
    ensures
        as_map(marks).contains_key(key) <==> exists|i: int|
            0 <= i < marks.len() && key_of(#[trigger] marks[i]) == key,
    decreases marks.len(),
{
    if marks.len() > 0 {
        let rest = marks.drop_last();
        lemma_as_map_domain(rest, key);
        if as_map(marks).contains_key(key) {
            if key == key_of(marks.last()) {
                assert(key_of(marks[marks.len() - 1]) == key);
            } else {
                let i = choose|i: int| 0 <= i < rest.len() && key_of(#[trigger] rest[i]) == key;
                assert(key_of(marks[i]) == key);
            }
        }
        if exists|i: int| 0 <= i < marks.len() && key_of(#[trigger] marks[i]) == key {
            let i = choose|i: int| 0 <= i < marks.len() && key_of(#[trigger] marks[i]) == key;
            if i < rest.len() {
                assert(key_of(rest[i]) == key);
            }
        }
    }
}

/// A partition's value in the map is that of its one mark.
proof fn lemma_as_map_value(marks: Seq<Mark>, i: int)
    requires
        keys_unique(marks),
        0 <= i < marks.len(),
    ensures
        as_map(marks)[key_of(marks[i])] == marks[i].high,
    decreases marks.len(),
{
    if i < marks.len() - 1 {
        let rest = marks.drop_last();
        assert(rest[i] == marks[i]);
        lemma_as_map_value(rest, i);
        assert(key_of(marks[i]) != key_of(marks[marks.len() - 1]));
    }
}

/// Giving a marked partition a new mark changes that partition's value and no other.
proof fn lemma_as_map_update(marks: Seq<Mark>, i: int, mark: Mark)
    requires
        keys_unique(marks),
        0 <= i < marks.len(),
        key_of(mark) == key_of(marks[i]),
    ensures
        keys_unique(marks.update(i, mark)),
        as_map(marks.update(i, mark)) == as_map(marks).insert(key_of(mark), mark.high as int),
    decreases marks.len(),
{
    let updated = marks.update(i, mark);
    let rest = marks.drop_last();
    if i == marks.len() - 1 {
        assert(updated.drop_last() =~= rest);
        assert(as_map(updated) =~= as_map(marks).insert(key_of(mark), mark.high as int));
    } else {
        assert(updated.drop_last() =~= rest.update(i, mark));
        assert(rest[i] == marks[i]);
        lemma_as_map_update(rest, i, mark);
        assert(key_of(marks[i]) != key_of(marks[marks.len() - 1]));
        assert(as_map(updated) =~= as_map(marks).insert(key_of(mark), mark.high as int));
    }
}

/// High-water marks by partition. A partition has at most one: a later mark takes the place of
/// an earlier one.
#[derive(Debug)]
pub struct HighWaterMarks {
    marks: Vec<Mark>,
}

impl View for HighWaterMarks {
    type V = Map<PartitionKey, int>;

    closed spec fn view(&self) -> Map<PartitionKey, int> {
        as_map(self.marks@)
    }
}

impl HighWaterMarks {
    #[verifier::type_invariant]
    spec fn well_formed(self) -> bool {
        keys_unique(self.marks@)
    }

    /// No marks at all.
    pub fn new() -> (marks: Self)
        ensures
            marks@ == Map::<PartitionKey, int>::empty(),
    {
        HighWaterMarks { marks: Vec::new() }
    }

    /// The place of a partition's mark.
    fn position(&self, topic: &String, partition: i32) -> (found: Option<usize>)
        ensures
            match found {
                Some(i) => i < self.marks@.len() && key_of(self.marks@[i as int]) == (
                    topic@,
                    partition as int,
                ),
                None => !self@.contains_key((topic@, partition as int)),
            },
    {
        let ghost key: PartitionKey = (topic@, partition as int);
        let mut i: usize = 0;
        while i < self.marks.len()
            invariant
                i <= self.marks@.len(),
                key == (topic@, partition as int),
                forall|j: int| 0 <= j < i ==> key_of(#[trigger] self.marks@[j]) != key,
            decreases self.marks@.len() - i,
        {
            let mark = &self.marks[i];
            if mark.partition == partition && mark.topic == *topic {
                return Some(i);
            }
            i = i + 1;
        }
        proof {
            lemma_as_map_domain(self.marks@, key);
        }
        None
    }

    /// The high-water mark of a partition, if there is one.
    pub fn get(&self, topic: &String, partition: i32) -> (high: Option<i64>)
        ensures
            match high {
                Some(h) => self@.contains_key((topic@, partition as int)) && self@[(
                    topic@,
                    partition as int,
                )] == h,
                None => !self@.contains_key((topic@, partition as int)),
            },
    {
        proof {
            use_type_invariant(self);
        }
        match self.position(topic, partition) {
            Some(i) => {
                proof {
                    lemma_as_map_domain(self.marks@, (topic@, partition as int));
                    lemma_as_map_value(self.marks@, i as int);
                }
                Some(self.marks[i].high)
            },
            None => None,
        }
    }

    /// Sets the high-water mark of a partition.
    pub fn insert(&mut self, topic: String, partition: i32, high: i64)
        ensures
            final(self)@ == old(self)@.insert((topic@, partition as int), high as int),
    {
        proof {
            use_type_invariant(&*self);
        }
        let place = self.position(&topic, partition);
        let mark = Mark { topic, partition, high };
        let mut marks: Vec<Mark> = Vec::new();
        std::mem::swap(&mut marks, &mut self.marks);
        let ghost before = marks@;
        match place {
            Some(i) => {
                proof {
                    lemma_as_map_update(before, i as int, mark);
                }
                marks.set(i, mark);
            },
            None => {
                proof {
                    assert forall|j: int| 0 <= j < before.len() implies key_of(
                        #[trigger] before[j],
                    ) != key_of(mark) by {
                        lemma_as_map_domain(before, key_of(mark));
                    }
                    assert(before.push(mark).drop_last() =~= before);
                }
                marks.push(mark);
            },
        }
        self.marks = marks;
    }
}

} // verus!
