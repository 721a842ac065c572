//! One query for the lag of all consumer groups that count.
//!
//! The query asks for the cluster's topics, then for the high-water mark of each application
//! partition, then for the consumer groups, then for the committed offsets of each group that
//! counts. A partition or group that cannot be read is left out of the report. The query fails
//! when the topics or the groups cannot be listed, and when something was left out that could be
//! lag and the report is empty: an empty report means that all groups have caught up. What could
//! be lag is a group whose offsets could not be read, an offset that came with an error, and an
//! offset whose partition has no known mark.

use rdkafka::TopicPartitionList;
use vstd::prelude::*;

use crate::lag::{
    append_group_lags, application_keys, application_partitions, counted_groups, counted_names,
    distances_fit, group_lags, lags_computable, leaves_unjudged, read_missed,
};
use crate::model::{
    group_views, keys_of, lag_views, offset_views, texts, topic_views, GroupListing, GroupView,
    LagView, OffsetView, PartitionKey, PartitionLag, PartitionOffset, TopicMetadata,
    TopicPartition, TopicView,
};
use crate::partition_list::{
    add_partition, count, elements, fresh_entry, listed, names_are_text, new_list, unassigned,
    LIST_LIMIT,
};
use crate::watermarks::HighWaterMarks;

verus! {

/// Why a query failed.
#[derive(Debug, Clone, Copy, PartialEq, Eq, Structural)]
pub enum QueryError {
    /// No client could be made.
    Client,
    /// The topics could not be listed.
    Metadata,
    /// The groups could not be listed.
    Groups,
    /// No lag was found, but not everything that could show lag was read.
    Incomplete,
}

impl QueryError {
    /// The text of the error.
    pub open spec fn text(self) -> Seq<char> {
        match self {
            QueryError::Client => "failed to create metadata consumer"@,
            QueryError::Metadata => "failed to fetch cluster metadata"@,
            QueryError::Groups => "failed to list consumer groups"@,
            QueryError::Incomplete => "failed to read every mark and committed offset"@,
        }
    }

    /// Describes the error.
    pub fn message(self) -> (message: &'static str)
        ensures
            message@ == self.text(),
    {
        match self {
            QueryError::Client => "failed to create metadata consumer",
            QueryError::Metadata => "failed to fetch cluster metadata",
            QueryError::Groups => "failed to list consumer groups",
            QueryError::Incomplete => "failed to read every mark and committed offset",
        }
    }
}

/// What a query waits for, or how it ended.
#[derive(Debug, Clone, Copy, PartialEq, Eq, Structural)]
pub enum QueryPhase {
    Metadata,
    Watermarks,
    Groups,
    Committed,
    Done,
    Failed(QueryError),
}

/// What the driver of a query learned.
#[derive(Debug)]
pub enum QueryEvent {
    /// No client could be made.
    ClientFailed,
    /// The cluster's metadata could not be read.
    MetadataFailed,
    /// The topics in the cluster's metadata.
    Metadata(Vec<TopicMetadata>),
    /// The low and high watermarks of the partition asked for, or `None` if they could not be
    /// read.
    Watermarks(Option<(i64, i64)>),
    /// The consumer groups could not be listed.
    GroupsFailed,
    /// The cluster's consumer groups.
    Groups(Vec<GroupListing>),
    /// The committed offsets of the group asked for, or `None` if they could not be read at all.
    Committed(Option<Vec<PartitionOffset>>),
}

impl QueryEvent {
    /// The event that a group's committed offsets, or the failure to read them, give rise to.
    pub fn committed(answer: Option<&TopicPartitionList>) -> (event: QueryEvent)
        requires
            answer matches Some(list) ==> names_are_text(*list),
        ensures
            event@ == QueryEventView::Committed(
                match answer {
                    Some(list) => Some(listed(*list)),
                    None => None,
                },
            ),
    {
        match answer {
            Some(list) => QueryEvent::Committed(Some(elements(list))),
            None => QueryEvent::Committed(None),
        }
    }
}

/// An event as contracts see it.
pub enum QueryEventView {
    ClientFailed,
    MetadataFailed,
    Metadata(Seq<TopicView>),
    Watermarks(Option<(int, int)>),
    GroupsFailed,
    Groups(Seq<GroupView>),
    Committed(Option<Seq<OffsetView>>),
}

impl View for QueryEvent {
    type V = QueryEventView;

    open spec fn view(&self) -> QueryEventView {
        match *self {
            QueryEvent::ClientFailed => QueryEventView::ClientFailed,
            QueryEvent::MetadataFailed => QueryEventView::MetadataFailed,
            QueryEvent::Metadata(topics) => QueryEventView::Metadata(topic_views(topics@)),
            QueryEvent::Watermarks(Some((low, high))) => QueryEventView::Watermarks(
                Some((low as int, high as int)),
            ),
            QueryEvent::Watermarks(None) => QueryEventView::Watermarks(None),
            QueryEvent::GroupsFailed => QueryEventView::GroupsFailed,
            QueryEvent::Groups(groups) => QueryEventView::Groups(group_views(groups@)),
            QueryEvent::Committed(Some(offsets)) => QueryEventView::Committed(
                Some(offset_views(offsets@)),
            ),
            QueryEvent::Committed(None) => QueryEventView::Committed(None),
        }
    }
}

/// What the driver of a query has to do next.
#[derive(Debug, PartialEq, Eq)]
pub enum QueryAction {
    /// Make a client and read the cluster's metadata.
    FetchMetadata,
    /// Read the watermarks of this partition.
    FetchWatermarks(TopicPartition),
    /// List the consumer groups.
    ListGroups,
    /// Read what this group has committed for the partitions of the query's list.
    FetchCommitted(String),
    /// Nothing: the report can be taken.
    Finish,
    /// Nothing: the query has failed.
    Fail(QueryError),
}

/// An action as contracts see it.
pub enum QueryActionView {
    FetchMetadata,
    FetchWatermarks(PartitionKey),
    ListGroups,
    FetchCommitted(Seq<char>),
    Finish,
    Fail(QueryError),
}

impl View for QueryAction {
    type V = QueryActionView;

    open spec fn view(&self) -> QueryActionView {
        match *self {
            QueryAction::FetchMetadata => QueryActionView::FetchMetadata,
            QueryAction::FetchWatermarks(partition) => QueryActionView::FetchWatermarks(
                partition@,
            ),
            QueryAction::ListGroups => QueryActionView::ListGroups,
            QueryAction::FetchCommitted(group) => QueryActionView::FetchCommitted(group@),
            QueryAction::Finish => QueryActionView::Finish,
            QueryAction::Fail(error) => QueryActionView::Fail(error),
        }
    }
}

/// A query as contracts see it.
#[verifier::ext_equal]
pub struct QueryView {
    pub phase: QueryPhase,
    /// The application partitions.
    pub keys: Seq<PartitionKey>,
    /// How many of them have been asked for their watermarks.
    pub asked: nat,
    /// The high-water marks read so far.
    pub marks: Map<PartitionKey, int>,
    /// The groups that count.
    pub groups: Seq<Seq<char>>,
    /// How many of them have been asked for their offsets.
    pub visited: nat,
    /// The report so far.
    pub lags: Seq<LagView>,
    /// The answers so far leave something out that could be lag.
    pub missed: bool,
}

impl QueryView {
    /// A query before its first event.
    pub open spec fn initial() -> QueryView {
        QueryView {
            phase: QueryPhase::Metadata,
            keys: Seq::empty(),
            asked: 0,
            marks: Map::empty(),
            groups: Seq::empty(),
            visited: 0,
            lags: Seq::empty(),
            missed: false,
        }
    }

    /// What holds of a query between events: the partitions and groups asked for so far, that
    /// the report is empty before the first group, and that an empty report is only given where
    /// nothing was missed.
    pub open spec fn well_formed(self) -> bool {
        match self.phase {
            QueryPhase::Metadata => self == QueryView::initial(),
            QueryPhase::Watermarks => {
                &&& self.asked < self.keys.len()
                &&& self.no_groups_yet()
            },
            QueryPhase::Groups => {
                &&& 0 < self.asked == self.keys.len()
                &&& self.no_groups_yet()
            },
            QueryPhase::Committed => {
                &&& 0 < self.asked == self.keys.len()
                &&& self.visited < self.groups.len()
            },
            QueryPhase::Done => {
                &&& self.asked == self.keys.len()
                &&& self.visited == self.groups.len()
                &&& self.missed ==> self.lags.len() > 0
            },
            QueryPhase::Failed(_) => true,
        }
    }

    /// No group has been listed or asked.
    pub open spec fn no_groups_yet(self) -> bool {
        &&& self.groups == Seq::<Seq<char>>::empty()
        &&& self.visited == 0
        &&& self.lags == Seq::<LagView>::empty()
        &&& !self.missed
    }

    /// The event answers what the query asked, and working on it stays within the client's and
    /// the machine's limits.
    pub open spec fn accepts(self, event: QueryEventView) -> bool {
        match event {
            QueryEventView::ClientFailed => self.phase == QueryPhase::Metadata,
            QueryEventView::MetadataFailed => self.phase == QueryPhase::Metadata,
            QueryEventView::Metadata(topics) => self.phase == QueryPhase::Metadata && listable(
                application_keys(topics),
            ),
            QueryEventView::Watermarks(_) => self.phase == QueryPhase::Watermarks,
            QueryEventView::GroupsFailed => self.phase == QueryPhase::Groups,
            QueryEventView::Groups(_) => self.phase == QueryPhase::Groups,
            QueryEventView::Committed(Some(offsets)) => self.phase == QueryPhase::Committed
                && distances_fit(self.marks, offsets),
            QueryEventView::Committed(None) => self.phase == QueryPhase::Committed,
        }
    }

    /// The query after an event that it accepts.
    pub open spec fn after(self, event: QueryEventView) -> QueryView {
        match event {
            QueryEventView::ClientFailed => QueryView {
                phase: QueryPhase::Failed(QueryError::Client),
                ..self
            },
            QueryEventView::MetadataFailed => QueryView {
                phase: QueryPhase::Failed(QueryError::Metadata),
                ..self
            },
            QueryEventView::GroupsFailed => QueryView {
                phase: QueryPhase::Failed(QueryError::Groups),
                ..self
            },
            QueryEventView::Metadata(topics) => QueryView {
                phase: if application_keys(topics).len() == 0 {
                    QueryPhase::Done
                } else {
                    QueryPhase::Watermarks
                },
                keys: application_keys(topics),
                ..self
            },
            QueryEventView::Watermarks(answer) => QueryView {
                phase: if self.asked + 1 < self.keys.len() {
                    QueryPhase::Watermarks
                } else {
                    QueryPhase::Groups
                },
                asked: self.asked + 1,
                marks: match answer {
                    Some((_, high)) => self.marks.insert(self.keys[self.asked as int], high),
                    None => self.marks,
                },
                ..self
            },
            QueryEventView::Groups(groups) => QueryView {
                phase: if counted_names(groups).len() == 0 {
                    QueryPhase::Done
                } else {
                    QueryPhase::Committed
                },
                groups: counted_names(groups),
                ..self
            },
            QueryEventView::Committed(answer) => {
                let lags = match answer {
                    Some(offsets) => self.lags + group_lags(
                        self.groups[self.visited as int],
                        self.marks,
                        offsets,
                    ),
                    None => self.lags,
                };
                let missed = self.missed || read_missed(self.keys, self.marks, answer);
                QueryView {
                    phase: if self.visited + 1 < self.groups.len() {
                        QueryPhase::Committed
                    } else if lags.len() == 0 && missed {
                        QueryPhase::Failed(QueryError::Incomplete)
                    } else {
                        QueryPhase::Done
                    },
                    visited: self.visited + 1,
                    lags,
                    missed,
                    ..self
                }
            },
        }
    }

    /// What the query asks of its driver.
    pub open spec fn request(self) -> QueryActionView {
        match self.phase {
            QueryPhase::Metadata => QueryActionView::FetchMetadata,
            QueryPhase::Watermarks => QueryActionView::FetchWatermarks(
                self.keys[self.asked as int],
            ),
            QueryPhase::Groups => QueryActionView::ListGroups,
            QueryPhase::Committed => QueryActionView::FetchCommitted(
                self.groups[self.visited as int],
            ),
            QueryPhase::Done => QueryActionView::Finish,
            QueryPhase::Failed(error) => QueryActionView::Fail(error),
        }
    }
}

/// The Kafka client can hold these partitions in a list.
pub open spec fn listable(keys: Seq<PartitionKey>) -> bool {
    &&& keys.len() <= LIST_LIMIT
    &&& forall|i: int| 0 <= i < keys.len() ==> !(#[trigger] keys[i]).0.contains('\0')
}

/// Tells whether a text holds a NUL character.
fn has_nul(text: &String) -> (found: bool)
    ensures
        found == text@.contains('\0'),
{
    let n: usize = text.as_str().unicode_len();
    let mut i: usize = 0;
    while i < n
        invariant
            i <= n,
            n == text@.len(),
            forall|j: int| 0 <= j < i ==> text@[j] != '\0',
        decreases n - i,
    {
        if text.as_str().get_char(i) == '\0' {
            assert(text@[i as int] == '\0');
            return true;
        }
        i = i + 1;
    }
    false
}

/// Tells whether the Kafka client can hold these partitions in a list.
fn can_list(partitions: &Vec<TopicPartition>) -> (fit: bool)
    ensures
        fit == listable(keys_of(partitions@)),
{
    let ghost keys = keys_of(partitions@);
    if partitions.len() > LIST_LIMIT {
        return false;
    }
    let mut i: usize = 0;
    while i < partitions.len()
        invariant
            i <= partitions@.len(),
            keys == keys_of(partitions@),
            forall|j: int| 0 <= j < i ==> !(#[trigger] keys[j]).0.contains('\0'),
        decreases partitions@.len() - i,
    {
        assert(keys[i as int] == partitions@[i as int]@);
        if has_nul(&partitions[i].topic) {
            return false;
        }
        i = i + 1;
    }
    true
}

/// Puts partitions into a list of the Kafka client, in their order.
fn fill_list(partitions: &Vec<TopicPartition>) -> (list: TopicPartitionList)
    requires
        listable(keys_of(partitions@)),
    ensures
        listed(list) == unassigned(keys_of(partitions@)),
        names_are_text(list),
{
    let ghost keys = keys_of(partitions@);
    let mut list = new_list();
    let mut i: usize = 0;
    assert(listed(list) =~= unassigned(keys.take(0)));
    while i < partitions.len()
        invariant
            i <= partitions@.len(),
            keys == keys_of(partitions@),
            listable(keys),
            listed(list) == unassigned(keys.take(i as int)),
            names_are_text(list),
        decreases partitions@.len() - i,
    {
        let partition = &partitions[i];
        assert(keys[i as int] == partition@);
        add_partition(&mut list, partition.topic.as_str(), partition.partition);
        assert(unassigned(keys.take(i + 1)) =~= unassigned(keys.take(i as int)).push(
            fresh_entry(partition@),
        ));
        i = i + 1;
    }
    assert(keys.take(i as int) =~= keys);
    list
}

/// A query under way.
pub struct LagQuery {
    phase: QueryPhase,
    partitions: Vec<TopicPartition>,
    list: TopicPartitionList,
    asked: usize,
    marks: HighWaterMarks,
    groups: Vec<String>,
    visited: usize,
    lags: Vec<PartitionLag>,
    missed: bool,
}

impl View for LagQuery {
    type V = QueryView;

    closed spec fn view(&self) -> QueryView {
        QueryView {
            phase: self.phase,
            keys: keys_of(self.partitions@),
            asked: self.asked as nat,
            marks: self.marks@,
            groups: texts(self.groups@),
            visited: self.visited as nat,
            lags: lag_views(self.lags@),
            missed: self.missed,
        }
    }
}

impl LagQuery {
    /// The query's state is one that its events lead to, and its list holds its partitions.
    pub closed spec fn well_formed(&self) -> bool {
        &&& self@.well_formed()
        &&& listed(self.list) == unassigned(keys_of(self.partitions@))
        &&& names_are_text(self.list)
    }

    /// A query whose driver has to read the cluster's metadata first.
    pub fn new() -> (query: Self)
        ensures
            query.well_formed(),
            query@ == QueryView::initial(),
    {
        let query = LagQuery {
            phase: QueryPhase::Metadata,
            partitions: Vec::new(),
            list: new_list(),
            asked: 0,
            marks: HighWaterMarks::new(),
            groups: Vec::new(),
            visited: 0,
            lags: Vec::new(),
            missed: false,
        };
        assert(query@ =~= QueryView::initial());
        assert(listed(query.list) =~= unassigned(keys_of(query.partitions@)));
        query
    }

    /// What the query waits for.
    pub fn phase(&self) -> (phase: QueryPhase)
        ensures
            phase == self@.phase,
    {
        self.phase
    }

    /// The Kafka client's list of the query's partitions, to assign to a group's consumer.
    pub fn list(&self) -> (list: &TopicPartitionList)
        requires
            self.well_formed(),
        ensures
            listed(*list) == unassigned(self@.keys),
            names_are_text(*list),
    {
        &self.list
    }

    /// The high-water marks read so far.
    pub fn marks(&self) -> (marks: &HighWaterMarks)
        ensures
            marks@ == self@.marks,
    {
        &self.marks
    }

    /// The report, once the query is done.
    pub fn into_lags(self) -> (lags: Vec<PartitionLag>)
        ensures
            lag_views(lags@) == self@.lags,
    {
        self.lags
    }

    /// Tells whether the query can go on with an event.
    pub fn accepts(&self, event: &QueryEvent) -> (accepted: bool)
        ensures
            accepted == self@.accepts(event@),
    {
        match event {
            QueryEvent::ClientFailed => self.phase == QueryPhase::Metadata,
            QueryEvent::MetadataFailed => self.phase == QueryPhase::Metadata,
            QueryEvent::Metadata(topics) => self.phase == QueryPhase::Metadata && can_list(
                &application_partitions(topics),
            ),
            QueryEvent::Watermarks(_) => self.phase == QueryPhase::Watermarks,
            QueryEvent::GroupsFailed => self.phase == QueryPhase::Groups,
            QueryEvent::Groups(_) => self.phase == QueryPhase::Groups,
            QueryEvent::Committed(Some(offsets)) => self.phase == QueryPhase::Committed
                && lags_computable(&self.marks, offsets),
            QueryEvent::Committed(None) => self.phase == QueryPhase::Committed,
        }
    }

    /// What the query asks of its driver.
    pub fn action(&self) -> (action: QueryAction)
        requires
            self.well_formed(),
        ensures
            action@ == self@.request(),
    {
        match self.phase {
            QueryPhase::Metadata => QueryAction::FetchMetadata,
            QueryPhase::Watermarks => {
                let partition = &self.partitions[self.asked];
                QueryAction::FetchWatermarks(
                    TopicPartition {
                        topic: partition.topic.clone(),
                        partition: partition.partition,
                    },
                )
            },
            QueryPhase::Groups => QueryAction::ListGroups,
            QueryPhase::Committed => QueryAction::FetchCommitted(
                self.groups[self.visited].clone(),
            ),
            QueryPhase::Done => QueryAction::Finish,
            QueryPhase::Failed(error) => QueryAction::Fail(error),
        }
    }

    /// Goes on with an event: works it into the query's state and asks for the next thing.
    pub fn step(&mut self, event: QueryEvent) -> (action: QueryAction)
        requires
            old(self).well_formed(),
            old(self)@.accepts(event@),
        ensures
            final(self).well_formed(),
            final(self)@ == old(self)@.after(event@),
            action@ == final(self)@.request(),
    {
        let ghost before = self@;
        let ghost happened = event@;
        match event {
            QueryEvent::ClientFailed => {
                self.phase = QueryPhase::Failed(QueryError::Client);
            },
            QueryEvent::MetadataFailed => {
                self.phase = QueryPhase::Failed(QueryError::Metadata);
            },
            QueryEvent::Metadata(topics) => {
                self.partitions = application_partitions(&topics);
                self.list = fill_list(&self.partitions);
                self.phase = if count(&self.list) == 0 {
                    QueryPhase::Done
                } else {
                    QueryPhase::Watermarks
                };
            },
            QueryEvent::Watermarks(answer) => {
                let n: usize = self.partitions.len();
                let partition = &self.partitions[self.asked];
                if let Some((_low, high)) = answer {
                    self.marks.insert(partition.topic.clone(), partition.partition, high);
                }
                self.asked = self.asked + 1;
                self.phase = if self.asked < n {
                    QueryPhase::Watermarks
                } else {
                    QueryPhase::Groups
                };
            },
            QueryEvent::GroupsFailed => {
                self.phase = QueryPhase::Failed(QueryError::Groups);
            },
            QueryEvent::Groups(groups) => {
                self.groups = counted_groups(&groups);
                self.phase = if self.groups.len() == 0 {
                    QueryPhase::Done
                } else {
                    QueryPhase::Committed
                };
            },
            QueryEvent::Committed(answer) => {
                let n: usize = self.groups.len();
                match answer {
                    Some(offsets) => {
                        append_group_lags(
                            &mut self.lags,
                            &self.groups[self.visited],
                            &self.marks,
                            &offsets,
                        );
                        if leaves_unjudged(&self.partitions, &self.marks, &offsets) {
                            self.missed = true;
                        }
                    },
                    None => {
                        self.missed = true;
                    },
                }
                self.visited = self.visited + 1;
                self.phase = if self.visited < n {
                    QueryPhase::Committed
                } else if self.lags.len() == 0 && self.missed {
                    QueryPhase::Failed(QueryError::Incomplete)
                } else {
                    QueryPhase::Done
                };
            },
        }
        assert(self@ =~= before.after(happened));
        self.action()
    }
}

} // verus!
