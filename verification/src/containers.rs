//! Collections of message identifiers, and tables keyed by destination.

use crate::ids::{DestinationId, MessageId};
use crate::seqs::lemma_filter_none;
use crate::trace::DestinationMapping;
use crate::sorting::{lemma_sorted_stays, sorted_by_key, stable_sort, stably_sorted, SortKey};
use vstd::prelude::*;

verus! {

/// The test for a message that stands in `a`.
pub open spec fn member_of(a: Seq<MessageId>) -> spec_fn(MessageId) -> bool {
    |m: MessageId| a.contains(m)
}

/// The test for a message that does not stand in `a`.
pub open spec fn not_member_of(a: Seq<MessageId>) -> spec_fn(MessageId) -> bool {
    |m: MessageId| !a.contains(m)
}

/// How many messages of `b` also stand in `a`.
pub open spec fn overlap_count(a: Seq<MessageId>, b: Seq<MessageId>) -> nat {
    b.filter(member_of(a)).len()
}

/// How many messages of `b` do not stand in `a`.
pub open spec fn added_count(a: Seq<MessageId>, b: Seq<MessageId>) -> nat {
    b.filter(not_member_of(a)).len()
}

/// The test for a message that `destinations` sends to `d`.
pub open spec fn sent_to(destinations: Seq<DestinationId>, d: DestinationId) -> spec_fn(
    MessageId,
) -> bool {
    |m: MessageId| m.0 < destinations.len() && destinations[m.0 as int] == d
}

/// Some message of `s` is sent to `d`.
pub open spec fn has_message_to(
    s: Seq<MessageId>,
    destinations: Seq<DestinationId>,
    d: DestinationId,
) -> bool {
    exists|i: int| 0 <= i < s.len() && destinations[(#[trigger] s[i]).0 as int] == d
}

/// An ordered set of messages.
///
/// Messages are kept in the order of insertion, and the set remembers whether
/// that order is ascending.
pub struct MessageSet {
    messages: Vec<MessageId>,
    sorted: bool,
}

impl View for MessageSet {
    type V = Seq<MessageId>;

    closed spec fn view(&self) -> Seq<MessageId> {
        self.messages@
    }
}

impl MessageSet {
    /// Whether the set is marked as being in ascending order.
    pub closed spec fn is_sorted(&self) -> bool {
        self.sorted
    }

    /// A set that is marked as sorted is in ascending order.
    pub open spec fn wf(&self) -> bool {
        self.is_sorted() ==> sorted_by_key(self@)
    }

    /// Create a new, empty message set
    pub fn new() -> (s: MessageSet)
        ensures
            s@ == Seq::<MessageId>::empty(),
            s.is_sorted(),
            s.wf(),
    {
        MessageSet { messages: Vec::new(), sorted: true }
    }

    /// Insert a message
    pub fn insert(&mut self, message: MessageId)
        requires
            old(self).wf(),
        ensures
            final(self).wf(),
            final(self)@ == old(self)@.push(message),
            final(self).is_sorted() == (old(self).is_sorted() && (old(self)@.len() == 0 || old(
                self,
            )@.last().0 <= message.0)),
    {
        let n: usize = self.messages.len();
        if n > 0 {
            if self.messages[n - 1].0 > message.0 {
                self.sorted = false;
            }
        }
        self.messages.push(message);
        proof {
            if self.sorted {
                let s = self.messages@;
                assert forall|i: int, j: int| 0 <= i <= j < s.len() implies s[i].0 <= s[j].0 by {
                    if j == s.len() - 1 && i < j {
                        assert(old(self)@[i].sort_key() <= old(self)@[n - 1].sort_key());
                    } else if j < s.len() - 1 {
                        assert(old(self)@[i].sort_key() <= old(self)@[j].sort_key());
                    }
                }
            }
        }
    }

    /// Sort the data if necessary
    pub fn sort(&mut self)
        requires
            old(self).wf(),
        ensures
            final(self).wf(),
            final(self).is_sorted(),
            final(self)@ == stably_sorted(old(self)@),
    {
        if !self.sorted {
            self.messages = stable_sort(&self.messages);
        } else {
            proof {
                lemma_sorted_stays(self.messages@);
            }
        }
        self.sorted = true;
    }

    /// Convert this into a regular Vec
    pub fn into_vec(self) -> (v: Vec<MessageId>)
        ensures
            v@ == self@,
    {
        self.messages
    }

    /// Split by destination into a table of grouped messages
    pub fn split_by(self, destinations: &DestinationMapping) -> (r: DestinationTable<MessageSet>)
        requires
            self.wf(),
            forall|i: int| 0 <= i < self@.len() ==> (#[trigger] self@[i]).0 < destinations@.len(),
        ensures
            r.wf(),
            forall|d: DestinationId|
                r@.contains_key(d) <==> has_message_to(self@, destinations@, d),
            forall|d: DestinationId| #[trigger]
                r@.contains_key(d) ==> r@[d].wf() && r@[d].is_sorted() && r@[d]@ == stably_sorted(
                    self@.filter(sent_to(destinations@, d)),
                ),
    {
        let ghost s = self.messages@;
        let ghost dm = destinations@;
        let mut table: DestinationTable<MessageSet> = DestinationTable::new();
        let mut k: usize = 0;
        proof {
            assert(s == self@);
            assert forall|i: int| 0 <= i < s.len() implies (#[trigger] s[i]).0 < dm.len() by {
                assert(self@[i].0 < dm.len());
            }
        }
        while k < self.messages.len()
            invariant
                s == self.messages@,
                dm == destinations@,
                forall|i: int| 0 <= i < s.len() ==> (#[trigger] s[i]).0 < dm.len(),
                k <= s.len(),
                table.wf(),
                forall|x: int|
                    0 <= x < table.keys@.len() ==> (#[trigger] table.values@[x]).wf()
                        && table.values@[x]@ == s.take(k as int).filter(
                        sent_to(dm, table.keys@[x]),
                    ),
                forall|i: int| 0 <= i < k ==> table.keys@.contains(dm[(#[trigger] s[i]).0 as int]),
                forall|x: int|
                    0 <= x < table.keys@.len() ==> has_message_to(
                        s.take(k as int),
                        dm,
                        #[trigger] table.keys@[x],
                    ),
            decreases s.len() - k,
        {
            let id: MessageId = self.messages[k];
            assert(s[k as int].0 < dm.len());
            let d: DestinationId = *destinations.get(&id).unwrap();
            let (found, at) = table.position(d);
            let ghost keys0 = table.keys@;
            let ghost values0 = table.values@;
            if !found {
                table.keys.insert(at, d);
                table.values.insert(at, MessageSet::new());
                proof {
                    assert forall|i: int| 0 <= i < s.take(k as int).len() implies !sent_to(dm, d)(
                        #[trigger] s.take(k as int)[i],
                    ) by {
                        assert(keys0.contains(dm[s[i].0 as int]));
                    }
                    lemma_filter_none(s.take(k as int), sent_to(dm, d));
                    assert forall|x: int, y: int| 0 <= x < y < table.keys@.len() implies table.keys@[x].0
                        < table.keys@[y].0 by {
                        let ox = if x < at { x } else { x - 1 };
                        let oy = if y < at { y } else { y - 1 };
                        if x != at && y != at {
                            assert(keys0[ox].0 < keys0[oy].0);
                        }
                    }
                }
            }
            let ghost keys1 = table.keys@;
            let ghost values1 = table.values@;
            proof {
                assert(keys1[at as int] == d);
                assert forall|x: int| 0 <= x < keys1.len() implies (#[trigger] values1[x]).wf()
                    && values1[x]@ == s.take(k as int).filter(sent_to(dm, keys1[x])) by {
                    if !found {
                        if x < at {
                            assert(values1[x] == values0[x]);
                        } else if x > at {
                            assert(values1[x] == values0[x - 1]);
                        }
                    }
                }
            }
            table.values[at].insert(id);
            proof {
                assert(s.take(k + 1) == s.take(k as int).push(id));
                assert forall|x: int| 0 <= x < table.keys@.len() implies (
                #[trigger] table.values@[x]).wf() && table.values@[x]@ == s.take(k + 1).filter(
                    sent_to(dm, table.keys@[x]),
                ) by {
                    s.take(k as int).lemma_filter_push(id, sent_to(dm, keys1[x]));
                    if x != at {
                        assert(table.values@[x] == values1[x]);
                        if x < at {
                            assert(keys1[x].0 < keys1[at as int].0);
                        } else {
                            assert(keys1[at as int].0 < keys1[x].0);
                        }
                    }
                }
                assert forall|i: int| 0 <= i < k + 1 implies table.keys@.contains(
                    dm[(#[trigger] s[i]).0 as int],
                ) by {
                    if i < k {
                        let e = dm[s[i].0 as int];
                        assert(keys0.contains(e));
                        let x = choose|x: int| 0 <= x < keys0.len() && keys0[x] == e;
                        if found || x < at {
                            assert(keys1[x] == e);
                        } else {
                            assert(keys1[x + 1] == e);
                        }
                    } else {
                        assert(keys1[at as int] == d);
                    }
                }
                assert forall|x: int| 0 <= x < table.keys@.len() implies has_message_to(
                    s.take(k + 1),
                    dm,
                    #[trigger] table.keys@[x],
                ) by {
                    if x == at {
                        assert(dm[s.take(k + 1)[k as int].0 as int] == keys1[x]);
                    } else {
                        let ox = if found || x < at { x } else { x - 1 };
                        assert(keys0[ox] == keys1[x]);
                        assert(has_message_to(s.take(k as int), dm, keys0[ox]));
                        let i = choose|i: int|
                            0 <= i < k && dm[(#[trigger] s.take(k as int)[i]).0 as int]
                                == keys0[ox];
                        assert(dm[s.take(k + 1)[i].0 as int] == keys1[x]);
                    }
                }
            }
            k += 1;
        }
        proof {
            assert(s.take(s.len() as int) == s);
        }
        let mut x: usize = 0;
        while x < table.values.len()
            invariant
                table.wf(),
                x <= table.values@.len(),
                table.keys@.len() == table.values@.len(),
                forall|y: int|
                    0 <= y < x ==> (#[trigger] table.values@[y]).wf() && table.values@[y].is_sorted()
                        && table.values@[y]@ == stably_sorted(
                        s.filter(sent_to(dm, table.keys@[y])),
                    ),
                forall|y: int|
                    x <= y < table.keys@.len() ==> (#[trigger] table.values@[y]).wf()
                        && table.values@[y]@ == s.filter(sent_to(dm, table.keys@[y])),
                forall|i: int| 0 <= i < s.len() ==> table.keys@.contains(dm[(#[trigger] s[i]).0 as int]),
                forall|y: int|
                    0 <= y < table.keys@.len() ==> has_message_to(s, dm, #[trigger] table.keys@[y]),
            decreases table.values@.len() - x,
        {
            let ghost values0 = table.values@;
            table.values[x].sort();
            proof {
                assert forall|y: int| 0 <= y < x + 1 implies (#[trigger] table.values@[y]).wf()
                    && table.values@[y].is_sorted() && table.values@[y]@ == stably_sorted(
                    s.filter(sent_to(dm, table.keys@[y])),
                ) by {
                    if y < x {
                        assert(table.values@[y] == values0[y]);
                    }
                }
                assert forall|y: int| x + 1 <= y < table.keys@.len() implies (
                #[trigger] table.values@[y]).wf() && table.values@[y]@ == s.filter(
                    sent_to(dm, table.keys@[y]),
                ) by {
                    assert(table.values@[y] == values0[y]);
                }
            }
            x += 1;
        }
        proof {
            assert forall|d: DestinationId| #[trigger] table@.contains_key(d) implies table@[d].wf()
                && table@[d].is_sorted() && table@[d]@ == stably_sorted(
                s.filter(sent_to(dm, d)),
            ) by {
                let y = table.keys@.index_of(d);
                table.lemma_entry(y);
                assert(table.values@[y].wf());
            }
            assert forall|d: DestinationId|
                table@.contains_key(d) <==> has_message_to(s, dm, d) by {
                if table@.contains_key(d) {
                    let y = table.keys@.index_of(d);
                    assert(has_message_to(s, dm, table.keys@[y]));
                }
                if has_message_to(s, dm, d) {
                    let i = choose|i: int| 0 <= i < s.len() && dm[(#[trigger] s[i]).0 as int] == d;
                    assert(table.keys@.contains(dm[s[i].0 as int]));
                }
            }
        }
        table
    }

    /// Get the number of contained messages
    pub fn len(&self) -> (n: usize)
        ensures
            n == self@.len(),
    {
        self.messages.len()
    }

    /// Compute the relative set distance (added, overlap) from this set to `other`
    pub fn distance(&self, other: &MessageSet) -> (r: (usize, usize))
        requires
            self.wf(),
            other.wf(),
            self.is_sorted(),
            other.is_sorted(),
        ensures
            r.0 == added_count(self@, other@),
            r.1 == overlap_count(self@, other@),
            r.0 + r.1 == other@.len(),
    {
        let mut added: usize = 0;
        let mut overlap: usize = 0;
        let mut i: usize = 0;
        let mut j: usize = 0;
        let ghost a = self.messages@;
        let ghost b = other.messages@;
        proof {
            reveal(Seq::filter);
            assert(b.take(0).filter(member_of(a)).len() == 0);
            assert(b.take(0).filter(not_member_of(a)).len() == 0);
        }
        while j < other.messages.len()
            invariant
                a == self.messages@,
                b == other.messages@,
                sorted_by_key(a),
                sorted_by_key(b),
                i <= a.len(),
                j <= b.len(),
                added == added_count(a, b.take(j as int)),
                overlap == overlap_count(a, b.take(j as int)),
                added + overlap == j,
                forall|x: int| 0 <= x < i && j < b.len() ==> a[x].0 < b[j as int].0,
            decreases b.len() - j,
        {
            let right: MessageId = other.messages[j];
            while i < self.messages.len() && self.messages[i].0 < right.0
                invariant
                    a == self.messages@,
                    i <= a.len(),
                    forall|x: int| 0 <= x < i ==> a[x].0 < right.0,
                decreases a.len() - i,
            {
                i += 1;
            }
            let found: bool = i < self.messages.len() && self.messages[i].0 == right.0;
            proof {
                if found {
                    assert(a[i as int] == right);
                } else {
                    assert forall|x: int| 0 <= x < a.len() implies a[x] != right by {
                        if x >= i {
                            assert(a[i as int].sort_key() <= a[x].sort_key());
                        }
                    }
                }
                assert(found == a.contains(right));
                assert(b.take(j + 1) == b.take(j as int).push(right));
                b.take(j as int).lemma_filter_push(right, member_of(a));
                b.take(j as int).lemma_filter_push(right, not_member_of(a));
                if j + 1 < b.len() {
                    assert forall|x: int| 0 <= x < i implies a[x].0 < b[j + 1].0 by {
                        assert(b[j as int].sort_key() <= b[j + 1].sort_key());
                    }
                }
            }
            if found {
                overlap += 1;
            } else {
                added += 1;
            }
            j += 1;
        }
        proof {
            assert(b.take(b.len() as int) == b);
        }
        (added, overlap)
    }

    /// The messages in the order in which the set holds them.
    pub fn iter(&self) -> (v: &Vec<MessageId>)
        ensures
            v@ == self@,
    {
        &self.messages
    }
}

impl Default for MessageSet {
    fn default() -> (s: Self)
        ensures
            s@ == Seq::<MessageId>::empty(),
            s.is_sorted(),
            s.wf(),
    {
        MessageSet::new()
    }
}

/// The destinations of `s` strictly ascend.
pub open spec fn ascending_destinations(s: Seq<DestinationId>) -> bool {
    forall|i: int, j: int| 0 <= i < j < s.len() ==> s[i].0 < s[j].0
}

/// Destinations that strictly ascend are all different, so there are as many
/// of them as the set of them has members.
pub proof fn lemma_ascending_distinct(k: Seq<DestinationId>)
    requires
        ascending_destinations(k),
    ensures
        k.no_duplicates(),
        k.to_set().finite(),
        k.to_set().len() == k.len(),
{
    assert forall|i: int, j: int| 0 <= i < k.len() && 0 <= j < k.len() && i != j implies k[i]
        != k[j] by {
        if i < j {
            assert(k[i].0 < k[j].0);
        } else {
            assert(k[j].0 < k[i].0);
        }
    }
    k.unique_seq_to_set();
}

/// Every message of `b` is either new or shared: the two counts add up to the
/// number of messages of `b`.
pub proof fn lemma_distance_partitions(a: Seq<MessageId>, b: Seq<MessageId>)
    ensures
        added_count(a, b) + overlap_count(a, b) == b.len(),
    decreases b.len(),
{
    if b.len() == 0 {
        b.lemma_filter_len(member_of(a));
        b.lemma_filter_len(not_member_of(a));
    } else {
        lemma_distance_partitions(a, b.drop_last());
        assert(b == b.drop_last().push(b.last()));
        b.drop_last().lemma_filter_push(b.last(), member_of(a));
        b.drop_last().lemma_filter_push(b.last(), not_member_of(a));
    }
}

/// Where no message stands twice in `b`, the distance counts sets: as many
/// messages are new as `b` has and `a` has not, and as many are shared as
/// both have.
pub proof fn lemma_distance_counts_sets(a: Seq<MessageId>, b: Seq<MessageId>)
    requires
        b.no_duplicates(),
    ensures
        b.to_set().difference(a.to_set()).finite(),
        a.to_set().intersect(b.to_set()).finite(),
        added_count(a, b) == b.to_set().difference(a.to_set()).len(),
        overlap_count(a, b) == a.to_set().intersect(b.to_set()).len(),
    decreases b.len(),
{
    if b.len() == 0 {
        b.lemma_filter_len(member_of(a));
        b.lemma_filter_len(not_member_of(a));
        assert(b.to_set().difference(a.to_set()) =~= Set::<MessageId>::empty());
        assert(a.to_set().intersect(b.to_set()) =~= Set::<MessageId>::empty());
    } else {
        let front = b.drop_last();
        let x = b.last();
        assert(b == front.push(x));
        assert(front.no_duplicates()) by {
            assert forall|i: int, j: int|
                0 <= i < front.len() && 0 <= j < front.len() && i != j implies front[i]
                != front[j] by {
                assert(b[i] != b[j]);
            }
        }
        assert(!front.contains(x)) by {
            if front.contains(x) {
                let i = choose|i: int| 0 <= i < front.len() && front[i] == x;
                assert(b[i] != b[b.len() - 1]);
            }
        }
        lemma_distance_counts_sets(a, front);
        front.lemma_filter_push(x, member_of(a));
        front.lemma_filter_push(x, not_member_of(a));
        assert(b.to_set() =~= front.to_set().insert(x)) by {
            assert forall|m: MessageId| b.to_set().contains(m) <==> front.to_set().insert(
                x,
            ).contains(m) by {
                if b.contains(m) {
                    let i = choose|i: int| 0 <= i < b.len() && b[i] == m;
                    if i < front.len() {
                        assert(front[i] == m);
                    }
                }
                if front.contains(m) {
                    let i = choose|i: int| 0 <= i < front.len() && front[i] == m;
                    assert(b[i] == m);
                }
                assert(b[b.len() - 1] == x);
            }
        }
        let new0 = front.to_set().difference(a.to_set());
        let both0 = a.to_set().intersect(front.to_set());
        if a.contains(x) {
            assert(b.to_set().difference(a.to_set()) =~= new0);
            assert(a.to_set().intersect(b.to_set()) =~= both0.insert(x));
            assert(!both0.contains(x));
        } else {
            assert(b.to_set().difference(a.to_set()) =~= new0.insert(x));
            assert(a.to_set().intersect(b.to_set()) =~= both0);
            assert(!new0.contains(x));
        }
    }
}

/// Against an empty set, every message is new.
pub proof fn lemma_distance_from_nothing(b: Seq<MessageId>)
    ensures
        added_count(Seq::<MessageId>::empty(), b) == b.len(),
        overlap_count(Seq::<MessageId>::empty(), b) == 0,
{
    let a = Seq::<MessageId>::empty();
    crate::seqs::lemma_filter_all(b, not_member_of(a));
    lemma_filter_none(b, member_of(a));
}

/// A table from destinations to values, kept in ascending order of the
/// destinations.
pub struct DestinationTable<T> {
    keys: Vec<DestinationId>,
    values: Vec<T>,
}

impl<T> View for DestinationTable<T> {
    type V = Map<DestinationId, T>;

    open spec fn view(&self) -> Map<DestinationId, T> {
        Map::new(
            |d: DestinationId| self.key_seq().contains(d),
            |d: DestinationId| self.value_seq()[self.key_seq().index_of(d)],
        )
    }
}

impl<T> DestinationTable<T> {
    /// The destinations of the table, in the order in which it holds them.
    pub closed spec fn key_seq(&self) -> Seq<DestinationId> {
        self.keys@
    }

    /// The values of the table, each at the place of its destination.
    pub closed spec fn value_seq(&self) -> Seq<T> {
        self.values@
    }

    /// Every destination has one value, and the destinations strictly ascend.
    pub open spec fn wf(&self) -> bool {
        &&& self.key_seq().len() == self.value_seq().len()
        &&& ascending_destinations(self.key_seq())
    }

    /// The destination at place `i` is mapped to the value at place `i`.
    pub proof fn lemma_entry(&self, i: int)
        requires
            self.wf(),
            0 <= i < self.key_seq().len(),
        ensures
            self@.contains_key(self.key_seq()[i]),
            self@[self.key_seq()[i]] == self.value_seq()[i],
            self.key_seq().index_of(self.key_seq()[i]) == i,
    {
        let d = self.key_seq()[i];
        let x = self.key_seq().index_of(d);
        assert(self.key_seq().contains(d));
        if x < i {
            assert(self.key_seq()[x].0 < self.key_seq()[i].0);
        } else if i < x {
            assert(self.key_seq()[i].0 < self.key_seq()[x].0);
        }
    }

    /// An empty table.
    pub fn new() -> (t: Self)
        ensures
            t.wf(),
            t.key_seq() == Seq::<DestinationId>::empty(),
            t@ == Map::<DestinationId, T>::empty(),
    {
        let t = DestinationTable { keys: Vec::new(), values: Vec::new() };
        proof {
            assert(t@ =~= Map::<DestinationId, T>::empty());
        }
        t
    }

    /// The number of destinations in the table.
    pub fn len(&self) -> (n: usize)
        requires
            self.wf(),
        ensures
            n == self.key_seq().len(),
            n == self@.dom().len(),
            self@.dom().finite(),
    {
        proof {
            self.lemma_domain();
        }
        self.keys.len()
    }

    /// The domain of the table is the set of its destinations.
    pub proof fn lemma_domain(&self)
        requires
            self.wf(),
        ensures
            self@.dom() == self.key_seq().to_set(),
            self@.dom().finite(),
            self@.dom().len() == self.key_seq().len(),
            self.key_seq().no_duplicates(),
    {
        let k = self.key_seq();
        assert(self@.dom() =~= k.to_set());
        assert(k.no_duplicates()) by {
            assert forall|i: int, j: int| 0 <= i < k.len() && 0 <= j < k.len() && i != j implies k[i]
                != k[j] by {
                if i < j {
                    assert(k[i].0 < k[j].0);
                } else {
                    assert(k[j].0 < k[i].0);
                }
            }
        }
        k.unique_seq_to_set();
    }

    /// The destination at place `i`.
    pub fn key_at(&self, i: usize) -> (d: DestinationId)
        requires
            self.wf(),
            i < self.key_seq().len(),
        ensures
            d == self.key_seq()[i as int],
    {
        self.keys[i]
    }

    /// The value at place `i`.
    pub fn value_at(&self, i: usize) -> (v: &T)
        requires
            self.wf(),
            i < self.key_seq().len(),
        ensures
            *v == self.value_seq()[i as int],
    {
        &self.values[i]
    }

    /// The place of `d` in the table, or the place at which it would have to
    /// be put.
    fn position(&self, d: DestinationId) -> (r: (bool, usize))
        requires
            self.wf(),
        ensures
            r.1 <= self.key_seq().len(),
            r.0 ==> r.1 < self.key_seq().len() && self.key_seq()[r.1 as int] == d,
            r.0 == self.key_seq().contains(d),
            forall|i: int| 0 <= i < r.1 ==> self.key_seq()[i].0 < d.0,
            forall|i: int| r.1 <= i < self.key_seq().len() ==> d.0 <= self.key_seq()[i].0,
    {
        let mut lo: usize = 0;
        let mut hi: usize = self.keys.len();
        while lo < hi
            invariant
                self.wf(),
                lo <= hi <= self.keys@.len(),
                forall|i: int| 0 <= i < lo ==> self.keys@[i].0 < d.0,
                forall|i: int| hi <= i < self.keys@.len() ==> d.0 <= self.keys@[i].0,
            decreases hi - lo,
        {
            let mid: usize = lo + (hi - lo) / 2;
            if self.keys[mid].0 < d.0 {
                proof {
                    assert forall|i: int| 0 <= i < mid + 1 implies self.keys@[i].0 < d.0 by {
                        if i < mid {
                            assert(self.keys@[i].0 < self.keys@[mid as int].0);
                        }
                    }
                }
                lo = mid + 1;
            } else {
                proof {
                    assert forall|i: int| mid <= i < self.keys@.len() implies d.0
                        <= self.keys@[i].0 by {
                        if mid < i {
                            assert(self.keys@[mid as int].0 < self.keys@[i].0);
                        }
                    }
                }
                hi = mid;
            }
        }
        let found: bool = lo < self.keys.len() && self.keys[lo].0 == d.0;
        proof {
            if !found {
                assert forall|i: int| 0 <= i < self.keys@.len() implies self.keys@[i] != d by {
                    if i > lo {
                        assert(self.keys@[lo as int].0 < self.keys@[i].0);
                    }
                }
            }
        }
        (found, lo)
    }

    /// The value of destination `d`, if the table has one.
    pub fn get(&self, d: DestinationId) -> (r: Option<&T>)
        requires
            self.wf(),
        ensures
            match r {
                Some(v) => self@.contains_key(d) && *v == self@[d],
                None => !self@.contains_key(d),
            },
    {
        let (found, i) = self.position(d);
        if found {
            proof {
                self.lemma_entry(i as int);
            }
            Some(&self.values[i])
        } else {
            None
        }
    }

    /// Puts `v` at destination `d`, in place of the value that `d` had, if any.
    pub fn insert(&mut self, d: DestinationId, v: T)
        requires
            old(self).wf(),
        ensures
            final(self).wf(),
            final(self)@ == old(self)@.insert(d, v),
    {
        let (found, i) = self.position(d);
        if found {
            self.values[i] = v;
            proof {
                assert(self.key_seq() == old(self).key_seq());
                assert forall|e: DestinationId| self@.contains_key(e) implies #[trigger] self@[e]
                    == old(self)@.insert(d, v)[e] by {
                    let x = self.key_seq().index_of(e);
                    self.lemma_entry(x);
                    old(self).lemma_entry(x);
                }
                assert(self@ =~= old(self)@.insert(d, v));
            }
        } else {
            self.keys.insert(i, d);
            self.values.insert(i, v);
            proof {
                let ok = old(self).key_seq();
                let nk = self.key_seq();
                assert(nk == ok.insert(i as int, d));
                assert(ascending_destinations(nk)) by {
                    assert forall|x: int, y: int| 0 <= x < y < nk.len() implies nk[x].0
                        < nk[y].0 by {
                        let ox = if x < i { x } else { x - 1 };
                        let oy = if y < i { y } else { y - 1 };
                        if x != i && y != i {
                            assert(ok[ox].0 < ok[oy].0);
                        }
                    }
                }
                assert forall|e: DestinationId| self@.contains_key(e) <==> old(self)@.insert(
                    d,
                    v,
                ).contains_key(e) by {
                    if nk.contains(e) {
                        let x = choose|x: int| 0 <= x < nk.len() && nk[x] == e;
                        if x < i {
                            assert(ok[x] == e);
                        } else if x > i {
                            assert(ok[x - 1] == e);
                        }
                    }
                    if ok.contains(e) {
                        let x = choose|x: int| 0 <= x < ok.len() && ok[x] == e;
                        if x < i {
                            assert(nk[x] == e);
                        } else {
                            assert(nk[x + 1] == e);
                        }
                    }
                    if e == d {
                        assert(nk[i as int] == e);
                    }
                }
                assert forall|e: DestinationId| self@.contains_key(e) implies #[trigger] self@[e]
                    == old(self)@.insert(d, v)[e] by {
                    let x = nk.index_of(e);
                    self.lemma_entry(x);
                    if x < i {
                        old(self).lemma_entry(x);
                    } else if x > i {
                        old(self).lemma_entry(x - 1);
                    }
                }
                assert(self@ =~= old(self)@.insert(d, v));
            }
        }
    }

    /// The destinations of the table, in ascending order.
    pub fn keys(&self) -> (r: Vec<DestinationId>)
        requires
            self.wf(),
        ensures
            r@ == self.key_seq(),
            ascending_destinations(r@),
            r@.to_set() == self@.dom(),
    {
        let mut r: Vec<DestinationId> = Vec::with_capacity(self.keys.len());
        let mut i: usize = 0;
        while i < self.keys.len()
            invariant
                i <= self.keys@.len(),
                r@ == self.keys@.take(i as int),
            decreases self.keys@.len() - i,
        {
            r.push(self.keys[i]);
            proof {
                assert(self.keys@.take(i + 1) == self.keys@.take(i as int).push(self.keys@[i as int]));
            }
            i += 1;
        }
        proof {
            assert(self.keys@.take(self.keys@.len() as int) == self.keys@);
            self.lemma_domain();
        }
        r
    }
}

} // verus!
