//! The answers of a message by name, and the walk from a hostname along its
//! aliases to its addresses.

use vstd::prelude::*;
use crate::dns_components::dns_message::{records_view, DnsMessage};
use crate::dns_components::dns_name::DnsName;
use crate::dns_components::dns_rdata::{DnsRdata, Ipv4Addr, RdataView};
use crate::dns_components::dns_rr::RecordView;

verus! {

/// The payloads of a vector of payloads, each as a mathematical value.
pub open spec fn rdatas_view(values: Seq<DnsRdata>) -> Seq<RdataView> {
    values.map_values(|v: DnsRdata| v@)
}

/// The payloads recorded under `key`, none if the table has no such key.
pub open spec fn values_under(
    table: Map<Seq<Seq<u8>>, Seq<RdataView>>,
    key: Seq<Seq<u8>>,
) -> Seq<RdataView> {
    if table.dom().contains(key) {
        table[key]
    } else {
        Seq::empty()
    }
}

/// The table with `value` added after the payloads that `key` already has.
pub open spec fn appended(
    table: Map<Seq<Seq<u8>>, Seq<RdataView>>,
    key: Seq<Seq<u8>>,
    value: RdataView,
) -> Map<Seq<Seq<u8>>, Seq<RdataView>> {
    table.insert(key, values_under(table, key).push(value))
}

/// The table of an answer section: under each record's name, the payloads
/// of the records with that name, in the order of the section.
pub open spec fn alias_map(answers: Seq<RecordView>) -> Map<Seq<Seq<u8>>, Seq<RdataView>>
    decreases answers.len(),
{
    if answers.len() == 0 {
        Map::empty()
    } else {
        appended(alias_map(answers.drop_last()), answers.last().name, answers.last().rdata)
    }
}

/// The payloads recorded under one name.
struct AliasEntry {
    key: DnsName,
    values: Vec<DnsRdata>,
}

/// The table that a sequence of entries with distinct keys stands for.
spec fn entries_map(entries: Seq<AliasEntry>) -> Map<Seq<Seq<u8>>, Seq<RdataView>>
    decreases entries.len(),
{
    if entries.len() == 0 {
        Map::empty()
    } else {
        entries_map(entries.drop_last()).insert(
            entries.last().key@,
            rdatas_view(entries.last().values@),
        )
    }
}

/// Whether no two entries have the same key.
spec fn distinct_keys(entries: Seq<AliasEntry>) -> bool {
    forall|i: int, j: int|
        0 <= i < j < entries.len() ==> (#[trigger] entries[i]).key@ != (#[trigger] entries[j]).key@
}

/// A key that no entry has is not in the table.
proof fn lemma_absent(entries: Seq<AliasEntry>, key: Seq<Seq<u8>>)
    requires
        forall|i: int| 0 <= i < entries.len() ==> (#[trigger] entries[i]).key@ != key,
    ensures
        !entries_map(entries).dom().contains(key),
    decreases entries.len(),
{
    if entries.len() > 0 {
        let before = entries.drop_last();
        assert forall|i: int| 0 <= i < before.len() implies (#[trigger] before[i]).key@ != key by {
            assert(before[i] == entries[i]);
        }
        lemma_absent(before, key);
        assert(entries.last() == entries[entries.len() - 1]);
    }
}

/// The key of each entry is in the table, with the entry's payloads.
proof fn lemma_present(entries: Seq<AliasEntry>, at: int)
    requires
        distinct_keys(entries),
        0 <= at < entries.len(),
    ensures
        entries_map(entries).dom().contains(entries[at].key@),
        entries_map(entries)[entries[at].key@] == rdatas_view(entries[at].values@),
    decreases entries.len(),
{
    let before = entries.drop_last();
    if at < entries.len() - 1 {
        assert(distinct_keys(before)) by {
            assert forall|i: int, j: int| 0 <= i < j < before.len() implies (#[trigger] before[i]).key@
                != (#[trigger] before[j]).key@ by {
                assert(before[i] == entries[i] && before[j] == entries[j]);
            }
        }
        lemma_present(before, at);
        assert(before[at] == entries[at]);
        assert(entries[at].key@ != entries[entries.len() - 1].key@);
    }
}

/// Giving one entry more payloads changes the table at that entry's key
/// alone.
proof fn lemma_replaced(entries: Seq<AliasEntry>, at: int, entry: AliasEntry)
    requires
        distinct_keys(entries),
        0 <= at < entries.len(),
        entry.key@ == entries[at].key@,
    ensures
        entries_map(entries.update(at, entry)) == entries_map(entries).insert(
            entry.key@,
            rdatas_view(entry.values@),
        ),
        distinct_keys(entries.update(at, entry)),
    decreases entries.len(),
{
    let after = entries.update(at, entry);
    let before = entries.drop_last();
    assert(distinct_keys(after)) by {
        assert forall|i: int, j: int| 0 <= i < j < after.len() implies (#[trigger] after[i]).key@
            != (#[trigger] after[j]).key@ by {
            assert(after[i].key@ == entries[i].key@ && after[j].key@ == entries[j].key@);
        }
    }
    if at == entries.len() - 1 {
        assert(after.drop_last() == before);
        assert(entries_map(after) =~= entries_map(entries).insert(
            entry.key@,
            rdatas_view(entry.values@),
        ));
    } else {
        assert(distinct_keys(before)) by {
            assert forall|i: int, j: int| 0 <= i < j < before.len() implies (#[trigger] before[i]).key@
                != (#[trigger] before[j]).key@ by {
                assert(before[i] == entries[i] && before[j] == entries[j]);
            }
        }
        assert(before[at] == entries[at]);
        lemma_replaced(before, at, entry);
        assert(after.drop_last() == before.update(at, entry));
        assert(after.last() == entries.last());
        assert(entries[at].key@ != entries[entries.len() - 1].key@);
        assert(entries_map(after) =~= entries_map(entries).insert(
            entry.key@,
            rdatas_view(entry.values@),
        ));
    }
}

/// The table of finitely many entries has finitely many keys.
proof fn lemma_entries_finite(entries: Seq<AliasEntry>)
    ensures
        entries_map(entries).dom().finite(),
    decreases entries.len(),
{
    if entries.len() > 0 {
        lemma_entries_finite(entries.drop_last());
    }
}

/// What the walk reports, in order.
#[derive(PartialEq, Eq, Debug, Clone, Hash)]
pub enum Resolution {
    /// `name` has the address `address`.
    Address { name: DnsName, address: Ipv4Addr },
    /// `name` is an alias for `target`.
    Alias { name: DnsName, target: DnsName },
}

/// A report as a mathematical value.
pub enum ResolutionView {
    Address { name: Seq<Seq<u8>>, address: Seq<u8> },
    Alias { name: Seq<Seq<u8>>, target: Seq<Seq<u8>> },
}

impl View for Resolution {
    type V = ResolutionView;

    open spec fn view(&self) -> ResolutionView {
        match self {
            Resolution::Address { name, address } => ResolutionView::Address {
                name: name@,
                address: address@,
            },
            Resolution::Alias { name, target } => ResolutionView::Alias {
                name: name@,
                target: target@,
            },
        }
    }
}

/// The reports of a vector of reports, each as a mathematical value.
pub open spec fn resolutions_view(reports: Seq<Resolution>) -> Seq<ResolutionView> {
    reports.map_values(|r: Resolution| r@)
}

/// What one payload recorded under `name` is reported as.
pub open spec fn report_of(name: Seq<Seq<u8>>, value: RdataView) -> ResolutionView {
    match value {
        RdataView::Address(address) => ResolutionView::Address { name, address },
        RdataView::Alias(target) => ResolutionView::Alias { name, target },
    }
}

/// A name whose payloads are being reported, with the payloads that are
/// still to come.
pub struct Pending {
    pub name: Seq<Seq<u8>>,
    pub values: Seq<RdataView>,
}

/// The number of names in the table that have not been visited.
pub open spec fn unvisited(
    table: Map<Seq<Seq<u8>>, Seq<RdataView>>,
    visited: Set<Seq<Seq<u8>>>,
) -> nat {
    table.dom().difference(visited).len()
}

/// The number of steps that the names on `stack` need without their
/// aliases: one for each payload that is still to come, and one to leave
/// each name.
pub open spec fn work(stack: Seq<Pending>) -> nat
    decreases stack.len(),
{
    if stack.len() == 0 {
        0
    } else {
        work(stack.drop_last()) + stack.last().values.len() + 1
    }
}

/// Visiting a name of the table for the first time leaves fewer names
/// unvisited.
pub proof fn lemma_visit_decreases(
    table: Map<Seq<Seq<u8>>, Seq<RdataView>>,
    visited: Set<Seq<Seq<u8>>>,
    name: Seq<Seq<u8>>,
)
    requires
        table.dom().finite(),
        table.dom().contains(name),
        !visited.contains(name),
    ensures
        unvisited(table, visited.insert(name)) < unvisited(table, visited),
{
    let open = table.dom().difference(visited);
    assert(open.finite());
    assert(open.contains(name));
    assert(table.dom().difference(visited.insert(name)) =~= open.remove(name));
}

/// The stack after the next payload of its top name has been reported.
pub open spec fn advanced(stack: Seq<Pending>) -> Seq<Pending> {
    stack.drop_last().push(
        Pending { name: stack.last().name, values: stack.last().values.drop_first() },
    )
}

/// Whether the walk follows `value`: it is an alias for a name that the
/// table has and that the walk has not visited.
pub open spec fn follows(
    table: Map<Seq<Seq<u8>>, Seq<RdataView>>,
    visited: Set<Seq<Seq<u8>>>,
    value: RdataView,
) -> bool {
    value matches RdataView::Alias(target) && table.dom().contains(target) && !visited.contains(
        target,
    )
}

/// What the walk still reports when the names on `stack` are being
/// reported, the last of them first, and the names in `visited` have been
/// visited.
///
/// The next payload of the top name is reported. If it is an alias for a
/// name that the table has and the walk has not visited, the payloads of
/// that name come next, before the top name's other payloads. A name whose
/// payloads have all been reported leaves the stack. As no name is visited
/// twice, aliases that lead back to a name end there instead of going round.
pub open spec fn walk(
    table: Map<Seq<Seq<u8>>, Seq<RdataView>>,
    stack: Seq<Pending>,
    visited: Set<Seq<Seq<u8>>>,
) -> Seq<ResolutionView>
    decreases unvisited(table, visited), work(stack),
    when table.dom().finite()
    via walk_terminates
{
    if stack.len() == 0 {
        Seq::empty()
    } else if stack.last().values.len() == 0 {
        walk(table, stack.drop_last(), visited)
    } else {
        let value = stack.last().values[0];
        let report = seq![report_of(stack.last().name, value)];
        if follows(table, visited, value) {
            let target = value->Alias_0;
            report + walk(
                table,
                advanced(stack).push(Pending { name: target, values: table[target] }),
                visited.insert(target),
            )
        } else {
            report + walk(table, advanced(stack), visited)
        }
    }
}

/// Reporting the next payload of the top name takes one step.
proof fn lemma_advanced_work(stack: Seq<Pending>)
    requires
        stack.len() > 0,
        stack.last().values.len() > 0,
    ensures
        work(advanced(stack)) + 1 == work(stack),
{
    let next = advanced(stack);
    assert(next.drop_last() == stack.drop_last());
}

#[via_fn]
proof fn walk_terminates(
    table: Map<Seq<Seq<u8>>, Seq<RdataView>>,
    stack: Seq<Pending>,
    visited: Set<Seq<Seq<u8>>>,
) {
    if stack.len() > 0 && stack.last().values.len() > 0 {
        let value = stack.last().values[0];
        lemma_advanced_work(stack);
        if follows(table, visited, value) {
            lemma_visit_decreases(table, visited, value->Alias_0);
        }
    }
}

/// What resolving `start` against `table` reports: nothing if the table
/// does not have that name, else the walk that begins with the payloads of
/// `start`.
pub open spec fn resolution(
    table: Map<Seq<Seq<u8>>, Seq<RdataView>>,
    start: Seq<Seq<u8>>,
) -> Seq<ResolutionView> {
    if table.dom().contains(start) {
        walk(table, seq![Pending { name: start, values: table[start] }], set![start])
    } else {
        Seq::empty()
    }
}

/// The name and the payloads to come of the entry `at.0`, of whose payloads
/// `at.1` have been reported.
spec fn frame_view(entries: Seq<AliasEntry>, at: (usize, usize)) -> Pending {
    Pending {
        name: entries[at.0 as int].key@,
        values: rdatas_view(entries[at.0 as int].values@).skip(at.1 as int),
    }
}

/// The stack that a vector of such pairs stands for.
spec fn frames_view(entries: Seq<AliasEntry>, frames: Seq<(usize, usize)>) -> Seq<Pending> {
    frames.map_values(|at: (usize, usize)| frame_view(entries, at))
}

/// Whether each pair names an entry and a number of its payloads.
spec fn frames_fit(entries: Seq<AliasEntry>, frames: Seq<(usize, usize)>) -> bool {
    forall|i: int|
        0 <= i < frames.len() ==> (#[trigger] frames[i]).0 < entries.len() && frames[i].1
            <= entries[frames[i].0 as int].values@.len()
}

/// The payloads of an answer section by the name of their record.
///
/// Under each name the payloads keep the order in which they were added. No
/// name is held twice.
pub struct AliasTable {
    entries: Vec<AliasEntry>,
}

impl View for AliasTable {
    type V = Map<Seq<Seq<u8>>, Seq<RdataView>>;

    closed spec fn view(&self) -> Map<Seq<Seq<u8>>, Seq<RdataView>> {
        entries_map(self.entries@)
    }
}

impl AliasTable {
    #[verifier::type_invariant]
    spec fn distinct(&self) -> bool {
        distinct_keys(self.entries@)
    }

    /// A table without names.
    pub fn new() -> (table: Self)
        ensures
            table@ == Map::<Seq<Seq<u8>>, Seq<RdataView>>::empty(),
    {
        Self { entries: Vec::new() }
    }

    /// The names of a table are finitely many.
    pub proof fn lemma_finite(&self)
        ensures
            self@.dom().finite(),
    {
        lemma_entries_finite(self.entries@);
    }

    /// The index of the entry for `key`, if there is one.
    fn position(&self, key: &DnsName) -> (r: Option<usize>)
        ensures
            match r {
                Some(at) => at < self.entries@.len() && self.entries@[at as int].key@ == key@,
                None => forall|i: int|
                    0 <= i < self.entries@.len() ==> (#[trigger] self.entries@[i]).key@ != key@,
            },
    {
        let mut i: usize = 0;
        while i < self.entries.len()
            invariant
                i <= self.entries.len(),
                forall|j: int| 0 <= j < i ==> (#[trigger] self.entries@[j]).key@ != key@,
            decreases self.entries.len() - i,
        {
            if self.entries[i].key.same_as(key) {
                return Some(i);
            }
            i = i + 1;
        }
        None
    }

    /// The payloads recorded under `key`, if the table has that name.
    pub fn get(&self, key: &DnsName) -> (r: Option<&Vec<DnsRdata>>)
        ensures
            match r {
                Some(values) => self@.dom().contains(key@) && self@[key@] == rdatas_view(values@),
                None => !self@.dom().contains(key@),
            },
    {
        proof {
            use_type_invariant(self);
        }
        match self.position(key) {
            Some(at) => {
                proof {
                    lemma_present(self.entries@, at as int);
                }
                Some(&self.entries[at].values)
            },
            None => {
                proof {
                    lemma_absent(self.entries@, key@);
                }
                None
            },
        }
    }

    /// The table with `value` added after the payloads that are recorded
    /// under `key`.
    pub fn append(self, key: &DnsName, value: DnsRdata) -> (table: Self)
        ensures
            table@ == appended(self@, key@, value@),
    {
        proof {
            use_type_invariant(&self);
        }
        let found = self.position(key);
        let ghost before = self.entries@;
        let mut entries = self.entries;
        match found {
            Some(at) => {
                let ghost held = rdatas_view(entries@[at as int].values@);
                entries[at].values.push(value);
                proof {
                    let entry = entries@[at as int];
                    assert(entries@ == before.update(at as int, entry));
                    assert(rdatas_view(entry.values@) == held.push(value@));
                    lemma_present(before, at as int);
                    lemma_replaced(before, at as int, entry);
                }
            },
            None => {
                let mut values: Vec<DnsRdata> = Vec::new();
                values.push(value);
                let entry = AliasEntry { key: key.duplicate(), values };
                entries.push(entry);
                proof {
                    lemma_absent(before, key@);
                    assert(entries@.drop_last() == before);
                    assert(rdatas_view(entry.values@) == Seq::<RdataView>::empty().push(value@));
                    assert forall|i: int, j: int| 0 <= i < j < entries@.len() implies (
                    #[trigger] entries@[i]).key@ != (#[trigger] entries@[j]).key@ by {
                        if j < before.len() {
                            assert(entries@[i] == before[i] && entries@[j] == before[j]);
                        } else {
                            assert(entries@[i] == before[i]);
                        }
                    }
                }
            },
        }
        Self { entries }
    }

    /// Walks from `start` along its aliases and reports every address and
    /// every alias found on the way.
    ///
    /// The payloads recorded under a name are reported in their order; after
    /// an alias come the payloads of the name that it leads to, if that name
    /// was not visited before. No name is visited twice, so that a chain of
    /// aliases that leads back to itself ends the walk.
    pub fn resolve(&self, start: &DnsName) -> (reports: Vec<Resolution>)
        ensures
            resolutions_view(reports@) == resolution(self@, start@),
    {
        proof {
            use_type_invariant(self);
            lemma_entries_finite(self.entries@);
        }
        let mut reports: Vec<Resolution> = Vec::new();
        assert(resolutions_view(reports@) == Seq::<ResolutionView>::empty());
        let first = match self.position(start) {
            Some(first) => first,
            None => {
                proof {
                    lemma_absent(self.entries@, start@);
                }
                return reports;
            },
        };
        let mut seen: Vec<bool> = Vec::new();
        let mut k: usize = 0;
        while k < self.entries.len()
            invariant
                k <= self.entries.len(),
                seen@.len() == k,
                forall|i: int| 0 <= i < k ==> !seen@[i],
            decreases self.entries.len() - k,
        {
            seen.push(false);
            k = k + 1;
        }
        seen.set(first, true);
        let mut stack: Vec<(usize, usize)> = Vec::new();
        stack.push((first, 0));
        let ghost mut visited: Set<Seq<Seq<u8>>> = set![start@];
        proof {
            lemma_present(self.entries@, first as int);
            let held = rdatas_view(self.entries@[first as int].values@);
            assert(held.skip(0) == held);
            assert(frames_view(self.entries@, stack@) == seq![
                Pending { name: start@, values: self@[start@] },
            ]);
            assert(Seq::<ResolutionView>::empty() + resolution(self@, start@) == resolution(
                self@,
                start@,
            ));
            assert forall|i: int| 0 <= i < self.entries@.len() implies (#[trigger] seen@[i]
                == visited.contains(self.entries@[i].key@)) by {
                if i != first {
                    assert(self.entries@[i].key@ != self.entries@[first as int].key@);
                }
            }
        }
        while stack.len() > 0
            invariant
                distinct_keys(self.entries@),
                self@.dom().finite(),
                seen@.len() == self.entries@.len(),
                frames_fit(self.entries@, stack@),
                forall|i: int|
                    0 <= i < self.entries@.len() ==> (#[trigger] seen@[i] == visited.contains(
                        self.entries@[i].key@,
                    )),
                resolutions_view(reports@) + walk(
                    self@,
                    frames_view(self.entries@, stack@),
                    visited,
                ) == resolution(self@, start@),
            decreases unvisited(self@, visited), work(frames_view(self.entries@, stack@)),
        {
            let ghost before = frames_view(self.entries@, stack@);
            let ghost below = stack@.drop_last();
            let ghost reported = resolutions_view(reports@);
            let (at, done) = stack[stack.len() - 1];
            let values = &self.entries[at].values;
            let ghost name = self.entries@[at as int].key@;
            let ghost held = rdatas_view(values@);
            proof {
                assert(stack@[stack@.len() - 1] == (at, done));
                assert(before.last() == frame_view(self.entries@, (at, done)));
                assert(before.drop_last() == frames_view(self.entries@, below));
            }
            stack.pop();
            if done < values.len() {
                let ghost value = held[done as int];
                stack.push((at, done + 1));
                proof {
                    assert(held.skip(done as int)[0] == value);
                    assert(held.skip(done as int).drop_first() == held.skip(done + 1));
                    assert(frames_view(self.entries@, stack@) == advanced(before));
                    lemma_advanced_work(before);
                    assert(reported + (seq![report_of(name, value)] + walk(
                        self@,
                        advanced(before),
                        visited,
                    )) == reported.push(report_of(name, value)) + walk(
                        self@,
                        advanced(before),
                        visited,
                    ));
                }
                let owner = self.entries[at].key.duplicate();
                match &values[done] {
                    DnsRdata::ARecord(address) => {
                        let report = Resolution::Address { name: owner, address: *address };
                        reports.push(report);
                        assert(resolutions_view(reports@) == reported.push(report@));
                    },
                    DnsRdata::CnameRecord(target) => {
                        let report = Resolution::Alias { name: owner, target: target.duplicate() };
                        reports.push(report);
                        assert(resolutions_view(reports@) == reported.push(report@));
                        let found = self.position(target);
                        proof {
                            match found {
                                Some(next) => lemma_present(self.entries@, next as int),
                                None => lemma_absent(self.entries@, target@),
                            }
                        }
                        if let Some(next) = found {
                            if !seen[next] {
                                let ghost waiting = frames_view(self.entries@, stack@);
                                seen.set(next, true);
                                stack.push((next, 0));
                                proof {
                                    let all = rdatas_view(self.entries@[next as int].values@);
                                    assert(all.skip(0) == all);
                                    assert(frames_view(self.entries@, stack@) == waiting.push(
                                        Pending { name: target@, values: self@[target@] },
                                    ));
                                    lemma_visit_decreases(self@, visited, target@);
                                    assert forall|i: int| 0 <= i < self.entries@.len() implies (
                                    #[trigger] seen@[i] == visited.insert(target@).contains(
                                        self.entries@[i].key@,
                                    )) by {
                                        if i != next {
                                            assert(self.entries@[i].key@
                                                != self.entries@[next as int].key@);
                                        }
                                    }
                                    assert(reported + (seq![report_of(name, value)] + walk(
                                        self@,
                                        advanced(before).push(
                                            Pending { name: target@, values: self@[target@] },
                                        ),
                                        visited.insert(target@),
                                    )) == reported.push(report_of(name, value)) + walk(
                                        self@,
                                        advanced(before).push(
                                            Pending { name: target@, values: self@[target@] },
                                        ),
                                        visited.insert(target@),
                                    ));
                                    visited = visited.insert(target@);
                                }
                            }
                        }
                    },
                }
            } else {
                proof {
                    assert(held.skip(done as int).len() == 0);
                }
            }
        }
        proof {
            assert(frames_view(self.entries@, stack@).len() == 0);
            assert(resolutions_view(reports@) + Seq::<ResolutionView>::empty() == resolutions_view(
                reports@,
            ));
        }
        reports
    }
}

impl DnsMessage {
    /// The table of the message's answer section: under each record's name,
    /// the payloads of the answers with that name, in their order.
    pub fn get_ip_table(&self) -> (table: AliasTable)
        ensures
            table@ == alias_map(self@.answers),
    {
        let mut table = AliasTable::new();
        let ghost answers = self@.answers;
        let mut i: usize = 0;
        while i < self.answers.len()
            invariant
                i <= self.answers.len(),
                answers == records_view(self.answers@),
                table@ == alias_map(answers.take(i as int)),
            decreases self.answers.len() - i,
        {
            let answer = &self.answers[i];
            proof {
                let next = answers.take(i + 1);
                assert(next.drop_last() == answers.take(i as int));
                assert(next.last() == answer@);
            }
            table = table.append(&answer.name, answer.rdata.duplicate());
            i = i + 1;
        }
        assert(answers.take(i as int) == answers);
        table
    }
}

} // verus!
