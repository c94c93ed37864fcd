//! The list of symbol files that a debugger reads.

use std::collections::BTreeMap;
use vstd::prelude::*;

verus! {

/// The version of the interface between programs and debuggers.
pub const JIT_DESCRIPTOR_VERSION: u32 = 1;

/// Nothing was done to the list.
pub const JIT_NOACTION: u32 = 0;

/// An entry was put in.
pub const JIT_REGISTER_FN: u32 = 1;

/// An entry was taken out.
pub const JIT_UNREGISTER_FN: u32 = 2;

/// An entry of the list. Other entries are named by their addresses; zero
/// stands for none.
#[derive(Clone, Copy, Debug, PartialEq, Eq, Structural)]
pub struct JitCodeEntry {
    pub next: u64,
    pub prev: u64,
    pub symfile_addr: u64,
    pub symfile_size: u64,
}

/// New links for the entry at an address.
#[derive(Clone, Copy, Debug, PartialEq, Eq, Structural)]
pub struct LinkWrite {
    pub entry: u64,
    pub next: u64,
    pub prev: u64,
}

/// What tells a debugger of the list. The entries stand at addresses of the
/// process.
pub struct JitDescriptor {
    version: u32,
    action_flag: u32,
    relevant_entry: u64,
    first_entry: u64,
    entries: BTreeMap<u64, JitCodeEntry>,
    order: Ghost<Seq<u64>>,
}

/// What a [`JitDescriptor`] says.
pub struct DescriptorView {
    pub version: u32,
    pub action_flag: u32,
    pub relevant_entry: u64,
    pub first_entry: u64,
    /// The entries by their addresses.
    pub entries: Map<u64, JitCodeEntry>,
    /// The addresses of the entries, from the first one on.
    pub order: Seq<u64>,
}

impl View for JitDescriptor {
    type V = DescriptorView;

    closed spec fn view(&self) -> DescriptorView {
        DescriptorView {
            version: self.version,
            action_flag: self.action_flag,
            relevant_entry: self.relevant_entry,
            first_entry: self.first_entry,
            entries: self.entries@,
            order: self.order@,
        }
    }
}

/// The address after index `i`.
pub open spec fn link_after(order: Seq<u64>, i: int) -> u64 {
    if i + 1 < order.len() {
        order[i + 1]
    } else {
        0
    }
}

/// The address before index `i`.
pub open spec fn link_before(order: Seq<u64>, i: int) -> u64 {
    if i > 0 {
        order[i - 1]
    } else {
        0
    }
}

impl DescriptorView {
    /// What every list keeps: each entry once, the links of neighbours to each
    /// other, and none past the ends.
    pub open spec fn wf(self) -> bool {
        &&& self.order.no_duplicates()
        &&& !self.order.contains(0)
        &&& self.first_entry == link_after(self.order, -1)
        &&& forall|a: u64| #[trigger] self.entries.contains_key(a) <==> self.order.contains(a)
        &&& forall|i: int|
            0 <= i < self.order.len() ==> {
                &&& self.entries[#[trigger] self.order[i]].next == link_after(self.order, i)
                &&& self.entries[self.order[i]].prev == link_before(self.order, i)
            }
    }
}

/// The addresses that are met from `from` on by following the links forwards,
/// as far as `limit` entries.
pub open spec fn walk(entries: Map<u64, JitCodeEntry>, from: u64, limit: nat) -> Seq<u64>
    decreases limit,
{
    if from == 0 || limit == 0 {
        Seq::empty()
    } else {
        seq![from] + walk(entries, entries[from].next, (limit - 1) as nat)
    }
}

/// Whether two entries have the same symbol file.
pub open spec fn same_symfile(a: JitCodeEntry, b: JitCodeEntry) -> bool {
    a.symfile_addr == b.symfile_addr && a.symfile_size == b.symfile_size
}

/// Whether the symbol files of entries stayed the same.
pub open spec fn symfiles_kept(
    before: Map<u64, JitCodeEntry>,
    after: Map<u64, JitCodeEntry>,
) -> bool {
    forall|a: u64|
        before.contains_key(a) && #[trigger] after.contains_key(a) ==> same_symfile(
            before[a],
            after[a],
        )
}

/// Whether `write` gives the links of the entry at `a`.
pub open spec fn gives_links(
    write: LinkWrite,
    a: u64,
    entries: Map<u64, JitCodeEntry>,
) -> bool {
    &&& write.entry == a
    &&& write.next == entries[a].next
    &&& write.prev == entries[a].prev
}

/// Whether `writes` are what turns the links of `before` into those of
/// `after`: each gives the links of an entry there, and each entry whose links
/// are not what they were has one.
pub open spec fn are_link_writes(
    writes: Seq<LinkWrite>,
    before: Map<u64, JitCodeEntry>,
    after: Map<u64, JitCodeEntry>,
) -> bool {
    &&& forall|i: int|
        0 <= i < writes.len() ==> after.contains_key((#[trigger] writes[i]).entry) && gives_links(
            writes[i],
            writes[i].entry,
            after,
        )
    &&& forall|a: u64| #[trigger]
        after.contains_key(a) && !(before.contains_key(a) && before[a] == after[a])
            ==> exists|i: int| 0 <= i < writes.len() && gives_links(#[trigger] writes[i], a, after)
}

/// Following the links forwards from the first entry meets every entry once,
/// in order, and then ends.
pub proof fn law_walk_meets_every_entry(list: DescriptorView, limit: nat)
    requires
        list.wf(),
        list.order.len() <= limit,
    ensures
        walk(list.entries, list.first_entry, limit) == list.order,
{
    lemma_walk_from(list, 0, limit);
    assert(list.order.skip(0) =~= list.order);
}

/// Following the links from an entry on meets those that come after it.
proof fn lemma_walk_from(list: DescriptorView, i: int, limit: nat)
    requires
        list.wf(),
        0 <= i <= list.order.len() <= i + limit,
    ensures
        walk(list.entries, link_after(list.order, i - 1), limit) == list.order.skip(i),
    decreases limit,
{
    let from = link_after(list.order, i - 1);
    if i < list.order.len() {
        assert(list.order.contains(list.order[i]));
        assert(list.entries[list.order[i]].next == link_after(list.order, i));
        lemma_walk_from(list, i + 1, (limit - 1) as nat);
        assert(list.order.skip(i) =~= seq![from] + list.order.skip(i + 1));
    } else {
        assert(list.order.skip(i) =~= Seq::<u64>::empty());
    }
}

/// Taking an entry out right after it was put in gives back the list that was
/// there before.
pub proof fn law_unregister_undoes_register(order: Seq<u64>, entry: u64)
    ensures
        (seq![entry] + order).remove_value(entry) == order,
{
    let with = seq![entry] + order;
    assert(with[0] == entry);
    assert(with.index_of_first(entry) == Some(0int)) by {
        with.index_of_first_ensures(entry);
    }
    assert(with.remove(0) =~= order);
}

/// A list after entries were taken out, one after the other.
pub open spec fn without_all(order: Seq<u64>, taken: Seq<u64>) -> Seq<u64>
    decreases taken.len(),
{
    if taken.len() == 0 {
        order
    } else {
        without_all(order, taken.drop_last()).remove_value(taken.last())
    }
}

/// What is left of a list where entries are taken out, in whatever order: the
/// entries that were in it and were not taken. Where all were, nothing is.
pub proof fn law_list_empties(order: Seq<u64>, taken: Seq<u64>)
    requires
        order.no_duplicates(),
    ensures
        without_all(order, taken).no_duplicates(),
        forall|a: u64| #[trigger]
            without_all(order, taken).contains(a) <==> order.contains(a) && !taken.contains(a),
        (forall|a: u64| #[trigger] order.contains(a) ==> taken.contains(a)) ==> without_all(
            order,
            taken,
        ) == Seq::<u64>::empty(),
    decreases taken.len(),
{
    let left = without_all(order, taken);
    if taken.len() > 0 {
        let fewer = taken.drop_last();
        let last = taken.last();
        let before = without_all(order, fewer);
        law_list_empties(order, fewer);
        lemma_remove_value(before, last);
        assert forall|a: u64| taken.contains(a) <==> fewer.contains(a) || a == last by {
            if fewer.contains(a) {
                assert(taken[fewer.index_of(a)] == a);
            }
            if taken.contains(a) && a != last {
                assert(fewer[taken.index_of(a)] == a);
            }
            assert(taken[taken.len() - 1] == last);
        }
        assert forall|a: u64| #[trigger] left.contains(a) <==> order.contains(a)
            && !taken.contains(a) by {
            assert(before.contains(a) <==> order.contains(a) && !fewer.contains(a));
        }
    }
    if forall|a: u64| #[trigger] order.contains(a) ==> taken.contains(a) {
        if left.len() > 0 {
            assert(left.contains(left[0]));
            assert(order.contains(left[0]));
        }
        assert(left =~= Seq::<u64>::empty());
    }
}

/// What is left where an entry is taken out.
pub proof fn lemma_remove_value(order: Seq<u64>, entry: u64)
    requires
        order.no_duplicates(),
    ensures
        order.remove_value(entry).no_duplicates(),
        forall|a: u64| #[trigger]
            order.remove_value(entry).contains(a) <==> order.contains(a) && a != entry,
{
    order.index_of_first_ensures(entry);
    let left = order.remove_value(entry);
    if order.contains(entry) {
        let at = order.index_of_first(entry).unwrap();
        assert(left == order.remove(at));
        assert forall|a: u64| #[trigger] left.contains(a) <==> order.contains(a) && a != entry by {
            if left.contains(a) {
                let i = left.index_of(a);
                let j = if i < at {
                    i
                } else {
                    i + 1
                };
                assert(order[j] == a);
            }
            if order.contains(a) && a != entry {
                let j = order.index_of(a);
                assert(left[if j < at {
                    j
                } else {
                    j - 1
                }] == a);
            }
        }
    }
}

/// A list after entries were put in, one after the other.
pub open spec fn with_all(order: Seq<u64>, added: Seq<u64>) -> Seq<u64>
    decreases added.len(),
{
    if added.len() == 0 {
        order
    } else {
        seq![added.last()] + with_all(order, added.drop_last())
    }
}

/// Whether `all` is made of the calls of several threads, each of which makes
/// its own ones in order: the first call of all is the first one of some
/// thread, and the rest is made of what is left.
pub open spec fn is_interleaving(all: Seq<u64>, threads: Seq<Seq<u64>>) -> bool
    decreases all.len(),
{
    if all.len() == 0 {
        forall|t: int| 0 <= t < threads.len() ==> (#[trigger] threads[t]).len() == 0
    } else {
        exists|t: int|
            {
                &&& 0 <= t < threads.len()
                &&& (#[trigger] threads[t]).len() > 0
                &&& threads[t][0] == all[0]
                &&& is_interleaving(
                    all.drop_first(),
                    threads.update(t, threads[t].drop_first()),
                )
            }
    }
}

/// Whether some thread has the entry.
pub open spec fn some_thread_has(threads: Seq<Seq<u64>>, entry: u64) -> bool {
    exists|t: int| 0 <= t < threads.len() && (#[trigger] threads[t]).contains(entry)
}

/// Whether every entry is that of one thread, which has it once.
pub open spec fn entries_are_own(threads: Seq<Seq<u64>>) -> bool {
    &&& forall|t: int| 0 <= t < threads.len() ==> (#[trigger] threads[t]).no_duplicates()
    &&& forall|t: int, u: int, entry: u64|
        #![trigger threads[t].contains(entry), threads[u].contains(entry)]
        0 <= t < threads.len() && 0 <= u < threads.len() && t != u && threads[t].contains(entry)
            ==> !threads[u].contains(entry)
}

/// How many entries threads have.
pub open spec fn total_entries(threads: Seq<Seq<u64>>) -> nat
    decreases threads.len(),
{
    if threads.len() == 0 {
        0
    } else {
        total_entries(threads.drop_last()) + threads.last().len()
    }
}

/// One entry less in one thread is one entry less in all.
proof fn lemma_total_after_step(threads: Seq<Seq<u64>>, t: int)
    requires
        0 <= t < threads.len(),
        threads[t].len() > 0,
    ensures
        total_entries(threads) == total_entries(threads.update(t, threads[t].drop_first())) + 1,
    decreases threads.len(),
{
    let left = threads.update(t, threads[t].drop_first());
    if t == threads.len() - 1 {
        assert(left.drop_last() =~= threads.drop_last());
    } else {
        lemma_total_after_step(threads.drop_last(), t);
        assert(left.drop_last() =~= threads.drop_last().update(t, threads[t].drop_first()));
    }
}

/// Threads without entries have none in all.
proof fn lemma_total_of_nothing(threads: Seq<Seq<u64>>)
    requires
        forall|t: int| 0 <= t < threads.len() ==> (#[trigger] threads[t]).len() == 0,
    ensures
        total_entries(threads) == 0,
    decreases threads.len(),
{
    if threads.len() > 0 {
        lemma_total_of_nothing(threads.drop_last());
    }
}

/// What the calls of several threads are made of: the entries of the threads,
/// each as often as they have it.
proof fn lemma_interleaving(all: Seq<u64>, threads: Seq<Seq<u64>>)
    requires
        entries_are_own(threads),
        is_interleaving(all, threads),
    ensures
        all.no_duplicates(),
        all.len() == total_entries(threads),
        forall|entry: u64| #[trigger] all.contains(entry) <==> some_thread_has(threads, entry),
    decreases all.len(),
{
    if all.len() == 0 {
        lemma_total_of_nothing(threads);
        assert forall|entry: u64| #[trigger] all.contains(entry) <==> some_thread_has(
            threads,
            entry,
        ) by {
            if some_thread_has(threads, entry) {
                let t = choose|t: int|
                    0 <= t < threads.len() && (#[trigger] threads[t]).contains(entry);
                assert(threads[t].len() == 0);
            }
        }
    } else {
        let t = choose|t: int|
            {
                &&& 0 <= t < threads.len()
                &&& (#[trigger] threads[t]).len() > 0
                &&& threads[t][0] == all[0]
                &&& is_interleaving(
                    all.drop_first(),
                    threads.update(t, threads[t].drop_first()),
                )
            };
        let first = all[0];
        let rest = all.drop_first();
        let own = threads[t].drop_first();
        let left = threads.update(t, own);
        assert(threads[t] =~= seq![first] + own);
        lemma_entries_after_step(threads, t);
        lemma_total_after_step(threads, t);
        lemma_interleaving(rest, left);
        assert(all =~= seq![first] + rest);
        assert(!some_thread_has(left, first)) by {
            if some_thread_has(left, first) {
                let u = choose|u: int| 0 <= u < left.len() && (#[trigger] left[u]).contains(first);
                assert(threads[t].contains(first));
                if u == t {
                    let i = own.index_of(first);
                    assert(threads[t][i + 1] == threads[t][0]);
                } else {
                    assert(threads[u].contains(first));
                }
            }
        }
        assert(!rest.contains(first));
        assert forall|entry: u64| #[trigger] all.contains(entry) <==> some_thread_has(
            threads,
            entry,
        ) by {
            assert(rest.contains(entry) <==> some_thread_has(left, entry));
            if all.contains(entry) && entry != first {
                let i = all.index_of(entry);
                assert(rest[i - 1] == entry);
                let u = choose|u: int| 0 <= u < left.len() && (#[trigger] left[u]).contains(entry);
                if u == t {
                    assert(threads[t][own.index_of(entry) + 1] == entry);
                }
                assert(threads[u].contains(entry));
            }
            if entry == first {
                assert(threads[t].contains(entry));
                assert(all.contains(entry));
            }
            if some_thread_has(threads, entry) && entry != first {
                let u = choose|u: int|
                    0 <= u < threads.len() && (#[trigger] threads[u]).contains(entry);
                if u == t {
                    let i = threads[t].index_of(entry);
                    assert(own[i - 1] == entry);
                }
                assert(left[u].contains(entry));
                assert(all[rest.index_of(entry) + 1] == entry);
            }
        }
        assert(all.no_duplicates()) by {
            assert forall|i: int, j: int| 0 <= i < j < all.len() implies all[i] != all[j] by {
                assert(rest[j - 1] == all[j]);
                if i == 0 {
                    assert(rest.contains(all[j]));
                } else {
                    assert(rest[i - 1] == all[i]);
                }
            }
        }
    }
}

/// Entries stay those of one thread where one thread makes its first call.
proof fn lemma_entries_after_step(threads: Seq<Seq<u64>>, t: int)
    requires
        entries_are_own(threads),
        0 <= t < threads.len(),
        threads[t].len() > 0,
    ensures
        entries_are_own(threads.update(t, threads[t].drop_first())),
{
    let own = threads[t].drop_first();
    let left = threads.update(t, own);
    assert forall|u: int, entry: u64| 0 <= u < left.len() && #[trigger] left[u].contains(
        entry,
    ) implies threads[u].contains(entry) by {
        if u == t {
            assert(threads[t][own.index_of(entry) + 1] == entry);
        }
    }
    assert forall|u: int| 0 <= u < left.len() implies (#[trigger] left[u]).no_duplicates() by {
        assert(threads[u].no_duplicates());
    }
    assert forall|u: int, v: int, entry: u64|
        #![trigger left[u].contains(entry), left[v].contains(entry)]
        0 <= u < left.len() && 0 <= v < left.len() && u != v && left[u].contains(
            entry,
        ) implies !left[v].contains(entry) by {
        assert(threads[u].contains(entry));
        if left[v].contains(entry) {
            assert(threads[v].contains(entry));
        }
    }
}

/// What is in a list that entries were put into.
proof fn lemma_with_all(added: Seq<u64>)
    requires
        added.no_duplicates(),
    ensures
        with_all(Seq::empty(), added).no_duplicates(),
        with_all(Seq::empty(), added).len() == added.len(),
        forall|a: u64| #[trigger]
            with_all(Seq::empty(), added).contains(a) <==> added.contains(a),
    decreases added.len(),
{
    let list = with_all(Seq::empty(), added);
    if added.len() > 0 {
        let fewer = added.drop_last();
        let before = with_all(Seq::empty(), fewer);
        let last = added.last();
        lemma_with_all(fewer);
        assert(!fewer.contains(last)) by {
            if fewer.contains(last) {
                assert(added[fewer.index_of(last)] == added[added.len() - 1]);
            }
        }
        assert(!before.contains(last));
        assert forall|a: u64| #[trigger] list.contains(a) <==> added.contains(a) by {
            assert(before.contains(a) <==> fewer.contains(a));
            if list.contains(a) && a != last {
                assert(before[list.index_of(a) - 1] == a);
                assert(added[fewer.index_of(a)] == a);
            }
            if added.contains(a) && a != last {
                assert(fewer[added.index_of(a)] == a);
                assert(list[before.index_of(a) + 1] == a);
            }
            assert(list[0] == last);
            assert(added[added.len() - 1] == last);
        }
        assert forall|i: int, j: int| 0 <= i < j < list.len() implies list[i] != list[j] by {
            assert(before[j - 1] == list[j]);
            assert(before.contains(list[j]));
        }
    }
}

/// Threads that put in entries of their own, and that all take them out again
/// after the last one was put in, work on one list without harm, in whatever
/// order their calls come. `between` is the list after the last entry was put
/// in: it holds exactly the entries of all threads, each once, and each names
/// the one before it. `end` is the list after the last entry was taken out: it
/// is empty. Each call has the list for itself, so the calls of all threads
/// come one after the other.
pub proof fn law_threads_share_the_list(
    threads: Seq<Seq<u64>>,
    added: Seq<u64>,
    between: DescriptorView,
    taken: Seq<u64>,
    end: DescriptorView,
)
    requires
        entries_are_own(threads),
        is_interleaving(added, threads),
        is_interleaving(taken, threads),
        between.wf(),
        between.order == with_all(Seq::empty(), added),
        end.wf(),
        end.order == without_all(between.order, taken),
    ensures
        between.order.no_duplicates(),
        between.order.len() == total_entries(threads),
        forall|a: u64| #[trigger] between.order.contains(a) <==> some_thread_has(threads, a),
        walk(between.entries, between.first_entry, total_entries(threads)) == between.order,
        forall|i: int|
            0 <= i < between.order.len() ==> between.entries[#[trigger] between.order[i]].prev
                == link_before(between.order, i),
        end.order == Seq::<u64>::empty(),
        end.first_entry == 0,
{
    let list = between.order;
    lemma_interleaving(added, threads);
    lemma_interleaving(taken, threads);
    lemma_with_all(added);
    assert forall|a: u64| #[trigger] list.contains(a) <==> some_thread_has(threads, a) by {
        assert(added.contains(a) <==> some_thread_has(threads, a));
    }
    assert forall|a: u64| #[trigger] list.contains(a) implies taken.contains(a) by {
        assert(some_thread_has(threads, a));
    }
    law_walk_meets_every_entry(between, total_entries(threads));
    law_list_empties(list, taken);
}

/// The list stays in order where an entry is put in before all others.
proof fn lemma_registered(before: DescriptorView, after: DescriptorView, entry: u64)
    requires
        before.wf(),
        entry != 0,
        !before.entries.contains_key(entry),
        after.order == seq![entry] + before.order,
        after.first_entry == entry,
        after.entries.dom() == before.entries.dom().insert(entry),
        after.entries[entry].next == before.first_entry,
        after.entries[entry].prev == 0,
        forall|a: u64| #[trigger]
            before.entries.contains_key(a) ==> after.entries[a] == (if a == before.first_entry {
                JitCodeEntry { prev: entry, ..before.entries[a] }
            } else {
                before.entries[a]
            }),
    ensures
        after.wf(),
{
    let order = before.order;
    let new = after.order;
    assert(!order.contains(entry));
    assert forall|i: int| 0 <= i < new.len() implies new[i] != 0 && (i > 0 ==> new[i]
        == #[trigger] order[i - 1]) by {
        if i > 0 {
            assert(order.contains(order[i - 1]));
        }
    }
    assert forall|a: u64| #[trigger] after.entries.contains_key(a) <==> new.contains(a) by {
        assert(before.entries.contains_key(a) <==> order.contains(a));
        if order.contains(a) {
            let i = order.index_of(a);
            assert(new[i + 1] == a);
        }
        assert(new[0] == entry);
        if new.contains(a) && a != entry {
            let i = new.index_of(a);
            assert(order[i - 1] == a);
        }
    }
    assert forall|i: int| 0 <= i < new.len() implies {
        &&& after.entries[#[trigger] new[i]].next == link_after(new, i)
        &&& after.entries[new[i]].prev == link_before(new, i)
    } by {
        if i > 0 {
            let a = order[i - 1];
            assert(order.contains(a));
            assert(before.entries.contains_key(a));
            assert(before.entries[a].next == link_after(order, i - 1));
            if i > 1 {
                assert(order[0] != order[i - 1]);
            }
        }
    }
    assert(!new.contains(0)) by {
        if new.contains(0) {
            let i = new.index_of(0);
            assert(new[i] == 0);
        }
    }
}

/// The links of an entry name its neighbours.
proof fn lemma_neighbours(list: DescriptorView, at: int)
    requires
        list.wf(),
        0 <= at < list.order.len(),
    ensures
        ({
            let entry = list.entries[list.order[at]];
            &&& list.entries.contains_key(list.order[at])
            &&& at > 0 ==> entry.prev == list.order[at - 1] && entry.prev != 0
                && list.entries.contains_key(entry.prev) && entry.prev != list.order[at]
            &&& at == 0 ==> entry.prev == 0
            &&& at + 1 < list.order.len() ==> entry.next == list.order[at + 1] && entry.next != 0
                && list.entries.contains_key(entry.next) && entry.next != list.order[at]
            &&& at + 1 == list.order.len() ==> entry.next == 0
            &&& entry.prev != 0 && entry.next != 0 ==> entry.prev != entry.next
        }),
{
    let order = list.order;
    assert(order.contains(order[at]));
    if at > 0 {
        assert(order.contains(order[at - 1]));
    }
    if at + 1 < order.len() {
        assert(order.contains(order[at + 1]));
    }
}

/// The links of every entry name its neighbours in the list: the one behind it
/// and the one before it, and zero past the ends. The list starts with its
/// first entry, has no entry twice, and none at the address zero.
pub proof fn law_links_name_neighbours(list: DescriptorView, i: int)
    requires
        list.wf(),
        0 <= i < list.order.len(),
    ensures
        ({
            let entry = list.entries[list.order[i]];
            &&& list.entries.contains_key(list.order[i])
            &&& list.order[i] != 0
            &&& forall|j: int| 0 <= j < i ==> #[trigger] list.order[j] != list.order[i]
            &&& i + 1 < list.order.len() ==> entry.next == list.order[i + 1]
            &&& i + 1 == list.order.len() ==> entry.next == 0
            &&& i > 0 ==> entry.prev == list.order[i - 1]
            &&& i == 0 ==> entry.prev == 0
            &&& list.first_entry == list.order[0]
        }),
{
    lemma_neighbours(list, i);
    assert(list.order.contains(list.order[i]));
}

/// The links of an entry after writes: those of the last write to it, or else
/// those that it had.
pub open spec fn links_after_writes(
    writes: Seq<LinkWrite>,
    entry: u64,
    before: (u64, u64),
) -> (u64, u64)
    decreases writes.len(),
{
    if writes.len() == 0 {
        before
    } else if writes.last().entry == entry {
        (writes.last().next, writes.last().prev)
    } else {
        links_after_writes(writes.drop_last(), entry, before)
    }
}

/// Whoever makes the link writes one after the other in memory ends with the
/// links of the new list: an entry that was there before has them then, and so
/// has one that is new, whatever its links were. No write is to an entry that
/// is not in the list, and the symbol files of the entries do not change.
pub proof fn law_writes_make_the_list(
    writes: Seq<LinkWrite>,
    before: Map<u64, JitCodeEntry>,
    after: Map<u64, JitCodeEntry>,
    entry: u64,
    links: (u64, u64),
)
    requires
        are_link_writes(writes, before, after),
        symfiles_kept(before, after),
        after.contains_key(entry),
        before.contains_key(entry) ==> links == (before[entry].next, before[entry].prev),
    ensures
        links_after_writes(writes, entry, links) == (after[entry].next, after[entry].prev),
        forall|i: int|
            0 <= i < writes.len() ==> after.contains_key((#[trigger] writes[i]).entry),
        before.contains_key(entry) ==> before[entry].symfile_addr == after[entry].symfile_addr
            && before[entry].symfile_size == after[entry].symfile_size,
{
    let links_now = (after[entry].next, after[entry].prev);
    lemma_links_after_writes(writes, after, entry, links);
    if !(before.contains_key(entry) && before[entry] == after[entry]) {
        let i = choose|i: int| 0 <= i < writes.len() && gives_links(
            #[trigger] writes[i],
            entry,
            after,
        );
        lemma_written_links(writes, after, entry, links, i);
    }
}

/// Writes leave the links of an entry alone or give it those of the list.
proof fn lemma_links_after_writes(
    writes: Seq<LinkWrite>,
    after: Map<u64, JitCodeEntry>,
    entry: u64,
    links: (u64, u64),
)
    requires
        forall|i: int|
            0 <= i < writes.len() ==> gives_links(#[trigger] writes[i], writes[i].entry, after),
    ensures
        links_after_writes(writes, entry, links) == links || links_after_writes(
            writes,
            entry,
            links,
        ) == (after[entry].next, after[entry].prev),
    decreases writes.len(),
{
    if writes.len() > 0 {
        assert(gives_links(writes[writes.len() - 1], writes.last().entry, after));
        assert forall|i: int| 0 <= i < writes.drop_last().len() implies gives_links(
            #[trigger] writes.drop_last()[i],
            writes.drop_last()[i].entry,
            after,
        ) by {
            assert(gives_links(writes[i], writes[i].entry, after));
        }
        lemma_links_after_writes(writes.drop_last(), after, entry, links);
    }
}

/// An entry that is written to has the links of the list.
proof fn lemma_written_links(
    writes: Seq<LinkWrite>,
    after: Map<u64, JitCodeEntry>,
    entry: u64,
    links: (u64, u64),
    i: int,
)
    requires
        forall|j: int|
            0 <= j < writes.len() ==> gives_links(#[trigger] writes[j], writes[j].entry, after),
        0 <= i < writes.len(),
        writes[i].entry == entry,
    ensures
        links_after_writes(writes, entry, links) == (after[entry].next, after[entry].prev),
    decreases writes.len(),
{
    assert(gives_links(writes[writes.len() - 1], writes.last().entry, after));
    if writes.last().entry != entry {
        let fewer = writes.drop_last();
        assert forall|j: int| 0 <= j < fewer.len() implies gives_links(
            #[trigger] fewer[j],
            fewer[j].entry,
            after,
        ) by {
            assert(gives_links(writes[j], writes[j].entry, after));
        }
        lemma_written_links(fewer, after, entry, links, i);
    }
}

/// Entries without the one at an address, with its neighbours linked to each
/// other.
spec fn unlinked(entries: Map<u64, JitCodeEntry>, entry: u64) -> Map<u64, JitCodeEntry> {
    let prev = entries[entry].prev;
    let next = entries[entry].next;
    let without = entries.remove(entry);
    let left = if prev != 0 {
        without.insert(prev, JitCodeEntry { next, ..without[prev] })
    } else {
        without
    };
    if next != 0 {
        left.insert(next, JitCodeEntry { prev, ..left[next] })
    } else {
        left
    }
}

/// The links that change where the entry at an address is taken out.
spec fn unlink_writes(entries: Map<u64, JitCodeEntry>, entry: u64) -> Seq<LinkWrite> {
    let prev = entries[entry].prev;
    let next = entries[entry].next;
    let left = if prev != 0 {
        seq![LinkWrite { entry: prev, next, prev: entries[prev].prev }]
    } else {
        Seq::empty()
    };
    if next != 0 {
        left.push(LinkWrite { entry: next, next: entries[next].next, prev })
    } else {
        left
    }
}

/// What taking an entry out does to the entries.
proof fn lemma_unlinked(before: DescriptorView, at: int)
    requires
        before.wf(),
        0 <= at < before.order.len(),
    ensures
        ({
            let entry = before.order[at];
            let after = unlinked(before.entries, entry);
            &&& after.dom() == before.entries.dom().remove(entry)
            &&& forall|a: u64| #[trigger]
                after.contains_key(a) ==> after[a] == (if at > 0 && a == before.order[at - 1] {
                    JitCodeEntry { next: link_after(before.order, at), ..before.entries[a] }
                } else if at + 1 < before.order.len() && a == before.order[at + 1] {
                    JitCodeEntry { prev: link_before(before.order, at), ..before.entries[a] }
                } else {
                    before.entries[a]
                })
            &&& symfiles_kept(before.entries, after)
            &&& are_link_writes(unlink_writes(before.entries, entry), before.entries, after)
        }),
{
    let entry = before.order[at];
    let prev = before.entries[entry].prev;
    let next = before.entries[entry].next;
    let after = unlinked(before.entries, entry);
    let writes = unlink_writes(before.entries, entry);
    lemma_neighbours(before, at);
    assert(after.dom() =~= before.entries.dom().remove(entry));
    assert forall|a: u64| #[trigger]
        after.contains_key(a) && !(before.entries.contains_key(a) && before.entries[a]
            == after[a]) implies exists|i: int|
        0 <= i < writes.len() && gives_links(#[trigger] writes[i], a, after) by {
        if a == prev {
            assert(gives_links(writes[0], a, after));
        } else {
            assert(gives_links(writes[writes.len() - 1], a, after));
        }
    }
}

/// The list stays in order where an entry is taken out.
#[verifier::rlimit(30)]
proof fn lemma_unregistered(before: DescriptorView, after: DescriptorView, at: int)
    requires
        before.wf(),
        0 <= at < before.order.len(),
        after.order == before.order.remove(at),
        after.first_entry == (if at == 0 {
            link_after(before.order, 0)
        } else {
            before.first_entry
        }),
        after.entries.dom() == before.entries.dom().remove(before.order[at]),
        forall|a: u64| #[trigger]
            after.entries.contains_key(a) ==> after.entries[a] == (if at > 0 && a
                == before.order[at - 1] {
                JitCodeEntry { next: link_after(before.order, at), ..before.entries[a] }
            } else if at + 1 < before.order.len() && a == before.order[at + 1] {
                JitCodeEntry { prev: link_before(before.order, at), ..before.entries[a] }
            } else {
                before.entries[a]
            }),
    ensures
        after.wf(),
{
    let order = before.order;
    let new = after.order;
    let entry = order[at];
    assert forall|i: int| 0 <= i < new.len() implies new[i] == order[if i < at {
        i
    } else {
        i + 1
    }] by {}
    assert forall|a: u64| #[trigger] after.entries.contains_key(a) <==> new.contains(a) by {
        assert(before.entries.contains_key(a) <==> order.contains(a));
        if order.contains(a) && a != entry {
            let i = order.index_of(a);
            assert(new[if i < at {
                i
            } else {
                i - 1
            }] == a);
        }
        if new.contains(a) {
            let i = new.index_of(a);
            let j = if i < at {
                i
            } else {
                i + 1
            };
            assert(order[j] == a);
            assert(order[j] != order[at]);
        }
    }
    assert forall|i: int| 0 <= i < new.len() implies {
        &&& after.entries[#[trigger] new[i]].next == link_after(new, i)
        &&& after.entries[new[i]].prev == link_before(new, i)
    } by {
        let j = if i < at {
            i
        } else {
            i + 1
        };
        let a = order[j];
        assert(new.contains(new[i]));
        assert(after.entries.contains_key(a));
        assert(before.entries[a].next == link_after(order, j));
        assert(before.entries[a].prev == link_before(order, j));
        if at > 0 && j != at - 1 {
            assert(order[j] != order[at - 1]);
        }
        if at + 1 < order.len() && j != at + 1 {
            assert(order[j] != order[at + 1]);
        }
    }
    assert(!new.contains(0)) by {
        if new.contains(0) {
            let i = new.index_of(0);
            assert(order.contains(order[if i < at {
                i
            } else {
                i + 1
            }]));
        }
    }
}

impl JitDescriptor {
    /// A descriptor of an empty list.
    pub fn new() -> (descriptor: Self)
        ensures
            descriptor@.wf(),
            descriptor@ == (DescriptorView {
                version: JIT_DESCRIPTOR_VERSION,
                action_flag: JIT_NOACTION,
                relevant_entry: 0,
                first_entry: 0,
                entries: Map::empty(),
                order: Seq::empty(),
            }),
    {
        JitDescriptor {
            version: JIT_DESCRIPTOR_VERSION,
            action_flag: JIT_NOACTION,
            relevant_entry: 0,
            first_entry: 0,
            entries: BTreeMap::new(),
            order: Ghost(Seq::empty()),
        }
    }

    /// The version of the interface.
    pub fn version(&self) -> (version: u32)
        ensures
            version == self@.version,
    {
        self.version
    }

    /// What was done last.
    pub fn action_flag(&self) -> (flag: u32)
        ensures
            flag == self@.action_flag,
    {
        self.action_flag
    }

    /// The address of the entry that it was done to.
    pub fn relevant_entry(&self) -> (entry: u64)
        ensures
            entry == self@.relevant_entry,
    {
        self.relevant_entry
    }

    /// The address of the first entry.
    pub fn first_entry(&self) -> (entry: u64)
        ensures
            entry == self@.first_entry,
    {
        self.first_entry
    }

    /// The entry at an address.
    pub fn entry(&self, address: u64) -> (entry: Option<JitCodeEntry>)
        ensures
            entry == (if self@.entries.contains_key(address) {
                Some(self@.entries[address])
            } else {
                None
            }),
    {
        match self.entries.get(&address) {
            Some(entry) => Some(*entry),
            None => None,
        }
    }

    /// Puts an entry in before all others. It is at the address `entry`, which
    /// no other entry is at. Gives the links that changed.
    pub fn register_entry(&mut self, entry: u64, symfile_addr: u64, symfile_size: u64) -> (writes:
        Vec<LinkWrite>)
        requires
            old(self)@.wf(),
            entry != 0,
            !old(self)@.entries.contains_key(entry),
        ensures
            final(self)@.wf(),
            final(self)@.order == seq![entry] + old(self)@.order,
            final(self)@.version == old(self)@.version,
            final(self)@.action_flag == JIT_REGISTER_FN,
            final(self)@.action_flag == 1,
            final(self)@.relevant_entry == entry,
            final(self)@.entries.contains_key(entry),
            final(self)@.entries[entry].symfile_addr == symfile_addr,
            final(self)@.entries[entry].symfile_size == symfile_size,
            symfiles_kept(old(self)@.entries, final(self)@.entries),
            are_link_writes(writes@, old(self)@.entries, final(self)@.entries),
    {
        let ghost before = self@;
        let mut writes: Vec<LinkWrite> = Vec::new();
        let next = self.first_entry;
        if next != 0 {
            assert(before.order.contains(before.order[0]));
            let mut first = *self.entries.get(&next).unwrap();
            first.prev = entry;
            self.entries.insert(next, first);
            writes.push(LinkWrite { entry: next, next: first.next, prev: entry });
        }
        self.entries.insert(entry, JitCodeEntry { next, prev: 0, symfile_addr, symfile_size });
        writes.push(LinkWrite { entry, next, prev: 0 });
        self.first_entry = entry;
        self.relevant_entry = entry;
        self.action_flag = JIT_REGISTER_FN;
        proof {
            self.order@ = seq![entry] + before.order;
            assert(self@.entries.dom() =~= before.entries.dom().insert(entry));
            lemma_registered(before, self@, entry);
            assert forall|a: u64| #[trigger]
                self@.entries.contains_key(a) && !(before.entries.contains_key(a)
                    && before.entries[a] == self@.entries[a]) implies exists|i: int|
                0 <= i < writes@.len() && gives_links(#[trigger] writes@[i], a, self@.entries) by {
                if a == entry {
                    assert(gives_links(writes@[writes@.len() - 1], a, self@.entries));
                } else {
                    assert(gives_links(writes@[0], a, self@.entries));
                }
            }
        }
        writes
    }

    /// Takes out the entry at an address. Gives the links that changed.
    pub fn unregister_entry(&mut self, entry: u64) -> (writes: Vec<LinkWrite>)
        requires
            old(self)@.wf(),
            old(self)@.entries.contains_key(entry),
        ensures
            final(self)@.wf(),
            final(self)@.order == old(self)@.order.remove_value(entry),
            final(self)@.version == old(self)@.version,
            final(self)@.action_flag == JIT_UNREGISTER_FN,
            final(self)@.action_flag == 2,
            final(self)@.relevant_entry == entry,
            !final(self)@.entries.contains_key(entry),
            symfiles_kept(old(self)@.entries, final(self)@.entries),
            are_link_writes(writes@, old(self)@.entries, final(self)@.entries),
    {
        let ghost before = self@;
        let ghost at = before.order.index_of_first(entry).unwrap();
        proof {
            before.order.index_of_first_ensures(entry);
            lemma_neighbours(before, at);
            lemma_unlinked(before, at);
        }
        let mut writes: Vec<LinkWrite> = Vec::new();
        let removed = self.entries.remove(&entry).unwrap();
        let prev = removed.prev;
        let next = removed.next;
        if prev != 0 {
            let mut left = *self.entries.get(&prev).unwrap();
            left.next = next;
            self.entries.insert(prev, left);
            writes.push(LinkWrite { entry: prev, next, prev: left.prev });
        } else {
            self.first_entry = next;
        }
        if next != 0 {
            let mut right = *self.entries.get(&next).unwrap();
            right.prev = prev;
            self.entries.insert(next, right);
            writes.push(LinkWrite { entry: next, next: right.next, prev });
        }
        self.relevant_entry = entry;
        self.action_flag = JIT_UNREGISTER_FN;
        assert(self.entries@ == unlinked(before.entries, entry));
        assert(writes@ =~= unlink_writes(before.entries, entry));
        proof {
            self.order@ = before.order.remove(at);
            lemma_unregistered(before, self@, at);
        }
        writes
    }
}

} // verus!
