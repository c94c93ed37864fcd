//! Functions and syscalls by the keys that calls name them by.

use crate::hash;
use crate::hash::hash_symbol_name;
use crate::meta::{JitCodeMeta, JitSymbol, JitSyscallSymbol};
use vstd::prelude::*;
use vstd::slice::slice_to_vec;
use vstd::utf8;

verus! {

/// A registered function.
pub struct RegistryEntry<T> {
    pub key: u32,
    pub name: Vec<u8>,
    pub value: T,
}

/// What a [`RegistryEntry`] says.
pub struct EntryView<T> {
    pub key: u32,
    pub name: Seq<u8>,
    pub value: T,
}

impl<T> View for RegistryEntry<T> {
    type V = EntryView<T>;

    open spec fn view(&self) -> EntryView<T> {
        EntryView { key: self.key, name: self.name@, value: self.value }
    }
}

/// Functions, each under a key of its own. They are kept in the order of their
/// keys.
pub struct FunctionRegistry<T> {
    entries: Vec<RegistryEntry<T>>,
}

impl<T> View for FunctionRegistry<T> {
    type V = Seq<EntryView<T>>;

    closed spec fn view(&self) -> Seq<EntryView<T>> {
        self.entries@.map_values(|entry: RegistryEntry<T>| entry@)
    }
}

/// Two functions have one key.
#[derive(Clone, Copy, Debug, PartialEq, Eq, Structural)]
pub struct SymbolHashCollision(pub u32);

/// Whether entries are in the order of their keys, without a key twice.
pub open spec fn key_ordered<T>(entries: Seq<EntryView<T>>) -> bool {
    forall|i: int, j: int|
        0 <= i < j < entries.len() ==> (#[trigger] entries[i]).key < (#[trigger] entries[j]).key
}

/// Whether some entry has the key.
pub open spec fn has_key<T>(entries: Seq<EntryView<T>>, key: u32) -> bool {
    exists|i: int| 0 <= i < entries.len() && (#[trigger] entries[i]).key == key
}

/// The entry that has the key.
pub open spec fn lookup<T>(entries: Seq<EntryView<T>>, key: u32) -> Option<EntryView<T>> {
    if has_key(entries, key) {
        Some(entries[choose|i: int| 0 <= i < entries.len() && (#[trigger] entries[i]).key == key])
    } else {
        None
    }
}

/// Whether `after` is `before` with one more entry and nothing else changed.
pub open spec fn is_inserted<T>(
    before: Seq<EntryView<T>>,
    after: Seq<EntryView<T>>,
    entry: EntryView<T>,
) -> bool {
    exists|at: int| 0 <= at <= before.len() && after == #[trigger] before.insert(at, entry)
}

/// Entries in the order of their keys are determined by what is found under
/// each key.
pub proof fn law_lookups_determine_entries<T>(a: Seq<EntryView<T>>, b: Seq<EntryView<T>>)
    requires
        key_ordered(a),
        key_ordered(b),
        forall|key: u32| #[trigger] lookup(a, key) == lookup(b, key),
    ensures
        a == b,
    decreases a.len(),
{
    if a.len() == 0 || b.len() == 0 {
        if a.len() > 0 {
            assert(lookup(a, a[0].key) == lookup(b, a[0].key));
            assert(has_key(a, a[0].key));
        }
        if b.len() > 0 {
            assert(lookup(a, b[0].key) == lookup(b, b[0].key));
            assert(has_key(b, b[0].key));
        }
        assert(a =~= b);
    } else {
        let x = a.last().key;
        let y = b.last().key;
        assert(has_key(a, x) && has_key(b, y));
        assert(lookup(a, x) == lookup(b, x));
        assert(lookup(a, y) == lookup(b, y));
        assert(has_key(b, x) && has_key(a, y));
        assert(x == y);
        assert(a.last() == b.last());
        assert forall|key: u32| #[trigger]
            lookup(a.drop_last(), key) == lookup(b.drop_last(), key) by {
            lemma_lookup_before_last(a, key);
            lemma_lookup_before_last(b, key);
            assert(lookup(a, key) == lookup(b, key));
        }
        law_lookups_determine_entries(a.drop_last(), b.drop_last());
        assert(a =~= a.drop_last().push(a.last()));
        assert(b =~= b.drop_last().push(b.last()));
    }
}

/// What is found without the last entry.
proof fn lemma_lookup_before_last<T>(entries: Seq<EntryView<T>>, key: u32)
    requires
        key_ordered(entries),
        entries.len() > 0,
    ensures
        lookup(entries.drop_last(), key) == (if key == entries.last().key {
            None
        } else {
            lookup(entries, key)
        }),
{
    let fewer = entries.drop_last();
    if has_key(entries, key) && key != entries.last().key {
        let i = choose|i: int| 0 <= i < entries.len() && (#[trigger] entries[i]).key == key;
        assert(fewer[i].key == key);
    }
    if has_key(fewer, key) {
        let i = choose|i: int| 0 <= i < fewer.len() && (#[trigger] fewer[i]).key == key;
        assert(entries[i].key == key);
    }
}

/// An entry that is put in under a key of its own is found under its key, and
/// what is found under the other keys stays the same.
pub proof fn law_inserted_is_found<T>(
    before: Seq<EntryView<T>>,
    after: Seq<EntryView<T>>,
    entry: EntryView<T>,
    key: u32,
)
    requires
        key_ordered(before),
        key_ordered(after),
        is_inserted(before, after, entry),
    ensures
        lookup(after, key) == (if key == entry.key {
            Some(entry)
        } else {
            lookup(before, key)
        }),
{
    let at = choose|at: int| 0 <= at <= before.len() && after == #[trigger] before.insert(at, entry);
    assert(after[at] == entry);
    assert forall|i: int| 0 <= i < before.len() implies #[trigger] before[i] == after[if i < at {
        i
    } else {
        i + 1
    }] by {}
    if has_key(before, key) {
        let i = choose|i: int| 0 <= i < before.len() && (#[trigger] before[i]).key == key;
        assert(after[if i < at {
            i
        } else {
            i + 1
        }].key == key);
    }
    if has_key(after, key) && key != entry.key {
        let j = choose|j: int| 0 <= j < after.len() && (#[trigger] after[j]).key == key;
        assert(before[if j < at {
            j
        } else {
            j - 1
        }].key == key);
    }
}

impl<T> FunctionRegistry<T> {
    /// What every registry keeps: each key once, in order.
    pub open spec fn wf(&self) -> bool {
        key_ordered(self@)
    }

    /// A registry without functions.
    pub fn new() -> (registry: Self)
        ensures
            registry.wf(),
            registry@ == Seq::<EntryView<T>>::empty(),
    {
        let registry = FunctionRegistry { entries: Vec::new() };
        assert(registry@ =~= Seq::<EntryView<T>>::empty());
        registry
    }

    /// How many functions there are.
    pub fn len(&self) -> (count: usize)
        ensures
            count == self@.len(),
    {
        self.entries.len()
    }

    /// The function at an index, in the order of the keys.
    pub fn entry(&self, index: usize) -> (entry: &RegistryEntry<T>)
        requires
            index < self@.len(),
        ensures
            entry@ == self@[index as int],
    {
        &self.entries[index]
    }

    /// The index of the first function whose key is not below `key`.
    fn position(&self, key: u32) -> (at: usize)
        ensures
            at <= self@.len(),
            forall|i: int| 0 <= i < at ==> (#[trigger] self@[i]).key < key,
            at < self@.len() ==> self@[at as int].key >= key,
    {
        let mut at: usize = 0;
        while at < self.entries.len()
            invariant
                at <= self@.len(),
                self@.len() == self.entries@.len(),
                forall|i: int| 0 <= i < at ==> (#[trigger] self@[i]).key < key,
            decreases self.entries@.len() - at,
        {
            assert(self@[at as int] == self.entries@[at as int]@);
            if self.entries[at].key >= key {
                return at;
            }
            at = at + 1;
        }
        at
    }

    /// Puts a function in unless its key is taken, and says whether it did.
    pub fn insert_if_absent(&mut self, key: u32, name: &[u8], value: T) -> (inserted: bool)
        requires
            old(self).wf(),
        ensures
            final(self).wf(),
            inserted == !has_key(old(self)@, key),
            !inserted ==> final(self)@ == old(self)@,
            inserted ==> is_inserted(
                old(self)@,
                final(self)@,
                (EntryView { key, name: name@, value }),
            ),
    {
        let at = self.position(key);
        let ghost before = self@;
        if at < self.entries.len() && self.entries[at].key == key {
            assert(before[at as int].key == key);
            return false;
        }
        let entry = RegistryEntry { key, name: slice_to_vec(name), value };
        self.entries.insert(at, entry);
        proof {
            assert(entry@.name =~= name@);
            assert(self@ =~= before.insert(at as int, entry@));
            if has_key(before, key) {
                let i = choose|i: int| 0 <= i < before.len() && (#[trigger] before[i]).key == key;
                assert(at < i);
                assert(before[at as int].key < before[i].key);
            }
            assert forall|i: int, j: int| 0 <= i < j < self@.len() implies (
            #[trigger] self@[i]).key < (#[trigger] self@[j]).key by {
                let x = if i < at { i } else { i - 1 };
                let y = if j < at { j } else { j - 1 };
                assert(i != at ==> self@[i] == before[x]);
                assert(j != at ==> self@[j] == before[y]);
                assert(at < y ==> before[at as int].key < before[y].key);
            }
        }
        true
    }
}

impl<T: Copy> FunctionRegistry<T> {
    /// Looks up the name and the value under a key.
    pub fn lookup_by_key(&self, key: u32) -> (found: Option<(&[u8], T)>)
        requires
            self.wf(),
        ensures
            match found {
                Some((name, value)) => lookup(self@, key) == Some(
                    (EntryView { key, name: name@, value }),
                ),
                None => lookup(self@, key) is None,
            },
    {
        let at = self.position(key);
        if at < self.entries.len() && self.entries[at].key == key {
            assert(self@[at as int] == self.entries@[at as int]@);
            assert(has_key(self@, key));
            return Some((self.entries[at].name.as_slice(), self.entries[at].value));
        }
        proof {
            if has_key(self@, key) {
                let i = choose|i: int| 0 <= i < self@.len() && (#[trigger] self@[i]).key == key;
                assert(at < i);
                assert(self@[at as int].key < self@[i].key);
            }
        }
        None
    }
}

impl FunctionRegistry<usize> {
    /// Registers the function at a program counter. A key that is taken keeps
    /// its function; that is a collision where the program counters differ.
    pub fn register_function(&mut self, key: u32, name: &[u8], value: usize) -> (registered: Result<
        (),
        SymbolHashCollision,
    >)
        requires
            old(self).wf(),
        ensures
            final(self).wf(),
            match lookup(old(self)@, key) {
                Some(found) => {
                    &&& final(self)@ == old(self)@
                    &&& registered == (if found.value == value {
                        Ok::<(), SymbolHashCollision>(())
                    } else {
                        Err(SymbolHashCollision(key))
                    })
                },
                None => {
                    &&& is_inserted(
                        old(self)@,
                        final(self)@,
                        (EntryView { key, name: name@, value }),
                    )
                    &&& registered is Ok
                },
            },
    {
        match self.lookup_by_key(key) {
            Some((_name, found)) => {
                if found != value {
                    return Err(SymbolHashCollision(key));
                }
            },
            None => {
                self.insert_if_absent(key, name, value);
            },
        }
        Ok(())
    }
}

/// What a symbol registers.
pub open spec fn symbol_entry(symbol: JitSymbol) -> EntryView<usize> {
    EntryView { key: symbol.key, name: utf8::encode_utf8(symbol.name@), value: symbol.pc }
}

/// The first symbol that has the key.
pub open spec fn first_symbol(symbols: Seq<JitSymbol>, key: u32) -> Option<JitSymbol>
    decreases symbols.len(),
{
    if symbols.len() == 0 {
        None
    } else {
        match first_symbol(symbols.drop_last(), key) {
            Some(first) => Some(first),
            None => if symbols.last().key == key {
                Some(symbols.last())
            } else {
                None
            },
        }
    }
}

/// The bytes of a syscall's name.
pub open spec fn syscall_name(syscall: JitSyscallSymbol) -> Seq<u8> {
    utf8::encode_utf8(syscall.name@)
}

/// The first syscall whose name stands for the key.
pub open spec fn first_syscall(syscalls: Seq<JitSyscallSymbol>, key: u32) -> Option<
    JitSyscallSymbol,
>
    decreases syscalls.len(),
{
    if syscalls.len() == 0 {
        None
    } else {
        match first_syscall(syscalls.drop_last(), key) {
            Some(first) => Some(first),
            None => if hash::murmur3(syscall_name(syscalls.last())) == key {
                Some(syscalls.last())
            } else {
                None
            },
        }
    }
}

/// Whether a registry holds, under each key, the first symbol that has it.
pub open spec fn is_function_registry(
    registry: FunctionRegistry<usize>,
    symbols: Seq<JitSymbol>,
) -> bool {
    &&& registry.wf()
    &&& forall|key: u32|
        #![trigger lookup(registry@, key)]
        #![trigger first_symbol(symbols, key)]
        lookup(registry@, key) == (match first_symbol(symbols, key) {
            Some(symbol) => Some(symbol_entry(symbol)),
            None => None,
        })
}

/// Whether a registry holds, under each key, the first syscall whose name
/// stands for it.
pub open spec fn is_syscall_loader(
    loader: FunctionRegistry<()>,
    syscalls: Seq<JitSyscallSymbol>,
) -> bool {
    &&& loader.wf()
    &&& forall|key: u32|
        #![trigger lookup(loader@, key)]
        #![trigger first_syscall(syscalls, key)]
        lookup(loader@, key) == (match first_syscall(syscalls, key) {
            Some(syscall) => Some(EntryView { key, name: syscall_name(syscall), value: () }),
            None => None,
        })
}

/// The first symbol with a key is one of the symbols and has the key.
proof fn lemma_first_symbol(symbols: Seq<JitSymbol>, i: int)
    requires
        0 <= i < symbols.len(),
    ensures
        first_symbol(symbols, symbols[i].key) matches Some(first) && first.key == symbols[i].key
            && symbols.contains(first),
    decreases symbols.len(),
{
    let key = symbols[i].key;
    let before = symbols.drop_last();
    if i < before.len() {
        lemma_first_symbol(before, i);
        let first = first_symbol(before, key).unwrap();
        assert(symbols[before.index_of(first)] == first);
    } else if first_symbol(before, key) is Some {
        lemma_first_symbol_found(before, key);
        let first = first_symbol(before, key).unwrap();
        assert(symbols[before.index_of(first)] == first);
    } else {
        assert(symbols[i] == symbols.last());
    }
}

/// What is found as the first symbol with a key is one of the symbols.
proof fn lemma_first_symbol_found(symbols: Seq<JitSymbol>, key: u32)
    requires
        first_symbol(symbols, key) is Some,
    ensures
        first_symbol(symbols, key).unwrap().key == key,
        symbols.contains(first_symbol(symbols, key).unwrap()),
    decreases symbols.len(),
{
    let before = symbols.drop_last();
    if first_symbol(before, key) is Some {
        lemma_first_symbol_found(before, key);
        let first = first_symbol(before, key).unwrap();
        assert(symbols[before.index_of(first)] == first);
    } else {
        assert(symbols[symbols.len() - 1] == symbols.last());
    }
}

/// Calls resolve through the key of every symbol, to a symbol with that key.
/// Where symbols with one key stand at one program counter, they resolve to
/// that program counter.
pub proof fn law_every_key_resolves(
    registry: FunctionRegistry<usize>,
    symbols: Seq<JitSymbol>,
    i: int,
)
    requires
        is_function_registry(registry, symbols),
        0 <= i < symbols.len(),
    ensures
        lookup(registry@, symbols[i].key) matches Some(entry) && exists|j: int|
            0 <= j < symbols.len() && symbols[j].key == symbols[i].key && entry == symbol_entry(
                #[trigger] symbols[j],
            ),
        (forall|j: int|
            0 <= j < symbols.len() && (#[trigger] symbols[j]).key == symbols[i].key
                ==> symbols[j].pc == symbols[i].pc) ==> lookup(
            registry@,
            symbols[i].key,
        ).unwrap().value == symbols[i].pc,
{
    lemma_first_symbol(symbols, i);
    let first = first_symbol(symbols, symbols[i].key).unwrap();
    let j = symbols.index_of(first);
    assert(symbols[j] == first);
}

/// What stands in a registry is found under its key, and nothing is found under
/// a key that nothing has. The keys go up from one entry to the next.
pub proof fn law_lookup_finds_entries<T>(registry: FunctionRegistry<T>, i: int, key: u32)
    requires
        registry.wf(),
        0 <= i < registry@.len(),
    ensures
        lookup(registry@, registry@[i].key) == Some(registry@[i]),
        (forall|k: int| 0 <= k < registry@.len() ==> (#[trigger] registry@[k]).key != key)
            ==> lookup(registry@, key) is None,
        forall|k: int| 0 <= k < i ==> (#[trigger] registry@[k]).key < registry@[i].key,
{
    let entries = registry@;
    let own = entries[i].key;
    assert(has_key(entries, own));
    let k = choose|k: int| 0 <= k < entries.len() && (#[trigger] entries[k]).key == own;
    assert(k == i) by {
        if k < i {
            assert(entries[k].key < entries[i].key);
        } else if i < k {
            assert(entries[i].key < entries[k].key);
        }
    }
}

/// Putting an entry in makes one place for it and moves nothing else.
pub proof fn law_insertion_moves_nothing_else<T>(
    before: Seq<EntryView<T>>,
    after: Seq<EntryView<T>>,
    entry: EntryView<T>,
)
    requires
        is_inserted(before, after, entry),
    ensures
        after.len() == before.len() + 1,
        exists|at: int|
            {
                &&& 0 <= at < after.len()
                &&& #[trigger] after[at] == entry
                &&& forall|i: int| 0 <= i < at ==> #[trigger] after[i] == before[i]
                &&& forall|i: int| at <= i < before.len() ==> #[trigger] before[i] == after[i + 1]
            },
{
    let at = choose|at: int| 0 <= at <= before.len() && after == #[trigger] before.insert(at, entry);
    assert(after[at] == entry);
}

/// The functions of a program are registered under their keys with their whole
/// names and their program counters; of those that have one key the first is.
/// Nothing else is registered.
pub proof fn law_first_symbols_are_registered(
    registry: FunctionRegistry<usize>,
    symbols: Seq<JitSymbol>,
)
    requires
        is_function_registry(registry, symbols),
    ensures
        forall|i: int|
            0 <= i < symbols.len() && (forall|j: int|
                0 <= j < i ==> (#[trigger] symbols[j]).key != symbols[i].key) ==> lookup(
                registry@,
                (#[trigger] symbols[i]).key,
            ) == Some(
                EntryView {
                    key: symbols[i].key,
                    name: utf8::encode_utf8(symbols[i].name@),
                    value: symbols[i].pc,
                },
            ),
        forall|k: int|
            0 <= k < registry@.len() ==> exists|i: int|
                0 <= i < symbols.len() && (#[trigger] symbols[i]).key == (
                #[trigger] registry@[k]).key,
{
    assert forall|i: int|
        0 <= i < symbols.len() && (forall|j: int|
            0 <= j < i ==> (#[trigger] symbols[j]).key != symbols[i].key) implies lookup(
        registry@,
        (#[trigger] symbols[i]).key,
    ) == Some(
        EntryView {
            key: symbols[i].key,
            name: utf8::encode_utf8(symbols[i].name@),
            value: symbols[i].pc,
        },
    ) by {
        lemma_first_with_key(symbols, i);
        assert(first_symbol(symbols, symbols[i].key) == Some(symbols[i]));
    }
    assert forall|k: int| 0 <= k < registry@.len() implies exists|i: int|
        0 <= i < symbols.len() && (#[trigger] symbols[i]).key == (#[trigger] registry@[k]).key by {
        let key = registry@[k].key;
        assert(has_key(registry@, key));
        assert(lookup(registry@, key) is Some);
        assert(first_symbol(symbols, key) is Some);
        lemma_first_symbol_found(symbols, key);
        let i = symbols.index_of(first_symbol(symbols, key).unwrap());
        assert(symbols[i].key == key);
    }
}

/// A symbol with whose key none before it is found first.
proof fn lemma_first_with_key(symbols: Seq<JitSymbol>, i: int)
    requires
        0 <= i < symbols.len(),
        forall|j: int| 0 <= j < i ==> (#[trigger] symbols[j]).key != symbols[i].key,
    ensures
        first_symbol(symbols, symbols[i].key) == Some(symbols[i]),
    decreases symbols.len(),
{
    let before = symbols.drop_last();
    let key = symbols[i].key;
    if i < before.len() {
        assert forall|j: int| 0 <= j < i implies (#[trigger] before[j]).key != before[i].key by {
            assert(symbols[j].key != key);
        }
        lemma_first_with_key(before, i);
    } else if first_symbol(before, key) is Some {
        lemma_first_symbol_found(before, key);
        let j = before.index_of(first_symbol(before, key).unwrap());
        assert(symbols[j].key == key);
    }
}

/// The syscalls of a program are registered under the hashes of their whole
/// names; of those whose names have one hash the first is. Nothing else is
/// registered.
pub proof fn law_first_syscalls_are_loaded(
    loader: FunctionRegistry<()>,
    syscalls: Seq<JitSyscallSymbol>,
)
    requires
        is_syscall_loader(loader, syscalls),
    ensures
        forall|i: int|
            0 <= i < syscalls.len() && (forall|j: int|
                0 <= j < i ==> hash::murmur3(utf8::encode_utf8((#[trigger] syscalls[j]).name@))
                    != hash::murmur3(utf8::encode_utf8(syscalls[i].name@))) ==> lookup(
                loader@,
                hash::murmur3(utf8::encode_utf8((#[trigger] syscalls[i]).name@)),
            ) == Some(
                EntryView {
                    key: hash::murmur3(utf8::encode_utf8(syscalls[i].name@)),
                    name: utf8::encode_utf8(syscalls[i].name@),
                    value: (),
                },
            ),
        forall|k: int|
            0 <= k < loader@.len() ==> exists|i: int|
                0 <= i < syscalls.len() && hash::murmur3(
                    utf8::encode_utf8((#[trigger] syscalls[i]).name@),
                ) == (#[trigger] loader@[k]).key,
{
    assert forall|i: int|
        0 <= i < syscalls.len() && (forall|j: int|
            0 <= j < i ==> hash::murmur3(utf8::encode_utf8((#[trigger] syscalls[j]).name@))
                != hash::murmur3(utf8::encode_utf8(syscalls[i].name@))) implies lookup(
        loader@,
        hash::murmur3(utf8::encode_utf8((#[trigger] syscalls[i]).name@)),
    ) == Some(
        EntryView {
            key: hash::murmur3(utf8::encode_utf8(syscalls[i].name@)),
            name: utf8::encode_utf8(syscalls[i].name@),
            value: (),
        },
    ) by {
        let key = hash::murmur3(utf8::encode_utf8(syscalls[i].name@));
        lemma_first_syscall(syscalls, key, i);
        assert(first_syscall(syscalls, key) == Some(syscalls[i]));
    }
    assert forall|k: int| 0 <= k < loader@.len() implies exists|i: int|
        0 <= i < syscalls.len() && hash::murmur3(
            utf8::encode_utf8((#[trigger] syscalls[i]).name@),
        ) == (#[trigger] loader@[k]).key by {
        let key = loader@[k].key;
        assert(has_key(loader@, key));
        assert(lookup(loader@, key) is Some);
        assert(first_syscall(syscalls, key) is Some);
        lemma_first_syscall_found(syscalls, key);
        let i = syscalls.index_of(first_syscall(syscalls, key).unwrap());
        assert(hash::murmur3(utf8::encode_utf8(syscalls[i].name@)) == key);
    }
}

/// What is found as the first syscall of a key is one of the syscalls.
proof fn lemma_first_syscall_found(syscalls: Seq<JitSyscallSymbol>, key: u32)
    requires
        first_syscall(syscalls, key) is Some,
    ensures
        hash::murmur3(utf8::encode_utf8(first_syscall(syscalls, key).unwrap().name@)) == key,
        syscalls.contains(first_syscall(syscalls, key).unwrap()),
    decreases syscalls.len(),
{
    let before = syscalls.drop_last();
    if first_syscall(before, key) is Some {
        lemma_first_syscall_found(before, key);
        let first = first_syscall(before, key).unwrap();
        assert(syscalls[before.index_of(first)] == first);
    } else {
        assert(syscalls[syscalls.len() - 1] == syscalls.last());
    }
}

/// A syscall with whose key none before it is found first.
proof fn lemma_first_syscall(syscalls: Seq<JitSyscallSymbol>, key: u32, i: int)
    requires
        0 <= i < syscalls.len(),
        hash::murmur3(utf8::encode_utf8(syscalls[i].name@)) == key,
        forall|j: int|
            0 <= j < i ==> hash::murmur3(utf8::encode_utf8((#[trigger] syscalls[j]).name@)) != key,
    ensures
        first_syscall(syscalls, key) == Some(syscalls[i]),
    decreases syscalls.len(),
{
    let before = syscalls.drop_last();
    if i < before.len() {
        assert forall|j: int| 0 <= j < i implies hash::murmur3(
            utf8::encode_utf8((#[trigger] before[j]).name@),
        ) != key by {
            assert(before[j] == syscalls[j]);
        }
        lemma_first_syscall(before, key, i);
    } else if first_syscall(before, key) is Some {
        lemma_first_syscall_found(before, key);
        let first = first_syscall(before, key).unwrap();
        assert(syscalls[before.index_of(first)] == first);
    }
}

/// Collects the functions of a program for its disassembly. Where symbols have
/// one key, the first of them is found under it.
pub fn build_function_registry(meta: &JitCodeMeta) -> (registry: FunctionRegistry<usize>)
    ensures
        is_function_registry(registry, meta.symbols@),
{
    let mut registry = FunctionRegistry::<usize>::new();
    for i in 0..meta.symbols.len()
        invariant
            registry.wf(),
            forall|key: u32| #[trigger]
                lookup(registry@, key) == (match first_symbol(
                    meta.symbols@.take(i as int),
                    key,
                ) {
                    Some(symbol) => Some(symbol_entry(symbol)),
                    None => None,
                }),
    {
        let symbol = &meta.symbols[i];
        let ghost before = registry@;
        let _ = registry.register_function(symbol.key, symbol.name.as_str().as_bytes(), symbol.pc);
        proof {
            assert(meta.symbols@.take(i + 1).drop_last() =~= meta.symbols@.take(i as int));
            assert forall|key: u32| #[trigger] lookup(registry@, key) == (match first_symbol(
                meta.symbols@.take(i + 1),
                key,
            ) {
                Some(symbol) => Some(symbol_entry(symbol)),
                None => None,
            }) by {
                if lookup(before, symbol.key) is None {
                    law_inserted_is_found(before, registry@, symbol_entry(*symbol), key);
                }
            }
        }
    }
    assert(meta.symbols@.take(meta.symbols@.len() as int) =~= meta.symbols@);
    registry
}

/// Collects the syscalls of a program for its disassembly, each under the key
/// that its name stands for. Where names stand for one key, the first of them
/// is found under it.
pub fn build_syscall_loader(meta: &JitCodeMeta) -> (loader: FunctionRegistry<()>)
    ensures
        is_syscall_loader(loader, meta.syscalls@),
{
    let mut loader = FunctionRegistry::<()>::new();
    for i in 0..meta.syscalls.len()
        invariant
            loader.wf(),
            forall|key: u32| #[trigger]
                lookup(loader@, key) == (match first_syscall(
                    meta.syscalls@.take(i as int),
                    key,
                ) {
                    Some(syscall) => Some(
                        EntryView { key, name: syscall_name(syscall), value: () },
                    ),
                    None => None,
                }),
    {
        let name = meta.syscalls[i].name.as_str().as_bytes();
        let key: u32 = hash_symbol_name(name);
        let ghost before = loader@;
        let inserted = loader.insert_if_absent(key, name, ());
        proof {
            assert(meta.syscalls@.take(i + 1).drop_last() =~= meta.syscalls@.take(i as int));
            let entry = EntryView { key, name: name@, value: () };
            assert forall|other: u32| #[trigger] lookup(loader@, other) == (match first_syscall(
                meta.syscalls@.take(i + 1),
                other,
            ) {
                Some(syscall) => Some(
                    EntryView { key: other, name: syscall_name(syscall), value: () },
                ),
                None => None,
            }) by {
                if inserted {
                    law_inserted_is_found(before, loader@, entry, other);
                }
            }
        }
    }
    assert(meta.syscalls@.take(meta.syscalls@.len() as int) =~= meta.syscalls@);
    loader
}

/// The registry that is built of a program finds under each key the first
/// function that has it, with its whole name and its program counter, and has
/// no other keys.
pub proof fn law_built_registry_finds_first_symbols(
    meta: &JitCodeMeta,
    registry: FunctionRegistry<usize>,
    i: int,
)
    requires
        call_ensures(build_function_registry, (meta,), registry),
        0 <= i < meta.symbols@.len(),
        forall|j: int|
            0 <= j < i ==> (#[trigger] meta.symbols@[j]).key != meta.symbols@[i].key,
    ensures
        exists|k: int|
            {
                &&& 0 <= k < registry@.len()
                &&& (#[trigger] registry@[k]).key == meta.symbols@[i].key
                &&& registry@[k].name == utf8::encode_utf8(meta.symbols@[i].name@)
                &&& registry@[k].value == meta.symbols@[i].pc
            },
        forall|k: int|
            0 <= k < registry@.len() ==> exists|n: int|
                0 <= n < meta.symbols@.len() && (#[trigger] meta.symbols@[n]).key == (
                #[trigger] registry@[k]).key,
{
    let key = meta.symbols@[i].key;
    law_first_symbols_are_registered(registry, meta.symbols@);
    assert(lookup(registry@, meta.symbols@[i].key) is Some);
    let k = choose|k: int| 0 <= k < registry@.len() && (#[trigger] registry@[k]).key == key;
    assert(registry@[k].value == meta.symbols@[i].pc);
}

/// The loader that is built of a program finds under the hash of each name the
/// first syscall whose name has it, and has no other keys.
pub proof fn law_built_loader_finds_first_syscalls(
    meta: &JitCodeMeta,
    loader: FunctionRegistry<()>,
    i: int,
)
    requires
        call_ensures(build_syscall_loader, (meta,), loader),
        0 <= i < meta.syscalls@.len(),
        forall|j: int|
            0 <= j < i ==> hash::murmur3(utf8::encode_utf8((#[trigger] meta.syscalls@[j]).name@))
                != hash::murmur3(utf8::encode_utf8(meta.syscalls@[i].name@)),
    ensures
        exists|k: int|
            {
                &&& 0 <= k < loader@.len()
                &&& (#[trigger] loader@[k]).key == hash::murmur3(
                    utf8::encode_utf8(meta.syscalls@[i].name@),
                )
                &&& loader@[k].name == utf8::encode_utf8(meta.syscalls@[i].name@)
            },
        forall|k: int|
            0 <= k < loader@.len() ==> exists|n: int|
                0 <= n < meta.syscalls@.len() && hash::murmur3(
                    utf8::encode_utf8((#[trigger] meta.syscalls@[n]).name@),
                ) == (#[trigger] loader@[k]).key,
{
    let key = hash::murmur3(utf8::encode_utf8(meta.syscalls@[i].name@));
    law_first_syscalls_are_loaded(loader, meta.syscalls@);
    assert(meta.syscalls@[i] == meta.syscalls@[i]);
    assert(lookup(loader@, key) is Some);
    let k = choose|k: int| 0 <= k < loader@.len() && (#[trigger] loader@[k]).key == key;
    assert(loader@[k].name == utf8::encode_utf8(meta.syscalls@[i].name@));
}

} // verus!
