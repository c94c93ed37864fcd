//! Symbol files of compiled programs for debuggers.

use crate::elf_image;
use crate::elf_image::build_elf;
use crate::entry_list;
use crate::entry_list::{DescriptorView, JitDescriptor, LinkWrite};
use crate::meta::JitCodeMeta;
use std::collections::BTreeMap;
use vstd::prelude::*;

verus! {

/// A symbol file that a debugger was told of.
pub struct JitGdbEntry {
    /// The address of its entry in the list.
    pub entry: u64,
    /// The symbol file itself.
    pub elf: Vec<u8>,
}

/// Tells debuggers of compiled programs.
pub struct JitGdbHook {
    entries: BTreeMap<u64, JitGdbEntry>,
}

impl View for JitGdbHook {
    type V = Map<u64, JitGdbEntry>;

    /// The symbol files, by the addresses of the machine code.
    closed spec fn view(&self) -> Map<u64, JitGdbEntry> {
        self.entries@
    }
}

/// Whether the entries of all symbol files are in the list, each one for
/// itself.
pub open spec fn is_listed(hook: Map<u64, JitGdbEntry>, list: DescriptorView) -> bool {
    &&& forall|p: u64| #[trigger]
        hook.contains_key(p) ==> list.entries.contains_key(hook[p].entry)
    &&& forall|p: u64, q: u64|
        #![trigger hook.contains_key(p), hook.contains_key(q)]
        hook.contains_key(p) && hook.contains_key(q) && p != q ==> hook[p].entry != hook[q].entry
}

impl JitGdbHook {
    /// A hook that told of nothing yet.
    pub fn new() -> (hook: Self)
        ensures
            hook@ == Map::<u64, JitGdbEntry>::empty(),
    {
        JitGdbHook { entries: BTreeMap::new() }
    }

    /// The symbol file of a program that was loaded.
    pub fn symbol_file(&self, meta: &JitCodeMeta, text: &[u8], pc_offsets: &[u32]) -> (elf: Vec<u8>)
        requires
            elf_image::image_fits(*meta, text@, pc_offsets@),
        ensures
            elf@ == elf_image::elf_image(*meta, text@, pc_offsets@),
    {
        build_elf(meta, text, pc_offsets)
    }

    /// Puts the symbol file of a program that was loaded into the list. It is
    /// at the address `elf_addr`, and its entry at the address `entry`. Gives
    /// the links that changed, and the symbol file that was kept for the same
    /// machine code before, which stays in the list.
    pub fn on_code_load(
        &mut self,
        descriptor: &mut JitDescriptor,
        meta: &JitCodeMeta,
        entry: u64,
        elf_addr: u64,
        elf: Vec<u8>,
    ) -> (loaded: (Vec<LinkWrite>, Option<JitGdbEntry>))
        requires
            old(descriptor)@.wf(),
            entry != 0,
            !old(descriptor)@.entries.contains_key(entry),
        ensures
            final(descriptor)@.wf(),
            final(descriptor)@.order == seq![entry] + old(descriptor)@.order,
            final(descriptor)@.version == old(descriptor)@.version,
            final(descriptor)@.action_flag == entry_list::JIT_REGISTER_FN,
            final(descriptor)@.relevant_entry == entry,
            final(descriptor)@.entries.contains_key(entry),
            final(descriptor)@.entries[entry].symfile_addr == elf_addr,
            final(descriptor)@.entries[entry].symfile_size == elf@.len(),
            entry_list::symfiles_kept(old(descriptor)@.entries, final(descriptor)@.entries),
            entry_list::are_link_writes(
                loaded.0@,
                old(descriptor)@.entries,
                final(descriptor)@.entries,
            ),
            final(self)@ == old(self)@.insert(meta.code_ptr, (JitGdbEntry { entry, elf })),
            loaded.1 == (if old(self)@.contains_key(meta.code_ptr) {
                Some(old(self)@[meta.code_ptr])
            } else {
                None
            }),
            is_listed(old(self)@, old(descriptor)@) ==> is_listed(final(self)@, final(descriptor)@),
    {
        let ghost hook = self@;
        let ghost list = descriptor@;
        let writes = descriptor.register_entry(entry, elf_addr, elf.len() as u64);
        let replaced = self.entries.insert(meta.code_ptr, JitGdbEntry { entry, elf });
        proof {
            if is_listed(hook, list) {
                lemma_list_grows(list, descriptor@, entry);
                assert forall|p: u64| #[trigger]
                    self@.contains_key(p) implies descriptor@.entries.contains_key(
                    self@[p].entry,
                ) by {
                    if p != meta.code_ptr {
                        assert(hook.contains_key(p));
                    }
                }
                assert forall|p: u64, q: u64|
                    #![trigger self@.contains_key(p), self@.contains_key(q)]
                    self@.contains_key(p) && self@.contains_key(q) && p
                        != q implies self@[p].entry != self@[q].entry by {
                    if p != meta.code_ptr {
                        assert(hook.contains_key(p));
                    }
                    if q != meta.code_ptr {
                        assert(hook.contains_key(q));
                    }
                }
            }
        }
        (writes, replaced)
    }

    /// Takes the symbol file of a program that was unloaded out of the list.
    /// Gives it back, with the links that changed. Nothing is done for machine
    /// code that has none.
    pub fn on_code_unload(&mut self, descriptor: &mut JitDescriptor, meta: &JitCodeMeta) -> (
    unloaded: Option<(JitGdbEntry, Vec<LinkWrite>)>)
        requires
            old(descriptor)@.wf(),
            is_listed(old(self)@, old(descriptor)@),
        ensures
            final(descriptor)@.wf(),
            is_listed(final(self)@, final(descriptor)@),
            final(self)@ == old(self)@.remove(meta.code_ptr),
            if old(self)@.contains_key(meta.code_ptr) {
                let entry = old(self)@[meta.code_ptr].entry;
                &&& unloaded matches Some((removed, writes))
                &&& removed == old(self)@[meta.code_ptr]
                &&& final(descriptor)@.order == old(descriptor)@.order.remove_value(entry)
                &&& final(descriptor)@.version == old(descriptor)@.version
                &&& final(descriptor)@.action_flag == entry_list::JIT_UNREGISTER_FN
                &&& final(descriptor)@.relevant_entry == entry
                &&& entry_list::symfiles_kept(
                    old(descriptor)@.entries,
                    final(descriptor)@.entries,
                )
                &&& entry_list::are_link_writes(
                    writes@,
                    old(descriptor)@.entries,
                    final(descriptor)@.entries,
                )
            } else {
                unloaded is None && final(descriptor)@ == old(descriptor)@
            },
    {
        let ghost hook = self@;
        let ghost list = descriptor@;
        match self.entries.remove(&meta.code_ptr) {
            Some(removed) => {
                let writes = descriptor.unregister_entry(removed.entry);
                proof {
                    lemma_list_shrinks(list, descriptor@, removed.entry);
                    assert forall|p: u64| #[trigger]
                        self@.contains_key(p) implies descriptor@.entries.contains_key(
                        self@[p].entry,
                    ) by {
                        assert(hook.contains_key(p) && hook.contains_key(meta.code_ptr));
                    }
                    assert forall|p: u64, q: u64|
                        #![trigger self@.contains_key(p), self@.contains_key(q)]
                        self@.contains_key(p) && self@.contains_key(q) && p
                            != q implies self@[p].entry != self@[q].entry by {
                        assert(hook.contains_key(p) && hook.contains_key(q));
                    }
                }
                Some((removed, writes))
            },
            None => {
                assert(self@ =~= hook);
                None
            },
        }
    }
}

/// Other programs that come and go leave the symbol files of this one in the
/// list: whatever entry they put in, and whatever entry they take out that is
/// not one of this program's.
pub proof fn law_other_programs_keep_apart(
    hook: Map<u64, JitGdbEntry>,
    before: DescriptorView,
    after: DescriptorView,
    entry: u64,
)
    requires
        before.wf(),
        after.wf(),
        is_listed(hook, before),
        after.order == seq![entry] + before.order || after.order == before.order.remove_value(
            entry,
        ) && forall|p: u64| #[trigger] hook.contains_key(p) ==> hook[p].entry != entry,
    ensures
        is_listed(hook, after),
{
    if after.order == seq![entry] + before.order {
        lemma_list_grows(before, after, entry);
    } else {
        lemma_list_shrinks(before, after, entry);
    }
}

/// Every symbol file that is kept is in the list that the debugger walks, at a
/// place of its own.
pub proof fn law_kept_files_are_in_the_list(
    hook: Map<u64, JitGdbEntry>,
    list: DescriptorView,
    p: u64,
    q: u64,
)
    requires
        list.wf(),
        is_listed(hook, list),
        hook.contains_key(p),
        hook.contains_key(q),
    ensures
        entry_list::walk(list.entries, list.first_entry, list.order.len()).contains(hook[p].entry),
        p != q ==> hook[p].entry != hook[q].entry,
{
    entry_list::law_walk_meets_every_entry(list, list.order.len());
    assert(list.entries.contains_key(hook[p].entry));
}

/// Which entries are in a list that one was put into.
proof fn lemma_list_grows(before: DescriptorView, after: DescriptorView, entry: u64)
    requires
        before.wf(),
        after.wf(),
        after.order == seq![entry] + before.order,
    ensures
        forall|a: u64| #[trigger]
            before.entries.contains_key(a) ==> after.entries.contains_key(a),
{
    assert forall|a: u64| #[trigger]
        before.entries.contains_key(a) implies after.entries.contains_key(a) by {
        let i = before.order.index_of(a);
        assert(after.order[i + 1] == a);
        assert(after.order.contains(a));
    }
}

/// Which entries are in a list that one was taken out of.
proof fn lemma_list_shrinks(before: DescriptorView, after: DescriptorView, entry: u64)
    requires
        before.wf(),
        after.wf(),
        after.order == before.order.remove_value(entry),
    ensures
        forall|a: u64| #[trigger]
            before.entries.contains_key(a) && a != entry ==> after.entries.contains_key(a),
{
    entry_list::lemma_remove_value(before.order, entry);
    assert forall|a: u64| #[trigger]
        before.entries.contains_key(a) && a != entry implies after.entries.contains_key(a) by {
        assert(before.order.contains(a));
        assert(after.order.contains(a));
    }
}

} // verus!
