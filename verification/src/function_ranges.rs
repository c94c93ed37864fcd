//! The ranges of machine code that belong to the functions of a program.

use crate::code_map;
use crate::meta::{JitCodeMeta, JitSymbol};
use crate::symbol_set;
use crate::symbol_set::SymbolSet;
use vstd::prelude::*;

verus! {

/// A name of a function, with the program counters and the machine code that
/// it covers.
pub struct FunctionRange {
    pub name: String,
    pub pc_start: usize,
    pub pc_end: usize,
    pub host_start: u64,
    pub host_end: u64,
}

/// What a [`FunctionRange`] says.
pub struct RangeView {
    pub name: Seq<char>,
    pub pc_start: int,
    pub pc_end: int,
    pub host_start: int,
    pub host_end: int,
}

impl View for FunctionRange {
    type V = RangeView;

    open spec fn view(&self) -> RangeView {
        RangeView {
            name: self.name@,
            pc_start: self.pc_start as int,
            pc_end: self.pc_end as int,
            host_start: self.host_start as int,
            host_end: self.host_end as int,
        }
    }
}

impl FunctionRange {
    /// The start and the name, by which ranges are ordered.
    pub open spec fn key(&self) -> (usize, Seq<char>) {
        (self.pc_start, self.name@)
    }
}

/// Whether a function with the name `name` starts at `pc`, within the code.
pub open spec fn is_named_start(
    symbols: Seq<JitSymbol>,
    code_len: nat,
    pc: usize,
    name: Seq<char>,
) -> bool {
    &&& pc < code_len
    &&& name.len() > 0
    &&& exists|i: int|
        0 <= i < symbols.len() && (#[trigger] symbols[i]).pc == pc && symbols[i].name@ == name
}

/// Whether a function that has a name starts at `pc`, within the code.
pub open spec fn is_start(symbols: Seq<JitSymbol>, code_len: nat, pc: int) -> bool {
    &&& pc < code_len
    &&& exists|i: int|
        0 <= i < symbols.len() && (#[trigger] symbols[i]).pc == pc && symbols[i].name@.len() > 0
}

/// The first start from `from` on, or the end of the code.
pub open spec fn next_start(symbols: Seq<JitSymbol>, code_len: nat, from: int) -> int
    decreases code_len - from,
{
    if from >= code_len {
        code_len as int
    } else if is_start(symbols, code_len, from) {
        from
    } else {
        next_start(symbols, code_len, from + 1)
    }
}

/// Where the machine code of the function that starts at `pc` starts; the end
/// of the code where that is not known.
pub open spec fn host_start(
    meta: JitCodeMeta,
    text: Seq<u8>,
    pc_offsets: Seq<u32>,
    pc: int,
) -> int {
    match code_map::entry_offset(meta.function_entry_offsets@, text, pc_offsets, pc) {
        Some(offset) => offset,
        None => text.len() as int,
    }
}

/// The range of the function that starts at `pc`, under one of its names. It
/// ends where the next function starts, or else at the end of the code.
pub open spec fn range_at(
    meta: JitCodeMeta,
    text: Seq<u8>,
    pc_offsets: Seq<u32>,
    pc: int,
    name: Seq<char>,
) -> RangeView {
    let end = next_start(meta.symbols@, pc_offsets.len(), pc + 1);
    RangeView {
        name,
        pc_start: pc,
        pc_end: end,
        host_start: host_start(meta, text, pc_offsets, pc),
        host_end: if end < pc_offsets.len() {
            host_start(meta, text, pc_offsets, end)
        } else {
            text.len() as int
        },
    }
}

/// Whether the range of the function that starts at `pc` has machine code.
pub open spec fn has_code(
    meta: JitCodeMeta,
    text: Seq<u8>,
    pc_offsets: Seq<u32>,
    pc: int,
) -> bool {
    let range = range_at(meta, text, pc_offsets, pc, Seq::empty());
    range.host_start < range.host_end <= text.len()
}

/// The keys of ranges.
pub open spec fn range_keys(ranges: Seq<FunctionRange>) -> Seq<(usize, Seq<char>)> {
    ranges.map_values(|r: FunctionRange| r.key())
}

/// Whether `ranges` are the ranges of the program: one for each name at each
/// start that has machine code, ordered by start and name.
pub open spec fn is_function_ranges(
    ranges: Seq<FunctionRange>,
    meta: JitCodeMeta,
    text: Seq<u8>,
    pc_offsets: Seq<u32>,
) -> bool {
    &&& symbol_set::strictly_ordered(range_keys(ranges))
    &&& forall|i: int|
        0 <= i < ranges.len() ==> {
            &&& is_named_start(
                meta.symbols@,
                pc_offsets.len(),
                (#[trigger] ranges[i]).pc_start,
                ranges[i].name@,
            )
            &&& has_code(meta, text, pc_offsets, ranges[i].pc_start as int)
            &&& ranges[i]@ == range_at(
                meta,
                text,
                pc_offsets,
                ranges[i].pc_start as int,
                ranges[i].name@,
            )
        }
    &&& forall|pc: usize, name: Seq<char>| #[trigger]
        is_named_start(meta.symbols@, pc_offsets.len(), pc, name) && has_code(
            meta,
            text,
            pc_offsets,
            pc as int,
        ) ==> range_keys(ranges).contains((pc, name))
}

/// The ranges of a program are determined: there is one sequence of them.
pub proof fn law_ranges_are_determined(
    a: Seq<FunctionRange>,
    b: Seq<FunctionRange>,
    meta: JitCodeMeta,
    text: Seq<u8>,
    pc_offsets: Seq<u32>,
)
    requires
        is_function_ranges(a, meta, text, pc_offsets),
        is_function_ranges(b, meta, text, pc_offsets),
    ensures
        a.map_values(|r: FunctionRange| r@) == b.map_values(|r: FunctionRange| r@),
{
    let x = range_keys(a);
    let y = range_keys(b);
    assert forall|k: (usize, Seq<char>)| x.to_set().contains(k) == y.to_set().contains(k) by {
        if x.contains(k) {
            let i = choose|i: int| 0 <= i < x.len() && x[i] == k;
            assert(a[i].key() == k);
            assert(is_named_start(meta.symbols@, pc_offsets.len(), k.0, k.1));
        }
        if y.contains(k) {
            let i = choose|i: int| 0 <= i < y.len() && y[i] == k;
            assert(b[i].key() == k);
            assert(is_named_start(meta.symbols@, pc_offsets.len(), k.0, k.1));
        }
    }
    symbol_set::law_order_determines_sequence(x, y);
    assert forall|i: int| 0 <= i < a.len() implies (#[trigger] a[i])@ == b[i]@ by {
        assert(x[i] == y[i]);
        assert(a[i].key() == b[i].key());
    }
    assert(a.map_values(|r: FunctionRange| r@) =~= b.map_values(|r: FunctionRange| r@));
}

/// The next start is not before where it is looked for, nor past the end.
pub proof fn lemma_next_start_bound(symbols: Seq<JitSymbol>, code_len: nat, from: int)
    ensures
        next_start(symbols, code_len, from) <= code_len,
        from <= code_len ==> from <= next_start(symbols, code_len, from),
    decreases code_len - from,
{
    if from < code_len && !is_start(symbols, code_len, from) {
        lemma_next_start_bound(symbols, code_len, from + 1);
    }
}

proof fn lemma_next_start_at_most(symbols: Seq<JitSymbol>, code_len: nat, from: int, start: int)
    requires
        from <= start < code_len,
        is_start(symbols, code_len, start),
    ensures
        next_start(symbols, code_len, from) <= start,
    decreases code_len - from,
{
    if from < start && !is_start(symbols, code_len, from) {
        lemma_next_start_at_most(symbols, code_len, from + 1, start);
    }
}

/// Names of one start share one range, and ranges of different starts have no
/// program counter in common: the earlier one ends before the later one
/// starts.
pub proof fn law_ranges_share_or_are_apart(
    ranges: Seq<FunctionRange>,
    meta: JitCodeMeta,
    text: Seq<u8>,
    pc_offsets: Seq<u32>,
    i: int,
    j: int,
)
    requires
        is_function_ranges(ranges, meta, text, pc_offsets),
        0 <= i < j < ranges.len(),
    ensures
        ranges[i].pc_start == ranges[j].pc_start ==> ranges[i].name@ != ranges[j].name@
            && ranges[i].pc_end == ranges[j].pc_end && ranges[i].host_start
            == ranges[j].host_start && ranges[i].host_end == ranges[j].host_end,
        ranges[i].pc_start != ranges[j].pc_start ==> ranges[i].pc_end <= ranges[j].pc_start,
{
    let keys = range_keys(ranges);
    assert(symbol_set::key_less(keys[i], keys[j]));
    assert(keys[i] == ranges[i].key() && keys[j] == ranges[j].key());
    symbol_set::lemma_key_irreflexive(keys[i]);
    assert(ranges[i]@ == range_at(
        meta,
        text,
        pc_offsets,
        ranges[i].pc_start as int,
        ranges[i].name@,
    ));
    assert(ranges[j]@ == range_at(
        meta,
        text,
        pc_offsets,
        ranges[j].pc_start as int,
        ranges[j].name@,
    ));
    assert(ranges[i]@.pc_end == ranges[i].pc_end);
    assert(ranges[j]@.pc_end == ranges[j].pc_end);
    assert(ranges[i]@.host_start == ranges[i].host_start);
    assert(ranges[j]@.host_start == ranges[j].host_start);
    assert(ranges[i]@.host_end == ranges[i].host_end);
    assert(ranges[j]@.host_end == ranges[j].host_end);
    if ranges[i].pc_start != ranges[j].pc_start {
        assert(is_named_start(
            meta.symbols@,
            pc_offsets.len(),
            ranges[j].pc_start,
            ranges[j].name@,
        ));
        let n = choose|n: int|
            0 <= n < meta.symbols@.len() && (#[trigger] meta.symbols@[n]).pc
                == ranges[j].pc_start && meta.symbols@[n].name@ == ranges[j].name@;
        assert(meta.symbols@[n].name@.len() > 0);
        assert(is_start(meta.symbols@, pc_offsets.len(), ranges[j].pc_start as int));
        lemma_next_start_at_most(
            meta.symbols@,
            pc_offsets.len(),
            ranges[i].pc_start + 1,
            ranges[j].pc_start as int,
        );
    }
}

proof fn lemma_next_start(symbols: Seq<JitSymbol>, code_len: nat, from: int, end: int)
    requires
        from <= end <= code_len,
        end == code_len || is_start(symbols, code_len, end),
        forall|pc: int| from <= pc < end ==> !is_start(symbols, code_len, pc),
    ensures
        next_start(symbols, code_len, from) == end,
    decreases code_len - from,
{
    if from < end {
        lemma_next_start(symbols, code_len, from + 1, end);
    }
}

/// A range is that of a function with its name. It ends where the next function
/// that has a name starts, or at the end of the code, and no function that has
/// a name starts within it. Its machine code reaches from where the function
/// starts to where that next one does, or to the end of the machine code.
pub proof fn law_range_reaches_to_the_next_function(
    ranges: Seq<FunctionRange>,
    meta: JitCodeMeta,
    text: Seq<u8>,
    pc_offsets: Seq<u32>,
    i: int,
)
    requires
        is_function_ranges(ranges, meta, text, pc_offsets),
        0 <= i < ranges.len(),
    ensures
        ({
            let range = ranges[i];
            let entries = meta.function_entry_offsets@;
            &&& range.name@.len() > 0
            &&& exists|n: int|
                0 <= n < meta.symbols@.len() && (#[trigger] meta.symbols@[n]).pc == range.pc_start
                    && meta.symbols@[n].name@ == range.name@
            &&& range.pc_start < range.pc_end <= pc_offsets.len()
            &&& range.pc_end == pc_offsets.len() || exists|n: int|
                0 <= n < meta.symbols@.len() && (#[trigger] meta.symbols@[n]).pc == range.pc_end
                    && meta.symbols@[n].name@.len() > 0
            &&& forall|n: int|
                0 <= n < meta.symbols@.len() && (#[trigger] meta.symbols@[n]).name@.len() > 0
                    ==> meta.symbols@[n].pc <= range.pc_start || meta.symbols@[n].pc
                    >= range.pc_end
            &&& range.host_start < range.host_end <= text.len()
            &&& code_map::entry_offset(entries, text, pc_offsets, range.pc_start as int) == Some(
                range.host_start as int,
            )
            &&& range.pc_end < pc_offsets.len() ==> code_map::entry_offset(
                entries,
                text,
                pc_offsets,
                range.pc_end as int,
            ) == Some(range.host_end as int)
            &&& range.pc_end == pc_offsets.len() ==> range.host_end == text.len()
        }),
{
    let range = ranges[i];
    let symbols = meta.symbols@;
    let len = pc_offsets.len();
    let entries = meta.function_entry_offsets@;
    let start = range.pc_start as int;
    assert(is_named_start(symbols, len, range.pc_start, range.name@));
    assert(has_code(meta, text, pc_offsets, start));
    assert(range@ == range_at(meta, text, pc_offsets, start, range.name@));
    assert(range@.pc_end == range.pc_end && range@.host_start == range.host_start
        && range@.host_end == range.host_end);
    lemma_next_start_bound(symbols, len, start + 1);
    lemma_next_start_is_start(symbols, len, start + 1);
    code_map::law_functions_start_at_their_frames(entries, text, pc_offsets, start);
    code_map::law_functions_start_at_their_frames(entries, text, pc_offsets, range.pc_end as int);
    assert forall|n: int|
        0 <= n < symbols.len() && (#[trigger] symbols[n]).name@.len() > 0 implies symbols[n].pc
        <= range.pc_start || symbols[n].pc >= range.pc_end by {
        let pc = symbols[n].pc;
        if range.pc_start < pc < range.pc_end {
            assert(is_start(symbols, len, pc as int));
            lemma_next_start_at_most(symbols, len, start + 1, pc as int);
        }
    }
}

/// The next start is one, unless it is the end of the code.
proof fn lemma_next_start_is_start(symbols: Seq<JitSymbol>, code_len: nat, from: int)
    ensures
        next_start(symbols, code_len, from) == code_len || is_start(
            symbols,
            code_len,
            next_start(symbols, code_len, from),
        ),
    decreases code_len - from,
{
    if from < code_len && !is_start(symbols, code_len, from) {
        lemma_next_start_is_start(symbols, code_len, from + 1);
    }
}

/// Every function that has a name and machine code has a range. Its machine
/// code is what stands between where it starts and where the next function
/// does that has a name: `end` is the program counter of that one, or the end
/// of the code.
pub proof fn law_every_named_function_has_a_range(
    ranges: Seq<FunctionRange>,
    meta: JitCodeMeta,
    text: Seq<u8>,
    pc_offsets: Seq<u32>,
    n: int,
    end: int,
)
    requires
        is_function_ranges(ranges, meta, text, pc_offsets),
        0 <= n < meta.symbols@.len(),
        meta.symbols@[n].name@.len() > 0,
        meta.symbols@[n].pc < end <= pc_offsets.len(),
        end == pc_offsets.len() || exists|m: int|
            0 <= m < meta.symbols@.len() && (#[trigger] meta.symbols@[m]).pc == end
                && meta.symbols@[m].name@.len() > 0,
        forall|m: int|
            0 <= m < meta.symbols@.len() && (#[trigger] meta.symbols@[m]).name@.len() > 0
                ==> meta.symbols@[m].pc <= meta.symbols@[n].pc || meta.symbols@[m].pc >= end,
        ({
            let entries = meta.function_entry_offsets@;
            let pc = meta.symbols@[n].pc as int;
            let start = code_map::entry_offset(entries, text, pc_offsets, pc).unwrap();
            let stop = if end == pc_offsets.len() {
                text.len() as int
            } else {
                code_map::entry_offset(entries, text, pc_offsets, end).unwrap()
            };
            start < stop <= text.len()
        }),
    ensures
        exists|k: int|
            {
                &&& 0 <= k < ranges.len()
                &&& (#[trigger] ranges[k]).pc_start == meta.symbols@[n].pc
                &&& ranges[k].name@ == meta.symbols@[n].name@
                &&& ranges[k].pc_end == end
            },
{
    let symbols = meta.symbols@;
    let len = pc_offsets.len();
    let entries = meta.function_entry_offsets@;
    let pc = symbols[n].pc;
    let name = symbols[n].name@;
    assert(is_named_start(symbols, len, pc, name));
    if end < len {
        assert(is_start(symbols, len, end));
    }
    assert forall|other: int| pc + 1 <= other < end implies !is_start(symbols, len, other) by {}
    lemma_next_start(symbols, len, pc + 1, end);
    code_map::law_functions_start_at_their_frames(entries, text, pc_offsets, pc as int);
    code_map::law_functions_start_at_their_frames(entries, text, pc_offsets, end);
    assert(has_code(meta, text, pc_offsets, pc as int));
    assert(range_keys(ranges).contains((pc, name)));
    let k = range_keys(ranges).index_of((pc, name));
    assert(ranges[k].key() == (pc, name));
    assert(ranges[k]@ == range_at(meta, text, pc_offsets, pc as int, name));
    assert(ranges[k]@.pc_end == ranges[k].pc_end);
}

/// Ranges come in the order of the program counters at which they start.
pub proof fn law_ranges_follow_counters(
    ranges: Seq<FunctionRange>,
    meta: JitCodeMeta,
    text: Seq<u8>,
    pc_offsets: Seq<u32>,
    i: int,
    j: int,
)
    requires
        is_function_ranges(ranges, meta, text, pc_offsets),
        0 <= i < j < ranges.len(),
    ensures
        ranges[i].pc_start <= ranges[j].pc_start,
        ranges[i].pc_start == ranges[j].pc_start ==> ranges[i].name@ != ranges[j].name@,
{
    law_ranges_share_or_are_apart(ranges, meta, text, pc_offsets, i, j);
    law_range_reaches_to_the_next_function(ranges, meta, text, pc_offsets, i);
}

/// Collects the names of the starts, in order.
fn collect_starts(symbols: &Vec<JitSymbol>, code_len: usize) -> (starts: SymbolSet)
    ensures
        starts.wf(),
        forall|pc: usize, name: Seq<char>| #[trigger]
            starts@.contains((pc, name)) <==> is_named_start(
                symbols@,
                code_len as nat,
                pc,
                name,
            ),
{
    let mut starts = SymbolSet::new();
    let mut i: usize = 0;
    while i < symbols.len()
        invariant
            i <= symbols@.len(),
            starts.wf(),
            forall|pc: usize, name: Seq<char>| #[trigger]
                starts@.contains((pc, name)) <==> pc < code_len && name.len() > 0 && exists|j: int|
                    0 <= j < i && (#[trigger] symbols@[j]).pc == pc && symbols@[j].name@ == name,
        decreases symbols@.len() - i,
    {
        let symbol = &symbols[i];
        let ghost known = starts@;
        if !(symbol.name.as_str().is_empty() || symbol.pc >= code_len) {
            let ghost key = (symbol.pc, symbol.name@);
            let added = starts.insert(symbol.pc, symbol.name.as_str());
            proof {
                symbol_set::lemma_members_after_insert(known, starts@, key, added);
            }
        }
        assert forall|pc: usize, name: Seq<char>| #[trigger]
            starts@.contains((pc, name)) <==> pc < code_len && name.len() > 0 && exists|j: int|
                0 <= j < i + 1 && (#[trigger] symbols@[j]).pc == pc && symbols@[j].name@
                    == name by {
            if starts@.contains((pc, name)) && !known.contains((pc, name)) {
                assert(symbols@[i as int].pc == pc);
            }
            if pc < code_len && name.len() > 0 && exists|j: int|
                0 <= j < i + 1 && (#[trigger] symbols@[j]).pc == pc && symbols@[j].name@ == name {
                let j = choose|j: int|
                    0 <= j < i + 1 && (#[trigger] symbols@[j]).pc == pc && symbols@[j].name@
                        == name;
                if j < i {
                    assert(known.contains((pc, name)));
                }
            }
        }
        i = i + 1;
    }
    starts
}

/// The start that follows the one that the member number `i` names.
fn next_member_start(
    starts: &SymbolSet,
    symbols: &Vec<JitSymbol>,
    code_len: usize,
    i: usize,
) -> (end: usize)
    requires
        starts.wf(),
        forall|pc: usize, name: Seq<char>| #[trigger]
            starts@.contains((pc, name)) <==> is_named_start(
                symbols@,
                code_len as nat,
                pc,
                name,
            ),
        i < starts@.len(),
    ensures
        end == next_start(symbols@, code_len as nat, starts@[i as int].0 + 1),
        end <= code_len,
{
    let count: usize = starts.len();
    let pc = starts.get(i).pc;
    let mut j: usize = i + 1;
    while j < count && starts.get(j).pc == pc
        invariant
            count == starts@.len(),
            starts.wf(),
            pc == starts@[i as int].0,
            i < j <= starts@.len(),
            forall|k: int| i <= k < j ==> (#[trigger] starts@[k]).0 == pc,
        decreases starts@.len() - j,
    {
        j = j + 1;
    }
    assert(starts@.contains(starts@[i as int]));
    assert(is_named_start(symbols@, code_len as nat, pc, starts@[i as int].1));
    let end: usize = if j < count {
        starts.get(j).pc
    } else {
        code_len
    };
    proof {
        if j < starts@.len() {
            assert(symbol_set::key_less(starts@[i as int], starts@[j as int]));
            assert(starts@.contains(starts@[j as int]));
            assert(is_named_start(symbols@, code_len as nat, end, starts@[j as int].1));
            let n = choose|n: int|
                0 <= n < symbols@.len() && (#[trigger] symbols@[n]).pc == end && symbols@[n].name@
                    == starts@[j as int].1;
            assert(symbols@[n].name@.len() > 0);
            assert(is_start(symbols@, code_len as nat, end as int));
        }
        assert forall|q: int| pc + 1 <= q < end implies !is_start(
            symbols@,
            code_len as nat,
            q,
        ) by {
            if is_start(symbols@, code_len as nat, q) {
                let n = choose|n: int|
                    0 <= n < symbols@.len() && (#[trigger] symbols@[n]).pc == q
                        && symbols@[n].name@.len() > 0;
                let name = symbols@[n].name@;
                assert(is_named_start(symbols@, code_len as nat, q as usize, name));
                assert(starts@.contains((q as usize, name)));
                let k = choose|k: int|
                    0 <= k < starts@.len() && starts@[k] == (q as usize, name);
                if k < i {
                    assert(symbol_set::key_less(starts@[k], starts@[i as int]));
                } else if k >= j && k > j {
                    assert(symbol_set::key_less(starts@[j as int], starts@[k]));
                }
            }
        }
        lemma_next_start(symbols@, code_len as nat, pc + 1, end as int);
    }
    end
}

/// Where the machine code of the function that starts at `pc` starts.
fn host_start_of(meta: &JitCodeMeta, text: &[u8], pc_offsets: &[u32], pc: usize) -> (start: u64)
    ensures
        start == host_start(*meta, text@, pc_offsets@, pc as int),
{
    match code_map::function_entry_offset(meta, text, pc_offsets, pc) {
        Some(offset) => offset as u64,
        None => text.len() as u64,
    }
}

/// Builds the ranges of the functions of a program.
pub fn build_function_ranges(meta: &JitCodeMeta, text: &[u8], pc_offsets: &[u32]) -> (ranges: Vec<
    FunctionRange,
>)
    ensures
        is_function_ranges(ranges@, *meta, text@, pc_offsets@),
{
    let code_len: usize = pc_offsets.len();
    let starts = collect_starts(&meta.symbols, code_len);
    let text_len: u64 = text.len() as u64;
    let mut ranges: Vec<FunctionRange> = Vec::new();
    let mut i: usize = 0;
    while i < starts.len()
        invariant
            i <= starts@.len(),
            starts.wf(),
            code_len == pc_offsets@.len(),
            text_len == text@.len(),
            forall|pc: usize, name: Seq<char>| #[trigger]
                starts@.contains((pc, name)) <==> is_named_start(
                    meta.symbols@,
                    code_len as nat,
                    pc,
                    name,
                ),
            symbol_set::strictly_ordered(range_keys(ranges@)),
            forall|k: int|
                0 <= k < ranges@.len() ==> {
                    &&& is_named_start(
                        meta.symbols@,
                        code_len as nat,
                        (#[trigger] ranges@[k]).pc_start,
                        ranges@[k].name@,
                    )
                    &&& has_code(*meta, text@, pc_offsets@, ranges@[k].pc_start as int)
                    &&& ranges@[k]@ == range_at(
                        *meta,
                        text@,
                        pc_offsets@,
                        ranges@[k].pc_start as int,
                        ranges@[k].name@,
                    )
                    &&& exists|n: int| 0 <= n < i && starts@[n] == ranges@[k].key()
                },
            forall|n: int|
                0 <= n < i && has_code(
                    *meta,
                    text@,
                    pc_offsets@,
                    (#[trigger] starts@[n]).0 as int,
                ) ==> range_keys(ranges@).contains(starts@[n]),
        decreases starts@.len() - i,
    {
        let ghost before = ranges@;
        let member = starts.get(i);
        let ghost key = starts@[i as int];
        assert(starts@.contains(key));
        assert(is_named_start(meta.symbols@, code_len as nat, key.0, key.1));
        let pc_start: usize = member.pc;
        let pc_end: usize = next_member_start(&starts, &meta.symbols, code_len, i);
        let host_start: u64 = host_start_of(meta, text, pc_offsets, pc_start);
        let host_end: u64 = if pc_end < code_len {
            host_start_of(meta, text, pc_offsets, pc_end)
        } else {
            text_len
        };
        if !(host_end <= host_start || host_end > text_len) {
            assert(has_code(*meta, text@, pc_offsets@, pc_start as int));
            ranges.push(
                FunctionRange {
                    name: member.name.clone(),
                    pc_start,
                    pc_end,
                    host_start,
                    host_end,
                },
            );
            let ghost added = ranges@.last();
            assert(added.key() == key);
            assert(added@ == range_at(*meta, text@, pc_offsets@, pc_start as int, key.1));
            let ghost keys = range_keys(ranges@);
            assert(keys =~= range_keys(before).push(key));
            assert forall|a: int, b: int| 0 <= a < b < keys.len() implies symbol_set::key_less(
                keys[a],
                keys[b],
            ) by {
                if b < before.len() {
                    assert(symbol_set::key_less(range_keys(before)[a], range_keys(before)[b]));
                } else {
                    assert(before[a].key() == keys[a]);
                    let n = choose|n: int| 0 <= n < i && starts@[n] == before[a].key();
                    assert(symbol_set::key_less(starts@[n], starts@[i as int]));
                }
            }
            assert forall|k: int| 0 <= k < ranges@.len() implies exists|n: int|
                0 <= n < i + 1 && starts@[n] == (#[trigger] ranges@[k]).key() by {
                if k < before.len() {
                    assert(ranges@[k] == before[k]);
                    let n = choose|n: int| 0 <= n < i && starts@[n] == before[k].key();
                    assert(starts@[n] == ranges@[k].key());
                } else {
                    assert(starts@[i as int] == ranges@[k].key());
                }
            }
            assert forall|n: int|
                0 <= n < i + 1 && has_code(
                    *meta,
                    text@,
                    pc_offsets@,
                    (#[trigger] starts@[n]).0 as int,
                ) implies keys.contains(starts@[n]) by {
                if n < i {
                    let k = choose|k: int|
                        0 <= k < range_keys(before).len() && range_keys(before)[k] == starts@[n];
                    assert(keys[k] == starts@[n]);
                } else {
                    assert(keys[before.len() as int] == key);
                }
            }
        } else {
            assert(!has_code(*meta, text@, pc_offsets@, pc_start as int));
        }
        i = i + 1;
    }
    assert forall|pc: usize, name: Seq<char>| #[trigger]
        is_named_start(meta.symbols@, pc_offsets@.len(), pc, name) && has_code(
            *meta,
            text@,
            pc_offsets@,
            pc as int,
        ) implies range_keys(ranges@).contains((pc, name)) by {
        assert(starts@.contains((pc, name)));
        let n = choose|n: int| 0 <= n < starts@.len() && starts@[n] == (pc, name);
        assert(starts@[n].0 == pc);
    }
    ranges
}

/// The ranges that are built for a program are those of its functions: each has
/// the name of one, reaches to the next function that has a name, and holds the
/// machine code up to there; and every function that has a name has its range
/// under that name, unless no machine code stands before the next one.
pub proof fn law_built_ranges_are_those_of_functions(
    meta: &JitCodeMeta,
    text: &[u8],
    pc_offsets: &[u32],
    ranges: Vec<FunctionRange>,
    n: int,
    end: int,
)
    requires
        call_ensures(build_function_ranges, (meta, text, pc_offsets), ranges),
        0 <= n < meta.symbols@.len(),
        meta.symbols@[n].name@.len() > 0,
        meta.symbols@[n].pc < end <= pc_offsets@.len(),
        end == pc_offsets@.len() || exists|m: int|
            0 <= m < meta.symbols@.len() && (#[trigger] meta.symbols@[m]).pc == end
                && meta.symbols@[m].name@.len() > 0,
        forall|m: int|
            0 <= m < meta.symbols@.len() && (#[trigger] meta.symbols@[m]).name@.len() > 0
                ==> meta.symbols@[m].pc <= meta.symbols@[n].pc || meta.symbols@[m].pc >= end,
    ensures
        ({
            let entries = meta.function_entry_offsets@;
            let pc = meta.symbols@[n].pc as int;
            let start = code_map::entry_offset(entries, text@, pc_offsets@, pc).unwrap();
            let stop = if end == pc_offsets@.len() {
                text@.len() as int
            } else {
                code_map::entry_offset(entries, text@, pc_offsets@, end).unwrap()
            };
            start < stop <= text@.len() <==> exists|k: int|
                {
                    &&& 0 <= k < ranges@.len()
                    &&& (#[trigger] ranges@[k]).pc_start == pc
                    &&& ranges@[k].name@ == meta.symbols@[n].name@
                    &&& ranges@[k].pc_end == end
                    &&& ranges@[k].host_start == start
                    &&& ranges@[k].host_end == stop
                }
        }),
{
    let entries = meta.function_entry_offsets@;
    let pc = meta.symbols@[n].pc as int;
    let name = meta.symbols@[n].name@;
    let start = code_map::entry_offset(entries, text@, pc_offsets@, pc).unwrap();
    let stop = if end == pc_offsets@.len() {
        text@.len() as int
    } else {
        code_map::entry_offset(entries, text@, pc_offsets@, end).unwrap()
    };
    if start < stop <= text@.len() {
        law_every_named_function_has_a_range(ranges@, *meta, text@, pc_offsets@, n, end);
        let k = choose|k: int|
            {
                &&& 0 <= k < ranges@.len()
                &&& (#[trigger] ranges@[k]).pc_start == pc
                &&& ranges@[k].name@ == name
                &&& ranges@[k].pc_end == end
            };
        law_range_reaches_to_the_next_function(ranges@, *meta, text@, pc_offsets@, k);
        assert(ranges@[k].host_start == start);
    }
    if exists|k: int|
        {
            &&& 0 <= k < ranges@.len()
            &&& (#[trigger] ranges@[k]).pc_start == pc
            &&& ranges@[k].name@ == name
            &&& ranges@[k].pc_end == end
            &&& ranges@[k].host_start == start
            &&& ranges@[k].host_end == stop
        } {
        let k = choose|k: int|
            {
                &&& 0 <= k < ranges@.len()
                &&& (#[trigger] ranges@[k]).pc_start == pc
                &&& ranges@[k].name@ == name
                &&& ranges@[k].pc_end == end
                &&& ranges@[k].host_start == start
                &&& ranges@[k].host_end == stop
            };
        law_range_reaches_to_the_next_function(ranges@, *meta, text@, pc_offsets@, k);
    }
}

} // verus!
