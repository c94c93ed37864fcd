//! The pieces of machine code that a dump holds.

use crate::function_ranges;
use crate::function_ranges::{build_function_ranges, FunctionRange};
use crate::meta::{JitCodeMeta, JitHostSymbol};
use vstd::prelude::*;

verus! {

/// The program counters that a source file is for.
#[derive(Clone, Copy, Debug, PartialEq, Eq, Structural)]
pub struct SourceRange {
    /// The number of the range among the ranges of the program.
    pub index: usize,
    pub pc_start: usize,
    pub pc_end: usize,
}

/// A piece of machine code that a dump holds.
pub struct LoadItem {
    pub name: String,
    pub code_addr: u64,
    pub host_start: u64,
    pub host_end: u64,
    /// For a function of the program, what its source file is for.
    pub source: Option<SourceRange>,
}

/// What a [`LoadItem`] says.
pub struct ItemView {
    pub name: Seq<char>,
    pub code_addr: u64,
    pub host_start: u64,
    pub host_end: u64,
    pub source: Option<SourceRange>,
}

impl View for LoadItem {
    type V = ItemView;

    open spec fn view(&self) -> ItemView {
        ItemView {
            name: self.name@,
            code_addr: self.code_addr,
            host_start: self.host_start,
            host_end: self.host_end,
            source: self.source,
        }
    }
}

/// What items say.
pub open spec fn item_views(items: Seq<LoadItem>) -> Seq<ItemView> {
    items.map_values(|item: LoadItem| item@)
}

/// Whether machine code from `start` to `end` is there, and not empty.
pub open spec fn is_code(start: u64, end: u64, text_len: nat) -> bool {
    start < end <= text_len
}

/// The item for a range of machine code that belongs to no function.
pub open spec fn host_item(code_ptr: u64, symbol: JitHostSymbol) -> ItemView {
    ItemView {
        name: symbol.name@,
        code_addr: (code_ptr + symbol.host_start) as u64,
        host_start: symbol.host_start,
        host_end: symbol.host_end,
        source: None,
    }
}

/// The item for a function.
pub open spec fn function_item(code_ptr: u64, range: FunctionRange, index: int) -> ItemView {
    ItemView {
        name: range.name@,
        code_addr: (code_ptr + range.host_start) as u64,
        host_start: range.host_start,
        host_end: range.host_end,
        source: Some(
            SourceRange { index: index as usize, pc_start: range.pc_start, pc_end: range.pc_end },
        ),
    }
}

/// The items for the machine code that belongs to no function.
pub open spec fn host_items(
    code_ptr: u64,
    symbols: Seq<JitHostSymbol>,
    text_len: nat,
) -> Seq<ItemView>
    decreases symbols.len(),
{
    if symbols.len() == 0 {
        Seq::empty()
    } else {
        let before = host_items(code_ptr, symbols.drop_last(), text_len);
        let symbol = symbols.last();
        if is_code(symbol.host_start, symbol.host_end, text_len) {
            before.push(host_item(code_ptr, symbol))
        } else {
            before
        }
    }
}

/// The items for functions, each under the number of its range.
pub open spec fn function_items(
    code_ptr: u64,
    ranges: Seq<FunctionRange>,
    text_len: nat,
) -> Seq<ItemView>
    decreases ranges.len(),
{
    if ranges.len() == 0 {
        Seq::empty()
    } else {
        let before = function_items(code_ptr, ranges.drop_last(), text_len);
        let range = ranges.last();
        if is_code(range.host_start, range.host_end, text_len) {
            before.push(function_item(code_ptr, range, ranges.len() - 1))
        } else {
            before
        }
    }
}

/// What a dump holds: first the machine code that belongs to no function, then
/// the functions.
pub open spec fn load_items(
    code_ptr: u64,
    symbols: Seq<JitHostSymbol>,
    ranges: Seq<FunctionRange>,
    text_len: nat,
) -> Seq<ItemView> {
    host_items(code_ptr, symbols, text_len) + function_items(code_ptr, ranges, text_len)
}

/// Whether the addresses of what a dump holds fit in 64 bits.
pub open spec fn items_addressable(
    code_ptr: u64,
    symbols: Seq<JitHostSymbol>,
    ranges: Seq<FunctionRange>,
    text_len: nat,
) -> bool {
    &&& forall|i: int|
        0 <= i < symbols.len() && is_code(
            (#[trigger] symbols[i]).host_start,
            symbols[i].host_end,
            text_len,
        ) ==> code_ptr + symbols[i].host_start <= u64::MAX
    &&& forall|i: int|
        0 <= i < ranges.len() && is_code(
            (#[trigger] ranges[i]).host_start,
            ranges[i].host_end,
            text_len,
        ) ==> code_ptr + ranges[i].host_start <= u64::MAX
}

/// Whether a program has a named function with machine code.
pub open spec fn has_functions(meta: JitCodeMeta, text: Seq<u8>, pc_offsets: Seq<u32>) -> bool {
    exists|pc: usize|
        #![trigger function_ranges::is_start(meta.symbols@, pc_offsets.len(), pc as int)]
        function_ranges::is_start(meta.symbols@, pc_offsets.len(), pc as int)
            && function_ranges::has_code(meta, text, pc_offsets, pc as int)
}

/// Whether the addresses of what the dump of a program holds fit in 64 bits.
pub open spec fn dump_addressable(
    meta: JitCodeMeta,
    text: Seq<u8>,
    pc_offsets: Seq<u32>,
) -> bool {
    has_functions(meta, text, pc_offsets) ==> {
        &&& forall|i: int|
            0 <= i < meta.host_symbols@.len() && is_code(
                (#[trigger] meta.host_symbols@[i]).host_start,
                meta.host_symbols@[i].host_end,
                text.len(),
            ) ==> meta.code_ptr + meta.host_symbols@[i].host_start <= u64::MAX
        &&& forall|pc: usize|
            #![trigger function_ranges::is_start(meta.symbols@, pc_offsets.len(), pc as int)]
            function_ranges::is_start(meta.symbols@, pc_offsets.len(), pc as int)
                && function_ranges::has_code(meta, text, pc_offsets, pc as int) ==> meta.code_ptr
                + function_ranges::host_start(meta, text, pc_offsets, pc as int) <= u64::MAX
    }
}

/// Whether items keep to the machine code and to the program counters.
pub open spec fn items_fit(items: Seq<ItemView>, text_len: nat, pc_count: nat) -> bool {
    forall|i: int|
        0 <= i < items.len() ==> {
            &&& is_code((#[trigger] items[i]).host_start, items[i].host_end, text_len)
            &&& items[i].source matches Some(source) ==> source.pc_end <= pc_count
        }
}

/// Whether the source files of different items are different files.
pub open spec fn sources_apart(items: Seq<ItemView>) -> bool {
    forall|i: int, j: int|
        0 <= i < j < items.len() && (#[trigger] items[i]).source is Some && (
        #[trigger] items[j]).source is Some ==> items[i].source.unwrap().index
            != items[j].source.unwrap().index
}

/// Lists what a dump holds.
pub fn build_load_items(meta: &JitCodeMeta, text_len: usize, functions: &Vec<FunctionRange>) -> (items:
    Vec<LoadItem>)
    requires
        items_addressable(meta.code_ptr, meta.host_symbols@, functions@, text_len as nat),
    ensures
        item_views(items@) == load_items(
            meta.code_ptr,
            meta.host_symbols@,
            functions@,
            text_len as nat,
        ),
{
    let mut items: Vec<LoadItem> = Vec::new();
    let ghost symbols = meta.host_symbols@;
    assert(item_views(items@) =~= host_items(meta.code_ptr, symbols.take(0), text_len as nat));
    for i in 0..meta.host_symbols.len()
        invariant
            symbols == meta.host_symbols@,
            items_addressable(meta.code_ptr, symbols, functions@, text_len as nat),
            item_views(items@) == host_items(
                meta.code_ptr,
                symbols.take(i as int),
                text_len as nat,
            ),
    {
        let symbol = &meta.host_symbols[i];
        let ghost before = items@;
        assert(symbols.take(i + 1).drop_last() =~= symbols.take(i as int));
        if symbol.host_start < symbol.host_end && symbol.host_end <= text_len as u64 {
            assert(is_code(
                symbols[i as int].host_start,
                symbols[i as int].host_end,
                text_len as nat,
            ));
            let item = LoadItem {
                name: symbol.name.clone(),
                code_addr: meta.code_ptr + symbol.host_start,
                host_start: symbol.host_start,
                host_end: symbol.host_end,
                source: None,
            };
            items.push(item);
            assert(item_views(items@) =~= item_views(before).push(item@));
        }
    }
    let ghost hosts = host_items(meta.code_ptr, symbols, text_len as nat);
    assert(symbols.take(symbols.len() as int) =~= symbols);
    assert(item_views(items@) =~= hosts + function_items(
        meta.code_ptr,
        functions@.take(0),
        text_len as nat,
    ));
    for i in 0..functions.len()
        invariant
            items_addressable(meta.code_ptr, symbols, functions@, text_len as nat),
            item_views(items@) == hosts + function_items(
                meta.code_ptr,
                functions@.take(i as int),
                text_len as nat,
            ),
    {
        let function = &functions[i];
        let ghost before = items@;
        assert(functions@.take(i + 1).drop_last() =~= functions@.take(i as int));
        if function.host_start < function.host_end && function.host_end <= text_len as u64 {
            assert(is_code(
                functions@[i as int].host_start,
                functions@[i as int].host_end,
                text_len as nat,
            ));
            let item = LoadItem {
                name: function.name.clone(),
                code_addr: meta.code_ptr + function.host_start,
                host_start: function.host_start,
                host_end: function.host_end,
                source: Some(
                    SourceRange {
                        index: i,
                        pc_start: function.pc_start,
                        pc_end: function.pc_end,
                    },
                ),
            };
            items.push(item);
            assert(item_views(items@) =~= item_views(before).push(item@));
            assert(item@ == function_item(meta.code_ptr, *function, i as int));
            assert(item_views(items@) =~= hosts + function_items(
                meta.code_ptr,
                functions@.take(i + 1),
                text_len as nat,
            ));
        }
    }
    assert(functions@.take(functions@.len() as int) =~= functions@);
    items
}

/// The machine code that belongs to no function keeps to the machine code.
proof fn lemma_host_items_fit(
    code_ptr: u64,
    symbols: Seq<JitHostSymbol>,
    text_len: nat,
    pc_count: nat,
)
    ensures
        items_fit(host_items(code_ptr, symbols, text_len), text_len, pc_count),
    decreases symbols.len(),
{
    if symbols.len() > 0 {
        lemma_host_items_fit(code_ptr, symbols.drop_last(), text_len, pc_count);
    }
}

/// The machine code that belongs to no function has no source files.
proof fn lemma_host_items_have_no_source(
    code_ptr: u64,
    symbols: Seq<JitHostSymbol>,
    text_len: nat,
)
    ensures
        forall|i: int|
            0 <= i < host_items(code_ptr, symbols, text_len).len() ==> (
            #[trigger] host_items(code_ptr, symbols, text_len)[i]).source is None,
    decreases symbols.len(),
{
    if symbols.len() > 0 {
        lemma_host_items_have_no_source(code_ptr, symbols.drop_last(), text_len);
    }
}

/// Every range that has machine code is in the dump, under its number.
pub proof fn law_no_function_is_left_out(
    code_ptr: u64,
    ranges: Seq<FunctionRange>,
    text_len: nat,
)
    requires
        forall|i: int|
            0 <= i < ranges.len() ==> is_code(
                (#[trigger] ranges[i]).host_start,
                ranges[i].host_end,
                text_len,
            ),
    ensures
        function_items(code_ptr, ranges, text_len) == Seq::new(
            ranges.len(),
            |i: int| function_item(code_ptr, ranges[i], i),
        ),
    decreases ranges.len(),
{
    let all = Seq::new(ranges.len(), |i: int| function_item(code_ptr, ranges[i], i));
    if ranges.len() > 0 {
        let before = ranges.drop_last();
        assert forall|i: int| 0 <= i < before.len() implies is_code(
            (#[trigger] before[i]).host_start,
            before[i].host_end,
            text_len,
        ) by {
            assert(before[i] == ranges[i]);
        }
        law_no_function_is_left_out(code_ptr, before, text_len);
        assert(is_code(ranges.last().host_start, ranges.last().host_end, text_len));
        assert(function_items(code_ptr, ranges, text_len) =~= all);
    } else {
        assert(function_items(code_ptr, ranges, text_len) =~= all);
    }
}

/// The ranges of a program are all in its dump, what its dump holds keeps to
/// the machine code and to the program counters, and different functions have
/// different source files.
pub proof fn law_dump_holds_every_range(
    meta: JitCodeMeta,
    text: Seq<u8>,
    pc_offsets: Seq<u32>,
    ranges: Seq<FunctionRange>,
)
    requires
        function_ranges::is_function_ranges(ranges, meta, text, pc_offsets),
    ensures
        load_items(meta.code_ptr, meta.host_symbols@, ranges, text.len()) == host_items(
            meta.code_ptr,
            meta.host_symbols@,
            text.len(),
        ) + Seq::new(ranges.len(), |i: int| function_item(meta.code_ptr, ranges[i], i)),
        items_fit(
            load_items(meta.code_ptr, meta.host_symbols@, ranges, text.len()),
            text.len(),
            pc_offsets.len(),
        ),
        ranges.len() <= usize::MAX ==> sources_apart(
            load_items(meta.code_ptr, meta.host_symbols@, ranges, text.len()),
        ),
{
    assert forall|i: int| 0 <= i < ranges.len() implies is_code(
        (#[trigger] ranges[i]).host_start,
        ranges[i].host_end,
        text.len(),
    ) && ranges[i].pc_end <= pc_offsets.len() by {
        assert(ranges[i]@ == function_ranges::range_at(
            meta,
            text,
            pc_offsets,
            ranges[i].pc_start as int,
            ranges[i].name@,
        ));
        function_ranges::lemma_next_start_bound(
            meta.symbols@,
            pc_offsets.len(),
            ranges[i].pc_start + 1,
        );
    }
    law_no_function_is_left_out(meta.code_ptr, ranges, text.len());
    lemma_host_items_fit(meta.code_ptr, meta.host_symbols@, text.len(), pc_offsets.len());
    lemma_host_items_have_no_source(meta.code_ptr, meta.host_symbols@, text.len());
    let hosts = host_items(meta.code_ptr, meta.host_symbols@, text.len());
    let items = load_items(meta.code_ptr, meta.host_symbols@, ranges, text.len());
    assert forall|i: int| hosts.len() <= i < items.len() implies #[trigger] items[i]
        == function_item(meta.code_ptr, ranges[i - hosts.len()], i - hosts.len()) by {}
    assert forall|i: int| 0 <= i < hosts.len() implies (#[trigger] items[i]).source is None by {
        assert(items[i] == hosts[i]);
    }
}

/// Where the addresses of a program fit in 64 bits, those of its ranges do.
pub proof fn lemma_ranges_addressable(
    meta: JitCodeMeta,
    text: Seq<u8>,
    pc_offsets: Seq<u32>,
    ranges: Seq<FunctionRange>,
)
    requires
        function_ranges::is_function_ranges(ranges, meta, text, pc_offsets),
        dump_addressable(meta, text, pc_offsets),
        ranges.len() > 0,
    ensures
        items_addressable(meta.code_ptr, meta.host_symbols@, ranges, text.len()),
{
    assert forall|i: int| 0 <= i < ranges.len() implies function_ranges::is_start(
        meta.symbols@,
        pc_offsets.len(),
        (#[trigger] ranges[i]).pc_start as int,
    ) && function_ranges::has_code(meta, text, pc_offsets, ranges[i].pc_start as int) && ranges[i]@
        == function_ranges::range_at(
        meta,
        text,
        pc_offsets,
        ranges[i].pc_start as int,
        ranges[i].name@,
    ) by {
        assert(function_ranges::is_named_start(
            meta.symbols@,
            pc_offsets.len(),
            ranges[i].pc_start,
            ranges[i].name@,
        ));
    }
    let first = ranges[0].pc_start;
    assert(function_ranges::is_start(meta.symbols@, pc_offsets.len(), first as int));
    assert(has_functions(meta, text, pc_offsets));
}

/// A program has ranges if and only if it has named functions with machine
/// code.
pub proof fn lemma_functions_have_ranges(
    meta: JitCodeMeta,
    text: Seq<u8>,
    pc_offsets: Seq<u32>,
    ranges: Seq<FunctionRange>,
)
    requires
        function_ranges::is_function_ranges(ranges, meta, text, pc_offsets),
    ensures
        has_functions(meta, text, pc_offsets) == (ranges.len() > 0),
{
    let symbols = meta.symbols@;
    let count = pc_offsets.len();
    if has_functions(meta, text, pc_offsets) {
        let pc = choose|pc: usize|
            #![trigger function_ranges::is_start(symbols, count, pc as int)]
            function_ranges::is_start(symbols, count, pc as int) && function_ranges::has_code(
                meta,
                text,
                pc_offsets,
                pc as int,
            );
        let i = choose|i: int|
            0 <= i < symbols.len() && (#[trigger] symbols[i]).pc == pc && symbols[i].name@.len()
                > 0;
        assert(function_ranges::is_named_start(symbols, count, pc, symbols[i].name@));
        assert(function_ranges::range_keys(ranges).contains((pc, symbols[i].name@)));
    }
    if ranges.len() > 0 {
        let first = ranges[0];
        assert(function_ranges::is_named_start(symbols, count, first.pc_start, first.name@));
        assert(function_ranges::is_start(symbols, count, first.pc_start as int));
    }
}

/// Where the addresses of all ranges of a program fit in 64 bits, those of its
/// functions do.
proof fn lemma_functions_addressable(
    meta: JitCodeMeta,
    text: Seq<u8>,
    pc_offsets: Seq<u32>,
    ranges: Seq<FunctionRange>,
)
    requires
        function_ranges::is_function_ranges(ranges, meta, text, pc_offsets),
        items_addressable(meta.code_ptr, meta.host_symbols@, ranges, text.len()),
    ensures
        dump_addressable(meta, text, pc_offsets),
{
    let symbols = meta.symbols@;
    let count = pc_offsets.len();
    assert forall|pc: usize|
        #![trigger function_ranges::is_start(symbols, count, pc as int)]
        function_ranges::is_start(symbols, count, pc as int) && function_ranges::has_code(
            meta,
            text,
            pc_offsets,
            pc as int,
        ) implies meta.code_ptr + function_ranges::host_start(meta, text, pc_offsets, pc as int)
        <= u64::MAX by {
        let n = choose|n: int|
            0 <= n < symbols.len() && (#[trigger] symbols[n]).pc == pc && symbols[n].name@.len()
                > 0;
        let name = symbols[n].name@;
        let keys = function_ranges::range_keys(ranges);
        assert(function_ranges::is_named_start(symbols, count, pc, name));
        assert(keys.contains((pc, name)));
        let i = keys.index_of((pc, name));
        assert(ranges[i].key() == (pc, name));
        assert(ranges[i]@ == function_ranges::range_at(meta, text, pc_offsets, pc as int, name));
        assert(is_code(ranges[i].host_start, ranges[i].host_end, text.len()));
    }
}

/// What a dump holds, in its order: each host range that is not empty and keeps
/// to the machine code, and behind them each range of a function, under its
/// number among the ranges. Each has the whole name of its range, all of the
/// range, and the address of its start above the start of the code.
pub proof fn law_items_are_the_ranges(
    meta: JitCodeMeta,
    ranges: Seq<FunctionRange>,
    text_len: nat,
    items: Seq<LoadItem>,
)
    requires
        item_views(items) == load_items(meta.code_ptr, meta.host_symbols@, ranges, text_len),
        items_addressable(meta.code_ptr, meta.host_symbols@, ranges, text_len),
        ranges.len() <= usize::MAX,
        forall|i: int|
            0 <= i < ranges.len() ==> (#[trigger] ranges[i]).host_start < ranges[i].host_end
                <= text_len,
    ensures
        ({
            let hosts = meta.host_symbols@.filter(
                |host: JitHostSymbol| host.host_start < host.host_end <= text_len,
            );
            let count = hosts.len() as int;
            &&& items.len() == count + ranges.len()
            &&& forall|k: int|
                0 <= k < count ==> {
                    &&& (#[trigger] items[k]).name@ == hosts[k].name@
                    &&& items[k].code_addr == meta.code_ptr + hosts[k].host_start
                    &&& items[k].host_start == hosts[k].host_start
                    &&& items[k].host_end == hosts[k].host_end
                    &&& items[k].source is None
                }
            &&& forall|k: int|
                count <= k < items.len() ==> {
                    let range = ranges[k - count];
                    &&& (#[trigger] items[k]).name@ == range.name@
                    &&& items[k].code_addr == meta.code_ptr + range.host_start
                    &&& items[k].host_start == range.host_start
                    &&& items[k].host_end == range.host_end
                    &&& items[k].source matches Some(source) && source.index == k - count
                        && source.pc_start == range.pc_start && source.pc_end == range.pc_end
                }
        }),
{
    let symbols = meta.host_symbols@;
    let listed = host_items(meta.code_ptr, symbols, text_len);
    let functions = function_items(meta.code_ptr, ranges, text_len);
    let hosts = symbols.filter(|host: JitHostSymbol| host.host_start < host.host_end <= text_len);
    lemma_host_items(meta.code_ptr, symbols, text_len);
    law_no_function_is_left_out(meta.code_ptr, ranges, text_len);
    assert(item_views(items).len() == items.len());
    assert forall|k: int| 0 <= k < hosts.len() implies (#[trigger] items[k])@ == listed[k]
        && meta.code_ptr + hosts[k].host_start <= u64::MAX by {
        assert(item_views(items)[k] == items[k]@);
        lemma_filter_has_only(
            symbols,
            |host: JitHostSymbol| host.host_start < host.host_end <= text_len,
            k,
        );
        let i = symbols.index_of(hosts[k]);
        assert(is_code(symbols[i].host_start, symbols[i].host_end, text_len));
    }
    assert forall|k: int| hosts.len() <= k < items.len() implies (#[trigger] items[k])@
        == function_item(meta.code_ptr, ranges[k - hosts.len()], k - hosts.len()) && meta.code_ptr
        + ranges[k - hosts.len()].host_start <= u64::MAX by {
        assert(item_views(items)[k] == items[k]@);
        assert(functions[k - hosts.len()] == items[k]@);
        let range = ranges[k - hosts.len()];
        assert(is_code(range.host_start, range.host_end, text_len));
    }
}

/// What passes a filter was there before and was asked for.
proof fn lemma_filter_has_only(
    symbols: Seq<JitHostSymbol>,
    wanted: spec_fn(JitHostSymbol) -> bool,
    k: int,
)
    requires
        0 <= k < symbols.filter(wanted).len(),
    ensures
        wanted(symbols.filter(wanted)[k]),
        symbols.contains(symbols.filter(wanted)[k]),
    decreases symbols.len(),
{
    reveal(Seq::filter);
    let before = symbols.drop_last();
    let found = symbols.filter(wanted)[k];
    if k < before.filter(wanted).len() {
        lemma_filter_has_only(before, wanted, k);
        assert(symbols[before.index_of(found)] == found);
    } else {
        assert(symbols[symbols.len() - 1] == found);
    }
}

proof fn lemma_host_items(code_ptr: u64, symbols: Seq<JitHostSymbol>, text_len: nat)
    ensures
        ({
            let hosts = symbols.filter(
                |host: JitHostSymbol| host.host_start < host.host_end <= text_len,
            );
            host_items(code_ptr, symbols, text_len) == hosts.map_values(
                |host: JitHostSymbol| host_item(code_ptr, host),
            )
        }),
    decreases symbols.len(),
{
    reveal(Seq::filter);
    let wanted = |host: JitHostSymbol| host.host_start < host.host_end <= text_len;
    let item = |host: JitHostSymbol| host_item(code_ptr, host);
    if symbols.len() > 0 {
        lemma_host_items(code_ptr, symbols.drop_last(), text_len);
        assert(host_items(code_ptr, symbols, text_len) =~= symbols.filter(wanted).map_values(item));
    } else {
        assert(host_items(code_ptr, symbols, text_len) =~= symbols.filter(wanted).map_values(item));
    }
}

/// The addresses of what the dump of a program holds fit in 64 bits where the
/// program has no ranges, or where the start of each range, of a function as
/// of the host, is below two to the power of 64 when the start of the code is
/// added. Ranges that are empty or leave the machine code do not count.
pub proof fn law_dump_addresses_fit_in_64_bits(
    meta: JitCodeMeta,
    text: Seq<u8>,
    pc_offsets: Seq<u32>,
    ranges: Seq<FunctionRange>,
)
    requires
        function_ranges::is_function_ranges(ranges, meta, text, pc_offsets),
    ensures
        dump_addressable(meta, text, pc_offsets) <==> (ranges.len() == 0 || {
            &&& forall|i: int|
                0 <= i < meta.host_symbols@.len() && (#[trigger] meta.host_symbols@[i]).host_start
                    < meta.host_symbols@[i].host_end <= text.len() ==> meta.code_ptr
                    + meta.host_symbols@[i].host_start < 0x1_0000_0000_0000_0000
            &&& forall|i: int|
                0 <= i < ranges.len() ==> meta.code_ptr + (#[trigger] ranges[i]).host_start
                    < 0x1_0000_0000_0000_0000
        }),
{
    lemma_functions_have_ranges(meta, text, pc_offsets, ranges);
    let hosts_fit = forall|i: int|
        0 <= i < meta.host_symbols@.len() && (#[trigger] meta.host_symbols@[i]).host_start
            < meta.host_symbols@[i].host_end <= text.len() ==> meta.code_ptr
            + meta.host_symbols@[i].host_start < 0x1_0000_0000_0000_0000;
    let ranges_fit = forall|i: int|
        0 <= i < ranges.len() ==> meta.code_ptr + (#[trigger] ranges[i]).host_start
            < 0x1_0000_0000_0000_0000;
    if ranges.len() > 0 {
        if dump_addressable(meta, text, pc_offsets) {
            lemma_ranges_addressable(meta, text, pc_offsets, ranges);
            assert(ranges_fit) by {
                assert forall|i: int| 0 <= i < ranges.len() implies meta.code_ptr + (
                #[trigger] ranges[i]).host_start < 0x1_0000_0000_0000_0000 by {
                    function_ranges::law_range_reaches_to_the_next_function(
                        ranges,
                        meta,
                        text,
                        pc_offsets,
                        i,
                    );
                }
            }
        }
        if hosts_fit && ranges_fit {
            assert(items_addressable(meta.code_ptr, meta.host_symbols@, ranges, text.len()));
            lemma_functions_addressable(meta, text, pc_offsets, ranges);
        }
    }
}

/// Items keep to the machine code where each is a part of it that is not empty,
/// and to the program counters where the range of each source file ends with
/// them or before; different source files are those of different numbers.
pub proof fn law_items_keep_to_the_code(items: Seq<ItemView>, text_len: nat, pc_count: nat)
    ensures
        items_fit(items, text_len, pc_count) <==> forall|i: int|
            0 <= i < items.len() ==> {
                &&& (#[trigger] items[i]).host_start < items[i].host_end
                &&& items[i].host_end <= text_len
                &&& items[i].source matches Some(source) ==> source.pc_end <= pc_count
            },
        sources_apart(items) <==> forall|i: int, j: int|
            0 <= i < j < items.len() ==> (match ((#[trigger] items[i]).source, (
            #[trigger] items[j]).source) {
                (Some(a), Some(b)) => a.index != b.index,
                _ => true,
            }),
{
    if forall|i: int|
        0 <= i < items.len() ==> {
            &&& (#[trigger] items[i]).host_start < items[i].host_end
            &&& items[i].host_end <= text_len
            &&& items[i].source matches Some(source) ==> source.pc_end <= pc_count
        } {
        assert(items_fit(items, text_len, pc_count));
    }
}

/// Tests whether the addresses of what the dump of a program holds fit in 64
/// bits.
pub fn check_dump_addresses(meta: &JitCodeMeta, text: &[u8], pc_offsets: &[u32]) -> (fit: bool)
    ensures
        fit == dump_addressable(*meta, text@, pc_offsets@),
{
    let functions = build_function_ranges(meta, text, pc_offsets);
    proof {
        lemma_functions_have_ranges(*meta, text@, pc_offsets@, functions@);
        if functions@.len() > 0 && dump_addressable(*meta, text@, pc_offsets@) {
            lemma_ranges_addressable(*meta, text@, pc_offsets@, functions@);
        }
    }
    if functions.len() == 0 {
        return true;
    }
    let text_len: u64 = text.len() as u64;
    let room: u64 = u64::MAX - meta.code_ptr;
    for i in 0..meta.host_symbols.len()
        invariant
            text_len == text@.len(),
            room == u64::MAX - meta.code_ptr,
            dump_addressable(*meta, text@, pc_offsets@) ==> items_addressable(
                meta.code_ptr,
                meta.host_symbols@,
                functions@,
                text@.len(),
            ),
            forall|j: int|
                0 <= j < i && is_code(
                    (#[trigger] meta.host_symbols@[j]).host_start,
                    meta.host_symbols@[j].host_end,
                    text@.len(),
                ) ==> meta.code_ptr + meta.host_symbols@[j].host_start <= u64::MAX,
    {
        let symbol = &meta.host_symbols[i];
        if symbol.host_start < symbol.host_end && symbol.host_end <= text_len && symbol.host_start
            > room {
            return false;
        }
    }
    for i in 0..functions.len()
        invariant
            text_len == text@.len(),
            room == u64::MAX - meta.code_ptr,
            dump_addressable(*meta, text@, pc_offsets@) ==> items_addressable(
                meta.code_ptr,
                meta.host_symbols@,
                functions@,
                text@.len(),
            ),
            forall|j: int|
                0 <= j < i && is_code(
                    (#[trigger] functions@[j]).host_start,
                    functions@[j].host_end,
                    text@.len(),
                ) ==> meta.code_ptr + functions@[j].host_start <= u64::MAX,
    {
        let function = &functions[i];
        if function.host_start < function.host_end && function.host_end <= text_len
            && function.host_start > room {
            return false;
        }
    }
    proof {
        lemma_functions_addressable(*meta, text@, pc_offsets@, functions@);
    }
    true
}

/// The test for addresses passes where the dump of the program holds nothing,
/// or where the start of each host range in the machine code and that of each
/// function range is below two to the power of 64 above the start of the code.
pub proof fn law_checked_dump_addresses_fit(
    meta: &JitCodeMeta,
    text: &[u8],
    pc_offsets: &[u32],
    ranges: Vec<FunctionRange>,
    fit: bool,
)
    requires
        call_ensures(check_dump_addresses, (meta, text, pc_offsets), fit),
        call_ensures(build_function_ranges, (meta, text, pc_offsets), ranges),
    ensures
        fit <==> (ranges@.len() == 0 || {
            &&& forall|i: int|
                0 <= i < meta.host_symbols@.len() && (#[trigger] meta.host_symbols@[i]).host_start
                    < meta.host_symbols@[i].host_end <= text@.len() ==> meta.code_ptr
                    + meta.host_symbols@[i].host_start < 0x1_0000_0000_0000_0000
            &&& forall|i: int|
                0 <= i < ranges@.len() ==> meta.code_ptr + (#[trigger] ranges@[i]).host_start
                    < 0x1_0000_0000_0000_0000
        }),
{
    law_dump_addresses_fit_in_64_bits(*meta, text@, pc_offsets@, ranges@);
}

/// The items that are listed for a dump are the host ranges that are not empty
/// and keep to the machine code, and behind them the ranges of the functions,
/// each with its whole name, at its address, and with all of its code.
pub proof fn law_listed_items_are_the_ranges(
    meta: &JitCodeMeta,
    text: &[u8],
    pc_offsets: &[u32],
    text_len: usize,
    ranges: &Vec<FunctionRange>,
    items: Vec<LoadItem>,
    k: int,
)
    requires
        call_ensures(build_function_ranges, (meta, text, pc_offsets), *ranges),
        call_ensures(build_load_items, (meta, text_len, ranges), items),
        text_len == text@.len(),
        items_addressable(meta.code_ptr, meta.host_symbols@, ranges@, text_len as nat),
        ranges@.len() <= usize::MAX,
        0 <= k < items@.len(),
    ensures
        ({
            let hosts = meta.host_symbols@.filter(
                |host: JitHostSymbol| host.host_start < host.host_end <= text_len,
            );
            let item = items@[k];
            &&& items@.len() == hosts.len() + ranges@.len()
            &&& item.code_addr == meta.code_ptr + item.host_start
            &&& k < hosts.len() ==> item.name@ == hosts[k].name@ && item.host_start
                == hosts[k].host_start && item.host_end == hosts[k].host_end && item.source is None
            &&& k >= hosts.len() ==> {
                let range = ranges@[k - hosts.len()];
                &&& item.name@ == range.name@
                &&& item.host_start == range.host_start
                &&& item.host_end == range.host_end
                &&& item.source matches Some(source) && source.index == k - hosts.len()
                    && source.pc_start == range.pc_start && source.pc_end == range.pc_end
            }
        }),
{
    let wanted = |host: JitHostSymbol| host.host_start < host.host_end <= text_len as nat;
    let hosts = meta.host_symbols@.filter(
        |host: JitHostSymbol| host.host_start < host.host_end <= text_len,
    );
    assert forall|i: int| 0 <= i < ranges@.len() implies (#[trigger] ranges@[i]).host_start
        < ranges@[i].host_end <= text_len by {
        function_ranges::law_range_reaches_to_the_next_function(
            ranges@,
            *meta,
            text@,
            pc_offsets@,
            i,
        );
    }
    lemma_same_filter(meta.host_symbols@, wanted, |host: JitHostSymbol|
        host.host_start < host.host_end <= text_len);
    law_items_are_the_ranges(*meta, ranges@, text_len as nat, items@);
    assert(items@[k].code_addr == meta.code_ptr + items@[k].host_start);
}

/// Filters that ask for the same give the same.
proof fn lemma_same_filter(
    symbols: Seq<JitHostSymbol>,
    a: spec_fn(JitHostSymbol) -> bool,
    b: spec_fn(JitHostSymbol) -> bool,
)
    requires
        forall|host: JitHostSymbol| #[trigger] a(host) == b(host),
    ensures
        symbols.filter(a) == symbols.filter(b),
    decreases symbols.len(),
{
    reveal(Seq::filter);
    if symbols.len() > 0 {
        lemma_same_filter(symbols.drop_last(), a, b);
        assert(a(symbols.last()) == b(symbols.last()));
    }
}

} // verus!
