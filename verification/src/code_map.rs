//! Where the functions of a program start in its machine code.

use crate::meta::JitCodeMeta;
use vstd::prelude::*;

verus! {

/// How far behind an offset the start of its stack frame is looked for.
pub const PROLOGUE_WINDOW: usize = 32;

/// The least multiple of `align` that is not below `value`; `value` itself
/// where `align` is zero.
pub open spec fn aligned(value: nat, align: nat) -> nat {
    if align == 0 {
        value
    } else {
        (value + align - 1) as nat / align * align
    }
}

/// An offset without the flag that its top bit holds.
pub open spec fn host_offset(offset: u32) -> nat {
    offset as nat % 0x8000_0000
}

/// Whether `push rbp; mov rbp, rsp` stands at `at`.
pub open spec fn prologue_at(text: Seq<u8>, at: int) -> bool {
    &&& 0 <= at
    &&& at + 4 <= text.len()
    &&& text[at] == 0x55
    &&& text[at + 1] == 0x48
    &&& text[at + 2] == 0x89
    &&& text[at + 3] == 0xe5
}

/// Whether `at` is where the last stack frame before `offset` is set up, no
/// further away than the window.
pub open spec fn is_frame_prologue(text: Seq<u8>, offset: int, at: int) -> bool {
    &&& offset < text.len()
    &&& offset - PROLOGUE_WINDOW <= at < offset
    &&& prologue_at(text, at)
    &&& forall|later: int| at < later < offset ==> !prologue_at(text, later)
}

/// The last place before `offset` at which a stack frame is set up.
pub open spec fn frame_prologue(text: Seq<u8>, offset: int) -> Option<int> {
    if exists|at: int| is_frame_prologue(text, offset, at) {
        Some(choose|at: int| is_frame_prologue(text, offset, at))
    } else {
        None
    }
}

/// Where the function at `pc` starts: at its recorded entry, or else at the
/// stack frame before the code of `pc`, or else at that code.
pub open spec fn entry_offset(
    entries: Seq<u32>,
    text: Seq<u8>,
    pc_offsets: Seq<u32>,
    pc: int,
) -> Option<int> {
    if 0 <= pc < entries.len() && entries[pc] != u32::MAX {
        Some(host_offset(entries[pc]) as int)
    } else if 0 <= pc < pc_offsets.len() {
        let offset = host_offset(pc_offsets[pc]) as int;
        match frame_prologue(text, offset) {
            Some(at) => Some(at),
            None => Some(offset),
        }
    } else {
        None
    }
}

/// There is one last stack frame before an offset, or none.
pub proof fn lemma_frame_prologue_unique(text: Seq<u8>, offset: int, at: int)
    requires
        is_frame_prologue(text, offset, at),
    ensures
        frame_prologue(text, offset) == Some(at),
{
    let found = choose|i: int| is_frame_prologue(text, offset, i);
    assert(is_frame_prologue(text, offset, found));
    assert(found == at);
}

/// A start is never past 31 bits, and never before the code of the program
/// counter by more than the window where it was not recorded.
pub proof fn law_entry_offset_bounds(
    entries: Seq<u32>,
    text: Seq<u8>,
    pc_offsets: Seq<u32>,
    pc: int,
)
    ensures
        match entry_offset(entries, text, pc_offsets, pc) {
            Some(start) => {
                &&& 0 <= start < 0x8000_0000
                &&& !(0 <= pc < entries.len() && entries[pc] != u32::MAX) ==> host_offset(
                    pc_offsets[pc],
                ) - PROLOGUE_WINDOW <= start <= host_offset(pc_offsets[pc])
            },
            None => pc < 0 || (pc >= pc_offsets.len() && (pc >= entries.len() || entries[pc]
                == u32::MAX)),
        },
{
}

/// Alignment goes to the next multiple and by less than one alignment.
pub proof fn law_aligned(value: nat, align: nat)
    ensures
        value <= aligned(value, align),
        align > 0 ==> aligned(value, align) < value + align,
        align > 0 ==> aligned(value, align) % align == 0,
{
    if align > 0 {
        let sum = (value + align - 1) as int;
        let a = align as int;
        vstd::arithmetic::div_mod::lemma_fundamental_div_mod(sum, a);
        vstd::arithmetic::mul::lemma_mul_is_commutative(sum / a, a);
        vstd::arithmetic::div_mod::lemma_mod_multiples_basic(sum / a, a);
    }
}

/// Nothing smaller would do: every multiple of the alignment that is not below
/// the value is not below the aligned one. Without an alignment the value stays
/// as it is.
pub proof fn law_aligned_is_least(value: nat, align: nat, times: nat)
    ensures
        align > 0 && value <= times * align ==> aligned(value, align) <= times * align,
        align == 0 ==> aligned(value, align) == value,
{
    if align > 0 && value <= times * align {
        law_aligned(value, align);
        let up = aligned(value, align) as int;
        let a = align as int;
        let n = up / a;
        vstd::arithmetic::div_mod::lemma_fundamental_div_mod(up, a);
        assert(up == a * n);
        assert(n <= times) by (nonlinear_arith)
            requires
                up == a * n,
                up < value + a,
                value <= times * a,
                a > 0,
        ;
        assert(up <= times * a) by (nonlinear_arith)
            requires
                up == a * n,
                n <= times,
                a > 0,
        ;
    }
}

/// The low 31 bits of an offset, as a remainder.
pub proof fn lemma_low_bits(offset: u32)
    ensures
        offset & 0x7fff_ffff == offset % 0x8000_0000,
{
    assert(offset & 0x7fff_ffff == offset % 0x8000_0000) by (bit_vector);
}

/// An offset without its flag is its low 31 bits: one that has no flag stays
/// as it is, and setting the top bit changes nothing.
pub proof fn law_flag_is_the_top_bit(offset: u32)
    ensures
        host_offset(offset) == offset & 0x7fff_ffff,
        offset < 0x8000_0000 ==> host_offset(offset) == offset,
        offset < 0x8000_0000 ==> host_offset((offset + 0x8000_0000) as u32) == offset,
{
    lemma_low_bits(offset);
}

/// What is found before an offset is the last `push rbp; mov rbp, rsp` that
/// starts in the 32 bytes before it, and it is found wherever there is one.
pub proof fn law_frame_prologue_is_the_last(text: Seq<u8>, offset: int)
    requires
        0 <= offset,
    ensures
        match frame_prologue(text, offset) {
            Some(at) => {
                &&& offset < text.len()
                &&& 0 <= at
                &&& offset - 32 <= at < offset
                &&& at + 4 <= text.len()
                &&& text.subrange(at, at + 4) == seq![0x55u8, 0x48, 0x89, 0xe5]
            },
            None => true,
        },
        forall|at: int|
            offset < text.len() && 0 <= at && offset - 32 <= at < offset && at + 4 <= text.len()
                && #[trigger] text.subrange(at, at + 4) == seq![0x55u8, 0x48, 0x89, 0xe5] ==> (
            frame_prologue(text, offset) matches Some(last) && at <= last),
{
    let mark = seq![0x55u8, 0x48, 0x89, 0xe5];
    if let Some(at) = frame_prologue(text, offset) {
        assert(is_frame_prologue(text, offset, at));
        assert(text.subrange(at, at + 4) =~= mark);
    }
    assert forall|at: int|
        offset < text.len() && 0 <= at && offset - 32 <= at < offset && at + 4 <= text.len()
            && #[trigger] text.subrange(at, at + 4) == mark implies (frame_prologue(
        text,
        offset,
    ) matches Some(last) && at <= last) by {
        let found = text.subrange(at, at + 4);
        assert(found[0] == 0x55 && found[1] == 0x48 && found[2] == 0x89 && found[3] == 0xe5);
        assert(prologue_at(text, at));
        lemma_last_prologue(text, offset, at, at);
    }
}

/// Where there is a stack frame before an offset, there is a last one.
proof fn lemma_last_prologue(text: Seq<u8>, offset: int, at: int, last: int)
    requires
        offset < text.len(),
        offset - 32 <= at <= last < offset,
        prologue_at(text, last),
    ensures
        frame_prologue(text, offset) matches Some(found) && last <= found,
    decreases offset - last,
{
    if exists|later: int| last < later < offset && prologue_at(text, later) {
        let later = choose|later: int| last < later < offset && prologue_at(text, later);
        lemma_last_prologue(text, offset, at, later);
    } else {
        lemma_frame_prologue_unique(text, offset, last);
    }
}

/// A function starts at its recorded entry, without the flag in the top bit.
/// Where none is recorded, it starts at the last stack frame that is set up in
/// the 32 bytes before the code of its program counter, or else at that code.
/// A program counter that is neither recorded nor compiled starts nowhere.
pub proof fn law_functions_start_at_their_frames(
    entries: Seq<u32>,
    text: Seq<u8>,
    pc_offsets: Seq<u32>,
    pc: int,
)
    requires
        0 <= pc,
    ensures
        pc < entries.len() && entries[pc] != 0xffff_ffff ==> entry_offset(
            entries,
            text,
            pc_offsets,
            pc,
        ) == Some((entries[pc] & 0x7fff_ffff) as int),
        pc >= entries.len() || entries[pc] == 0xffff_ffff ==> (entry_offset(
            entries,
            text,
            pc_offsets,
            pc,
        ) is Some <==> pc < pc_offsets.len()),
        pc < pc_offsets.len() && (pc >= entries.len() || entries[pc] == 0xffff_ffff) ==> ({
            let offset = (pc_offsets[pc] & 0x7fff_ffff) as int;
            let start = entry_offset(entries, text, pc_offsets, pc).unwrap();
            let mark = seq![0x55u8, 0x48, 0x89, 0xe5];
            &&& start == offset || (offset < text.len() && 0 <= start && offset - 32 <= start
                < offset && start + 4 <= text.len() && text.subrange(start, start + 4) == mark)
            &&& forall|at: int|
                offset < text.len() && 0 <= at && offset - 32 <= at < offset && at + 4
                    <= text.len() && #[trigger] text.subrange(at, at + 4) == mark ==> at <= start
                    < offset
        }),
{
    if pc < entries.len() {
        lemma_low_bits(entries[pc]);
    }
    if pc < pc_offsets.len() {
        lemma_low_bits(pc_offsets[pc]);
        law_frame_prologue_is_the_last(text, (pc_offsets[pc] & 0x7fff_ffff) as int);
    }
}

/// The least multiple of `align` from `value` on.
pub fn align_up(value: usize, align: usize) -> (result: usize)
    requires
        align != 0 ==> value + align - 1 <= usize::MAX,
    ensures
        result == aligned(value as nat, align as nat),
{
    if align == 0 {
        return value;
    }
    proof {
        let sum = value + align - 1;
        vstd::arithmetic::div_mod::lemma_fundamental_div_mod(sum, align as int);
        vstd::arithmetic::mul::lemma_mul_is_commutative(sum / align as int, align as int);
    }
    (value + (align - 1)) / align * align
}

/// An offset without the flag that its top bit holds.
pub(crate) fn strip_flag(offset: u32) -> (stripped: u32)
    ensures
        stripped == host_offset(offset),
{
    assert(offset & 0x7fff_ffff == offset % 0x8000_0000) by (bit_vector);
    offset & 0x7fff_ffff
}

/// Looks for the stack frame that is set up last before `offset`.
pub fn find_frame_prologue(text: &[u8], offset: usize) -> (found: Option<usize>)
    ensures
        match found {
            Some(at) => frame_prologue(text@, offset as int) == Some(at as int),
            None => frame_prologue(text@, offset as int) is None,
        },
{
    if offset >= text.len() {
        return None;
    }
    let start: usize = offset.saturating_sub(PROLOGUE_WINDOW);
    let mut idx: usize = offset;
    while idx > start
        invariant
            start == (if offset < PROLOGUE_WINDOW { 0 } else { offset - PROLOGUE_WINDOW }),
            start <= idx <= offset < text@.len(),
            forall|later: int| idx <= later < offset ==> !prologue_at(text@, later),
        decreases idx,
    {
        idx = idx - 1;
        if text.len() - idx >= 4 && text[idx] == 0x55 && text[idx + 1] == 0x48 && text[idx + 2]
            == 0x89 && text[idx + 3] == 0xe5 {
            proof {
                lemma_frame_prologue_unique(text@, offset as int, idx as int);
            }
            return Some(idx);
        }
    }
    None
}

/// Looks up where the function at `pc` starts.
pub fn function_entry_offset(
    meta: &JitCodeMeta,
    text: &[u8],
    pc_offsets: &[u32],
    pc: usize,
) -> (found: Option<u32>)
    ensures
        match found {
            Some(start) => entry_offset(
                meta.function_entry_offsets@,
                text@,
                pc_offsets@,
                pc as int,
            ) == Some(start as int),
            None => entry_offset(meta.function_entry_offsets@, text@, pc_offsets@, pc as int)
                is None,
        },
{
    if pc < meta.function_entry_offsets.len() {
        let offset = meta.function_entry_offsets[pc];
        if offset != u32::MAX {
            return Some(strip_flag(offset));
        }
    }
    if pc < pc_offsets.len() {
        let offset = strip_flag(pc_offsets[pc]);
        if let Some(prologue) = find_frame_prologue(text, offset as usize) {
            return Some(prologue as u32);
        }
        return Some(offset);
    }
    None
}

/// Aligning gives the least multiple of the alignment that is not below the
/// value, and the value itself without an alignment.
pub proof fn law_aligning_gives_the_next_multiple(value: usize, align: usize, result: usize)
    requires
        call_ensures(align_up, (value, align), result),
    ensures
        align > 0 ==> result % align == 0,
        align > 0 ==> value <= result < value + align,
        align == 0 ==> result == value,
{
    law_aligned(value as nat, align as nat);
    law_aligned_is_least(value as nat, align as nat, 0);
}

/// The search for a stack frame finds the last `push rbp; mov rbp, rsp` that
/// starts in the 32 bytes before an offset in the machine code, and nothing
/// where there is none.
pub proof fn law_search_finds_the_last_frame(text: &[u8], offset: usize, found: Option<usize>)
    requires
        call_ensures(find_frame_prologue, (text, offset), found),
    ensures
        found matches Some(at) ==> offset < text@.len() && offset - 32 <= at < offset && at + 4
            <= text@.len() && text@.subrange(at as int, at + 4) == seq![0x55u8, 0x48, 0x89, 0xe5],
        forall|at: int|
            offset < text@.len() && 0 <= at && offset - 32 <= at < offset && at + 4 <= text@.len()
                && #[trigger] text@.subrange(at, at + 4) == seq![0x55u8, 0x48, 0x89, 0xe5] ==> (
            found matches Some(last) && at <= last),
{
    law_frame_prologue_is_the_last(text@, offset as int);
}

/// The start of a function is looked up in what was recorded, in 31 bits, and
/// else in the machine code before its program counter.
pub proof fn law_looked_up_start_is_recorded_or_found(
    meta: &JitCodeMeta,
    text: &[u8],
    pc_offsets: &[u32],
    pc: usize,
    found: Option<u32>,
    frame: Option<usize>,
)
    requires
        call_ensures(function_entry_offset, (meta, text, pc_offsets, pc), found),
        pc < pc_offsets@.len() ==> call_ensures(
            find_frame_prologue,
            (text, (pc_offsets@[pc as int] & 0x7fff_ffff) as usize),
            frame,
        ),
    ensures
        ({
            let entries = meta.function_entry_offsets@;
            let at = pc as int;
            if at < entries.len() && entries[at] != 0xffff_ffff {
                found == Some(entries[at] & 0x7fff_ffff)
            } else if at < pc_offsets@.len() {
                match frame {
                    Some(start) => found matches Some(offset) && offset == start,
                    None => found == Some(pc_offsets@[at] & 0x7fff_ffff),
                }
            } else {
                found is None
            }
        }),
{
    if pc < meta.function_entry_offsets@.len() {
        lemma_low_bits(meta.function_entry_offsets@[pc as int]);
    }
    if pc < pc_offsets@.len() {
        lemma_low_bits(pc_offsets@[pc as int]);
    }
}

} // verus!
