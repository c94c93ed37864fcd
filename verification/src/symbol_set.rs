//! Sets of named program counters, held in order.

use vstd::prelude::*;
use vstd::utf8;

verus! {

/// Lexicographic order of byte strings.
pub open spec fn lex_less(a: Seq<u8>, b: Seq<u8>) -> bool
    decreases a.len(),
{
    if b.len() == 0 {
        false
    } else if a.len() == 0 {
        true
    } else if a[0] != b[0] {
        a[0] < b[0]
    } else {
        lex_less(a.drop_first(), b.drop_first())
    }
}

/// The order of named program counters: by counter, then by the bytes of the
/// name.
pub open spec fn key_less(a: (usize, Seq<char>), b: (usize, Seq<char>)) -> bool {
    a.0 < b.0 || (a.0 == b.0 && lex_less(utf8::encode_utf8(a.1), utf8::encode_utf8(b.1)))
}

/// Whether every key is less than all that follow it.
pub open spec fn strictly_ordered(keys: Seq<(usize, Seq<char>)>) -> bool {
    forall|i: int, j: int| 0 <= i < j < keys.len() ==> key_less(keys[i], keys[j])
}

proof fn lemma_lex_irreflexive(a: Seq<u8>)
    ensures
        !lex_less(a, a),
    decreases a.len(),
{
    if a.len() > 0 {
        lemma_lex_irreflexive(a.drop_first());
    }
}

proof fn lemma_lex_transitive(a: Seq<u8>, b: Seq<u8>, c: Seq<u8>)
    requires
        lex_less(a, b),
        lex_less(b, c),
    ensures
        lex_less(a, c),
    decreases a.len(),
{
    if a.len() > 0 && a[0] == b[0] && b[0] == c[0] {
        lemma_lex_transitive(a.drop_first(), b.drop_first(), c.drop_first());
    }
}

proof fn lemma_lex_total(a: Seq<u8>, b: Seq<u8>)
    ensures
        lex_less(a, b) || a == b || lex_less(b, a),
    decreases a.len(),
{
    if a.len() > 0 && b.len() > 0 && a[0] == b[0] {
        lemma_lex_total(a.drop_first(), b.drop_first());
        if a.drop_first() == b.drop_first() {
            assert(a =~= seq![a[0]] + a.drop_first());
            assert(b =~= seq![b[0]] + b.drop_first());
        }
    } else if a.len() == 0 && b.len() == 0 {
        assert(a =~= b);
    }
}

/// No key is less than itself.
pub proof fn lemma_key_irreflexive(a: (usize, Seq<char>))
    ensures
        !key_less(a, a),
{
    lemma_lex_irreflexive(utf8::encode_utf8(a.1));
}

/// The order of keys is transitive.
pub proof fn lemma_key_transitive(
    a: (usize, Seq<char>),
    b: (usize, Seq<char>),
    c: (usize, Seq<char>),
)
    requires
        key_less(a, b),
        key_less(b, c),
    ensures
        key_less(a, c),
{
    if a.0 == b.0 && b.0 == c.0 {
        lemma_lex_transitive(
            utf8::encode_utf8(a.1),
            utf8::encode_utf8(b.1),
            utf8::encode_utf8(c.1),
        );
    }
}

/// Two keys of which neither is less are the same.
pub proof fn lemma_key_total(a: (usize, Seq<char>), b: (usize, Seq<char>))
    ensures
        key_less(a, b) || a == b || key_less(b, a),
{
    broadcast use utf8::encode_utf8_decode_utf8;

    let x = utf8::encode_utf8(a.1);
    let y = utf8::encode_utf8(b.1);
    lemma_lex_total(x, y);
    if x == y {
        assert(utf8::decode_utf8(x) == a.1);
        assert(utf8::decode_utf8(y) == b.1);
    }
}

/// Of two byte strings that agree up to a place, the one that ends there is
/// less, and else the one whose byte there is less.
pub proof fn law_first_difference_decides(a: Seq<u8>, b: Seq<u8>, at: int)
    requires
        0 <= at <= a.len(),
        at < b.len(),
        a.take(at) == b.take(at),
        at < a.len() ==> a[at] < b[at],
    ensures
        lex_less(a, b),
        !lex_less(b, a),
    decreases at,
{
    if at > 0 {
        assert(a[0] == a.take(at)[0] && b[0] == b.take(at)[0]);
        let x = a.drop_first();
        let y = b.drop_first();
        assert(x.take(at - 1) =~= a.take(at).drop_first());
        assert(y.take(at - 1) =~= b.take(at).drop_first());
        law_first_difference_decides(x, y, at - 1);
    }
}

/// The lower program counter comes first; of two names of one program counter
/// the one that is less byte by byte.
pub proof fn law_keys_are_ordered_by_counter_then_name(
    a: (usize, Seq<char>),
    b: (usize, Seq<char>),
    at: int,
)
    ensures
        a.0 < b.0 ==> key_less(a, b) && !key_less(b, a),
        ({
            let x = utf8::encode_utf8(a.1);
            let y = utf8::encode_utf8(b.1);
            a.0 == b.0 && 0 <= at <= x.len() && at < y.len() && x.take(at) == y.take(at) && (at
                < x.len() ==> x[at] < y[at]) ==> key_less(a, b) && !key_less(b, a)
        }),
{
    let x = utf8::encode_utf8(a.1);
    let y = utf8::encode_utf8(b.1);
    if 0 <= at <= x.len() && at < y.len() && x.take(at) == y.take(at) && (at < x.len() ==> x[at]
        < y[at]) {
        law_first_difference_decides(x, y, at);
    }
}

/// A strictly ordered sequence is determined by what it holds: two of them
/// with the same keys are the same sequence.
pub proof fn law_order_determines_sequence(
    a: Seq<(usize, Seq<char>)>,
    b: Seq<(usize, Seq<char>)>,
)
    requires
        strictly_ordered(a),
        strictly_ordered(b),
        a.to_set() =~= b.to_set(),
    ensures
        a == b,
    decreases a.len(),
{
    if a.len() == 0 {
        if b.len() > 0 {
            assert(b.to_set().contains(b[0]));
            assert(a.contains(b[0]));
        }
        assert(a =~= b);
    } else {
        assert(a.to_set().contains(a[0]));
        assert(b.contains(a[0]));
        let i = choose|i: int| 0 <= i < b.len() && b[i] == a[0];
        assert(b.to_set().contains(b[0]));
        assert(a.contains(b[0]));
        let j = choose|j: int| 0 <= j < a.len() && a[j] == b[0];
        if i > 0 {
            assert(key_less(b[0], b[i]));
            if j > 0 {
                assert(key_less(a[0], a[j]));
                lemma_key_transitive(a[0], b[0], a[0]);
            }
            lemma_key_irreflexive(a[0]);
        }
        assert(a[0] == b[0]);
        let x = a.drop_first();
        let y = b.drop_first();
        assert forall|k: (usize, Seq<char>)| x.to_set().contains(k) == y.to_set().contains(k) by {
            if x.contains(k) {
                let n = choose|n: int| 0 <= n < x.len() && x[n] == k;
                assert(a[n + 1] == k);
                assert(a.to_set().contains(k));
                assert(b.contains(k));
                let m = choose|m: int| 0 <= m < b.len() && b[m] == k;
                assert(key_less(a[0], a[n + 1]));
                lemma_key_irreflexive(a[0]);
                assert(y[m - 1] == k);
            }
            if y.contains(k) {
                let n = choose|n: int| 0 <= n < y.len() && y[n] == k;
                assert(b[n + 1] == k);
                assert(b.to_set().contains(k));
                assert(a.contains(k));
                let m = choose|m: int| 0 <= m < a.len() && a[m] == k;
                assert(key_less(b[0], b[n + 1]));
                lemma_key_irreflexive(b[0]);
                assert(x[m - 1] == k);
            }
        }
        assert forall|p: int, q: int| 0 <= p < q < x.len() implies key_less(x[p], x[q]) by {
            assert(key_less(a[p + 1], a[q + 1]));
        }
        assert forall|p: int, q: int| 0 <= p < q < y.len() implies key_less(y[p], y[q]) by {
            assert(key_less(b[p + 1], b[q + 1]));
        }
        law_order_determines_sequence(x, y);
        assert(a =~= seq![a[0]] + x);
        assert(b =~= seq![b[0]] + y);
    }
}

/// What is in a sequence of keys after an insertion.
pub proof fn lemma_members_after_insert(
    known: Seq<(usize, Seq<char>)>,
    after: Seq<(usize, Seq<char>)>,
    key: (usize, Seq<char>),
    added: bool,
)
    requires
        added == !known.contains(key),
        !added ==> after == known,
        added ==> exists|at: int| 0 <= at <= known.len() && after == #[trigger] known.insert(at, key),
    ensures
        forall|k: (usize, Seq<char>)| #[trigger]
            after.contains(k) <==> known.contains(k) || k == key,
{
    if added {
        let at = choose|at: int|
            0 <= at <= known.len() && after == #[trigger] known.insert(at, key);
        assert forall|k: (usize, Seq<char>)| #[trigger] after.contains(k) <==> known.contains(k) || k
            == key by {
            if after.contains(k) {
                let i = choose|i: int| 0 <= i < after.len() && after[i] == k;
                if i < at {
                    assert(known[i] == k);
                } else if i > at {
                    assert(known[i - 1] == k);
                }
            }
            if known.contains(k) {
                let i = choose|i: int| 0 <= i < known.len() && known[i] == k;
                if i < at {
                    assert(after[i] == k);
                } else {
                    assert(after[i + 1] == k);
                }
            }
            if k == key {
                assert(after[at] == k);
            }
        }
    }
}

/// Whether the bytes `a` come before the bytes `b`.
fn bytes_before(a: &[u8], b: &[u8]) -> (less: bool)
    ensures
        less == lex_less(a@, b@),
{
    let mut i: usize = 0;
    assert(a@.skip(0) =~= a@ && b@.skip(0) =~= b@);
    while i < a.len() && i < b.len() && a[i] == b[i]
        invariant
            i <= a@.len(),
            i <= b@.len(),
            lex_less(a@, b@) == lex_less(a@.skip(i as int), b@.skip(i as int)),
        decreases a@.len() - i,
    {
        assert(a@.skip(i as int).drop_first() =~= a@.skip(i + 1));
        assert(b@.skip(i as int).drop_first() =~= b@.skip(i + 1));
        i = i + 1;
    }
    if i >= b.len() {
        false
    } else if i >= a.len() {
        true
    } else {
        a[i] < b[i]
    }
}

/// A named program counter.
pub struct SymbolName {
    pub pc: usize,
    pub name: String,
}

impl View for SymbolName {
    type V = (usize, Seq<char>);

    open spec fn view(&self) -> (usize, Seq<char>) {
        (self.pc, self.name@)
    }
}

/// Whether the named counter `entry` comes before `name` at `pc`.
fn comes_before(entry: &SymbolName, pc: usize, name: &str) -> (less: bool)
    ensures
        less == key_less(entry@, (pc, name@)),
{
    entry.pc < pc || (entry.pc == pc && bytes_before(entry.name.as_str().as_bytes(), name.as_bytes()))
}

/// A set of named program counters.
pub struct SymbolSet {
    entries: Vec<SymbolName>,
}

impl View for SymbolSet {
    type V = Seq<(usize, Seq<char>)>;

    /// The members in their order.
    closed spec fn view(&self) -> Seq<(usize, Seq<char>)> {
        self.entries@.map_values(|e: SymbolName| e@)
    }
}

impl SymbolSet {
    /// The members are in order, so that none occurs twice.
    pub open spec fn wf(&self) -> bool {
        strictly_ordered(self@)
    }

    /// The empty set.
    pub fn new() -> (set: SymbolSet)
        ensures
            set@ == Seq::<(usize, Seq<char>)>::empty(),
            set.wf(),
    {
        let set = SymbolSet { entries: Vec::new() };
        assert(set@ =~= Seq::<(usize, Seq<char>)>::empty());
        set
    }

    /// How many members there are.
    pub fn len(&self) -> (count: usize)
        ensures
            count == self@.len(),
    {
        self.entries.len()
    }

    /// The member number `i`.
    pub fn get(&self, i: usize) -> (member: &SymbolName)
        requires
            i < self@.len(),
        ensures
            member@ == self@[i as int],
    {
        &self.entries[i]
    }

    /// How many members come before `name` at `pc`.
    fn position(&self, pc: usize, name: &str) -> (at: usize)
        requires
            self.wf(),
        ensures
            at <= self@.len(),
            forall|i: int| 0 <= i < at ==> key_less(#[trigger] self@[i], (pc, name@)),
            forall|i: int| at <= i < self@.len() ==> !key_less(#[trigger] self@[i], (pc, name@)),
    {
        let mut low: usize = 0;
        let mut high: usize = self.entries.len();
        while low < high
            invariant
                strictly_ordered(self@),
                self@.len() == self.entries@.len(),
                forall|i: int| 0 <= i < self@.len() ==> #[trigger] self@[i] == self.entries@[i]@,
                low <= high <= self@.len(),
                forall|i: int| 0 <= i < low ==> key_less(#[trigger] self@[i], (pc, name@)),
                forall|i: int|
                    high <= i < self@.len() ==> !key_less(#[trigger] self@[i], (pc, name@)),
            decreases high - low,
        {
            let middle: usize = low + (high - low) / 2;
            let ghost pivot = self@[middle as int];
            if comes_before(&self.entries[middle], pc, name) {
                assert forall|i: int| 0 <= i < middle + 1 implies key_less(
                    #[trigger] self@[i],
                    (pc, name@),
                ) by {
                    if i < middle {
                        assert(key_less(self@[i], pivot));
                        lemma_key_transitive(self@[i], pivot, (pc, name@));
                    }
                }
                low = middle + 1;
            } else {
                assert forall|i: int| middle <= i < self@.len() implies !key_less(
                    #[trigger] self@[i],
                    (pc, name@),
                ) by {
                    if i > middle && key_less(self@[i], (pc, name@)) {
                        assert(key_less(pivot, self@[i]));
                        lemma_key_transitive(pivot, self@[i], (pc, name@));
                    }
                }
                high = middle;
            }
        }
        low
    }

    /// Adds `name` at `pc` and says whether it was new.
    pub fn insert(&mut self, pc: usize, name: &str) -> (added: bool)
        requires
            old(self).wf(),
        ensures
            final(self).wf(),
            added == !old(self)@.contains((pc, name@)),
            !added ==> final(self)@ == old(self)@,
            added ==> exists|at: int|
                0 <= at <= old(self)@.len() && final(self)@ == #[trigger] old(self)@.insert(
                    at,
                    (pc, name@),
                ),
    {
        let ghost before = self@;
        let ghost key = (pc, name@);
        let at = self.position(pc, name);
        if at < self.entries.len() {
            let next = &self.entries[at];
            assert(next@ == before[at as int]);
            if next.pc == pc && !bytes_before(name.as_bytes(), next.name.as_str().as_bytes()) {
                proof {
                    lemma_key_total(next@, key);
                }
                assert(before[at as int] == key);
                return false;
            }
        }
        proof {
            if before.contains(key) {
                let i = choose|i: int| 0 <= i < before.len() && before[i] == key;
                lemma_key_irreflexive(key);
                assert(i >= at);
                if i > at {
                    assert(key_less(before[at as int], before[i]));
                }
                assert(i == at);
            }
        }
        self.entries.insert(at, SymbolName { pc, name: name.to_owned() });
        let ghost after = self@;
        assert(after =~= before.insert(at as int, key));
        assert forall|i: int, j: int| 0 <= i < j < after.len() implies key_less(
            after[i],
            after[j],
        ) by {
            if i == at {
                let n = before[j - 1];
                lemma_key_total(n, key);
                if at < before.len() && j - 1 > at {
                    lemma_key_total(before[at as int], key);
                    assert(key_less(before[at as int], n));
                    assert(!key_less(before[at as int], key));
                }
                assert(n != key);
            } else if i < at && j > at {
                assert(key_less(before[i], before[j - 1]));
            } else if i > at {
                assert(key_less(before[i - 1], before[j - 1]));
            } else if j < at {
                assert(key_less(before[i], before[j]));
            }
        }
        true
    }
}

} // verus!
