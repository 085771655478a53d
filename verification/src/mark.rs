use vstd::prelude::*;

use crate::condition::Condition;
use crate::perception::Perception;
use crate::rng::RandomSource;
use crate::symbol::{lemma_rank_injective, symbol_rank, Symbol};

verus! {

broadcast use vstd::array::group_array_axioms;

/// Strictly increasing by rank, so no symbol occurs twice.
pub open spec fn sorted_unique(symbols: Seq<Symbol>) -> bool {
    forall|i: int, j: int|
        0 <= i < j < symbols.len() ==> symbol_rank(#[trigger] symbols[i]) < symbol_rank(
            #[trigger] symbols[j],
        )
}

/// Two increasing sequences that hold the same symbols are the same
/// sequence.
pub proof fn lemma_sorted_unique_by_set(a: Seq<Symbol>, b: Seq<Symbol>)
    requires
        sorted_unique(a),
        sorted_unique(b),
        a.to_set() == b.to_set(),
    ensures
        a == b,
    decreases a.len(),
{
    if a.len() == 0 {
        if b.len() > 0 {
            assert(b.to_set().contains(b[0]));
        }
        assert(a =~= b);
    } else {
        assert(a.to_set().contains(a[0]));
        assert(b.contains(a[0]));
        let j = choose|j: int| 0 <= j < b.len() && b[j] == a[0];
        assert(a.contains(b[0])) by {
            assert(b.to_set().contains(b[0]));
        }
        let i = choose|i: int| 0 <= i < a.len() && a[i] == b[0];
        if j > 0 {
            assert(symbol_rank(b[0]) < symbol_rank(b[j]));
        }
        if i > 0 {
            assert(symbol_rank(a[0]) < symbol_rank(a[i]));
        }
        lemma_rank_injective(a[0], b[0]);
        let ta = a.drop_first();
        let tb = b.drop_first();
        assert forall|x: Symbol| ta.to_set().contains(x) <==> tb.to_set().contains(x) by {
            if ta.contains(x) {
                let k = choose|k: int| 0 <= k < ta.len() && ta[k] == x;
                assert(a[k + 1] == x);
                assert(symbol_rank(a[0]) < symbol_rank(a[k + 1]));
                assert(a.to_set().contains(x));
                let m = choose|m: int| 0 <= m < b.len() && b[m] == x;
                if m == 0 {
                    assert(false);
                }
                assert(tb[m - 1] == x);
            }
            if tb.contains(x) {
                let k = choose|k: int| 0 <= k < tb.len() && tb[k] == x;
                assert(b[k + 1] == x);
                assert(symbol_rank(b[0]) < symbol_rank(b[k + 1]));
                assert(b.to_set().contains(x));
                let m = choose|m: int| 0 <= m < a.len() && a[m] == x;
                if m == 0 {
                    assert(false);
                }
                assert(ta[m - 1] == x);
            }
        }
        assert(ta.to_set() =~= tb.to_set());
        lemma_sorted_unique_by_set(ta, tb);
        assert(a[0] == b[0]);
        assert(a.len() == b.len());
        assert forall|k: int| 0 <= k < a.len() implies a[k] == b[k] by {
            if k > 0 {
                assert(a[k] == ta[k - 1]);
                assert(b[k] == tb[k - 1]);
            }
        }
        assert(a =~= b);
    }
}

/// For each attribute, the symbols seen there while the classifier failed,
/// kept in increasing order.
#[derive(PartialEq, Eq, Debug)]
pub struct Mark<const N: usize> {
    attributes: Vec<Vec<Symbol>>,
}

/// The position of the first symbol not below `symbol`.
fn insertion_point(symbols: &Vec<Symbol>, symbol: Symbol) -> (result: usize)
    requires
        sorted_unique(symbols@),
    ensures
        result <= symbols@.len(),
        forall|i: int| 0 <= i < result ==> symbol_rank(#[trigger] symbols@[i]) < symbol_rank(symbol),
        forall|i: int|
            result <= i < symbols@.len() ==> symbol_rank(#[trigger] symbols@[i]) >= symbol_rank(symbol),
{
    let rank = symbol.rank();
    let mut index: usize = 0;
    while index < symbols.len()
        invariant
            index <= symbols@.len(),
            sorted_unique(symbols@),
            rank as int == symbol_rank(symbol),
            forall|i: int| 0 <= i < index ==> symbol_rank(#[trigger] symbols@[i]) < symbol_rank(symbol),
        decreases symbols@.len() - index,
    {
        if symbols[index].rank() >= rank {
            proof {
                assert forall|i: int| index <= i < symbols@.len() implies symbol_rank(#[trigger] symbols@[i])
                    >= symbol_rank(symbol) by {
                    if i > index {
                        assert(symbol_rank(symbols@[index as int]) < symbol_rank(symbols@[i]));
                    }
                }
            }
            return index;
        }
        index += 1;
    }
    index
}

fn copy_symbols(symbols: &Vec<Symbol>) -> (result: Vec<Symbol>)
    ensures
        result@ == symbols@,
{
    let mut result: Vec<Symbol> = Vec::new();
    let mut index: usize = 0;
    while index < symbols.len()
        invariant
            index <= symbols@.len(),
            result@ == symbols@.take(index as int),
        decreases symbols@.len() - index,
    {
        result.push(symbols[index]);
        index += 1;
        proof {
            assert(result@ =~= symbols@.take(index as int));
        }
    }
    proof {
        assert(symbols@.take(symbols@.len() as int) =~= symbols@);
    }
    result
}

fn symbols_contain(symbols: &Vec<Symbol>, symbol: Symbol) -> (result: bool)
    ensures
        result == symbols@.contains(symbol),
{
    let mut index: usize = 0;
    while index < symbols.len()
        invariant
            index <= symbols@.len(),
            forall|i: int| 0 <= i < index ==> #[trigger] symbols@[i] != symbol,
        decreases symbols@.len() - index,
    {
        if symbols[index] == symbol {
            proof {
                assert(symbols@[index as int] == symbol);
            }
            return true;
        }
        index += 1;
    }
    false
}

/// The sorted symbols with `symbol` added where it belongs.
fn insert_sorted(symbols: &Vec<Symbol>, symbol: Symbol) -> (result: Vec<Symbol>)
    requires
        sorted_unique(symbols@),
    ensures
        sorted_unique(result@),
        result@.to_set() == symbols@.to_set().insert(symbol),
        result@.len() >= 1,
{
    let position = insertion_point(symbols, symbol);
    if position < symbols.len() && symbols[position] == symbol {
        let result = copy_symbols(symbols);
        proof {
            assert(result@.to_set() =~= symbols@.to_set().insert(symbol)) by {
                assert(symbols@.contains(symbol)) by {
                    assert(symbols@[position as int] == symbol);
                }
            }
        }
        return result;
    }
    let mut result: Vec<Symbol> = Vec::new();
    let mut index: usize = 0;
    while index < position
        invariant
            index <= position,
            position <= symbols@.len(),
            result@ == symbols@.take(index as int),
        decreases position - index,
    {
        result.push(symbols[index]);
        index += 1;
        proof {
            assert(result@ =~= symbols@.take(index as int));
        }
    }
    result.push(symbol);
    let ghost front = result@;
    while index < symbols.len()
        invariant
            position <= index <= symbols@.len(),
            front == symbols@.take(position as int).push(symbol),
            result@ == front + symbols@.subrange(position as int, index as int),
        decreases symbols@.len() - index,
    {
        result.push(symbols[index]);
        index += 1;
        proof {
            assert(result@ =~= front + symbols@.subrange(position as int, index as int));
        }
    }
    proof {
        let expected = symbols@.take(position as int).push(symbol) + symbols@.skip(position as int);
        assert(result@ =~= expected);
        if position < symbols@.len() {
            lemma_rank_injective(symbols@[position as int], symbol);
        }
        assert forall|i: int, j: int| 0 <= i < j < result@.len() implies symbol_rank(#[trigger] result@[i])
            < symbol_rank(#[trigger] result@[j]) by {
            if j < position {
            } else if j == position {
            } else if i < position {
                assert(result@[j] == symbols@[j - 1]);
                assert(symbol_rank(symbols@[j - 1]) >= symbol_rank(symbol));
            } else if i == position {
                assert(result@[j] == symbols@[j - 1]);
                if j - 1 > position {
                    assert(symbol_rank(symbols@[position as int]) < symbol_rank(symbols@[j - 1]));
                }
                assert(symbol_rank(symbols@[position as int]) >= symbol_rank(symbol));
            } else {
                assert(result@[i] == symbols@[i - 1]);
                assert(result@[j] == symbols@[j - 1]);
            }
        }
        assert forall|x: Symbol| result@.contains(x) <==> symbols@.to_set().insert(symbol).contains(x) by {
            if result@.contains(x) {
                let k = choose|k: int| 0 <= k < result@.len() && result@[k] == x;
                if k < position {
                    assert(symbols@[k] == x);
                } else if k > position {
                    assert(symbols@[k - 1] == x);
                }
            }
            if symbols@.contains(x) {
                let k = choose|k: int| 0 <= k < symbols@.len() && symbols@[k] == x;
                if k < position {
                    assert(result@[k] == x);
                } else {
                    assert(result@[k + 1] == x);
                }
            }
            if x == symbol {
                assert(result@[position as int] == x);
            }
        }
        assert(result@.to_set() =~= symbols@.to_set().insert(symbol));
    }
    result
}

impl<const N: usize> Clone for Mark<N> {
    fn clone(&self) -> (result: Self)
        ensures
            forall|i: int| 0 <= i < N ==> #[trigger] result.marked(i) == self.marked(i),
    {
        proof {
            use_type_invariant(self);
        }
        let mut attributes: Vec<Vec<Symbol>> = Vec::new();
        let mut index: usize = 0;
        while index < N
            invariant
                index <= N,
                self.attributes@.len() == N,
                forall|i: int| 0 <= i < N ==> sorted_unique(#[trigger] self.attributes@[i]@),
                attributes@.len() == index,
                forall|i: int| 0 <= i < index ==> #[trigger] attributes@[i]@ == self.attributes@[i]@,
            decreases N - index,
        {
            attributes.push(copy_symbols(&self.attributes[index]));
            index += 1;
        }
        Mark { attributes }
    }
}

impl<const N: usize> Mark<N> {
    #[verifier::type_invariant]
    spec fn well_formed(self) -> bool {
        &&& self.attributes@.len() == N
        &&& forall|i: int| 0 <= i < N ==> sorted_unique(#[trigger] self.attributes@[i]@)
    }

    /// The symbols marked at position `index`, in increasing order.
    pub closed spec fn marked(self, index: int) -> Seq<Symbol> {
        self.attributes@[index]@
    }

    /// Every position holds its symbols in increasing order, each once.
    pub open spec fn marks_sorted(self) -> bool {
        forall|p: int| 0 <= p < N ==> sorted_unique(#[trigger] self.marked(p))
    }

    /// Some position is marked.
    pub open spec fn spec_is_marked(self) -> bool {
        exists|i: int| 0 <= i < N && #[trigger] self.marked(i).len() > 0
    }

    /// Position `index` is marked and does not hold `symbol`.
    pub open spec fn misses(self, index: int, symbol: Symbol) -> bool {
        self.marked(index).len() > 0 && !self.marked(index).contains(symbol)
    }

    /// The positions below `count` that miss the symbol `p0` shows there,
    /// in increasing order.
    pub open spec fn missed_below(self, p0: Seq<Symbol>, count: nat) -> Seq<usize>
        decreases count,
    {
        if count == 0 {
            Seq::empty()
        } else {
            let before = self.missed_below(p0, (count - 1) as nat);
            if self.misses(count - 1, p0[count - 1]) {
                before.push((count - 1) as usize)
            } else {
                before
            }
        }
    }

    pub fn new() -> (result: Self)
        ensures
            forall|i: int| 0 <= i < N ==> #[trigger] result.marked(i).len() == 0,
            result.marks_sorted(),
    {
        let mut attributes: Vec<Vec<Symbol>> = Vec::new();
        let mut index: usize = 0;
        while index < N
            invariant
                index <= N,
                attributes@.len() == index,
                forall|i: int| 0 <= i < index ==> #[trigger] attributes@[i]@.len() == 0,
            decreases N - index,
        {
            attributes.push(Vec::new());
            index += 1;
        }
        Self { attributes }
    }

    /// The symbols marked at position `index`, in increasing order.
    pub fn attribute(&self, index: usize) -> (result: &Vec<Symbol>)
        requires
            index < N,
        ensures
            result@ == self.marked(index as int),
            sorted_unique(result@),
    {
        proof {
            use_type_invariant(self);
        }
        &self.attributes[index]
    }

    /// Adds `symbol` at position `index`.
    pub fn insert(&mut self, index: usize, symbol: Symbol)
        requires
            index < N,
        ensures
            final(self).marked(index as int).to_set() == old(self).marked(index as int).to_set().insert(symbol),
            forall|i: int| 0 <= i < N && i != index ==> #[trigger] final(self).marked(i) == old(self).marked(i),
            final(self).marks_sorted(),
    {
        proof {
            use_type_invariant(&*self);
        }
        let mut attributes: Vec<Vec<Symbol>> = Vec::new();
        let mut position: usize = 0;
        while position < N
            invariant
                position <= N,
                self.attributes@.len() == N,
                index < N,
                forall|i: int| 0 <= i < N ==> sorted_unique(#[trigger] self.attributes@[i]@),
                attributes@.len() == position,
                forall|i: int| 0 <= i < position ==> sorted_unique(#[trigger] attributes@[i]@),
                forall|i: int| 0 <= i < position && i != index ==> #[trigger] attributes@[i]@ == self.attributes@[i]@,
                index < position ==> attributes@[index as int]@.to_set() == self.attributes@[index as int]@.to_set().insert(symbol),
            decreases N - position,
        {
            if position == index {
                attributes.push(insert_sorted(&self.attributes[position], symbol));
            } else {
                attributes.push(copy_symbols(&self.attributes[position]));
            }
            position += 1;
        }
        self.attributes = attributes;
    }

    /// Makes the symbols at position `index` exactly `symbols`.
    pub fn set_attribute(&mut self, index: usize, symbols: &[Symbol])
        requires
            index < N,
        ensures
            final(self).marked(index as int).to_set() == symbols@.to_set(),
            forall|i: int| 0 <= i < N && i != index ==> #[trigger] final(self).marked(i) == old(self).marked(i),
            final(self).marks_sorted(),
    {
        proof {
            use_type_invariant(&*self);
        }
        let mut sorted: Vec<Symbol> = Vec::new();
        let mut k: usize = 0;
        while k < symbols.len()
            invariant
                k <= symbols@.len(),
                sorted_unique(sorted@),
                sorted@.to_set() == symbols@.take(k as int).to_set(),
            decreases symbols@.len() - k,
        {
            sorted = insert_sorted(&sorted, symbols[k]);
            proof {
                assert(symbols@.take(k as int + 1) =~= symbols@.take(k as int).push(symbols@[k as int]));
                vstd::seq_lib::lemma_seq_contains_after_push(symbols@.take(k as int), symbols@[k as int], symbols@[k as int]);
                assert(symbols@.take(k as int + 1).to_set() =~= symbols@.take(k as int).to_set().insert(symbols@[k as int])) by {
                    assert forall|x: Symbol| symbols@.take(k as int + 1).to_set().contains(x) <==> symbols@.take(k as int).to_set().insert(
                        symbols@[k as int],
                    ).contains(x) by {
                        let before = symbols@.take(k as int);
                        let after = symbols@.take(k as int + 1);
                        if after.contains(x) {
                            let j = choose|j: int| 0 <= j < after.len() && after[j] == x;
                            if j < before.len() {
                                assert(before[j] == x);
                            }
                        }
                        if before.contains(x) {
                            let j = choose|j: int| 0 <= j < before.len() && before[j] == x;
                            assert(after[j] == x);
                        }
                        if x == symbols@[k as int] {
                            assert(after[k as int] == x);
                        }
                    }
                }
            }
            k += 1;
        }
        proof {
            assert(symbols@.take(symbols@.len() as int) =~= symbols@);
        }
        let mut attributes: Vec<Vec<Symbol>> = Vec::new();
        let mut position: usize = 0;
        while position < N
            invariant
                position <= N,
                self.attributes@.len() == N,
                index < N,
                sorted_unique(sorted@),
                sorted@.to_set() == symbols@.to_set(),
                forall|i: int| 0 <= i < N ==> sorted_unique(#[trigger] self.attributes@[i]@),
                attributes@.len() == position,
                forall|i: int| 0 <= i < position ==> sorted_unique(#[trigger] attributes@[i]@),
                forall|i: int| 0 <= i < position && i != index ==> #[trigger] attributes@[i]@ == self.attributes@[i]@,
                index < position ==> attributes@[index as int]@ == sorted@,
            decreases N - position,
        {
            if position == index {
                attributes.push(copy_symbols(&sorted));
            } else {
                attributes.push(copy_symbols(&self.attributes[position]));
            }
            position += 1;
        }
        self.attributes = attributes;
    }

    pub fn is_marked(&self) -> (result: bool)
        ensures
            result == self.spec_is_marked(),
    {
        proof {
            use_type_invariant(self);
        }
        let mut index: usize = 0;
        while index < N
            invariant
                index <= N,
                self.attributes@.len() == N,
                forall|i: int| 0 <= i < index ==> #[trigger] self.marked(i).len() == 0,
            decreases N - index,
        {
            if self.attributes[index].len() > 0 {
                proof {
                    assert(self.marked(index as int).len() > 0);
                }
                return true;
            }
            index += 1;
        }
        false
    }

    /// Adds the perceived symbol at every marked position. The result says
    /// whether any position is marked.
    pub fn complement(&mut self, perception: &Perception<N>) -> (changed: bool)
        ensures
            changed == old(self).spec_is_marked(),
            forall|i: int|
                0 <= i < N ==> (#[trigger] final(self).marked(i)).to_set() == if old(self).marked(i).len() > 0 {
                    old(self).marked(i).to_set().insert(perception.symbols@[i])
                } else {
                    old(self).marked(i).to_set()
                },
            forall|i: int| 0 <= i < N ==> ((#[trigger] final(self).marked(i)).len() > 0 <==> old(self).marked(i).len() > 0),
    {
        proof {
            use_type_invariant(&*self);
        }
        let mut attributes: Vec<Vec<Symbol>> = Vec::new();
        let mut changed = false;
        let mut index: usize = 0;
        while index < N
            invariant
                index <= N,
                self.attributes@.len() == N,
                forall|i: int| 0 <= i < N ==> sorted_unique(#[trigger] self.attributes@[i]@),
                attributes@.len() == index,
                forall|i: int| 0 <= i < index ==> sorted_unique(#[trigger] attributes@[i]@),
                forall|i: int|
                    0 <= i < index ==> (#[trigger] attributes@[i]@).to_set() == if self.attributes@[i]@.len() > 0 {
                        self.attributes@[i]@.to_set().insert(perception.symbols@[i])
                    } else {
                        self.attributes@[i]@.to_set()
                    },
                forall|i: int| 0 <= i < index ==> ((#[trigger] attributes@[i]@).len() > 0 <==> self.marked(i).len() > 0),
                changed == exists|i: int| 0 <= i < index && #[trigger] self.marked(i).len() > 0,
            decreases N - index,
        {
            if self.attributes[index].len() > 0 {
                attributes.push(insert_sorted(&self.attributes[index], perception.symbols[index]));
                changed = true;
                proof {
                    assert(self.marked(index as int).len() > 0);
                }
            } else {
                attributes.push(copy_symbols(&self.attributes[index]));
            }
            index += 1;
        }
        self.attributes = attributes;
        changed
    }

    /// Marks the classifier with the perception it failed on. An unmarked
    /// classifier records the perceived symbol at each wildcard position of
    /// its condition; a marked one is complemented.
    pub fn set_using_condition(&mut self, condition: &Condition<N>, perception: &Perception<N>) -> (changed: bool)
        ensures
            old(self).spec_is_marked() ==> {
                &&& changed
                &&& forall|i: int|
                    0 <= i < N ==> (#[trigger] final(self).marked(i)).to_set() == if old(self).marked(i).len()
                        > 0 {
                        old(self).marked(i).to_set().insert(perception.symbols@[i])
                    } else {
                        old(self).marked(i).to_set()
                    }
            },
            !old(self).spec_is_marked() ==> {
                &&& changed == exists|i: int| 0 <= i < N && #[trigger] condition.symbols@[i] is Wildcard
                &&& forall|i: int|
                    0 <= i < N ==> (#[trigger] final(self).marked(i)).to_set() == if condition.symbols@[i] is Wildcard {
                        set![perception.symbols@[i]]
                    } else {
                        Set::empty()
                    }
            },
    {
        if self.is_marked() {
            return self.complement(perception);
        }
        proof {
            use_type_invariant(&*self);
        }
        let mut attributes: Vec<Vec<Symbol>> = Vec::new();
        let mut changed = false;
        let mut index: usize = 0;
        while index < N
            invariant
                index <= N,
                !self.spec_is_marked(),
                self.attributes@.len() == N,
                attributes@.len() == index,
                forall|i: int| 0 <= i < index ==> sorted_unique(#[trigger] attributes@[i]@),
                forall|i: int|
                    0 <= i < index ==> (#[trigger] attributes@[i]@).to_set() == if condition.symbols@[i] is Wildcard {
                        set![perception.symbols@[i]]
                    } else {
                        Set::<Symbol>::empty()
                    },
                changed == exists|i: int| 0 <= i < index && #[trigger] condition.symbols@[i] is Wildcard,
            decreases N - index,
        {
            proof {
                assert(self.marked(index as int).len() == 0);
                assert(self.attributes@[index as int]@ =~= Seq::<Symbol>::empty());
            }
            if condition.symbols[index].is_wildcard() {
                let mut single: Vec<Symbol> = Vec::new();
                single.push(perception.symbols[index]);
                proof {
                    assert(single@ =~= seq![perception.symbols@[index as int]]);
                    let x = perception.symbols@[index as int];
                    assert(single@[0] == x);
                    assert forall|y: Symbol| single@.contains(y) <==> y == x by {
                        if single@.contains(y) {
                            let k = choose|k: int| 0 <= k < single@.len() && single@[k] == y;
                        }
                    }
                    assert(single@.to_set() =~= set![x]);
                }
                attributes.push(single);
                changed = true;
            } else {
                let empty: Vec<Symbol> = Vec::new();
                proof {
                    assert(empty@.to_set() =~= Set::<Symbol>::empty());
                }
                attributes.push(empty);
            }
            index += 1;
        }
        self.attributes = attributes;
        changed
    }

    /// Position `index` holds more than one symbol.
    pub open spec fn ambiguous(self, index: int) -> bool {
        self.marked(index).len() > 1
    }

    /// The condition that tells the situations this mark separates from `p0`.
    /// If some marked position never saw the symbol `p0` shows there, one
    /// such position is drawn and specified with `p0`'s symbol; otherwise
    /// every position that saw more than one symbol is specified with `p0`'s.
    pub fn get_differences<R: RandomSource>(&self, p0: &Perception<N>, rng: &mut R) -> (result: Condition<N>)
        ensures
            (exists|i: int| 0 <= i < N && #[trigger] self.misses(i, p0.symbols@[i])) ==> exists|chosen: int|
                0 <= chosen < N && #[trigger] self.misses(chosen, p0.symbols@[chosen]) && result.symbols@ == Seq::new(
                    N as nat,
                    |k: int| if k == chosen { p0.symbols@[chosen] } else { Symbol::Wildcard },
                ),
            !(exists|i: int| 0 <= i < N && #[trigger] self.misses(i, p0.symbols@[i])) ==> result.symbols@ == Seq::new(
                N as nat,
                |k: int| if self.ambiguous(k) { p0.symbols@[k] } else { Symbol::Wildcard },
            ),
            ({
                let candidates = self.missed_below(p0.symbols@, N as nat);
                let before = old(rng).drawn().len();
                let drawn = final(rng).drawn();
                &&& (candidates.len() > 0) == (exists|i: int| 0 <= i < N && #[trigger] self.misses(i, p0.symbols@[i]))
                &&& candidates.len() == 0 ==> drawn == old(rng).drawn()
                &&& candidates.len() > 0 ==> {
                    &&& drawn.len() == before + 1
                    &&& drawn.take(before as int) == old(rng).drawn()
                    &&& drawn[before as int].0 == candidates.len()
                    &&& result.symbols@ == Seq::new(
                        N as nat,
                        |k: int| if k == candidates[drawn[before as int].1 as int] {
                            p0.symbols@[k]
                        } else {
                            Symbol::Wildcard
                        },
                    )
                }
            }),
    {
        proof {
            use_type_invariant(self);
        }
        let mut candidates: Vec<usize> = Vec::new();
        let mut index: usize = 0;
        while index < N
            invariant
                index <= N,
                self.attributes@.len() == N,
                forall|k: int| 0 <= k < candidates@.len() ==> #[trigger] candidates@[k] < index
                    && self.misses(candidates@[k] as int, p0.symbols@[candidates@[k] as int]),
                forall|i: int| 0 <= i < index && #[trigger] self.misses(i, p0.symbols@[i]) ==> candidates@.contains(i as usize),
                candidates@ == self.missed_below(p0.symbols@, index as nat),
            decreases N - index,
        {
            let attribute = &self.attributes[index];
            let ghost before = candidates@;
            if attribute.len() > 0 && !symbols_contain(attribute, p0.symbols[index]) {
                candidates.push(index);
                proof {
                    assert forall|i: int| 0 <= i <= index && #[trigger] self.misses(i, p0.symbols@[i]) implies candidates@.contains(i as usize) by {
                        if i < index {
                            let k = choose|k: int| 0 <= k < before.len() && before[k] == i as usize;
                            assert(candidates@[k] == i as usize);
                        } else {
                            assert(candidates@[candidates@.len() - 1] == i as usize);
                        }
                    }
                }
            }
            index += 1;
        }
        let mut diff: Condition<N> = Condition::all_wildcard();
        let ghost drawn_before = rng.drawn();
        if candidates.len() > 0 {
            let pick = rng.gen_range(candidates.len());
            let chosen = candidates[pick];
            diff.set(chosen, p0.symbols[chosen]);
            proof {
                assert(rng.drawn().take(drawn_before.len() as int) =~= drawn_before);
                assert(rng.drawn()[drawn_before.len() as int].1 == pick);
                assert(self.misses(chosen as int, p0.symbols@[chosen as int]));
                assert(diff.symbols@ =~= Seq::new(
                    N as nat,
                    |k: int| if k == chosen as int { p0.symbols@[chosen as int] } else { Symbol::Wildcard },
                ));
            }
        } else {
            proof {
                assert forall|i: int| 0 <= i < N implies !#[trigger] self.misses(i, p0.symbols@[i]) by {
                    if self.misses(i, p0.symbols@[i]) {
                        assert(candidates@.contains(i as usize));
                    }
                }
            }
            let mut position: usize = 0;
            while position < N
                invariant
                    position <= N,
                    self.attributes@.len() == N,
                    forall|k: int| 0 <= k < position ==> #[trigger] diff.symbols@[k] == if self.ambiguous(k) {
                        p0.symbols@[k]
                    } else {
                        Symbol::Wildcard
                    },
                    forall|k: int| position <= k < N ==> #[trigger] diff.symbols@[k] == Symbol::Wildcard,
                decreases N - position,
            {
                if self.attributes[position].len() > 1 {
                    diff.set(position, p0.symbols[position]);
                }
                position += 1;
            }
            proof {
                assert(diff.symbols@ =~= Seq::new(
                    N as nat,
                    |k: int| if self.ambiguous(k) { p0.symbols@[k] } else { Symbol::Wildcard },
                ));
            }
        }
        diff
    }
}

} // verus!
