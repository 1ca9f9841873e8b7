use vstd::prelude::*;

use vstd::std_specs::cmp::PartialEqSpecImpl;

verus! {

/// An identifier, such as the identity of a subject.
#[derive(Debug, Eq, Hash)]
pub struct Symbol(pub String);

impl View for Symbol {
    type V = Seq<char>;

    open spec fn view(&self) -> Seq<char> {
        self.0@
    }
}

impl PartialEq for Symbol {
    fn eq(&self, other: &Self) -> (r: bool) {
        self.0 == other.0
    }
}

impl PartialEqSpecImpl for Symbol {
    open spec fn obeys_eq_spec() -> bool {
        true
    }

    open spec fn eq_spec(&self, other: &Self) -> bool {
        self.0@ == other.0@
    }
}

impl Clone for Symbol {
    /// A copy with the same text.
    fn clone(&self) -> (r: Self)
        ensures
            r@ == self@,
    {
        Symbol(self.0.clone())
    }
}

/// The texts of a sequence of symbols.
pub open spec fn symbol_texts(s: Seq<Symbol>) -> Seq<Seq<char>> {
    s.map_values(|x: Symbol| x@)
}

/// The texts of a sequence of symbols, as a set.
pub open spec fn symbol_set(s: Seq<Symbol>) -> Set<Seq<char>> {
    symbol_texts(s).to_set()
}

/// Adding a symbol adds its text.
pub proof fn lemma_symbol_set_push(s: Seq<Symbol>, x: Symbol)
    ensures
        symbol_set(s.push(x)) == symbol_set(s).insert(x@),
{
    assert(symbol_texts(s.push(x)) =~= symbol_texts(s) + seq![x@]);
    Seq::<Seq<char>>::lemma_to_set_insert_commutes(symbol_texts(s), x@);
}

/// Whether `x` is among `v`.
pub(crate) fn holds_symbol(v: &Vec<Symbol>, x: &Symbol) -> (r: bool)
    ensures
        r == symbol_texts(v@).contains(x@),
{
    let mut i: usize = 0;
    while i < v.len()
        invariant
            i <= v.len(),
            forall|k: int| 0 <= k < i ==> v@[k]@ != x@,
        decreases v.len() - i,
    {
        if v[i] == *x {
            proof {
                assert(symbol_texts(v@)[i as int] == x@);
            }
            return true;
        }
        i = i + 1;
    }
    proof {
        if symbol_texts(v@).contains(x@) {
            let j = choose|j: int| 0 <= j < symbol_texts(v@).len() && symbol_texts(v@)[j] == x@;
            assert(v@[j]@ == x@);
        }
    }
    false
}

} // verus!
