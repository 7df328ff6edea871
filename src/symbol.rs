use vstd::prelude::*;

verus! {

/// How many times monomial `m` occurs in `terms`.
pub open spec fn occurrences(terms: Seq<Seq<char>>, m: Seq<char>) -> nat
    decreases terms.len(),
{
    if terms.len() == 0 {
        0
    } else {
        occurrences(terms.drop_last(), m) + if terms.last() == m {
            1nat
        } else {
            0nat
        }
    }
}

/// A formal sum with coefficients taken mod 2 is the additive identity when
/// every monomial in it occurs an even number of times: the terms cancel in pairs.
pub open spec fn is_zero_sum(terms: Seq<Seq<char>>) -> bool {
    forall|i: int| 0 <= i < terms.len() ==> #[trigger] occurrences(terms, terms[i]) % 2 == 0
}

/// A formal sum of monomials. Each monomial is a string of whitespace-separated
/// labels; the terms are kept in the order they were given.
#[derive(Debug, Clone)]
pub struct Symbol {
    terms: Vec<String>,
}

impl View for Symbol {
    type V = Seq<Seq<char>>;

    closed spec fn view(&self) -> Seq<Seq<char>> {
        self.terms.deep_view()
    }
}

impl Symbol {
    /// Builds the sum whose terms are exactly `monomials`, in order.
    pub fn new(monomials: Vec<&str>) -> (r: Symbol)
        ensures
            r@ == monomials@.map_values(|m: &str| m@),
    {
        let mut terms: Vec<String> = Vec::new();
        let mut i: usize = 0;
        while i < monomials.len()
            invariant
                i <= monomials.len(),
                terms.deep_view() == monomials@.take(i as int).map_values(|m: &str| m@),
            decreases monomials.len() - i,
        {
            let ghost prev = terms.deep_view();
            terms.push(String::from_str(monomials[i]));
            assert(terms.deep_view() =~= prev.push(monomials@[i as int]@));
            assert(monomials@.take(i + 1).map_values(|m: &str| m@) =~= prev.push(
                monomials@[i as int]@,
            ));
            i = i + 1;
        }
        assert(monomials@.take(monomials.len() as int) =~= monomials@);
        Symbol { terms }
    }

    /// Builds the sum whose terms are exactly `terms`, in order.
    pub fn from_terms(terms: Vec<String>) -> (r: Symbol)
        ensures
            r@ == terms.deep_view(),
    {
        Symbol { terms }
    }

    /// The terms of the sum, in order.
    pub fn terms(&self) -> (r: &Vec<String>)
        ensures
            r.deep_view() == self@,
    {
        &self.terms
    }

    /// Whether the sum is the additive identity: every monomial in it
    /// occurs an even number of times. The empty sum is zero.
    pub fn is_zero(&self) -> (r: bool)
        ensures
            r == is_zero_sum(self@),
    {
        let ghost v = self@;
        let n = self.terms.len();
        let mut i: usize = 0;
        while i < n
            invariant
                v == self@,
                n == v.len(),
                i <= n,
                forall|k: int| 0 <= k < i ==> #[trigger] occurrences(v, v[k]) % 2 == 0,
            decreases n - i,
        {
            let mut count: usize = 0;
            let mut j: usize = 0;
            while j < n
                invariant
                    v == self@,
                    n == v.len(),
                    i < n,
                    j <= n,
                    count == occurrences(v.take(j as int), v[i as int]),
                    count <= j,
                decreases n - j,
            {
                assert(v.take(j + 1).drop_last() =~= v.take(j as int));
                if self.terms[j] == self.terms[i] {
                    count = count + 1;
                }
                j = j + 1;
            }
            assert(v.take(n as int) =~= v);
            if count % 2 != 0 {
                return false;
            }
            i = i + 1;
        }
        true
    }
}

impl PartialEq for Symbol {
    fn eq(&self, o: &Symbol) -> (r: bool) {
        let n = self.terms.len();
        if n != o.terms.len() {
            return false;
        }
        let mut i: usize = 0;
        while i < n
            invariant
                n == self@.len(),
                n == o@.len(),
                i <= n,
                forall|k: int| 0 <= k < i ==> self@[k] == o@[k],
            decreases n - i,
        {
            if self.terms[i] != o.terms[i] {
                assert(self@[i as int] != o@[i as int]);
                return false;
            }
            i = i + 1;
        }
        assert(self@ =~= o@);
        true
    }
}

impl vstd::std_specs::cmp::PartialEqSpecImpl for Symbol {
    open spec fn obeys_eq_spec() -> bool {
        true
    }

    open spec fn eq_spec(&self, o: &Symbol) -> bool {
        self@ == o@
    }
}

} // verus!
