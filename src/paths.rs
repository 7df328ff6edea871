use vstd::prelude::*;
use crate::monomial::{survives, survives_sieve, tokens};
use crate::error::PathError;
use crate::symbol::{is_zero_sum, Symbol};

verus! {

/// The monomials of `terms` that survive the sieve for start label `label`, in order.
pub open spec fn sieve_terms(terms: Seq<Seq<char>>, label: Seq<char>) -> Seq<Seq<char>>
    decreases terms.len(),
{
    if terms.len() == 0 {
        Seq::empty()
    } else {
        let p = sieve_terms(terms.drop_last(), label);
        if survives(terms.last(), label) {
            p.push(terms.last())
        } else {
            p
        }
    }
}

/// The views of a sequence of symbols.
pub open spec fn symbol_views(data: Seq<Symbol>) -> Seq<Seq<Seq<char>>> {
    data.map_values(|s: Symbol| s@)
}

/// The views of a sequence of labels.
pub open spec fn label_views(labels: Seq<String>) -> Seq<Seq<char>> {
    labels.map_values(|l: String| l@)
}

/// Whether the symbol at index `i` is still there after the sieve: what is
/// left of it is neither empty nor zero.
pub open spec fn is_kept(data: Seq<Seq<Seq<char>>>, labels: Seq<Seq<char>>, i: int) -> bool {
    let t = sieve_terms(data[i], labels[i]);
    t.len() > 0 && !is_zero_sum(t)
}

/// The indices among the first `n` whose symbols survive the sieve, ascending.
pub open spec fn kept_indices(data: Seq<Seq<Seq<char>>>, labels: Seq<Seq<char>>, n: nat) -> Seq<int>
    decreases n,
{
    if n == 0 {
        Seq::empty()
    } else {
        let p = kept_indices(data, labels, (n - 1) as nat);
        if is_kept(data, labels, n - 1) {
            p.push(n - 1)
        } else {
            p
        }
    }
}

/// The result of the sieve: for each surviving index, in order, what is left
/// of its symbol.
pub open spec fn sieve(data: Seq<Seq<Seq<char>>>, labels: Seq<Seq<char>>) -> Seq<Seq<Seq<char>>> {
    kept_indices(data, labels, data.len()).map_values(|i: int| sieve_terms(data[i], labels[i]))
}

/// Keeps the monomials of `s` that survive for start label `label`.
fn sieve_symbol(s: &Symbol, label: &String) -> (r: Symbol)
    ensures
        r@ == sieve_terms(s@, label@),
{
    let terms = s.terms();
    let ghost v = s@;
    let mut kept: Vec<String> = Vec::new();
    let mut j: usize = 0;
    while j < terms.len()
        invariant
            v == terms.deep_view(),
            j <= terms.len(),
            kept.deep_view() == sieve_terms(v.take(j as int), label@),
        decreases terms.len() - j,
    {
        let ghost prev = kept.deep_view();
        assert(v.take(j + 1).drop_last() =~= v.take(j as int));
        assert(terms[j as int]@ == v[j as int]);
        if survives_sieve(&terms[j], label) {
            kept.push(terms[j].clone());
            assert(kept.deep_view() =~= prev.push(v[j as int]));
        }
        j = j + 1;
    }
    assert(v.take(terms.len() as int) =~= v);
    Symbol::from_terms(kept)
}

/// Removes from each symbol the monomials that cannot be a simple path from
/// its start label (those holding the label itself, or a repeated label), then
/// drops the symbols that are left empty or zero. Order is kept throughout.
pub fn clean_up_data(data: &Vec<Symbol>, labels: &Vec<String>) -> (r: Result<Vec<Symbol>, PathError>)
    ensures
        data.len() != labels.len() ==> r == Err::<Vec<Symbol>, PathError>(
            PathError::LengthMismatch(data.len(), labels.len()),
        ),
        data.len() == labels.len() ==> r is Ok && symbol_views(r->Ok_0@) == sieve(
            symbol_views(data@),
            label_views(labels@),
        ),
{
    if data.len() != labels.len() {
        return Err(PathError::LengthMismatch(data.len(), labels.len()));
    }
    let ghost d = symbol_views(data@);
    let ghost l = label_views(labels@);
    let mut out: Vec<Symbol> = Vec::new();
    let mut i: usize = 0;
    while i < data.len()
        invariant
            data.len() == labels.len(),
            d == symbol_views(data@),
            l == label_views(labels@),
            i <= data.len(),
            symbol_views(out@) == kept_indices(d, l, i as nat).map_values(
                |k: int| sieve_terms(d[k], l[k]),
            ),
        decreases data.len() - i,
    {
        let s = sieve_symbol(&data[i], &labels[i]);
        let ghost prev = out@;
        let ghost f = |k: int| sieve_terms(d[k], l[k]);
        let ghost ks = kept_indices(d, l, i as nat);
        assert(d[i as int] == data@[i as int]@);
        assert(l[i as int] == labels@[i as int]@);
        let nonempty = s.terms().len() > 0;
        if nonempty && !s.is_zero() {
            out.push(s);
            assert(symbol_views(out@) =~= symbol_views(prev).push(s@));
            assert(ks.push(i as int).map_values(f) =~= ks.map_values(f).push(f(i as int)));
        }
        i = i + 1;
    }
    Ok(out)
}

/// `a` is `b` with some entries left out: the entries of `a` stand in `b` in
/// the same order.
pub open spec fn is_subsequence(a: Seq<Seq<char>>, b: Seq<Seq<char>>) -> bool {
    exists|f: Seq<int>|
        f.len() == a.len() && (forall|j: int|
            0 <= j < f.len() ==> 0 <= #[trigger] f[j] < b.len() && a[j] == b[f[j]]) && (forall|
            j1: int,
            j2: int,
        | 0 <= j1 < j2 < f.len() ==> #[trigger] f[j1] < #[trigger] f[j2])
}

/// Each monomial left by the sieve survives its test, and the monomials
/// left stand in the original order.
proof fn lemma_sieve_terms(terms: Seq<Seq<char>>, label: Seq<char>) -> (f: Seq<int>)
    ensures
        forall|j: int|
            0 <= j < sieve_terms(terms, label).len() ==> survives(
                #[trigger] sieve_terms(terms, label)[j],
                label,
            ),
        f.len() == sieve_terms(terms, label).len(),
        forall|j: int|
            0 <= j < f.len() ==> 0 <= #[trigger] f[j] < terms.len() && sieve_terms(terms, label)[j]
                == terms[f[j]],
        forall|j1: int, j2: int| 0 <= j1 < j2 < f.len() ==> #[trigger] f[j1] < #[trigger] f[j2],
    decreases terms.len(),
{
    if terms.len() == 0 {
        Seq::empty()
    } else {
        let p = lemma_sieve_terms(terms.drop_last(), label);
        if survives(terms.last(), label) {
            let f = p.push(terms.len() - 1);
            assert forall|j1: int, j2: int| 0 <= j1 < j2 < f.len() implies #[trigger] f[j1]
                < #[trigger] f[j2] by {
                if j2 == f.len() - 1 {
                    assert(f[j1] == p[j1]);
                } else {
                    assert(f[j1] == p[j1] && f[j2] == p[j2]);
                }
            }
            f
        } else {
            p
        }
    }
}

/// The kept indices lie below `n`, ascend strictly, and are exactly the
/// indices below `n` whose symbols survive.
proof fn lemma_kept_indices(data: Seq<Seq<Seq<char>>>, labels: Seq<Seq<char>>, n: nat)
    ensures
        forall|k: int|
            0 <= k < kept_indices(data, labels, n).len() ==> 0 <= #[trigger] kept_indices(
                data,
                labels,
                n,
            )[k] < n && is_kept(data, labels, kept_indices(data, labels, n)[k]),
        forall|k1: int, k2: int|
            0 <= k1 < k2 < kept_indices(data, labels, n).len() ==> #[trigger] kept_indices(
                data,
                labels,
                n,
            )[k1] < #[trigger] kept_indices(data, labels, n)[k2],
        forall|i: int|
            0 <= i < n && is_kept(data, labels, i) ==> #[trigger] kept_indices(
                data,
                labels,
                n,
            ).contains(i),
    decreases n,
{
    if n > 0 {
        let m = (n - 1) as nat;
        lemma_kept_indices(data, labels, m);
        let p = kept_indices(data, labels, m);
        let ks = kept_indices(data, labels, n);
        if is_kept(data, labels, n - 1) {
            assert(ks == p.push(n - 1));
            assert forall|k1: int, k2: int| 0 <= k1 < k2 < ks.len() implies #[trigger] ks[k1]
                < #[trigger] ks[k2] by {
                if k2 == ks.len() - 1 {
                    assert(ks[k1] == p[k1]);
                } else {
                    assert(ks[k1] == p[k1] && ks[k2] == p[k2]);
                }
            }
            assert forall|i: int| 0 <= i < n && is_kept(data, labels, i) implies #[trigger] ks.contains(
                i,
            ) by {
                if i == n - 1 {
                    assert(ks[ks.len() - 1] == i);
                } else {
                    assert(p.contains(i));
                    let k = choose|k: int| 0 <= k < p.len() && p[k] == i;
                    assert(ks[k] == i);
                }
            }
        }
    }
}

/// No monomial left by the sieve holds the start label of the symbol it
/// stands in.
pub proof fn lemma_no_start_label(data: Seq<Seq<Seq<char>>>, labels: Seq<Seq<char>>, k: int, j: int)
    requires
        data.len() == labels.len(),
        0 <= k < sieve(data, labels).len(),
        0 <= j < sieve(data, labels)[k].len(),
    ensures
        !tokens(sieve(data, labels)[k][j]).contains(
            labels[kept_indices(data, labels, data.len())[k]],
        ),
{
    let i = kept_indices(data, labels, data.len())[k];
    lemma_sieve_terms(data[i], labels[i]);
    assert(sieve(data, labels)[k] == sieve_terms(data[i], labels[i]));
    assert(survives(sieve_terms(data[i], labels[i])[j], labels[i]));
}

/// No monomial left by the sieve repeats a label.
pub proof fn lemma_no_repeated_label(data: Seq<Seq<Seq<char>>>, labels: Seq<Seq<char>>, k: int, j: int)
    requires
        data.len() == labels.len(),
        0 <= k < sieve(data, labels).len(),
        0 <= j < sieve(data, labels)[k].len(),
    ensures
        tokens(sieve(data, labels)[k][j]).no_duplicates(),
{
    let i = kept_indices(data, labels, data.len())[k];
    lemma_sieve_terms(data[i], labels[i]);
    assert(sieve(data, labels)[k] == sieve_terms(data[i], labels[i]));
    assert(survives(sieve_terms(data[i], labels[i])[j], labels[i]));
}

/// Every symbol the sieve returns has terms and is not zero.
pub proof fn lemma_no_vanished_symbol(data: Seq<Seq<Seq<char>>>, labels: Seq<Seq<char>>, k: int)
    requires
        data.len() == labels.len(),
        0 <= k < sieve(data, labels).len(),
    ensures
        sieve(data, labels)[k].len() > 0,
        !is_zero_sum(sieve(data, labels)[k]),
{
    lemma_kept_indices(data, labels, data.len());
    let i = kept_indices(data, labels, data.len())[k];
    assert(is_kept(data, labels, i));
}

/// The sieve reorders nothing: the symbols it returns come from ascending
/// input positions, and each holds a subsequence of its input's terms. A
/// position is left out only when nothing of its symbol survives or what
/// survives is zero.
pub proof fn lemma_order_kept(data: Seq<Seq<Seq<char>>>, labels: Seq<Seq<char>>)
    requires
        data.len() == labels.len(),
    ensures
        ({
            let ks = kept_indices(data, labels, data.len());
            &&& sieve(data, labels).len() == ks.len()
            &&& forall|k: int| 0 <= k < ks.len() ==> 0 <= #[trigger] ks[k] < data.len()
            &&& forall|k1: int, k2: int| 0 <= k1 < k2 < ks.len() ==> #[trigger] ks[k1] < #[trigger] ks[k2]
            &&& forall|k: int|
                0 <= k < ks.len() ==> is_subsequence(#[trigger] sieve(data, labels)[k], data[ks[k]])
            &&& forall|i: int|
                0 <= i < data.len() && !ks.contains(i) ==> #[trigger] sieve_terms(data[i], labels[i]).len() == 0
                    || is_zero_sum(sieve_terms(data[i], labels[i]))
        }),
{
    let ks = kept_indices(data, labels, data.len());
    lemma_kept_indices(data, labels, data.len());
    assert forall|k: int| 0 <= k < ks.len() implies is_subsequence(
        #[trigger] sieve(data, labels)[k],
        data[ks[k]],
    ) by {
        let i = ks[k];
        let f = lemma_sieve_terms(data[i], labels[i]);
        assert(sieve(data, labels)[k] == sieve_terms(data[i], labels[i]));
        assert(f.len() == sieve(data, labels)[k].len());
    }
}

} // verus!
