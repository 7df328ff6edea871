use vstd::prelude::*;
use vstd::string::*;
use crate::error::PathError;
use crate::paths::{label_views, symbol_views};
use crate::symbol::Symbol;

verus! {

/// `label m label`: leave `label`, go along the monomial `m`, come back to `label`.
pub open spec fn path_text(label: Seq<char>, m: Seq<char>) -> Seq<char> {
    label + seq![' '] + m + seq![' '] + label
}

/// The report's line for monomial `m` of the symbol that starts at `label`:
/// the path, indented by a tab.
pub open spec fn path_line(label: Seq<char>, m: Seq<char>) -> Seq<char> {
    seq!['\t'] + path_text(label, m) + seq!['\n']
}

/// The lines for all monomials of `terms`, in order.
pub open spec fn path_lines(terms: Seq<Seq<char>>, label: Seq<char>) -> Seq<char>
    decreases terms.len(),
{
    if terms.len() == 0 {
        Seq::empty()
    } else {
        path_lines(terms.drop_last(), label) + path_line(label, terms.last())
    }
}

/// `Starting at label:` and a line break.
pub open spec fn header(label: Seq<char>) -> Seq<char> {
    "Starting at "@ + label + seq![':', '\n']
}

/// The block for one start label: its header, one line per monomial, a blank line.
pub open spec fn block(terms: Seq<Seq<char>>, label: Seq<char>) -> Seq<char> {
    header(label) + path_lines(terms, label) + seq!['\n']
}

/// The blocks of the first `n` (symbol, label) pairs, in order.
pub open spec fn report_upto(data: Seq<Seq<Seq<char>>>, labels: Seq<Seq<char>>, n: nat) -> Seq<char>
    decreases n,
{
    if n == 0 {
        Seq::empty()
    } else {
        report_upto(data, labels, (n - 1) as nat) + block(data[n - 1], labels[n - 1])
    }
}

/// The whole report: one block per (symbol, label) pair, in order.
pub open spec fn report(data: Seq<Seq<Seq<char>>>, labels: Seq<Seq<char>>) -> Seq<char> {
    report_upto(data, labels, data.len())
}

/// Renders each symbol's monomials as paths from and back to its start label.
pub fn pretty_print_hamiltonian_paths(data: &Vec<Symbol>, labels: &Vec<String>) -> (r: Result<String, PathError>)
    ensures
        data.len() != labels.len() ==> r == Err::<String, PathError>(
            PathError::LengthMismatch(data.len(), labels.len()),
        ),
        data.len() == labels.len() ==> r is Ok && r->Ok_0@ == report(
            symbol_views(data@),
            label_views(labels@),
        ),
{
    if data.len() != labels.len() {
        return Err(PathError::LengthMismatch(data.len(), labels.len()));
    }
    proof {
        reveal_strlit(":\n");
        reveal_strlit("\t");
        reveal_strlit(" ");
        reveal_strlit("\n");
    }
    let ghost d = symbol_views(data@);
    let ghost l = label_views(labels@);
    let mut out = String::new();
    let mut i: usize = 0;
    while i < data.len()
        invariant
            data.len() == labels.len(),
            d == symbol_views(data@),
            l == label_views(labels@),
            i <= data.len(),
            out@ == report_upto(d, l, i as nat),
            ":\n"@ == seq![':', '\n'],
            "\t"@ == seq!['\t'],
            " "@ == seq![' '],
            "\n"@ == seq!['\n'],
        decreases data.len() - i,
    {
        let label = labels[i].as_str();
        let terms = data[i].terms();
        let ghost lab = l[i as int];
        let ghost v = d[i as int];
        assert(label@ == lab);
        assert(terms.deep_view() == v);
        let ghost before = out@;
        out.append("Starting at ");
        out.append(label);
        out.append(":\n");
        assert(out@ =~= before + header(lab));
        let mut j: usize = 0;
        while j < terms.len()
            invariant
                v == terms.deep_view(),
                label@ == lab,
                j <= terms.len(),
                out@ == before + header(lab) + path_lines(v.take(j as int), lab),
                "\t"@ == seq!['\t'],
                " "@ == seq![' '],
                "\n"@ == seq!['\n'],
            decreases terms.len() - j,
        {
            let ghost mid = out@;
            out.append("\t");
            out.append(label);
            out.append(" ");
            out.append(terms[j].as_str());
            out.append(" ");
            out.append(label);
            out.append("\n");
            assert(terms[j as int]@ == v[j as int]);
            assert(out@ =~= mid + path_line(lab, v[j as int]));
            assert(v.take(j + 1).drop_last() =~= v.take(j as int));
            assert(out@ =~= before + header(lab) + path_lines(v.take(j + 1), lab));
            j = j + 1;
        }
        out.append("\n");
        assert(v.take(terms.len() as int) =~= v);
        assert(out@ =~= before + block(v, lab));
        i = i + 1;
    }
    Ok(out)
}

/// The lines of `terms` hold the line of each of its monomials, at the start
/// or right after a line break.
proof fn lemma_lines_show(terms: Seq<Seq<char>>, label: Seq<char>, j: int) -> (r: (Seq<char>, Seq<char>))
    requires
        0 <= j < terms.len(),
    ensures
        path_lines(terms, label) == r.0 + path_line(label, terms[j]) + r.1,
        r.0.len() == 0 || r.0.last() == '\n',
    decreases terms.len(),
{
    let p = terms.drop_last();
    let last = path_line(label, terms.last());
    if j == terms.len() - 1 {
        let pre = path_lines(p, label);
        if p.len() > 0 {
            let q = path_line(label, p.last());
            assert(pre == path_lines(p.drop_last(), label) + q);
            assert(pre.last() == q.last());
        }
        assert(path_lines(terms, label) =~= pre + last + Seq::empty());
        (pre, Seq::empty())
    } else {
        let (a, b) = lemma_lines_show(p, label, j);
        assert(p[j] == terms[j]);
        assert(path_lines(terms, label) =~= a + path_line(label, terms[j]) + (b + last));
        (a, b + last)
    }
}

/// The first `n` blocks hold, for each pair below `n`, the line of each of its
/// monomials, right after a line break.
proof fn lemma_report_upto_show(
    data: Seq<Seq<Seq<char>>>,
    labels: Seq<Seq<char>>,
    n: nat,
    i: int,
    j: int,
) -> (r: (Seq<char>, Seq<char>))
    requires
        n <= data.len(),
        n <= labels.len(),
        0 <= i < n,
        0 <= j < data[i].len(),
    ensures
        report_upto(data, labels, n) == r.0 + path_line(labels[i], data[i][j]) + r.1,
        r.0.len() > 0,
        r.0.last() == '\n',
    decreases n,
{
    let m = (n - 1) as nat;
    let prev = report_upto(data, labels, m);
    let blk = block(data[n - 1], labels[n - 1]);
    if i == n - 1 {
        let lab = labels[i];
        let (a, b) = lemma_lines_show(data[i], lab, j);
        let h = header(lab);
        let pre = prev + h + a;
        assert(h.last() == '\n');
        if a.len() == 0 {
            assert(pre =~= prev + h);
        }
        assert(pre.last() == '\n');
        assert(report_upto(data, labels, n) =~= pre + path_line(lab, data[i][j]) + (b + seq!['\n']));
        (pre, b + seq!['\n'])
    } else {
        let (a, b) = lemma_report_upto_show(data, labels, m, i, j);
        assert(report_upto(data, labels, n) =~= a + path_line(labels[i], data[i][j]) + (b + blk));
        (a, b + blk)
    }
}

/// For every label `L` and every monomial `m` of its symbol, the report holds
/// `L m L` on a line of its own (indented by a tab).
pub proof fn lemma_report_shows_each_path(
    data: Seq<Seq<Seq<char>>>,
    labels: Seq<Seq<char>>,
    i: int,
    j: int,
)
    requires
        data.len() == labels.len(),
        0 <= i < data.len(),
        0 <= j < data[i].len(),
    ensures
        exists|pre: Seq<char>, post: Seq<char>|
            report(data, labels) == pre + seq!['\t'] + path_text(labels[i], data[i][j]) + seq!['\n'] + post
                && pre.len() > 0 && pre.last() == '\n',
{
    let (pre, post) = lemma_report_upto_show(data, labels, data.len(), i, j);
    assert(report(data, labels) =~= pre + seq!['\t'] + path_text(labels[i], data[i][j]) + seq!['\n'] + post);
}

} // verus!
