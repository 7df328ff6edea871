use vstd::prelude::*;
use vstd::string::*;

verus! {

/// Characters that separate the labels of a monomial (ASCII whitespace).
pub open spec fn is_separator(c: char) -> bool {
    c == ' ' || c == '\t' || c == '\n' || c == '\r' || c == '\x0C'
}

pub fn separator(c: char) -> (r: bool)
    ensures
        r == is_separator(c),
{
    c == ' ' || c == '\t' || c == '\n' || c == '\r' || c == '\x0C'
}

/// The label tokens of a monomial: its maximal runs of non-separator characters,
/// left to right. Defined by peeling off the last character.
pub open spec fn tokens(s: Seq<char>) -> Seq<Seq<char>>
    decreases s.len(),
{
    if s.len() == 0 {
        Seq::empty()
    } else {
        let prev = tokens(s.drop_last());
        let c = s.last();
        if is_separator(c) {
            prev
        } else if s.len() >= 2 && !is_separator(s[s.len() - 2]) {
            prev.update(prev.len() - 1, prev.last().push(c))
        } else {
            prev.push(seq![c])
        }
    }
}

/// Splits a monomial into its label tokens.
pub fn split_tokens(s: &str) -> (r: Vec<String>)
    ensures
        r.deep_view() == tokens(s@),
{
    let n = s.unicode_len();
    let mut out: Vec<String> = Vec::new();
    let mut start: usize = 0;
    let mut in_token = false;
    let mut i: usize = 0;
    while i < n
        invariant
            n == s@.len(),
            i <= n,
            start <= i,
            in_token ==> start < i && (start == 0 || is_separator(s@[start - 1]))
                && forall|k: int| start <= k < i ==> !is_separator(#[trigger] s@[k]),
            in_token ==> out.deep_view().push(s@.subrange(start as int, i as int)) == tokens(s@.take(i as int)),
            !in_token ==> out.deep_view() == tokens(s@.take(i as int)),
            !in_token && i > 0 ==> is_separator(s@[i - 1]),
        decreases n - i,
    {
        let c = s.get_char(i);
        let ghost t = s@.take(i + 1);
        let ghost prev = out.deep_view();
        assert(t.drop_last() =~= s@.take(i as int));
        assert(t.last() == c);
        if separator(c) {
            if in_token {
                let piece = s.substring_char(start, i);
                let tok = String::from_str(piece);
                out.push(tok);
                proof {
                    assert(out.deep_view() =~= prev.push(piece@));
                }
                in_token = false;
            }
        } else {
            if !in_token {
                start = i;
                in_token = true;
                proof {
                    assert(s@.subrange(start as int, i + 1) =~= seq![c]);
                    assert(tokens(t) == prev.push(seq![c]));
                }
            } else {
                proof {
                    let cur = s@.subrange(start as int, i as int);
                    assert(!is_separator(s@[i - 1]));
                    assert(s@.subrange(start as int, i + 1) =~= cur.push(c));
                    assert(prev.push(cur).update(prev.len() as int, cur.push(c)) =~= prev.push(cur.push(c)));
                }
            }
        }
        i = i + 1;
    }
    if in_token {
        let piece = s.substring_char(start, n);
        let ghost prev = out.deep_view();
        out.push(String::from_str(piece));
        assert(out.deep_view() =~= prev.push(piece@));
    }
    assert(s@.take(n as int) =~= s@);
    out
}

/// Whether `toks` has `label` among its entries.
fn has_token(toks: &Vec<String>, label: &String) -> (r: bool)
    ensures
        r == toks.deep_view().contains(label@),
{
    let mut i: usize = 0;
    while i < toks.len()
        invariant
            i <= toks.len(),
            forall|k: int| 0 <= k < i ==> toks.deep_view()[k] != label@,
        decreases toks.len() - i,
    {
        if toks[i] == *label {
            assert(toks.deep_view()[i as int] == label@);
            return true;
        }
        i = i + 1;
    }
    false
}

/// Whether the entries of `toks` are pairwise distinct. The tokens already
/// scanned form the set of labels seen so far; a repeat at any position fails.
fn all_distinct(toks: &Vec<String>) -> (r: bool)
    ensures
        r == toks.deep_view().no_duplicates(),
{
    let ghost dv = toks.deep_view();
    let mut i: usize = 0;
    while i < toks.len()
        invariant
            dv == toks.deep_view(),
            i <= toks.len(),
            forall|a: int, b: int| 0 <= a < b < i ==> dv[a] != dv[b],
        decreases toks.len() - i,
    {
        let mut j: usize = 0;
        while j < i
            invariant
                dv == toks.deep_view(),
                j <= i < toks.len(),
                forall|a: int| 0 <= a < j ==> dv[a] != dv[i as int],
            decreases i - j,
        {
            if toks[j] == toks[i] {
                assert(dv[j as int] == dv[i as int]);
                return false;
            }
            j = j + 1;
        }
        i = i + 1;
    }
    true
}

/// A monomial survives the sieve for start label `label` when `label` is not
/// one of its tokens and no token occurs twice: a candidate simple path that
/// does not pass through its start.
pub open spec fn survives(m: Seq<char>, label: Seq<char>) -> bool {
    !tokens(m).contains(label) && tokens(m).no_duplicates()
}

/// Decides whether monomial `m` survives the sieve for start label `label`.
pub fn survives_sieve(m: &String, label: &String) -> (r: bool)
    ensures
        r == survives(m@, label@),
{
    let toks = split_tokens(m.as_str());
    let own = has_token(&toks, label);
    let distinct = all_distinct(&toks);
    !own && distinct
}

} // verus!
