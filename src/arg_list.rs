//! A flag value that collects non-negative integers from delimited text.
use vstd::prelude::*;
use vstd::string::*;

use crate::number::{chars_of, int_error_text, parse_usize, usize_of_text, IntError};

verus! {

/// The text without one leading and one trailing double quote, where present.
pub open spec fn strip_quotes(s: Seq<char>) -> Seq<char> {
    let a = if s.len() > 0 && s[0] == '"' {
        s.drop_first()
    } else {
        s
    };
    if a.len() > 0 && a.last() == '"' {
        a.drop_last()
    } else {
        a
    }
}

/// Items are separated by commas when the text holds one, else by spaces.
pub open spec fn list_separator(t: Seq<char>) -> char {
    if t.contains(',') {
        ','
    } else {
        ' '
    }
}

/// The pieces of `t` between occurrences of `sep`; never empty.
pub open spec fn split_on(t: Seq<char>, sep: char) -> Seq<Seq<char>>
    decreases t.len(),
{
    if t.len() == 0 {
        seq![Seq::<char>::empty()]
    } else {
        let p = split_on(t.drop_last(), sep);
        if t.last() == sep {
            p.push(Seq::<char>::empty())
        } else {
            p.update(p.len() - 1, p.last().push(t.last()))
        }
    }
}

/// Reads each piece as a `usize`, in order; the first failure is the result.
pub open spec fn read_items(pieces: Seq<Seq<char>>) -> Result<Seq<usize>, IntError>
    decreases pieces.len(),
{
    if pieces.len() == 0 {
        Ok(Seq::<usize>::empty())
    } else {
        match read_items(pieces.drop_last()) {
            Err(e) => Err(e),
            Ok(vs) => match usize_of_text(pieces.last()) {
                Ok(v) => Ok(vs.push(v as usize)),
                Err(e) => Err(e),
            },
        }
    }
}

/// The numbers that a list text holds, such as `1,2,3` or `"1 2 3"`.
pub open spec fn list_of_text(s: Seq<char>) -> Result<Seq<usize>, IntError> {
    let t = strip_quotes(s);
    read_items(split_on(t, list_separator(t)))
}

pub open spec fn not_bool_text() -> Seq<char> {
    "bound value should be of type bool"@
}

pub(crate) proof fn lemma_split_on_nonempty(t: Seq<char>, sep: char)
    ensures
        split_on(t, sep).len() >= 1,
    decreases t.len(),
{
    if t.len() > 0 {
        lemma_split_on_nonempty(t.drop_last(), sep);
    }
}

/// Once a prefix of the pieces fails to read, all of them fail the same way.
proof fn lemma_read_items_stays_err(ps: Seq<Seq<char>>, k: int)
    requires
        0 <= k <= ps.len(),
        read_items(ps.subrange(0, k)) is Err,
    ensures
        read_items(ps) == read_items(ps.subrange(0, k)),
    decreases ps.len() - k,
{
    if k < ps.len() {
        assert(ps.subrange(0, k + 1).drop_last() =~= ps.subrange(0, k));
        lemma_read_items_stays_err(ps, k + 1);
    } else {
        assert(ps.subrange(0, k) =~= ps);
    }
}

/// A list of numbers filled from text; each successful parse replaces it.
#[derive(Debug, Clone, PartialEq, Eq)]
pub struct ArgList {
    pub inner: Vec<usize>,
}

impl Default for ArgList {
    fn default() -> (r: Self)
        ensures
            r.inner@ == Seq::<usize>::empty(),
    {
        ArgList { inner: Vec::new() }
    }
}

/// Splits `t` on `sep` into owned pieces.
pub(crate) fn split_pieces(t: &[char], sep: char) -> (r: Vec<Vec<char>>)
    ensures
        r.len() == split_on(t@, sep).len(),
        forall|j: int| 0 <= j < r.len() ==> #[trigger] r[j]@ == split_on(t@, sep)[j],
{
    let n = t.len();
    let mut done: Vec<Vec<char>> = Vec::new();
    let mut cur: Vec<char> = Vec::new();
    let mut i: usize = 0;
    assert(t@.subrange(0, 0) =~= Seq::<char>::empty());
    while i < n
        invariant
            i <= n,
            n == t@.len(),
            done.len() + 1 == split_on(t@.subrange(0, i as int), sep).len(),
            forall|j: int|
                0 <= j < done.len() ==> #[trigger] done[j]@ == split_on(
                    t@.subrange(0, i as int),
                    sep,
                )[j],
            cur@ == split_on(t@.subrange(0, i as int), sep).last(),
        decreases n - i,
    {
        let ghost before = t@.subrange(0, i as int);
        let ghost after = t@.subrange(0, i as int + 1);
        assert(after.drop_last() =~= before);
        proof {
            lemma_split_on_nonempty(before, sep);
        }
        let c = t[i];
        if c == sep {
            done.push(cur);
            cur = Vec::new();
        } else {
            cur.push(c);
        }
        i = i + 1;
    }
    assert(t@.subrange(0, n as int) =~= t@);
    done.push(cur);
    done
}

impl ArgList {
    pub fn new(inner: Vec<usize>) -> (r: Self)
        ensures
            r.inner@ == inner@,
    {
        ArgList { inner }
    }

    /// Replaces the list with the numbers of `arg` (see `list_of_text`). When an item does not
    /// read as a `usize`, the list is left as it was and the reason returned.
    pub fn parse_from_string(&mut self, arg: &str) -> (r: Result<(), String>)
        ensures
            match list_of_text(arg@) {
                Ok(vs) => r is Ok && final(self).inner@ == vs,
                Err(e) => r is Err && r->Err_0@ == int_error_text(e) && *final(self) == *old(self),
            },
    {
        let c = chars_of(arg);
        let n = c.len();
        let lo: usize = if n > 0 && c[0] == '"' { 1 } else { 0 };
        let hi: usize = if n > lo && c[n - 1] == '"' { n - 1 } else { n };
        let t = vstd::slice::slice_subrange(c.as_slice(), lo, hi);
        proof {
            let a = if arg@.len() > 0 && arg@[0] == '"' { arg@.drop_first() } else { arg@ };
            assert(a =~= arg@.subrange(lo as int, n as int));
            assert(t@ =~= strip_quotes(arg@));
        }
        let mut has_comma = false;
        let mut k: usize = 0;
        while k < t.len()
            invariant
                k <= t@.len(),
                has_comma == exists|q: int| 0 <= q < k && t@[q] == ',',
            decreases t@.len() - k,
        {
            if t[k] == ',' {
                has_comma = true;
            }
            k = k + 1;
        }
        assert(has_comma == t@.contains(','));
        let sep = if has_comma { ',' } else { ' ' };
        let pieces = split_pieces(t, sep);
        let ghost ps = split_on(t@, sep);
        assert(list_of_text(arg@) == read_items(ps));
        let mut items: Vec<usize> = Vec::new();
        let mut j: usize = 0;
        assert(ps.subrange(0, 0) =~= Seq::<Seq<char>>::empty());
        while j < pieces.len()
            invariant
                j <= pieces.len(),
                pieces.len() == ps.len(),
                forall|q: int| 0 <= q < pieces.len() ==> #[trigger] pieces[q]@ == ps[q],
                read_items(ps.subrange(0, j as int)) == Ok::<Seq<usize>, IntError>(items@),
                list_of_text(arg@) == read_items(ps),
            decreases pieces.len() - j,
        {
            assert(ps.subrange(0, j as int + 1).drop_last() =~= ps.subrange(0, j as int));
            assert(ps.subrange(0, j as int + 1).last() == pieces[j as int]@);
            match parse_usize(pieces[j].as_slice()) {
                Ok(v) => {
                    items.push(v);
                },
                Err(e) => {
                    proof {
                        assert(usize_of_text(pieces[j as int]@) == Err::<int, IntError>(e));
                        assert(read_items(ps.subrange(0, j as int + 1)) == Err::<Seq<usize>, IntError>(e));
                        lemma_read_items_stays_err(ps, j + 1);
                    }
                    return Err(e.describe());
                },
            }
            j = j + 1;
        }
        assert(ps.subrange(0, j as int) =~= ps);
        self.inner = items;
        Ok(())
    }

    /// A list is never switched on by the flag's presence alone.
    pub fn try_activate(&mut self) -> (r: Result<(), String>)
        ensures
            r is Err && r->Err_0@ == not_bool_text(),
            *final(self) == *old(self),
    {
        Err(String::from_str("bound value should be of type bool"))
    }
}

} // verus!
