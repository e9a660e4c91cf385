//! Cutting parts out of lines: character ranges, byte ranges, or fields.
use std::ops::Range;
use vstd::prelude::*;
use vstd::string::*;
use vstd::utf8::encode_utf8;

use crate::arg_list::{lemma_split_on_nonempty, split_on};
use crate::number::chars_of;

verus! {

/// What to keep of each line.
pub enum Mode {
    /// Ranges of character positions, from zero, end excluded.
    Characters(Vec<Range<usize>>),
    /// Ranges of byte positions in the line's UTF-8 encoding, end excluded.
    Bytes(Vec<Range<usize>>),
    /// Field numbers, from one, and the character that separates fields.
    Fields(Vec<usize>, char),
}

/// The text of some bytes read as UTF-8, where each invalid sequence stands
/// as one replacement character.
pub uninterp spec fn utf8_lossy(b: Seq<u8>) -> Seq<char>;

/// Relies on `String::from_utf8_lossy`: decodes the bytes, replacing
/// invalid sequences; the result depends on the bytes alone.
#[verifier::external_body]
fn lossy_text(b: &[u8]) -> (r: String)
    ensures
        r@ == utf8_lossy(b@),
{
    String::from_utf8_lossy(b).into_owned()
}

pub open spec fn in_bounds(r: Range<usize>, len: nat) -> bool {
    r.start <= r.end && r.end <= len
}

/// A space, then the characters of `r`, when `r` lies within the line.
pub open spec fn char_piece(line: Seq<char>, r: Range<usize>) -> Seq<char> {
    if in_bounds(r, line.len()) {
        seq![' '] + line.subrange(r.start as int, r.end as int)
    } else {
        Seq::empty()
    }
}

pub open spec fn cut_chars(line: Seq<char>, rs: Seq<Range<usize>>) -> Seq<char>
    decreases rs.len(),
{
    if rs.len() == 0 {
        Seq::empty()
    } else {
        cut_chars(line, rs.drop_last()) + char_piece(line, rs.last())
    }
}

/// A space, then the text of the bytes of `r`, when `r` lies within them.
pub open spec fn byte_piece(bytes: Seq<u8>, r: Range<usize>) -> Seq<char> {
    if in_bounds(r, bytes.len()) {
        seq![' '] + utf8_lossy(bytes.subrange(r.start as int, r.end as int))
    } else {
        Seq::empty()
    }
}

pub open spec fn cut_bytes(bytes: Seq<u8>, rs: Seq<Range<usize>>) -> Seq<char>
    decreases rs.len(),
{
    if rs.len() == 0 {
        Seq::empty()
    } else {
        cut_bytes(bytes, rs.drop_last()) + byte_piece(bytes, rs.last())
    }
}

/// A space, then field number `i` (from one), when the line has it.
pub open spec fn field_piece(fields: Seq<Seq<char>>, i: usize) -> Seq<char> {
    if 1 <= i && i <= fields.len() {
        seq![' '] + fields[i - 1]
    } else {
        Seq::empty()
    }
}

pub open spec fn cut_fields(fields: Seq<Seq<char>>, idx: Seq<usize>) -> Seq<char>
    decreases idx.len(),
{
    if idx.len() == 0 {
        Seq::empty()
    } else {
        cut_fields(fields, idx.drop_last()) + field_piece(fields, idx.last())
    }
}

/// What is kept of `line`: each selected part, in the order selected, with a
/// space before it; parts that the line does not have are passed over.
pub open spec fn filtered(mode: Mode, line: Seq<char>) -> Seq<char> {
    match mode {
        Mode::Characters(rs) => cut_chars(line, rs@),
        Mode::Bytes(rs) => cut_bytes(encode_utf8(line), rs@),
        Mode::Fields(idx, d) => cut_fields(split_on(line, d), idx@),
    }
}

/// Where each piece of `t` between occurrences of `sep` starts and ends.
fn split_bounds(t: &[char], sep: char) -> (r: Vec<(usize, usize)>)
    ensures
        r.len() == split_on(t@, sep).len(),
        forall|j: int|
            0 <= j < r.len() ==> {
                &&& (#[trigger] r[j]).0 <= r[j].1 <= t@.len()
                &&& t@.subrange(r[j].0 as int, r[j].1 as int) == split_on(t@, sep)[j]
            },
{
    let n = t.len();
    let mut done: Vec<(usize, usize)> = Vec::new();
    let mut s: usize = 0;
    let mut i: usize = 0;
    assert(t@.subrange(0, 0) =~= Seq::<char>::empty());
    while i < n
        invariant
            s <= i <= n,
            n == t@.len(),
            done.len() + 1 == split_on(t@.subrange(0, i as int), sep).len(),
            forall|j: int|
                0 <= j < done.len() ==> {
                    &&& (#[trigger] done[j]).0 <= done[j].1 <= i
                    &&& t@.subrange(done[j].0 as int, done[j].1 as int) == split_on(
                        t@.subrange(0, i as int),
                        sep,
                    )[j]
                },
            t@.subrange(s as int, i as int) == split_on(t@.subrange(0, i as int), sep).last(),
        decreases n - i,
    {
        let ghost before = t@.subrange(0, i as int);
        let ghost after = t@.subrange(0, i as int + 1);
        assert(after.drop_last() =~= before);
        proof {
            lemma_split_on_nonempty(before, sep);
        }
        if t[i] == sep {
            done.push((s, i));
            s = i + 1;
            assert(t@.subrange(s as int, i as int + 1) =~= Seq::<char>::empty());
        } else {
            assert(t@.subrange(s as int, i as int + 1) =~= t@.subrange(s as int, i as int).push(
                t@[i as int],
            ));
        }
        i = i + 1;
    }
    assert(t@.subrange(0, n as int) =~= t@);
    done.push((s, n));
    done
}

/// Cuts the same parts out of every line.
pub struct Cutter {
    mode: Mode,
}

impl View for Cutter {
    type V = Mode;

    closed spec fn view(&self) -> Mode {
        self.mode
    }
}

impl Cutter {
    pub fn new(mode: Mode) -> (r: Self)
        ensures
            r@ == mode,
    {
        Cutter { mode }
    }

    /// What is kept of each line, one result per line, in order.
    pub fn cut(&self, lines: &Vec<String>) -> (r: Vec<String>)
        ensures
            r.len() == lines.len(),
            forall|i: int| 0 <= i < lines.len() ==> #[trigger] r[i]@ == filtered(self@, lines[i]@),
    {
        let mut result: Vec<String> = Vec::new();
        let mut i: usize = 0;
        while i < lines.len()
            invariant
                i <= lines.len(),
                result.len() == i,
                forall|j: int| 0 <= j < i ==> #[trigger] result[j]@ == filtered(self@, lines[j]@),
            decreases lines.len() - i,
        {
            let remaining = self.filter(lines[i].as_str());
            result.push(remaining);
            i = i + 1;
        }
        result
    }

    /// What is kept of one line.
    pub fn filter(&self, line: &str) -> (r: String)
        ensures
            r@ == filtered(self@, line@),
    {
        let mut output = String::new();
        match &self.mode {
            Mode::Characters(ranges) => {
                let n = line.unicode_len();
                let mut k: usize = 0;
                while k < ranges.len()
                    invariant
                        k <= ranges.len(),
                        n == line@.len(),
                        output@ == cut_chars(line@, ranges@.subrange(0, k as int)),
                    decreases ranges.len() - k,
                {
                    let ghost next = ranges@.subrange(0, k as int + 1);
                    assert(next.drop_last() =~= ranges@.subrange(0, k as int));
                    let r = &ranges[k];
                    if r.start <= r.end && r.end <= n {
                        proof {
                            reveal_strlit(" ");
                        }
                        output.append(" ");
                        output.append(line.substring_char(r.start, r.end));
                    }
                    assert(output@ =~= cut_chars(line@, next));
                    k = k + 1;
                }
                assert(ranges@.subrange(0, k as int) =~= ranges@);
            },
            Mode::Bytes(ranges) => {
                let bytes = line.as_bytes_vec();
                let mut k: usize = 0;
                while k < ranges.len()
                    invariant
                        k <= ranges.len(),
                        bytes@ == encode_utf8(line@),
                        output@ == cut_bytes(bytes@, ranges@.subrange(0, k as int)),
                    decreases ranges.len() - k,
                {
                    let ghost next = ranges@.subrange(0, k as int + 1);
                    assert(next.drop_last() =~= ranges@.subrange(0, k as int));
                    let r = &ranges[k];
                    if r.start <= r.end && r.end <= bytes.len() {
                        let piece = lossy_text(
                            vstd::slice::slice_subrange(bytes.as_slice(), r.start, r.end),
                        );
                        proof {
                            reveal_strlit(" ");
                        }
                        output.append(" ");
                        output.append(piece.as_str());
                    }
                    assert(output@ =~= cut_bytes(bytes@, next));
                    k = k + 1;
                }
                assert(ranges@.subrange(0, k as int) =~= ranges@);
            },
            Mode::Fields(idx, delimiter) => {
                let t = chars_of(line);
                let bounds = split_bounds(t.as_slice(), *delimiter);
                let ghost fields = split_on(line@, *delimiter);
                let mut k: usize = 0;
                while k < idx.len()
                    invariant
                        k <= idx.len(),
                        t@ == line@,
                        fields == split_on(line@, *delimiter),
                        bounds.len() == fields.len(),
                        forall|j: int|
                            0 <= j < bounds.len() ==> {
                                &&& (#[trigger] bounds[j]).0 <= bounds[j].1 <= t@.len()
                                &&& t@.subrange(bounds[j].0 as int, bounds[j].1 as int)
                                    == fields[j]
                            },
                        output@ == cut_fields(fields, idx@.subrange(0, k as int)),
                    decreases idx.len() - k,
                {
                    let ghost next = idx@.subrange(0, k as int + 1);
                    assert(next.drop_last() =~= idx@.subrange(0, k as int));
                    let i = idx[k];
                    if 1 <= i && i <= bounds.len() {
                        let (a, b) = bounds[i - 1];
                        proof {
                            reveal_strlit(" ");
                        }
                        output.append(" ");
                        output.append(line.substring_char(a, b));
                    }
                    assert(output@ =~= cut_fields(fields, next));
                    k = k + 1;
                }
                assert(idx@.subrange(0, k as int) =~= idx@);
            },
        }
        output
    }
}

} // verus!
