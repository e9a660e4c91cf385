//! A model of the token scanner: what each token does to the slots, to the
//! flag waiting for a value, and to the positional tokens.
use vstd::prelude::*;

use crate::flags::{
    index_of, is_key, lemma_index_of_range, lemma_same_keys_trans, lemma_set_value_same_keys,
    same_keys, set_value, FlagErrorView, FlagView,
};
use crate::value::{activated, lemma_kind_kept, parsed, same_kind, true_text, ValueView};

verus! {

/// Where a parse stands after some tokens: the slots, the flag waiting for
/// its value, whether every further token is positional, the positional
/// tokens so far, and the error that stopped the parse.
pub struct ScanState {
    pub flags: Seq<FlagView>,
    pub pending: Option<Seq<char>>,
    pub passthrough: bool,
    pub out: Seq<Seq<char>>,
    pub error: Option<FlagErrorView>,
}

pub open spec fn start(fs: Seq<FlagView>) -> ScanState {
    ScanState {
        flags: fs,
        pending: None,
        passthrough: false,
        out: Seq::empty(),
        error: None,
    }
}

pub open spec fn dash_dash() -> Seq<char> {
    seq!['-', '-']
}

/// `--name`
pub open spec fn is_long(t: Seq<char>) -> bool {
    t.len() > 2 && t[0] == '-' && t[1] == '-'
}

/// `-x` or `-xyz`
pub open spec fn is_short(t: Seq<char>) -> bool {
    t.len() >= 2 && t[0] == '-' && t[1] != '-'
}

pub open spec fn with_flags(st: ScanState, fs: Seq<FlagView>) -> ScanState {
    ScanState { flags: fs, ..st }
}

pub open spec fn with_pending(st: ScanState, p: Option<Seq<char>>) -> ScanState {
    ScanState { pending: p, ..st }
}

pub open spec fn with_error(st: ScanState, e: FlagErrorView) -> ScanState {
    ScanState { error: Some(e), ..st }
}

/// The token after a flag that needs a value is that value.
pub open spec fn fill(st: ScanState, key: Seq<char>, t: Seq<char>) -> ScanState {
    let i = index_of(st.flags, key);
    if i < 0 {
        with_pending(st, None)
    } else {
        match parsed(st.flags[i].value, t) {
            Ok(w) => with_pending(with_flags(st, set_value(st.flags, i, w)), None),
            Err(m) => with_error(st, FlagErrorView::ParseError(key, m)),
        }
    }
}

/// A single named flag: switched on if it can be, else it waits for a value.
pub open spec fn name_flag(st: ScanState, name: Seq<char>) -> ScanState {
    let i = index_of(st.flags, name);
    if i < 0 {
        with_error(st, FlagErrorView::UnknownFlag(name))
    } else {
        match activated(st.flags[i].value) {
            Some(w) => with_flags(st, set_value(st.flags, i, w)),
            None => with_pending(st, Some(name)),
        }
    }
}

/// Switches on, in order, each flag that a letter looks up and that can be
/// switched on; the others are passed over.
pub open spec fn activate_letters(fs: Seq<FlagView>, letters: Seq<char>) -> Seq<FlagView>
    decreases letters.len(),
{
    if letters.len() == 0 {
        fs
    } else {
        let prev = activate_letters(fs, letters.drop_last());
        let i = index_of(prev, seq![letters.last()]);
        if i >= 0 && activated(prev[i].value) is Some {
            set_value(prev, i, activated(prev[i].value)->0)
        } else {
            prev
        }
    }
}

pub open spec fn all_known(fs: Seq<FlagView>, letters: Seq<char>) -> bool {
    forall|k: int| 0 <= k < letters.len() ==> is_key(fs, seq![#[trigger] letters[k]])
}

/// A cluster of short flags: all its letters must be registered.
pub open spec fn cluster(st: ScanState, letters: Seq<char>) -> ScanState {
    if all_known(st.flags, letters) {
        with_flags(st, activate_letters(st.flags, letters))
    } else {
        with_error(st, FlagErrorView::UnknownFlag(letters))
    }
}

/// One token.
pub open spec fn step(st: ScanState, t: Seq<char>) -> ScanState {
    if st.error is Some {
        st
    } else if st.passthrough {
        ScanState { out: st.out.push(t), ..st }
    } else if t == dash_dash() {
        ScanState { passthrough: true, pending: None, ..st }
    } else if st.pending is Some {
        fill(st, st.pending->0, t)
    } else if is_long(t) {
        name_flag(st, t.subrange(2, t.len() as int))
    } else if is_short(t) && t.len() == 2 {
        name_flag(st, t.subrange(1, 2))
    } else if is_short(t) {
        cluster(st, t.subrange(1, t.len() as int))
    } else {
        ScanState { out: st.out.push(t), passthrough: true, ..st }
    }
}

/// The tokens, one after the other.
pub open spec fn run(st: ScanState, ts: Seq<Seq<char>>) -> ScanState
    decreases ts.len(),
{
    if ts.len() == 0 {
        st
    } else {
        step(run(st, ts.drop_last()), ts.last())
    }
}

pub open spec fn texts(v: Seq<String>) -> Seq<Seq<char>> {
    v.map_values(|s: String| s@)
}

pub(crate) proof fn lemma_activate_letters_same_keys(fs: Seq<FlagView>, letters: Seq<char>)
    ensures
        same_keys(fs, activate_letters(fs, letters)),
    decreases letters.len(),
{
    if letters.len() > 0 {
        let prev = activate_letters(fs, letters.drop_last());
        lemma_activate_letters_same_keys(fs, letters.drop_last());
        let i = index_of(prev, seq![letters.last()]);
        lemma_index_of_range(prev, seq![letters.last()]);
        if i >= 0 && activated(prev[i].value) is Some {
            lemma_set_value_same_keys(prev, i, activated(prev[i].value)->0);
        }
    }
}

pub open spec fn pending_text(p: Option<String>) -> Option<Seq<char>> {
    match p {
        Some(s) => Some(s@),
        None => None,
    }
}

/// A token changes what slots hold, never which flags there are.
pub(crate) proof fn lemma_step_same_keys(st: ScanState, t: Seq<char>)
    ensures
        same_keys(st.flags, step(st, t).flags),
{
    let fs = st.flags;
    assert forall|key: Seq<char>, w: ValueView| index_of(fs, key) >= 0 implies same_keys(
        fs,
        #[trigger] set_value(fs, index_of(fs, key), w),
    ) by {
        lemma_index_of_range(fs, key);
    }
    lemma_activate_letters_same_keys(fs, t.subrange(1, t.len() as int));
}

/// Each slot holds a value of the same kind in `a` as in `b`.
pub open spec fn same_kinds(a: Seq<FlagView>, b: Seq<FlagView>) -> bool {
    &&& a.len() == b.len()
    &&& forall|i: int| 0 <= i < a.len() ==> same_kind((#[trigger] a[i]).value, b[i].value)
}

proof fn lemma_same_kinds_trans(a: Seq<FlagView>, b: Seq<FlagView>, c: Seq<FlagView>)
    requires
        same_kinds(a, b),
        same_kinds(b, c),
    ensures
        same_kinds(a, c),
{
    assert forall|i: int| 0 <= i < a.len() implies same_kind((#[trigger] a[i]).value, c[i].value) by {
        assert(same_kind(a[i].value, b[i].value) && same_kind(b[i].value, c[i].value));
    }
}

proof fn lemma_activate_letters_kinds(fs: Seq<FlagView>, letters: Seq<char>)
    ensures
        same_kinds(fs, activate_letters(fs, letters)),
    decreases letters.len(),
{
    if letters.len() > 0 {
        let prev = activate_letters(fs, letters.drop_last());
        lemma_activate_letters_kinds(fs, letters.drop_last());
        let i = index_of(prev, seq![letters.last()]);
        lemma_index_of_range(prev, seq![letters.last()]);
        if i >= 0 && activated(prev[i].value) is Some {
            lemma_kind_kept(prev[i].value, true_text());
            let next = set_value(prev, i, activated(prev[i].value)->0);
            assert(same_kinds(prev, next));
            lemma_same_kinds_trans(fs, prev, next);
        }
    }
}

/// Parsing never changes the kind of a slot.
pub proof fn lemma_run_keeps_kinds(st: ScanState, ts: Seq<Seq<char>>)
    ensures
        same_kinds(st.flags, run(st, ts).flags),
    decreases ts.len(),
{
    if ts.len() == 0 {
    } else {
        lemma_run_keeps_kinds(st, ts.drop_last());
        let mid = run(st, ts.drop_last());
        let t = ts.last();
        let fs = mid.flags;
        assert forall|key: Seq<char>| index_of(fs, key) >= 0 implies {
            &&& (#[trigger] parsed(fs[index_of(fs, key)].value, t)) is Ok ==> same_kinds(
                fs,
                set_value(fs, index_of(fs, key), parsed(fs[index_of(fs, key)].value, t)->Ok_0),
            )
            &&& activated(fs[index_of(fs, key)].value) is Some ==> same_kinds(
                fs,
                set_value(fs, index_of(fs, key), activated(fs[index_of(fs, key)].value)->0),
            )
        } by {
            lemma_index_of_range(fs, key);
            lemma_kind_kept(fs[index_of(fs, key)].value, t);
        }
        lemma_activate_letters_kinds(fs, t.subrange(1, t.len() as int));
        assert(same_kinds(fs, step(mid, t).flags));
        lemma_same_kinds_trans(st.flags, fs, step(mid, t).flags);
    }
}

/// Parsing never changes which flags there are.
pub proof fn lemma_same_keys_of_run(st: ScanState, ts: Seq<Seq<char>>)
    ensures
        same_keys(st.flags, run(st, ts).flags),
    decreases ts.len(),
{
    if ts.len() > 0 {
        lemma_same_keys_of_run(st, ts.drop_last());
        let mid = run(st, ts.drop_last());
        lemma_step_same_keys(mid, ts.last());
        lemma_same_keys_trans(st.flags, mid.flags, step(mid, ts.last()).flags);
    }
}

/// After an error, further tokens change nothing.
pub(crate) proof fn lemma_run_stops_at_error(st: ScanState, ts: Seq<Seq<char>>, k: int)
    requires
        0 <= k <= ts.len(),
        run(st, ts.subrange(0, k)).error is Some,
    ensures
        run(st, ts) == run(st, ts.subrange(0, k)),
    decreases ts.len() - k,
{
    if k < ts.len() {
        assert(ts.subrange(0, k + 1).drop_last() =~= ts.subrange(0, k));
        lemma_run_stops_at_error(st, ts, k + 1);
    } else {
        assert(ts.subrange(0, k) =~= ts);
    }
}

} // verus!
