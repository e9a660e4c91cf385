//! What holds of every parse, stated over the scanner's model.
use vstd::prelude::*;

use crate::flags::{
    index_of, is_key, lemma_index_of_range, lemma_same_keys, lemma_set_value_same_keys,
    set_value, FlagErrorView, FlagView,
};
use crate::scan::{activate_letters, dash_dash, run, start, step, ScanState};
use crate::number::{int_text, lemma_int_text_round_trip};
use crate::value::{parsed, renders_as_bool, same_kind, true_text, false_text, ValueView};

verus! {

proof fn lemma_run_one(st: ScanState, a: Seq<char>)
    ensures
        run(st, seq![a]) == step(st, a),
{
    assert(seq![a].drop_last() =~= Seq::<Seq<char>>::empty());
    assert(run(st, Seq::<Seq<char>>::empty()) == st);
}

proof fn lemma_run_two(st: ScanState, a: Seq<char>, b: Seq<char>)
    ensures
        run(st, seq![a, b]) == step(step(st, a), b),
{
    assert(seq![a, b].drop_last() =~= seq![a]);
    lemma_run_one(st, a);
}

/// Running two runs of tokens one after the other is running their
/// concatenation.
pub proof fn lemma_run_append(st: ScanState, a: Seq<Seq<char>>, b: Seq<Seq<char>>)
    ensures
        run(st, a + b) == run(run(st, a), b),
    decreases b.len(),
{
    if b.len() == 0 {
        assert(a + b =~= a);
    } else {
        assert((a + b).drop_last() =~= a + b.drop_last());
        lemma_run_append(st, a, b.drop_last());
    }
}

/// Positional tokens are only ever collected once flags have ended.
proof fn lemma_out_empty_before_passthrough(fs: Seq<FlagView>, ts: Seq<Seq<char>>)
    ensures
        !run(start(fs), ts).passthrough ==> run(start(fs), ts).out.len() == 0,
    decreases ts.len(),
{
    if ts.len() > 0 {
        lemma_out_empty_before_passthrough(fs, ts.drop_last());
    }
}

/// A flag named by a one-letter token whose slot does not read as a
/// boolean takes the next token as its value: `-x v` fills the slot with what
/// `v` reads as, and leaves no positional token.
pub proof fn lemma_short_flag_takes_value(fs: Seq<FlagView>, x: char, v: Seq<char>)
    requires
        x != '-',
        is_key(fs, seq![x]),
        !renders_as_bool(fs[index_of(fs, seq![x])].value),
        parsed(fs[index_of(fs, seq![x])].value, v) is Ok,
        v != dash_dash(),
    ensures
        ({
            let i = index_of(fs, seq![x]);
            let end = run(start(fs), seq![seq!['-', x], v]);
            &&& end.error is None
            &&& end.out.len() == 0
            &&& end.flags == set_value(fs, i, parsed(fs[i].value, v)->Ok_0)
        }),
{
    lemma_index_of_range(fs, seq![x]);
    let t = seq!['-', x];
    assert(t.subrange(1, 2) =~= seq![x]);
    assert(t != dash_dash()) by {
        assert(t[1] != dash_dash()[1]);
    }
    lemma_run_two(start(fs), t, v);
}

/// A boolean flag is switched on by its presence alone and takes no value:
/// `-b` sets it to true, and a plain token after it stays positional.
pub proof fn lemma_bool_flag_takes_no_value(fs: Seq<FlagView>, b: char, rest: Seq<char>)
    requires
        b != '-',
        is_key(fs, seq![b]),
        fs[index_of(fs, seq![b])].value is Bool,
        rest.len() == 0 || rest[0] != '-',
    ensures
        ({
            let i = index_of(fs, seq![b]);
            let alone = run(start(fs), seq![seq!['-', b]]);
            let with_rest = run(start(fs), seq![seq!['-', b], rest]);
            &&& alone.error is None
            &&& alone.out.len() == 0
            &&& alone.flags == set_value(fs, i, ValueView::Bool(true))
            &&& with_rest.error is None
            &&& with_rest.out == seq![rest]
            &&& with_rest.flags == set_value(fs, i, ValueView::Bool(true))
        }),
{
    lemma_index_of_range(fs, seq![b]);
    let t = seq!['-', b];
    assert(t.subrange(1, 2) =~= seq![b]);
    assert(t != dash_dash()) by {
        assert(t[1] != dash_dash()[1]);
    }
    if rest.len() > 0 {
        assert(rest != dash_dash()) by {
            assert(rest[0] != dash_dash()[0]);
        }
    }
    lemma_run_one(start(fs), t);
    lemma_run_two(start(fs), t, rest);
}

/// A cluster of registered boolean flags switches on every one of them:
/// `-ba` sets both `b` and `a` to true.
pub proof fn lemma_cluster_sets_all(fs: Seq<FlagView>, b: char, a: char)
    requires
        b != '-',
        is_key(fs, seq![a]),
        is_key(fs, seq![b]),
        fs[index_of(fs, seq![a])].value is Bool,
        fs[index_of(fs, seq![b])].value is Bool,
    ensures
        ({
            let end = run(start(fs), seq![seq!['-', b, a]]);
            &&& end.error is None
            &&& end.out.len() == 0
            &&& end.flags[index_of(fs, seq![a])].value == ValueView::Bool(true)
            &&& end.flags[index_of(fs, seq![b])].value == ValueView::Bool(true)
        }),
{
    let t = seq!['-', b, a];
    let letters = t.subrange(1, 3);
    assert(letters =~= seq![b, a]);
    assert(t != dash_dash());
    lemma_run_one(start(fs), t);
    lemma_index_of_range(fs, seq![a]);
    lemma_index_of_range(fs, seq![b]);
    let ia = index_of(fs, seq![a]);
    let ib = index_of(fs, seq![b]);
    assert(letters[0] == b && letters[1] == a);
    // the first letter
    let l1 = letters.subrange(0, 1);
    assert(l1 =~= seq![b]);
    assert(letters.drop_last() =~= l1);
    assert(l1.drop_last() =~= Seq::<char>::empty());
    let f1 = activate_letters(fs, l1);
    assert(activate_letters(fs, Seq::<char>::empty()) == fs);
    assert(l1.last() == b);
    assert(f1 == set_value(fs, ib, ValueView::Bool(true)));
    lemma_set_value_same_keys(fs, ib, ValueView::Bool(true));
    lemma_same_keys(fs, f1);
    // the second letter
    let f2 = activate_letters(fs, letters);
    assert(index_of(f1, seq![a]) == ia);
    assert(f2 == set_value(f1, ia, ValueView::Bool(true)));
}

/// A one-letter flag that is not registered stops the parse:
/// `-z` fails with `UnknownFlag("z")`.
pub proof fn lemma_unknown_flag(fs: Seq<FlagView>, z: char)
    requires
        z != '-',
        !is_key(fs, seq![z]),
    ensures
        run(start(fs), seq![seq!['-', z]]).error == Some(FlagErrorView::UnknownFlag(seq![z])),
{
    lemma_index_of_range(fs, seq![z]);
    let t = seq!['-', z];
    assert(t.subrange(1, 2) =~= seq![z]);
    assert(t != dash_dash()) by {
        assert(t[1] != dash_dash()[1]);
    }
    lemma_run_one(start(fs), t);
}

proof fn lemma_passthrough_keeps_all(st: ScanState, ts: Seq<Seq<char>>)
    requires
        st.passthrough,
        st.error is None,
    ensures
        run(st, ts) == (ScanState { out: st.out + ts, ..st }),
    decreases ts.len(),
{
    if ts.len() == 0 {
        assert(st.out + ts =~= st.out);
    } else {
        lemma_passthrough_keeps_all(st, ts.drop_last());
        assert(st.out + ts =~= (st.out + ts.drop_last()).push(ts.last()));
    }
}

/// Every token after `--` is positional, as it stands, flag-shaped or not;
/// the `--` itself is dropped and no slot changes.
pub proof fn lemma_double_dash(fs: Seq<FlagView>, rest: Seq<Seq<char>>)
    ensures
        ({
            let end = run(start(fs), seq![dash_dash()] + rest);
            &&& end.error is None
            &&& end.out == rest
            &&& end.flags == fs
        }),
{
    lemma_run_append(start(fs), seq![dash_dash()], rest);
    lemma_run_one(start(fs), dash_dash());
    let mid = run(start(fs), seq![dash_dash()]);
    lemma_passthrough_keeps_all(mid, rest);
    assert(mid.out + rest =~= rest);
}

/// Splitting the tokens where no flag waits for its value and flags have not
/// ended changes nothing: parsing `a` and then, on the slots as `a` left them,
/// `b` gives what parsing `a + b` gives. If `a` alone fails, so does `a + b`,
/// with the same error and the same slots.
pub proof fn lemma_parse_concat(fs: Seq<FlagView>, a: Seq<Seq<char>>, b: Seq<Seq<char>>)
    requires
        run(start(fs), a).error is None ==> {
            &&& run(start(fs), a).pending is None
            &&& !run(start(fs), a).passthrough
        },
    ensures
        ({
            let first = run(start(fs), a);
            let whole = run(start(fs), a + b);
            if first.error is Some {
                whole == first
            } else {
                whole == run(start(first.flags), b)
            }
        }),
{
    let first = run(start(fs), a);
    lemma_run_append(start(fs), a, b);
    if first.error is Some {
        lemma_error_stays(first, b);
    } else {
        lemma_out_empty_before_passthrough(fs, a);
        assert(first.out =~= Seq::<Seq<char>>::empty());
        assert(first == start(first.flags));
    }
}

proof fn lemma_error_stays(st: ScanState, ts: Seq<Seq<char>>)
    requires
        st.error is Some,
    ensures
        run(st, ts) == st,
    decreases ts.len(),
{
    if ts.len() > 0 {
        lemma_error_stays(st, ts.drop_last());
    }
}

/// The text form of a scalar value; a list has none.
pub open spec fn scalar_text(v: ValueView) -> Seq<char> {
    match v {
        ValueView::Str(s) => s,
        ValueView::Int(n) => int_text(n as int),
        ValueView::Char(c) => seq![c],
        ValueView::Bool(b) => if b {
            true_text()
        } else {
            false_text()
        },
        ValueView::List(_) => Seq::empty(),
    }
}

/// Reading the text form of a string, integer or character back gives the
/// same value.
pub proof fn lemma_scalar_text_reads_back(slot: ValueView, v: ValueView)
    requires
        same_kind(slot, v),
        v is Str || v is Int || v is Char,
    ensures
        parsed(slot, scalar_text(v)) == Ok::<ValueView, Seq<char>>(v),
{
    match v {
        ValueView::Int(n) => {
            lemma_int_text_round_trip(n);
        },
        _ => {},
    }
}

/// A value of the slot's own kind, passed as the text form of that value,
/// comes back unchanged: `-x render(v)` leaves `v` in the slot of `x`.
pub proof fn lemma_round_trip(fs: Seq<FlagView>, x: char, v: ValueView)
    requires
        x != '-',
        is_key(fs, seq![x]),
        same_kind(fs[index_of(fs, seq![x])].value, v),
        v is Str || v is Int || v is Char,
        !renders_as_bool(fs[index_of(fs, seq![x])].value),
        scalar_text(v) != dash_dash(),
    ensures
        ({
            let i = index_of(fs, seq![x]);
            let end = run(start(fs), seq![seq!['-', x], scalar_text(v)]);
            &&& end.error is None
            &&& end.out.len() == 0
            &&& end.flags[i].value == v
        }),
{
    lemma_index_of_range(fs, seq![x]);
    let i = index_of(fs, seq![x]);
    lemma_scalar_text_reads_back(fs[i].value, v);
    lemma_short_flag_takes_value(fs, x, scalar_text(v));
}

} // verus!
