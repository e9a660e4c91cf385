//! The kinds of value a flag can be bound to, and how text fills them.
use vstd::prelude::*;
use vstd::string::*;

use crate::arg_list::{list_of_text, not_bool_text, ArgList};
use crate::number::{chars_of, int_error_text, int_of_text, parse_i64};

verus! {

/// A typed slot that a flag writes into.
#[derive(Debug, Clone, PartialEq, Eq)]
pub enum Value {
    Str(String),
    Int(i64),
    Char(char),
    Bool(bool),
    List(ArgList),
}

/// What a `Value` holds, as mathematical values.
pub enum ValueView {
    Str(Seq<char>),
    Int(i64),
    Char(char),
    Bool(bool),
    List(Seq<usize>),
}

impl View for Value {
    type V = ValueView;

    open spec fn view(&self) -> ValueView {
        match self {
            Value::Str(s) => ValueView::Str(s@),
            Value::Int(n) => ValueView::Int(*n),
            Value::Char(c) => ValueView::Char(*c),
            Value::Bool(b) => ValueView::Bool(*b),
            Value::List(l) => ValueView::List(l.inner@),
        }
    }
}

pub open spec fn true_text() -> Seq<char> {
    seq!['t', 'r', 'u', 'e']
}

pub open spec fn false_text() -> Seq<char> {
    seq!['f', 'a', 'l', 's', 'e']
}

/// What filling a slot that holds `v` with the text `s` gives: the new
/// contents, or the reason the text does not fit the slot's kind. On success
/// the slot is overwritten, whatever its kind.
pub open spec fn parsed(v: ValueView, s: Seq<char>) -> Result<ValueView, Seq<char>> {
    match v {
        ValueView::Str(_) => Ok(ValueView::Str(s)),
        ValueView::Int(_) => match int_of_text(s) {
            Ok(n) => Ok(ValueView::Int(n as i64)),
            Err(e) => Err(int_error_text(e)),
        },
        ValueView::Char(_) => if s.len() == 1 {
            Ok(ValueView::Char(s[0]))
        } else if s.len() == 0 {
            Err("cannot parse char from empty string"@)
        } else {
            Err("too many characters in string"@)
        },
        ValueView::Bool(_) => if s == true_text() {
            Ok(ValueView::Bool(true))
        } else if s == false_text() {
            Ok(ValueView::Bool(false))
        } else {
            Err("provided string was not `true` or `false`"@)
        },
        ValueView::List(_) => match list_of_text(s) {
            Ok(vs) => Ok(ValueView::List(vs)),
            Err(e) => Err(int_error_text(e)),
        },
    }
}

/// Whether the text form of `v` is `true` or `false`: a boolean, or a string
/// that happens to hold one of those words.
pub open spec fn renders_as_bool(v: ValueView) -> bool {
    match v {
        ValueView::Bool(_) => true,
        ValueView::Str(s) => s == true_text() || s == false_text(),
        _ => false,
    }
}

/// What the mere presence of a flag makes of its slot: the slot filled with
/// `true` when it renders as a boolean, else nothing.
pub open spec fn activated(v: ValueView) -> Option<ValueView> {
    if renders_as_bool(v) {
        match parsed(v, true_text()) {
            Ok(w) => Some(w),
            Err(_) => None,
        }
    } else {
        None
    }
}

/// Whether two values are of the same kind.
pub open spec fn same_kind(a: ValueView, b: ValueView) -> bool {
    match (a, b) {
        (ValueView::Str(_), ValueView::Str(_)) => true,
        (ValueView::Int(_), ValueView::Int(_)) => true,
        (ValueView::Char(_), ValueView::Char(_)) => true,
        (ValueView::Bool(_), ValueView::Bool(_)) => true,
        (ValueView::List(_), ValueView::List(_)) => true,
        _ => false,
    }
}

/// Filling or switching on a slot never changes its kind.
pub proof fn lemma_kind_kept(v: ValueView, s: Seq<char>)
    ensures
        parsed(v, s) is Ok ==> same_kind(v, parsed(v, s)->Ok_0),
        activated(v) is Some ==> same_kind(v, activated(v)->0),
{
}

fn is_true_text(c: &[char]) -> (r: bool)
    ensures
        r == (c@ == true_text()),
{
    let r = c.len() == 4 && c[0] == 't' && c[1] == 'r' && c[2] == 'u' && c[3] == 'e';
    if r {
        assert(c@ =~= true_text());
    }
    r
}

fn is_false_text(c: &[char]) -> (r: bool)
    ensures
        r == (c@ == false_text()),
{
    let r = c.len() == 5 && c[0] == 'f' && c[1] == 'a' && c[2] == 'l' && c[3] == 's' && c[4]
        == 'e';
    if r {
        assert(c@ =~= false_text());
    }
    r
}

impl Value {
    /// Fills the slot from `s` as `parsed` says; on failure the slot keeps its
    /// contents and the reason is returned.
    pub fn parse_from_string(&mut self, s: &str) -> (r: Result<(), String>)
        ensures
            match parsed(old(self)@, s@) {
                Ok(w) => r is Ok && final(self)@ == w,
                Err(m) => r is Err && r->Err_0@ == m && final(self)@ == old(self)@,
            },
    {
        match self {
            Value::Str(_) => {
                *self = Value::Str(String::from_str(s));
                Ok(())
            },
            Value::Int(_) => {
                let c = chars_of(s);
                match parse_i64(c.as_slice()) {
                    Ok(n) => {
                        *self = Value::Int(n);
                        Ok(())
                    },
                    Err(e) => Err(e.describe()),
                }
            },
            Value::Char(_) => {
                let c = chars_of(s);
                if c.len() == 1 {
                    *self = Value::Char(c[0]);
                    Ok(())
                } else if c.len() == 0 {
                    Err(String::from_str("cannot parse char from empty string"))
                } else {
                    Err(String::from_str("too many characters in string"))
                }
            },
            Value::Bool(_) => {
                let c = chars_of(s);
                if is_true_text(c.as_slice()) {
                    *self = Value::Bool(true);
                    Ok(())
                } else if is_false_text(c.as_slice()) {
                    *self = Value::Bool(false);
                    Ok(())
                } else {
                    Err(String::from_str("provided string was not `true` or `false`"))
                }
            },
            Value::List(items) => items.parse_from_string(s),
        }
    }

    /// Switches the slot on when its text form is `true` or `false` (see
    /// `activated`); any other slot is left as it is and the call fails.
    pub fn try_activate(&mut self) -> (r: Result<(), String>)
        ensures
            match activated(old(self)@) {
                Some(w) => r is Ok && final(self)@ == w,
                None => r is Err && r->Err_0@ == not_bool_text() && final(self)@ == old(self)@,
            },
    {
        let shows_bool = match self {
            Value::Bool(_) => true,
            Value::Str(t) => {
                let c = chars_of(t.as_str());
                is_true_text(c.as_slice()) || is_false_text(c.as_slice())
            },
            _ => false,
        };
        if shows_bool {
            match self {
                Value::Bool(_) => {
                    *self = Value::Bool(true);
                },
                _ => {
                    *self = Value::Str(String::from_str("true"));
                    proof {
                        reveal_strlit("true");
                    }
                    assert("true"@ =~= true_text());
                },
            }
            Ok(())
        } else {
            Err(String::from_str("bound value should be of type bool"))
        }
    }
}

} // verus!
