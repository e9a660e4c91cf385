//! The flag registry, and the parse that fills it from argument tokens.
use vstd::prelude::*;
use vstd::string::*;

use crate::number::chars_of;
use crate::scan::{
    activate_letters, all_known, dash_dash, lemma_activate_letters_same_keys,
    lemma_run_stops_at_error, lemma_step_same_keys, pending_text, run, start, step, texts,
    ScanState,
};
use crate::value::{activated, parsed, Value, ValueView};

verus! {

/// A failed parse.
#[derive(Debug, PartialEq, Eq)]
pub enum FlagError {
    /// A flag-shaped token names no registered flag (for a cluster of short
    /// flags, the whole cluster is named).
    UnknownFlag(String),
    /// The flag's value text does not fit its slot: the flag as written, and why.
    ParseError((String, String)),
}

pub enum FlagErrorView {
    UnknownFlag(Seq<char>),
    ParseError(Seq<char>, Seq<char>),
}

impl View for FlagError {
    type V = FlagErrorView;

    open spec fn view(&self) -> FlagErrorView {
        match self {
            FlagError::UnknownFlag(n) => FlagErrorView::UnknownFlag(n@),
            FlagError::ParseError((n, m)) => FlagErrorView::ParseError(n@, m@),
        }
    }
}

/// How a failed parse reads to a user.
pub open spec fn error_text(e: FlagErrorView) -> Seq<char> {
    match e {
        FlagErrorView::UnknownFlag(name) => "unknown flag: "@ + name,
        FlagErrorView::ParseError(name, why) => "could not parse flag "@ + name + " err: "@ + why,
    }
}

impl FlagError {
    /// The message for a user, as `error_text` gives it.
    pub fn describe(&self) -> (r: String)
        ensures
            r@ == error_text(self@),
    {
        match self {
            FlagError::UnknownFlag(name) => {
                let mut r = String::from_str("unknown flag: ");
                r.append(name.as_str());
                r
            },
            FlagError::ParseError((name, why)) => {
                let mut r = String::from_str("could not parse flag ");
                r.append(name.as_str());
                r.append(" err: ");
                r.append(why.as_str());
                r
            },
        }
    }
}

/// One registered flag.
pub struct Flag {
    name: String,
    short: Option<char>,
    usage: String,
    value: Value,
}

pub struct FlagView {
    pub name: Seq<char>,
    pub short: Option<char>,
    pub usage: Seq<char>,
    pub value: ValueView,
}

impl View for Flag {
    type V = FlagView;

    closed spec fn view(&self) -> FlagView {
        FlagView { name: self.name@, short: self.short, usage: self.usage@, value: self.value@ }
    }
}

/// Whether `key` looks the flag up: its name, or its one-character alias.
pub open spec fn answers(f: FlagView, key: Seq<char>) -> bool {
    f.name == key || (f.short is Some && key == seq![f.short->0])
}

pub open spec fn is_first(fs: Seq<FlagView>, key: Seq<char>, i: int) -> bool {
    &&& 0 <= i < fs.len()
    &&& answers(fs[i], key)
    &&& forall|j: int| 0 <= j < i ==> !answers(#[trigger] fs[j], key)
}

/// Position of the flag that `key` looks up, or -1.
pub open spec fn index_of(fs: Seq<FlagView>, key: Seq<char>) -> int {
    if exists|i: int| is_first(fs, key, i) {
        choose|i: int| is_first(fs, key, i)
    } else {
        -1
    }
}

pub open spec fn is_key(fs: Seq<FlagView>, key: Seq<char>) -> bool {
    exists|i: int| 0 <= i < fs.len() && answers(#[trigger] fs[i], key)
}

pub open spec fn with_value(f: FlagView, v: ValueView) -> FlagView {
    FlagView { name: f.name, short: f.short, usage: f.usage, value: v }
}

pub open spec fn set_value(fs: Seq<FlagView>, i: int, v: ValueView) -> Seq<FlagView> {
    fs.update(i, with_value(fs[i], v))
}

/// Names are non-empty, an alias is the first character of its flag's name,
/// and no two flags answer to the same key.
pub open spec fn registry_wf(fs: Seq<FlagView>) -> bool {
    &&& forall|i: int| 0 <= i < fs.len() ==> (#[trigger] fs[i]).name.len() > 0
    &&& forall|i: int|
        0 <= i < fs.len() && (#[trigger] fs[i]).short is Some ==> fs[i].short->0 == fs[i].name[0]
    &&& forall|i: int, j: int|
        0 <= i < fs.len() && 0 <= j < fs.len() && i != j ==> {
            &&& !answers(#[trigger] fs[j], (#[trigger] fs[i]).name)
            &&& fs[i].short is Some ==> !answers(fs[j], seq![fs[i].short->0])
        }
}

pub(crate) proof fn lemma_index_of_found(fs: Seq<FlagView>, key: Seq<char>, i: int)
    requires
        is_first(fs, key, i),
    ensures
        index_of(fs, key) == i,
{
    let k = index_of(fs, key);
    assert(is_first(fs, key, k));
    if k < i {
        assert(!answers(fs[k], key));
    }
    if i < k {
        assert(!answers(fs[i], key));
    }
}

proof fn lemma_index_of_missing(fs: Seq<FlagView>, key: Seq<char>)
    requires
        forall|j: int| 0 <= j < fs.len() ==> !answers(#[trigger] fs[j], key),
    ensures
        index_of(fs, key) == -1,
        !is_key(fs, key),
{
}

pub(crate) proof fn lemma_index_of_range(fs: Seq<FlagView>, key: Seq<char>)
    ensures
        -1 <= index_of(fs, key) < fs.len(),
        index_of(fs, key) >= 0 ==> answers(fs[index_of(fs, key)], key),
        (index_of(fs, key) >= 0) == is_key(fs, key),
{
    if is_key(fs, key) {
        let w = choose|i: int| 0 <= i < fs.len() && answers(#[trigger] fs[i], key);
        lemma_first_exists(fs, key, w);
    }
    if index_of(fs, key) >= 0 {
        assert(is_first(fs, key, index_of(fs, key)));
    }
}

proof fn lemma_first_exists(fs: Seq<FlagView>, key: Seq<char>, w: int)
    requires
        0 <= w < fs.len(),
        answers(fs[w], key),
    ensures
        exists|i: int| is_first(fs, key, i),
    decreases w,
{
    if exists|j: int| 0 <= j < w && answers(#[trigger] fs[j], key) {
        let j = choose|j: int| 0 <= j < w && answers(#[trigger] fs[j], key);
        lemma_first_exists(fs, key, j);
    } else {
        assert(is_first(fs, key, w));
    }
}

/// The entry that registering `name` makes.
pub open spec fn new_flag(name: Seq<char>, allow_short: bool, value: ValueView, usage: Seq<char>) -> FlagView {
    FlagView {
        name,
        short: if allow_short {
            Some(name[0])
        } else {
            None
        },
        usage,
        value,
    }
}

/// The same flags under the same keys, whatever their slots hold.
pub open spec fn same_keys(a: Seq<FlagView>, b: Seq<FlagView>) -> bool {
    &&& a.len() == b.len()
    &&& forall|i: int|
        0 <= i < a.len() ==> (#[trigger] a[i]).name == b[i].name && a[i].short == b[i].short
}

pub(crate) proof fn lemma_same_keys(a: Seq<FlagView>, b: Seq<FlagView>)
    requires
        same_keys(a, b),
    ensures
        forall|key: Seq<char>| index_of(a, key) == #[trigger] index_of(b, key),
        forall|key: Seq<char>| is_key(a, key) == #[trigger] is_key(b, key),
        registry_wf(a) ==> registry_wf(b),
{
    assert forall|key: Seq<char>| index_of(a, key) == #[trigger] index_of(b, key) by {
        lemma_same_keys_at(a, b, key);
    }
    assert forall|key: Seq<char>| is_key(a, key) == #[trigger] is_key(b, key) by {
        lemma_same_keys_at(a, b, key);
    }
    if registry_wf(a) {
        assert forall|p: int, q: int|
            0 <= p < b.len() && 0 <= q < b.len() && p != q implies {
            &&& !answers(#[trigger] b[q], (#[trigger] b[p]).name)
            &&& b[p].short is Some ==> !answers(b[q], seq![b[p].short->0])
        } by {
            assert(a[p].name == b[p].name && a[p].short == b[p].short);
            assert(a[q].name == b[q].name && a[q].short == b[q].short);
        }
        assert forall|p: int| 0 <= p < b.len() implies (#[trigger] b[p]).name.len() > 0 by {
            assert(a[p].name == b[p].name);
        }
        assert forall|p: int| 0 <= p < b.len() && (#[trigger] b[p]).short is Some implies b[p].short->0
            == b[p].name[0] by {
            assert(a[p].name == b[p].name && a[p].short == b[p].short);
        }
    }
}

proof fn lemma_same_keys_at(a: Seq<FlagView>, b: Seq<FlagView>, key: Seq<char>)
    requires
        same_keys(a, b),
    ensures
        index_of(a, key) == index_of(b, key),
        is_key(a, key) == is_key(b, key),
{
    assert forall|j: int| 0 <= j < a.len() implies answers(#[trigger] a[j], key) == answers(
        b[j],
        key,
    ) by {}
    assert forall|j: int| #[trigger] is_first(a, key, j) implies is_first(b, key, j) by {
        assert forall|q: int| 0 <= q < j implies !answers(#[trigger] b[q], key) by {
            assert(answers(a[q], key) == answers(b[q], key));
        }
    }
    assert forall|j: int| #[trigger] is_first(b, key, j) implies is_first(a, key, j) by {
        assert forall|q: int| 0 <= q < j implies !answers(#[trigger] a[q], key) by {
            assert(answers(a[q], key) == answers(b[q], key));
        }
    }
    if exists|j: int| is_first(a, key, j) {
        let k = index_of(a, key);
        assert(is_first(a, key, k));
        lemma_index_of_found(b, key, k);
    }
    if is_key(a, key) {
        let w = choose|q: int| 0 <= q < a.len() && answers(#[trigger] a[q], key);
        assert(answers(b[w], key));
    }
    if is_key(b, key) {
        let w = choose|q: int| 0 <= q < b.len() && answers(#[trigger] b[q], key);
        assert(answers(a[w], key));
    }
}

pub(crate) proof fn lemma_set_value_same_keys(fs: Seq<FlagView>, i: int, v: ValueView)
    requires
        0 <= i < fs.len(),
    ensures
        same_keys(fs, set_value(fs, i, v)),
{
}

pub(crate) proof fn lemma_same_keys_trans(a: Seq<FlagView>, b: Seq<FlagView>, c: Seq<FlagView>)
    requires
        same_keys(a, b),
        same_keys(b, c),
    ensures
        same_keys(a, c),
{
    assert forall|i: int| 0 <= i < a.len() implies (#[trigger] a[i]).name == c[i].name && a[i].short
        == c[i].short by {
        assert(a[i].name == b[i].name && b[i].name == c[i].name);
    }
}

/// A set of flags, each with the slot it fills.
pub struct FlagSet {
    flags: Vec<Flag>,
}

impl View for FlagSet {
    type V = Seq<FlagView>;

    closed spec fn view(&self) -> Seq<FlagView> {
        self.flags@.map_values(|f: Flag| f@)
    }
}

impl Default for FlagSet {
    fn default() -> (r: Self)
        ensures
            r@ == Seq::<FlagView>::empty(),
            r.wf(),
    {
        FlagSet::new()
    }
}

impl FlagSet {
    pub open spec fn wf(&self) -> bool {
        registry_wf(self@)
    }

    /// An empty registry.
    pub fn new() -> (r: Self)
        ensures
            r@ == Seq::<FlagView>::empty(),
            r.wf(),
    {
        let r = FlagSet { flags: Vec::new() };
        assert(r@ =~= Seq::<FlagView>::empty());
        r
    }

    /// Position of the flag that `key` looks up.
    fn find(&self, key: &String) -> (r: Option<usize>)
        ensures
            match r {
                Some(i) => index_of(self@, key@) == i,
                None => index_of(self@, key@) == -1 && !is_key(self@, key@),
            },
    {
        let key_str = key.as_str();
        let one = key_str.unicode_len() == 1;
        let mut j: usize = 0;
        while j < self.flags.len()
            invariant
                j <= self.flags@.len(),
                one == (key@.len() == 1),
                key_str@ == key@,
                forall|q: int| 0 <= q < j ==> !answers(#[trigger] self@[q], key@),
            decreases self.flags@.len() - j,
        {
            let f = &self.flags[j];
            let hit = if f.name == *key {
                true
            } else {
                match f.short {
                    Some(c) => one && key_str.get_char(0) == c,
                    None => false,
                }
            };
            proof {
                assert(self@[j as int] == f@);
                if f.short is Some && one {
                    if key@[0] == f.short->0 {
                        assert(key@ =~= seq![f.short->0]);
                    }
                }
            }
            if hit {
                proof {
                    lemma_index_of_found(self@, key@, j as int);
                }
                return Some(j);
            }
            j = j + 1;
        }
        proof {
            lemma_index_of_missing(self@, key@);
        }
        None
    }

    /// Registers `value` under the name `flag`, and, when `allow_short` holds,
    /// under the flag's first character as well. Registering a key twice is a
    /// programming error, which `requires` rules out.
    pub fn bind_mut_ref(&mut self, flag: &str, allow_short: bool, value: Value, usage: &str)
        requires
            old(self).wf(),
            flag@.len() > 0,
            !is_key(old(self)@, flag@),
            allow_short ==> !is_key(old(self)@, seq![flag@[0]]),
        ensures
            final(self)@ == old(self)@.push(new_flag(flag@, allow_short, value@, usage@)),
            final(self).wf(),
    {
        let short = if allow_short {
            Some(flag.get_char(0))
        } else {
            None
        };
        let f = Flag { name: String::from_str(flag), short, usage: String::from_str(usage), value };
        let ghost before = self@;
        self.flags.push(f);
        proof {
            let fs = self@;
            let nf = new_flag(flag@, allow_short, value@, usage@);
            assert(fs =~= before.push(nf));
            assert forall|i: int, j: int|
                0 <= i < fs.len() && 0 <= j < fs.len() && i != j implies {
                &&& !answers(#[trigger] fs[j], (#[trigger] fs[i]).name)
                &&& fs[i].short is Some ==> !answers(fs[j], seq![fs[i].short->0])
            } by {
                if i == fs.len() - 1 {
                    assert(!answers(before[j], flag@));
                    if allow_short {
                        assert(!answers(before[j], seq![flag@[0]]));
                    }
                } else if j == fs.len() - 1 {
                    assert(!answers(before[i], flag@));
                    if allow_short {
                        assert(!answers(before[i], seq![flag@[0]]));
                    }
                }
            }
        }
    }

    /// Registers `value` exactly as `bind_mut_ref` does; the caller reads the
    /// slot back through `value_of` once parsing is done.
    pub fn bind_ref_cell(&mut self, flag: &str, allow_short: bool, value: Value, usage: &str)
        requires
            old(self).wf(),
            flag@.len() > 0,
            !is_key(old(self)@, flag@),
            allow_short ==> !is_key(old(self)@, seq![flag@[0]]),
        ensures
            final(self)@ == old(self)@.push(new_flag(flag@, allow_short, value@, usage@)),
            final(self).wf(),
    {
        self.bind_mut_ref(flag, allow_short, value, usage)
    }

    /// The slot that `name` looks up, if any.
    pub fn value_of(&self, name: &str) -> (r: Option<&Value>)
        ensures
            r is Some == is_key(self@, name@),
            r is Some ==> r->0@ == self@[index_of(self@, name@)].value,
    {
        let key = String::from_str(name);
        match self.find(&key) {
            Some(i) => {
                proof {
                    lemma_index_of_range(self@, name@);
                }
                Some(&self.flags[i].value)
            },
            None => None,
        }
    }

    /// Fills the slot at `i` from `text`.
    fn fill_slot(&mut self, i: usize, text: &str) -> (r: Result<(), String>)
        requires
            i < old(self)@.len(),
        ensures
            match parsed(old(self)@[i as int].value, text@) {
                Ok(w) => r is Ok && final(self)@ == set_value(old(self)@, i as int, w),
                Err(m) => r is Err && r->Err_0@ == m && final(self)@ == old(self)@,
            },
    {
        let ghost before = self@;
        let r = self.flags[i].value.parse_from_string(text);
        proof {
            match parsed(before[i as int].value, text@) {
                Ok(w) => {
                    assert(self@ =~= set_value(before, i as int, w));
                },
                Err(m) => {
                    assert(self@ =~= before);
                },
            }
        }
        r
    }

    /// Switches the slot at `i` on, if it can be.
    fn activate_slot(&mut self, i: usize) -> (r: bool)
        requires
            i < old(self)@.len(),
        ensures
            match activated(old(self)@[i as int].value) {
                Some(w) => r && final(self)@ == set_value(old(self)@, i as int, w),
                None => !r && final(self)@ == old(self)@,
            },
    {
        let ghost before = self@;
        let r = self.flags[i].value.try_activate();
        proof {
            match activated(before[i as int].value) {
                Some(w) => {
                    assert(self@ =~= set_value(before, i as int, w));
                },
                None => {
                    assert(self@ =~= before);
                },
            }
        }
        r.is_ok()
    }

    /// A single named flag: switches it on, or returns it as waiting for its
    /// value.
    fn take_name(&mut self, name: String) -> (r: Result<Option<String>, FlagError>)
        ensures
            ({
                let i = index_of(old(self)@, name@);
                if i < 0 {
                    r == Err::<Option<String>, FlagError>(FlagError::UnknownFlag(name))
                        && final(self)@ == old(self)@
                } else {
                    match activated(old(self)@[i].value) {
                        Some(w) => r == Ok::<Option<String>, FlagError>(None) && final(self)@
                            == set_value(old(self)@, i, w),
                        None => r == Ok::<Option<String>, FlagError>(Some(name)) && final(self)@
                            == old(self)@,
                    }
                }
            }),
    {
        match self.find(&name) {
            None => Err(FlagError::UnknownFlag(name)),
            Some(i) => {
                proof {
                    lemma_index_of_range(self@, name@);
                }
                if self.activate_slot(i) {
                    Ok(None)
                } else {
                    Ok(Some(name))
                }
            },
        }
    }

    /// A cluster of short flags: the letters of `tok` after its dash.
    fn take_cluster(&mut self, tok: &str) -> (r: Result<(), FlagError>)
        requires
            tok@.len() >= 1,
        ensures
            ({
                let letters = tok@.subrange(1, tok@.len() as int);
                if all_known(old(self)@, letters) {
                    r is Ok && final(self)@ == activate_letters(old(self)@, letters)
                } else {
                    r is Err && r->Err_0@ == FlagErrorView::UnknownFlag(letters) && final(self)@
                        == old(self)@
                }
            }),
    {
        let n = tok.unicode_len();
        let ghost letters = tok@.subrange(1, n as int);
        let mut k: usize = 1;
        while k < n
            invariant
                1 <= k <= n,
                n == tok@.len(),
                letters == tok@.subrange(1, n as int),
                forall|q: int| 0 <= q < k - 1 ==> is_key(self@, seq![#[trigger] letters[q]]),
            decreases n - k,
        {
            let key = String::from_str(tok.substring_char(k, k + 1));
            assert(key@ =~= seq![letters[k - 1]]);
            if !self.has_flag(key.as_str()) {
                return Err(FlagError::UnknownFlag(String::from_str(tok.substring_char(1, n))));
            }
            k = k + 1;
        }
        let ghost fs0 = self@;
        let mut k: usize = 1;
        assert(letters.subrange(0, 0) =~= Seq::<char>::empty());
        while k < n
            invariant
                1 <= k <= n,
                n == tok@.len(),
                letters == tok@.subrange(1, n as int),
                all_known(fs0, letters),
                self@ == activate_letters(fs0, letters.subrange(0, k - 1)),
            decreases n - k,
        {
            let ghost done = letters.subrange(0, k - 1);
            let ghost next = letters.subrange(0, k as int);
            assert(next.drop_last() =~= done);
            assert(next.last() == letters[k - 1]);
            let key = String::from_str(tok.substring_char(k, k + 1));
            assert(key@ =~= seq![letters[k - 1]]);
            proof {
                lemma_activate_letters_same_keys(fs0, done);
                lemma_same_keys(fs0, self@);
                lemma_index_of_range(self@, key@);
            }
            match self.find(&key) {
                Some(i) => {
                    self.activate_slot(i);
                },
                None => {},
            }
            k = k + 1;
        }
        assert(letters.subrange(0, n - 1) =~= letters);
        Ok(())
    }

    /// Reads the tokens `args` in order (see `step`): fills the slots of the
    /// flags they name and returns the positional tokens. The first error
    /// stops the parse; slots filled before it keep their new contents.
    pub fn parse(&mut self, args: Vec<String>) -> (r: Result<Vec<String>, FlagError>)
        ensures
            ({
                let end = run(start(old(self)@), texts(args@));
                &&& final(self)@ == end.flags
                &&& match r {
                    Ok(out) => end.error is None && texts(out@) == end.out,
                    Err(e) => end.error == Some(e@),
                }
            }),
            old(self).wf() ==> final(self).wf(),
    {
        let ghost fs0 = self@;
        let ghost ts = texts(args@);
        let mut out: Vec<String> = Vec::new();
        let mut pending: Option<String> = None;
        let mut passthrough = false;
        let mut i: usize = 0;
        assert(ts.subrange(0, 0) =~= Seq::<Seq<char>>::empty());
        assert(texts(out@) =~= Seq::<Seq<char>>::empty());
        while i < args.len()
            invariant
                i <= args.len(),
                fs0 == old(self)@,
                ts == texts(args@),
                ts.len() == args.len(),
                run(start(fs0), ts.subrange(0, i as int)) == (ScanState {
                    flags: self@,
                    pending: pending_text(pending),
                    passthrough,
                    out: texts(out@),
                    error: None,
                }),
                same_keys(fs0, self@),
            decreases args.len() - i,
        {
            let ghost st = run(start(fs0), ts.subrange(0, i as int));
            let ghost prev = self@;
            assert(ts.subrange(0, i + 1).drop_last() =~= ts.subrange(0, i as int));
            assert(ts.subrange(0, i + 1).last() == args@[i as int]@);
            let tok = &args[i];
            let t = chars_of(tok.as_str());
            let n = t.len();
            if passthrough {
                out.push(tok.clone());
                assert(texts(out@) =~= st.out.push(tok@));
            } else if n == 2 && t[0] == '-' && t[1] == '-' {
                assert(t@ =~= dash_dash());
                passthrough = true;
                pending = None;
            } else {
                assert(t@ != dash_dash());
                match pending {
                    Some(key) => {
                        pending = None;
                        proof {
                            lemma_index_of_range(self@, key@);
                        }
                        match self.find(&key) {
                            Some(j) => {
                                proof {
                                    lemma_set_value_same_keys(self@, j as int, self@[j as int].value);
                                }
                                match self.fill_slot(j, tok.as_str()) {
                                    Ok(()) => {
                                        proof {
                                            let w = parsed(prev[j as int].value, tok@)->Ok_0;
                                            lemma_set_value_same_keys(prev, j as int, w);
                                        }
                                    },
                                    Err(m) => {
                                        proof {
                                            assert(step(st, tok@).error == Some(
                                                FlagErrorView::ParseError(key@, m@),
                                            ));
                                            lemma_run_stops_at_error(start(fs0), ts, i + 1);
                                            lemma_same_keys(fs0, self@);
                                        }
                                        return Err(FlagError::ParseError((key, m)));
                                    },
                                }
                            },
                            None => {},
                        }
                    },
                    None => {
                        if n > 2 && t[0] == '-' && t[1] == '-' {
                            let name = String::from_str(tok.as_str().substring_char(2, n));
                            match self.take_name(name) {
                                Ok(p) => {
                                    pending = p;
                                },
                                Err(e) => {
                                    proof {
                                        assert(step(st, tok@).error == Some(e@));
                                        lemma_run_stops_at_error(start(fs0), ts, i + 1);
                                        lemma_same_keys(fs0, self@);
                                    }
                                    return Err(e);
                                },
                            }
                        } else if n == 2 && t[0] == '-' {
                            let name = String::from_str(tok.as_str().substring_char(1, 2));
                            match self.take_name(name) {
                                Ok(p) => {
                                    pending = p;
                                },
                                Err(e) => {
                                    proof {
                                        assert(step(st, tok@).error == Some(e@));
                                        lemma_run_stops_at_error(start(fs0), ts, i + 1);
                                        lemma_same_keys(fs0, self@);
                                    }
                                    return Err(e);
                                },
                            }
                        } else if n > 2 && t[0] == '-' {
                            match self.take_cluster(tok.as_str()) {
                                Ok(()) => {},
                                Err(e) => {
                                    proof {
                                        assert(step(st, tok@).error == Some(e@));
                                        lemma_run_stops_at_error(start(fs0), ts, i + 1);
                                        lemma_same_keys(fs0, self@);
                                    }
                                    return Err(e);
                                },
                            }
                        } else {
                            out.push(tok.clone());
                            assert(texts(out@) =~= st.out.push(tok@));
                            passthrough = true;
                        }
                    },
                }
            }
            proof {
                lemma_step_same_keys(st, tok@);
                lemma_same_keys_trans(fs0, prev, self@);
            }
            i = i + 1;
        }
        assert(ts.subrange(0, i as int) =~= ts);
        proof {
            lemma_same_keys(fs0, self@);
        }
        Ok(out)
    }

    /// Each flag's name and usage text, in the order they were registered.
    pub fn usage(&self) -> (r: Vec<(String, String)>)
        ensures
            r.len() == self@.len(),
            forall|i: int|
                0 <= i < r.len() ==> (#[trigger] r[i]).0@ == self@[i].name && r[i].1@
                    == self@[i].usage,
    {
        let mut r: Vec<(String, String)> = Vec::new();
        let mut i: usize = 0;
        while i < self.flags.len()
            invariant
                i <= self.flags@.len(),
                r.len() == i,
                forall|j: int|
                    0 <= j < i ==> (#[trigger] r[j]).0@ == self@[j].name && r[j].1@
                        == self@[j].usage,
            decreases self.flags@.len() - i,
        {
            let f = &self.flags[i];
            assert(self@[i as int] == f@);
            r.push((f.name.clone(), f.usage.clone()));
            i = i + 1;
        }
        r
    }

    /// Whether `name` looks up a registered flag, by its name or its alias.
    pub fn has_flag(&self, name: &str) -> (r: bool)
        ensures
            r == is_key(self@, name@),
    {
        let key = String::from_str(name);
        self.find(&key).is_some()
    }
}

} // verus!
