//! The command line of the cutter: which fields to keep, and how fields are
//! separated.
use vstd::prelude::*;
use vstd::string::*;

use crate::arg_list::ArgList;
use crate::cut::{Cutter, Mode};
use crate::flags::{
    answers, error_text, is_first, lemma_index_of_found, lemma_same_keys, new_flag, FlagSet,
    FlagView,
};
use crate::scan::{lemma_run_keeps_kinds, lemma_same_keys_of_run, run, start, texts};
use crate::value::{Value, ValueView};

verus! {

/// The flags of the command line, as registered: `--fields` (or `-f`), a
/// list of field numbers, and `--delimiter` (or `-d`), a tab by default.
pub open spec fn cutter_flags() -> Seq<FlagView> {
    seq![
        new_flag("fields"@, true, ValueView::List(Seq::empty()), ""@),
        new_flag("delimiter"@, true, ValueView::Char('\t'), ""@),
    ]
}

/// Reads the command line `args` (without the program's name): the cutter
/// it asks for and the remaining positional tokens, the files to read.
pub fn create_cutter(args: Vec<String>) -> (r: Result<(Cutter, Vec<String>), String>)
    ensures
        ({
            let end = run(start(cutter_flags()), texts(args@));
            match r {
                Ok((cutter, rest)) => {
                    &&& end.error is None
                    &&& texts(rest@) == end.out
                    &&& cutter@ is Fields
                    &&& end.flags[0].value == ValueView::List(cutter@->Fields_0@)
                    &&& end.flags[1].value == ValueView::Char(cutter@->Fields_1)
                },
                Err(msg) => {
                    &&& end.error is Some
                    &&& msg@ == "Invalid arguments error: "@ + error_text(end.error->0)
                },
            }
        }),
{
    proof {
        reveal_strlit("fields");
        reveal_strlit("delimiter");
        reveal_strlit("");
    }
    let mut flag_set = FlagSet::new();
    flag_set.bind_mut_ref("fields", true, Value::List(ArgList::default()), "");
    proof {
        let f = flag_set@[0];
        assert(flag_set@.len() == 1);
        assert(f.name == "fields"@ && f.short == Some('f'));
        assert(f.name.len() != ("delimiter"@).len());
        assert(!answers(f, "delimiter"@));
        assert(seq!['f'][0] != seq!['d'][0]);
        assert(!answers(f, seq!['d']));
        assert(("delimiter"@)[0] == 'd');
    }
    flag_set.bind_mut_ref("delimiter", true, Value::Char('\t'), "");
    assert(flag_set@ =~= cutter_flags());
    let ghost fs0 = flag_set@;
    let parsed = flag_set.parse(args);
    let ghost end = run(start(fs0), texts(args@));
    match parsed {
        Err(e) => {
            let mut msg = String::from_str("Invalid arguments error: ");
            msg.append(e.describe().as_str());
            Err(msg)
        },
        Ok(files) => {
            proof {
                lemma_run_keeps_kinds(start(fs0), texts(args@));
                lemma_same_keys_of_run(start(fs0), texts(args@));
                lemma_same_keys(fs0, flag_set@);
                lemma_index_of_found(fs0, "fields"@, 0);
                assert(is_first(fs0, "delimiter"@, 1));
                lemma_index_of_found(fs0, "delimiter"@, 1);
            }
            let fields = match flag_set.value_of("fields") {
                Some(Value::List(l)) => l.inner.clone(),
                _ => Vec::new(),
            };
            let delimiter = match flag_set.value_of("delimiter") {
                Some(Value::Char(c)) => *c,
                _ => '\t',
            };
            Ok((Cutter::new(Mode::Fields(fields, delimiter)), files))
        },
    }
}

} // verus!
