//! Decimal text of integers: reading and rendering.
use vstd::prelude::*;
use vstd::string::*;

verus! {

/// Why a text is not the decimal form of an integer of the wanted type.
#[derive(Debug, Clone, Copy, PartialEq, Eq, Structural)]
pub enum IntError {
    /// The text is empty.
    Empty,
    /// A character that is no decimal digit, or a lone sign.
    InvalidDigit,
    /// The value is above the type's largest.
    PosOverflow,
    /// The value is below the type's smallest.
    NegOverflow,
}

pub open spec fn is_digit(c: char) -> bool {
    '0' <= c && c <= '9'
}

pub open spec fn digit_value(c: char) -> int {
    (c as int) - ('0' as int)
}

/// Reads a run of digits left to right, keeping the first failure, as the
/// standard library's integer parser does: each step multiplies by ten and
/// adds (or, for a negative number, subtracts) the next digit.
/// Values outside `lo..=hi` overflow.
pub open spec fn accumulate(ds: Seq<char>, neg: bool, lo: int, hi: int) -> Result<int, IntError>
    decreases ds.len(),
{
    if ds.len() == 0 {
        Ok(0)
    } else {
        match accumulate(ds.drop_last(), neg, lo, hi) {
            Err(e) => Err(e),
            Ok(v) => {
                let c = ds.last();
                if !is_digit(c) {
                    Err(IntError::InvalidDigit)
                } else if neg {
                    if v * 10 - digit_value(c) < lo {
                        Err(IntError::NegOverflow)
                    } else {
                        Ok(v * 10 - digit_value(c))
                    }
                } else {
                    if v * 10 + digit_value(c) > hi {
                        Err(IntError::PosOverflow)
                    } else {
                        Ok(v * 10 + digit_value(c))
                    }
                }
            },
        }
    }
}

/// What a text reads as in a type with values `lo..=hi`: an optional sign
/// followed by decimal digits. A `-` is a sign only for a `signed` type.
pub open spec fn text_in(s: Seq<char>, signed: bool, lo: int, hi: int) -> Result<int, IntError> {
    if s.len() == 0 {
        Err(IntError::Empty)
    } else if (s[0] == '+' || s[0] == '-') && s.len() == 1 {
        Err(IntError::InvalidDigit)
    } else if s[0] == '+' {
        accumulate(s.drop_first(), false, lo, hi)
    } else if s[0] == '-' && signed {
        accumulate(s.drop_first(), true, lo, hi)
    } else {
        accumulate(s, false, lo, hi)
    }
}

/// What a text reads as in `i64`.
pub open spec fn int_of_text(s: Seq<char>) -> Result<int, IntError> {
    text_in(s, true, i64::MIN as int, i64::MAX as int)
}

/// What a text reads as in `usize`.
pub open spec fn usize_of_text(s: Seq<char>) -> Result<int, IntError> {
    text_in(s, false, 0, usize::MAX as int)
}

pub open spec fn widen<T: Integer>(r: Result<T, IntError>) -> Result<int, IntError> {
    match r {
        Ok(v) => Ok(v as int),
        Err(e) => Err(e),
    }
}

pub open spec fn digit_char(d: nat) -> char {
    ((d + 48) as u8) as char
}

/// Decimal digits of a natural number, most significant first, no leading zero.
pub open spec fn nat_text(n: nat) -> Seq<char>
    decreases n,
{
    if n < 10 {
        seq![digit_char(n)]
    } else {
        nat_text(n / 10).push(digit_char(n % 10))
    }
}

/// The decimal text of an integer, with a leading `-` when it is negative.
pub open spec fn int_text(v: int) -> Seq<char> {
    if v < 0 {
        seq!['-'] + nat_text((-v) as nat)
    } else {
        nat_text(v as nat)
    }
}

proof fn lemma_nat_text_digits(n: nat)
    ensures
        nat_text(n).len() > 0,
        forall|i: int| 0 <= i < nat_text(n).len() ==> is_digit(#[trigger] nat_text(n)[i]),
    decreases n,
{
    if n >= 10 {
        lemma_nat_text_digits(n / 10);
        assert forall|i: int| 0 <= i < nat_text(n).len() implies is_digit(#[trigger] nat_text(n)[i]) by {
            if i < nat_text(n / 10).len() {
                assert(nat_text(n)[i] == nat_text(n / 10)[i]);
            }
        }
    }
}

proof fn lemma_digit_char(d: nat)
    requires
        d < 10,
    ensures
        is_digit(digit_char(d)),
        digit_value(digit_char(d)) == d,
{
}

proof fn lemma_accumulate_nat_text(n: nat, neg: bool, lo: int, hi: int)
    requires
        neg ==> -n >= lo,
        !neg ==> n <= hi,
    ensures
        accumulate(nat_text(n), neg, lo, hi) == Ok::<int, IntError>(if neg { -n } else { n as int }),
    decreases n,
{
    let t = nat_text(n);
    if n < 10 {
        lemma_digit_char(n);
        assert(t.drop_last() =~= Seq::<char>::empty());
        assert(accumulate(t.drop_last(), neg, lo, hi) == Ok::<int, IntError>(0));
    } else {
        lemma_digit_char(n % 10);
        lemma_accumulate_nat_text(n / 10, neg, lo, hi);
        assert(t.drop_last() =~= nat_text(n / 10));
        assert(n == (n / 10) * 10 + n % 10) by (nonlinear_arith);
    }
}

/// Reading the decimal text of any `i64` gives that value back.
pub proof fn lemma_int_text_round_trip(v: i64)
    ensures
        int_of_text(int_text(v as int)) == Ok::<int, IntError>(v as int),
{
    if v < 0 {
        let t = int_text(v as int);
        lemma_nat_text_digits((-v) as nat);
        lemma_accumulate_nat_text((-v) as nat, true, i64::MIN as int, i64::MAX as int);
        assert(t.drop_first() =~= nat_text((-v) as nat));
    } else {
        lemma_nat_text_digits(v as nat);
        lemma_accumulate_nat_text(v as nat, false, i64::MIN as int, i64::MAX as int);
        assert(is_digit(nat_text(v as nat)[0]));
    }
}

fn parse_in(s: &[char], signed: bool, lo: i128, hi: i128) -> (r: Result<i128, IntError>)
    requires
        -0x1_0000_0000_0000_0000 <= lo <= 0 <= hi <= 0x1_0000_0000_0000_0000,
    ensures
        widen(r) == text_in(s@, signed, lo as int, hi as int),
        r is Ok ==> lo <= r->Ok_0 <= hi,
{
    let n = s.len();
    if n == 0 {
        return Err(IntError::Empty);
    }
    let first = s[0];
    if (first == '+' || first == '-') && n == 1 {
        return Err(IntError::InvalidDigit);
    }
    let neg = first == '-' && signed;
    let start: usize = if first == '+' || neg { 1 } else { 0 };
    let ghost ds = s@.subrange(start as int, n as int);
    assert(start == 1 ==> ds =~= s@.drop_first());
    assert(start == 0 ==> ds =~= s@);
    let mut acc: i128 = 0;
    let mut i: usize = start;
    while i < n
        invariant
            start <= i <= n,
            n == s@.len(),
            ds == s@.subrange(start as int, n as int),
            start == 1 ==> ds == s@.drop_first(),
            start == 0 ==> ds == s@,
            neg == (s@[0] == '-' && signed),
            (start == 1) == (s@[0] == '+' || neg),
            start <= 1,
            -0x1_0000_0000_0000_0000 <= lo <= 0 <= hi <= 0x1_0000_0000_0000_0000,
            neg ==> lo <= acc <= 0,
            !neg ==> 0 <= acc <= hi,
            accumulate(s@.subrange(start as int, i as int), neg, lo as int, hi as int) == Ok::<
                int,
                IntError,
            >(acc as int),
        decreases n - i,
    {
        let c = s[i];
        let ghost prefix = s@.subrange(start as int, i as int + 1);
        assert(prefix.drop_last() =~= s@.subrange(start as int, i as int));
        assert(prefix.last() == c);
        assert(ds.subrange(0, i + 1 - start) =~= prefix);
        if !('0' <= c && c <= '9') {
            proof {
                lemma_accumulate_stays_err(ds, (i + 1 - start) as int, neg, lo as int, hi as int);
            }
            return Err(IntError::InvalidDigit);
        }
        let d = (c as u32 - '0' as u32) as i128;
        let w: i128 = if neg { acc * 10 - d } else { acc * 10 + d };
        if w < lo {
            proof {
                lemma_accumulate_stays_err(ds, (i + 1 - start) as int, neg, lo as int, hi as int);
            }
            return Err(IntError::NegOverflow);
        }
        if w > hi {
            proof {
                lemma_accumulate_stays_err(ds, (i + 1 - start) as int, neg, lo as int, hi as int);
            }
            return Err(IntError::PosOverflow);
        }
        acc = w;
        i = i + 1;
    }
    assert(s@.subrange(start as int, n as int) =~= ds);
    Ok(acc)
}

/// Reads `s` as a decimal `i64`, with an optional leading `+` or `-`.
pub fn parse_i64(s: &[char]) -> (r: Result<i64, IntError>)
    ensures
        widen(r) == int_of_text(s@),
{
    match parse_in(s, true, i64::MIN as i128, i64::MAX as i128) {
        Ok(v) => Ok(v as i64),
        Err(e) => Err(e),
    }
}

/// Reads `s` as a decimal `usize`, with an optional leading `+`.
pub fn parse_usize(s: &[char]) -> (r: Result<usize, IntError>)
    ensures
        widen(r) == usize_of_text(s@),
{
    match parse_in(s, false, 0, usize::MAX as i128) {
        Ok(v) => Ok(v as usize),
        Err(e) => Err(e),
    }
}

/// What `IntError` reads as when shown to a user.
pub open spec fn int_error_text(e: IntError) -> Seq<char> {
    match e {
        IntError::Empty => "cannot parse integer from empty string"@,
        IntError::InvalidDigit => "invalid digit found in string"@,
        IntError::PosOverflow => "number too large to fit in target type"@,
        IntError::NegOverflow => "number too small to fit in target type"@,
    }
}

impl IntError {
    /// The text shown to a user for this error.
    pub fn describe(&self) -> (r: String)
        ensures
            r@ == int_error_text(*self),
    {
        match self {
            IntError::Empty => String::from_str("cannot parse integer from empty string"),
            IntError::InvalidDigit => String::from_str("invalid digit found in string"),
            IntError::PosOverflow => String::from_str("number too large to fit in target type"),
            IntError::NegOverflow => String::from_str("number too small to fit in target type"),
        }
    }
}

/// The characters of `s`, in order.
pub fn chars_of(s: &str) -> (r: Vec<char>)
    ensures
        r@ == s@,
{
    let n = s.unicode_len();
    let mut r: Vec<char> = Vec::new();
    let mut i: usize = 0;
    while i < n
        invariant
            i <= n,
            n == s@.len(),
            r@ == s@.subrange(0, i as int),
        decreases n - i,
    {
        r.push(s.get_char(i));
        i = i + 1;
        assert(r@ =~= s@.subrange(0, i as int));
    }
    assert(r@ =~= s@);
    r
}

/// Once a prefix of the digits fails, the whole run fails the same way.
proof fn lemma_accumulate_stays_err(ds: Seq<char>, k: int, neg: bool, lo: int, hi: int)
    requires
        0 <= k <= ds.len(),
        accumulate(ds.subrange(0, k), neg, lo, hi) is Err,
    ensures
        accumulate(ds, neg, lo, hi) == accumulate(ds.subrange(0, k), neg, lo, hi),
    decreases ds.len() - k,
{
    if k < ds.len() {
        let next = ds.subrange(0, k + 1);
        assert(next.drop_last() =~= ds.subrange(0, k));
        lemma_accumulate_stays_err(ds, k + 1, neg, lo, hi);
    } else {
        assert(ds.subrange(0, k) =~= ds);
    }
}

} // verus!
