use vstd::prelude::*;
use std::str::FromStr;
use crate::text::{
    ascii_lower, ascii_upper, is_ascii_text, lemma_ascii_lower_upper, lemma_ascii_upper_ascii,
    lemma_trimmed_ascii, lemma_trimmed_ascii_upper, lemma_trimmed_padding,
    is_white_space,
    all_digits, chars_of, decimal_text, digit_char, digit_of, digit_value, digits_value, is_digit,
    is_digit_char, same_text, trim,
    trimmed,
};

verus! {

/// A signed fixed-point currency value with four implied decimal digits.
pub type Amount = i64;

/// Number of internal units in one whole currency unit.
pub const SCALE: i64 = 10_000;

/// Why a field of an input row could not be decoded.
#[derive(Clone, Copy, Debug, PartialEq, Eq, Structural)]
pub enum DecodeError {
    /// The kind is none of the five known words.
    UnknownKind,
    /// The amount is not a decimal number.
    InvalidAmount,
    /// The amount is a decimal number that an `Amount` cannot hold.
    AmountOutOfRange,
}

/// Four decimal digits of `f < 10000`, leading zeros included.
pub open spec fn four_digits(f: int) -> Seq<char> {
    seq![
        digit_char(f / 1000),
        digit_char(f / 100 % 10),
        digit_char(f / 10 % 10),
        digit_char(f % 10),
    ]
}

/// The text of an amount: a minus sign when negative, the whole units, a
/// point and exactly four decimal digits.
pub open spec fn amount_text(v: int) -> Seq<char> {
    let m = if v < 0 {
        -v
    } else {
        v
    };
    let sign = if v < 0 {
        seq!['-']
    } else {
        Seq::<char>::empty()
    };
    sign + decimal_text((m / SCALE as int) as nat) + seq!['.'] + four_digits(m % (SCALE as int))
}

/// A leading sign of `s`: whether it is negative, and the text after it.
pub open spec fn split_sign(s: Seq<char>) -> (bool, Seq<char>) {
    if s.len() > 0 && s[0] == '-' {
        (true, s.drop_first())
    } else if s.len() > 0 && s[0] == '+' {
        (false, s.drop_first())
    } else {
        (false, s)
    }
}

/// `b` is digits up to index `p`, then either ends or has a point followed by
/// digits only.
pub open spec fn splits_at_point(b: Seq<char>, p: int) -> bool {
    &&& 0 <= p <= b.len()
    &&& all_digits(b.take(p))
    &&& p == b.len() || (b[p] == '.' && all_digits(b.skip(p + 1)))
}

/// Unsigned decimal text: digits with at most one point, and at least one digit.
pub open spec fn is_unsigned_decimal(b: Seq<char>) -> bool {
    exists|p: int| splits_at_point(b, p) && (p > 0 || b.len() > p + 1)
}

/// Where the whole part of unsigned decimal text ends.
pub open spec fn point_index(b: Seq<char>) -> int {
    choose|p: int| splits_at_point(b, p)
}

/// The fractional digits of `b` when its whole part ends at `p`.
pub open spec fn fraction_part(b: Seq<char>, p: int) -> Seq<char> {
    if p < b.len() {
        b.skip(p + 1)
    } else {
        Seq::<char>::empty()
    }
}

/// The value of the `i`-th fractional digit, zero past the end.
pub open spec fn fraction_digit(f: Seq<char>, i: int) -> int {
    if i < f.len() {
        digit_value(f[i])
    } else {
        0
    }
}

/// Units of `0.f`, to four places, rounded half away from zero.
pub open spec fn fraction_units(f: Seq<char>) -> int {
    fraction_digit(f, 0) * 1000 + fraction_digit(f, 1) * 100 + fraction_digit(f, 2) * 10
        + fraction_digit(f, 3) + if fraction_digit(f, 4) >= 5 {
        1int
    } else {
        0int
    }
}

/// The number of units written by signed decimal text, if it is such text.
pub open spec fn decimal_units(s: Seq<char>) -> Option<int> {
    let (neg, b) = split_sign(s);
    if is_unsigned_decimal(b) {
        let p = point_index(b);
        let u = digits_value(b.take(p)) * SCALE + fraction_units(fraction_part(b, p));
        Some(
            if neg {
                -u
            } else {
                u
            },
        )
    } else {
        None
    }
}

/// What decoding the amount text `raw` gives: surrounding white space is
/// ignored, the rest is a decimal number with an optional sign, rounded to the
/// nearest unit.
pub open spec fn amount_of_text(raw: Seq<char>) -> Result<Amount, DecodeError> {
    match decimal_units(trimmed(raw)) {
        None => Err(DecodeError::InvalidAmount),
        Some(u) => if i64::MIN <= u <= i64::MAX {
            Ok(u as i64)
        } else {
            Err(DecodeError::AmountOutOfRange)
        },
    }
}

/// Relies on `String`'s `FromIterator<char>`: the string holds the characters
/// in order.
#[verifier::external_body]
fn string_from_chars(v: &Vec<char>) -> (r: String)
    ensures
        r@ == v@,
{
    v.iter().collect()
}

fn digit_to_char(d: u64) -> (r: char)
    requires
        d < 10,
    ensures
        r == digit_char(d as int),
{
    ((d as u8) + 48u8) as char
}

fn push_decimal(n: u64, out: &mut Vec<char>)
    ensures
        final(out)@ == old(out)@ + decimal_text(n as nat),
    decreases n,
{
    if n >= 10 {
        push_decimal(n / 10, out);
    }
    out.push(digit_to_char(n % 10));
    proof {
        if n >= 10 {
            assert(final(out)@ =~= old(out)@ + decimal_text(n as nat));
        } else {
            assert(final(out)@ =~= old(out)@ + decimal_text(n as nat));
        }
    }
}

/// The text of `value`: sign, whole units, a point and four decimal digits
/// (`-1.2345`, `0.0001`).
pub fn format_amount(value: Amount) -> (r: String)
    ensures
        r@ == amount_text(value as int),
{
    let wide = value as i128;
    let m: u64 = if wide < 0 {
        (-wide) as u64
    } else {
        wide as u64
    };
    let mut out: Vec<char> = Vec::new();
    if value < 0 {
        out.push('-');
    }
    let scale = SCALE as u64;
    push_decimal(m / scale, &mut out);
    out.push('.');
    let f = m % scale;
    out.push(digit_to_char(f / 1000));
    out.push(digit_to_char(f / 100 % 10));
    out.push(digit_to_char(f / 10 % 10));
    out.push(digit_to_char(f % 10));
    let r = string_from_chars(&out);
    assert(r@ =~= amount_text(value as int));
    r
}

/// Whole parts at or above this bound make an amount out of range whatever its
/// sign.
const WHOLE_CAP: u64 = 1_000_000_000_000_000;

/// The value of the digits `v[lo..hi]`, or `WHOLE_CAP` if that is less.
fn capped_whole(v: &Vec<char>, lo: usize, hi: usize) -> (r: u64)
    requires
        lo <= hi <= v@.len(),
        all_digits(v@.subrange(lo as int, hi as int)),
    ensures
        r as int == if digits_value(v@.subrange(lo as int, hi as int)) < WHOLE_CAP {
            digits_value(v@.subrange(lo as int, hi as int))
        } else {
            WHOLE_CAP as int
        },
{
    let mut acc: u64 = 0;
    let mut k: usize = lo;
    assert(v@.subrange(lo as int, lo as int) =~= Seq::<char>::empty());
    while k < hi
        invariant
            lo <= k <= hi <= v@.len(),
            all_digits(v@.subrange(lo as int, hi as int)),
            acc as int == if digits_value(v@.subrange(lo as int, k as int)) < WHOLE_CAP {
                digits_value(v@.subrange(lo as int, k as int))
            } else {
                WHOLE_CAP as int
            },
        decreases hi - k,
    {
        let ghost prev = v@.subrange(lo as int, k as int);
        let ghost next = v@.subrange(lo as int, k + 1);
        assert(v@.subrange(lo as int, hi as int)[k - lo] == v@[k as int]);
        assert(next.drop_last() =~= prev);
        assert(all_digits(prev)) by {
            assert forall|i: int| 0 <= i < prev.len() implies is_digit(#[trigger] prev[i]) by {
                assert(v@.subrange(lo as int, hi as int)[i] == prev[i]);
            }
        }
        proof {
            crate::text::lemma_digits_value_nonneg(prev);
        }
        let d = digit_of(v[k]);
        if acc < WHOLE_CAP {
            let x = acc * 10 + d;
            acc = if x < WHOLE_CAP {
                x
            } else {
                WHOLE_CAP
            };
        }
        k += 1;
    }
    acc
}

/// The `i`-th digit of `v[from..]`, zero past the end.
fn fraction_digit_at(v: &Vec<char>, from: usize, i: usize) -> (r: u64)
    requires
        from <= v@.len(),
        all_digits(v@.skip(from as int)),
        i < 5,
    ensures
        r == fraction_digit(v@.skip(from as int), i as int),
        r < 10,
{
    if i < v.len() - from {
        assert(v@.skip(from as int)[i as int] == v@[from + i]);
        digit_of(v[from + i])
    } else {
        0
    }
}

proof fn lemma_point_index_unique(b: Seq<char>, p: int, q: int)
    requires
        0 <= p <= b.len(),
        all_digits(b.take(p)),
        p == b.len() || !is_digit(b[p]),
        splits_at_point(b, q),
    ensures
        q == p,
{
    if q < p {
        assert(b.take(p)[q] == b[q]);
        assert(is_digit(b.take(p)[q]));
    } else if q > p {
        assert(b.take(q)[p] == b[p]);
        assert(is_digit(b.take(q)[p]));
    }
}

/// The end of the run of digits of `v` that starts at `st`.
fn digits_end(v: &Vec<char>, st: usize) -> (p: usize)
    requires
        st <= v@.len(),
    ensures
        st <= p <= v@.len(),
        all_digits(v@.subrange(st as int, p as int)),
        p == v@.len() || !is_digit(v@[p as int]),
{
    let n = v.len();
    let mut p: usize = st;
    assert(v@.subrange(st as int, st as int) =~= Seq::<char>::empty());
    while p < n && is_digit_char(v[p])
        invariant
            st <= p <= n == v@.len(),
            all_digits(v@.subrange(st as int, p as int)),
        decreases n - p,
    {
        assert forall|i: int| 0 <= i < p + 1 - st implies is_digit(
            #[trigger] v@.subrange(st as int, p + 1)[i],
        ) by {
            if i < p - st {
                assert(v@.subrange(st as int, p as int)[i] == v@.subrange(st as int, p + 1)[i]);
            }
        }
        p += 1;
    }
    p
}

/// Whether `v[from..]` is all digits.
fn digits_from(v: &Vec<char>, from: usize) -> (r: bool)
    requires
        from <= v@.len(),
    ensures
        r == all_digits(v@.skip(from as int)),
{
    let p = digits_end(v, from);
    assert(v@.subrange(from as int, v@.len() as int) =~= v@.skip(from as int));
    if p < v.len() {
        assert(v@.skip(from as int)[p - from] == v@[p as int]);
        false
    } else {
        true
    }
}

/// Decodes amount text: surrounding white space is ignored, the rest is a
/// decimal number with an optional sign, rounded half away from zero to four
/// decimal places.
#[verifier::rlimit(30)]
pub fn parse_amount(raw: &str) -> (r: Result<Amount, DecodeError>)
    ensures
        r == amount_of_text(raw@),
{
    let c = chars_of(trim(raw));
    let ghost s = trimmed(raw@);
    let n = c.len();
    let neg = n > 0 && c[0] == '-';
    let st: usize = if n > 0 && (c[0] == '-' || c[0] == '+') {
        1
    } else {
        0
    };
    let ghost b = c@.skip(st as int);
    assert(split_sign(s) == (neg, b)) by {
        if st == 1 {
            assert(s.drop_first() =~= b);
        } else {
            assert(s =~= b);
        }
    }
    let p = digits_end(&c, st);
    let ghost q = p - st;
    assert(c@.subrange(st as int, p as int) =~= b.take(q));
    assert(q == b.len() || !is_digit(b[q]));
    let from: usize = if p < n {
        p + 1
    } else {
        n
    };
    if p < n && (c[p] != '.' || !digits_from(&c, from)) {
        assert(!is_unsigned_decimal(b)) by {
            assert forall|x: int| splits_at_point(b, x) implies false by {
                lemma_point_index_unique(b, q, x);
                assert(b.skip(q + 1) =~= c@.skip(from as int));
            }
        }
        return Err(DecodeError::InvalidAmount);
    }
    assert(all_digits(c@.skip(from as int))) by {
        if p == n {
            assert(c@.skip(from as int) =~= Seq::<char>::empty());
        }
    }
    assert(fraction_part(b, q) =~= c@.skip(from as int));
    assert(splits_at_point(b, q)) by {
        if q < b.len() {
            assert(b.skip(q + 1) =~= c@.skip(from as int));
        }
    }
    assert(point_index(b) == q) by {
        lemma_point_index_unique(b, q, point_index(b));
    }
    if p == st && n <= p + 1 {
        assert(!is_unsigned_decimal(b)) by {
            assert forall|x: int| splits_at_point(b, x) && (x > 0 || b.len() > x + 1) implies false by {
                lemma_point_index_unique(b, q, x);
            }
        }
        return Err(DecodeError::InvalidAmount);
    }
    let whole = capped_whole(&c, st, p);
    let f0 = fraction_digit_at(&c, from, 0);
    let f1 = fraction_digit_at(&c, from, 1);
    let f2 = fraction_digit_at(&c, from, 2);
    let f3 = fraction_digit_at(&c, from, 3);
    let f4 = fraction_digit_at(&c, from, 4);
    let frac = f0 * 1000 + f1 * 100 + f2 * 10 + f3 + if f4 >= 5 {
        1u64
    } else {
        0u64
    };
    let units = whole as i128 * SCALE as i128 + frac as i128;
    let v: i128 = if neg {
        -units
    } else {
        units
    };
    if v < i64::MIN as i128 || v > i64::MAX as i128 {
        return Err(DecodeError::AmountOutOfRange);
    }
    Ok(v as i64)
}

proof fn lemma_four_digits(f: int)
    requires
        0 <= f < 10000,
    ensures
        four_digits(f).len() == 4,
        all_digits(four_digits(f)),
        fraction_units(four_digits(f)) == f,
{
    let t = four_digits(f);
    assert(digit_value(digit_char(f / 1000)) == f / 1000);
    assert(digit_value(digit_char(f / 100 % 10)) == f / 100 % 10);
    assert(digit_value(digit_char(f / 10 % 10)) == f / 10 % 10);
    assert(digit_value(digit_char(f % 10)) == f % 10);
    assert(fraction_digit(t, 4) == 0);
    assert(is_digit(t[0]) && is_digit(t[1]) && is_digit(t[2]) && is_digit(t[3]));
    assert(f / 1000 * 1000 + f / 100 % 10 * 100 + f / 10 % 10 * 10 + f % 10 == f)
        by (nonlinear_arith)
        requires
            0 <= f < 10000,
    ;
}

proof fn lemma_trimmed_unchanged(s: Seq<char>)
    requires
        s.len() > 0,
        !is_white_space(s[0]),
        !is_white_space(s.last()),
    ensures
        trimmed(s) == s,
{
}

/// Decoding the text of an amount gives the amount back.
pub proof fn lemma_amount_round_trip(v: Amount)
    ensures
        amount_of_text(amount_text(v as int)) == Ok::<Amount, DecodeError>(v),
{
    let s = amount_text(v as int);
    let m: int = if v < 0 {
        -(v as int)
    } else {
        v as int
    };
    let w = (m / 10000) as nat;
    let f = m % (SCALE as int);
    let whole = decimal_text(w);
    crate::text::lemma_decimal_text_digits(w);
    let b = whole + seq!['.'] + four_digits(f);
    assert(s =~= if v < 0 {
        seq!['-'] + b
    } else {
        b
    });
    lemma_four_digits(f);
    assert(is_digit(whole[0]));
    assert(s.last() == four_digits(f)[3]);
    lemma_trimmed_unchanged(s);
    assert(split_sign(s) == (v < 0, b)) by {
        if v < 0 {
            assert(s.drop_first() =~= b);
        }
    }
    let p = whole.len() as int;
    assert(b.take(p) =~= whole);
    assert(b.skip(p + 1) =~= four_digits(f));
    assert(splits_at_point(b, p));
    assert(point_index(b) == p) by {
        lemma_point_index_unique(b, p, point_index(b));
    }
    assert(fraction_part(b, p) == four_digits(f));
    assert(digits_value(b.take(p)) * SCALE + f == m);
}

/// The kind of a transaction record.
#[derive(Clone, Copy, Debug, PartialEq, Eq, Structural)]
pub enum Kind {
    Deposit,
    Withdrawal,
    Dispute,
    Resolve,
    ChargeBack,
}

/// What `str::to_lowercase` makes of a text.
pub uninterp spec fn lower_of(s: Seq<char>) -> Seq<char>;

/// Relies on `str::to_lowercase`: the result depends on the characters alone,
/// and on ASCII text it maps `A`..=`Z` to `a`..=`z` and keeps every other
/// character (std converts ASCII with `u8::to_ascii_lowercase`).
#[verifier::external_body]
fn lowercase(s: &str) -> (r: String)
    ensures
        r@ == lower_of(s@),
        is_ascii_text(s@) ==> r@ == ascii_lower(s@),
{
    s.to_lowercase()
}

/// The kind that a lower-case word names.
pub open spec fn kind_of_word(w: Seq<char>) -> Result<Kind, ()> {
    if w == "deposit"@ {
        Ok(Kind::Deposit)
    } else if w == "withdrawal"@ {
        Ok(Kind::Withdrawal)
    } else if w == "dispute"@ {
        Ok(Kind::Dispute)
    } else if w == "resolve"@ {
        Ok(Kind::Resolve)
    } else if w == "chargeback"@ {
        Ok(Kind::ChargeBack)
    } else {
        Err(())
    }
}

/// The kind that a field names: the word, trimmed and in any case.
pub open spec fn kind_of_field(raw: Seq<char>) -> Result<Kind, ()> {
    kind_of_word(lower_of(trimmed(raw)))
}

/// The kind that an ASCII field names, trimmed and lower-cased.
pub open spec fn ascii_kind_of_field(raw: Seq<char>) -> Result<Kind, ()> {
    kind_of_word(ascii_lower(trimmed(raw)))
}

/// White space around a kind field does not change the kind it names.
pub proof fn lemma_kind_ignores_padding(pre: Seq<char>, s: Seq<char>, post: Seq<char>)
    requires
        forall|i: int| 0 <= i < pre.len() ==> is_white_space(#[trigger] pre[i]),
        forall|i: int| 0 <= i < post.len() ==> is_white_space(#[trigger] post[i]),
    ensures
        kind_of_field(pre + s + post) == kind_of_field(s),
        ascii_kind_of_field(pre + s + post) == ascii_kind_of_field(s),
{
    lemma_trimmed_padding(pre, s, post);
}

/// Writing an ASCII kind field in capitals does not change the kind it names.
pub proof fn lemma_kind_ignores_ascii_case(s: Seq<char>)
    ensures
        is_ascii_text(s) ==> is_ascii_text(ascii_upper(s)),
        ascii_kind_of_field(ascii_upper(s)) == ascii_kind_of_field(s),
{
    if is_ascii_text(s) {
        lemma_ascii_upper_ascii(s);
    }
    lemma_trimmed_ascii_upper(s);
    lemma_ascii_lower_upper(trimmed(s));
}

impl Kind {
    /// The kind named by a lower-case word, exactly as written.
    pub fn from_word(w: &str) -> (r: Result<Kind, ()>)
        ensures
            r == kind_of_word(w@),
    {
        if same_text(w, "deposit") {
            Ok(Kind::Deposit)
        } else if same_text(w, "withdrawal") {
            Ok(Kind::Withdrawal)
        } else if same_text(w, "dispute") {
            Ok(Kind::Dispute)
        } else if same_text(w, "resolve") {
            Ok(Kind::Resolve)
        } else if same_text(w, "chargeback") {
            Ok(Kind::ChargeBack)
        } else {
            Err(())
        }
    }

    /// The kind named by a field, ignoring surrounding white space and case.
    pub fn from_field(raw: &str) -> (r: Result<Kind, ()>)
        ensures
            r == kind_of_field(raw@),
            is_ascii_text(raw@) ==> r == ascii_kind_of_field(raw@),
    {
        proof {
            if is_ascii_text(raw@) {
                lemma_trimmed_ascii(raw@);
            }
        }
        let w = lowercase(trim(raw));
        Kind::from_word(w.as_str())
    }
}

impl FromStr for Kind {
    type Err = ();

    fn from_str(raw: &str) -> (r: Result<Kind, ()>)
        ensures
            r == kind_of_field(raw@),
            is_ascii_text(raw@) ==> r == ascii_kind_of_field(raw@),
    {
        Kind::from_field(raw)
    }
}

/// What an amount field decodes to: nothing when absent or blank, else its
/// value or the reason it has none.
pub open spec fn amount_of_field(a: Option<Seq<char>>) -> Result<Option<Amount>, DecodeError> {
    match a {
        None => Ok(None),
        Some(t) => if trimmed(t).len() == 0 {
            Ok(None)
        } else {
            match amount_of_text(t) {
                Ok(v) => Ok(Some(v)),
                Err(e) => Err(e),
            }
        },
    }
}

/// What a row with these fields decodes to; the kind is checked first.
pub open spec fn transaction_of_row(
    kind: Seq<char>,
    client: u16,
    tx: u32,
    amount: Option<Seq<char>>,
) -> Result<Transaction, DecodeError> {
    match kind_of_field(kind) {
        Err(_) => Err(DecodeError::UnknownKind),
        Ok(k) => match amount_of_field(amount) {
            Err(e) => Err(e),
            Ok(a) => Ok(Transaction { kind: k, client, tx, amount: a }),
        },
    }
}

/// One input event: what happened, to which client, under which transaction id.
/// Deposits and withdrawals carry an amount; the other kinds carry none.
#[derive(Clone, Copy, Debug, PartialEq, Eq, Structural)]
pub struct Transaction {
    pub kind: Kind,
    pub client: u16,
    pub tx: u32,
    pub amount: Option<Amount>,
}

impl Transaction {
    /// Decodes a row whose client and transaction ids are already numbers.
    pub fn decode(kind: &str, client: u16, tx: u32, amount: Option<&str>) -> (r: Result<
        Transaction,
        DecodeError,
    >)
        ensures
            r == transaction_of_row(
                kind@,
                client,
                tx,
                match amount {
                    Some(t) => Some(t@),
                    None => None,
                },
            ),
    {
        let k = match Kind::from_field(kind) {
            Ok(k) => k,
            Err(_) => return Err(DecodeError::UnknownKind),
        };
        let a = match amount {
            None => None,
            Some(t) => {
                let body = trim(t);
                if body.unicode_len() == 0 {
                    None
                } else {
                    match parse_amount(t) {
                        Ok(v) => Some(v),
                        Err(e) => return Err(e),
                    }
                }
            },
        };
        Ok(Transaction { kind: k, client, tx, amount: a })
    }
}

} // verus!
