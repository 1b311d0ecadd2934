//! Parsing of tabular record fields into transactions.
//!
//! Fields arrive as raw bytes (one `Vec<u8>` per column). The grammar is
//! specified exactly: a `type` column matched case-insensitively, unsigned
//! decimal client and transaction ids, and a signed fixed-point decimal
//! amount with up to four fractional digits. Leading and trailing blanks
//! are allowed around every field.

use vstd::prelude::*;
use crate::amount::{Amount, MAX_INTEGER_PART};
use crate::errors::TxError;
use crate::model::{Transaction, TxType};

verus! {

/// Blank bytes allowed around fields: space and horizontal tab.
pub open spec fn is_ws(b: u8) -> bool {
    b == 32 || b == 9
}

/// An ASCII decimal digit.
pub open spec fn is_digit(b: u8) -> bool {
    48 <= b <= 57
}

/// The field with leading and trailing blanks removed.
pub open spec fn trim_ws(s: Seq<u8>) -> Seq<u8>
    decreases s.len(),
{
    if s.len() > 0 && is_ws(s[0]) {
        trim_ws(s.drop_first())
    } else if s.len() > 0 && is_ws(s.last()) {
        trim_ws(s.drop_last())
    } else {
        s
    }
}

/// Every byte is a decimal digit.
pub open spec fn all_digits(s: Seq<u8>) -> bool {
    forall|i: int| 0 <= i < s.len() ==> is_digit(#[trigger] s[i])
}

/// Numeric value of a digit string, most significant digit first.
pub open spec fn digits_value(s: Seq<u8>) -> int
    decreases s.len(),
{
    if s.len() == 0 {
        0
    } else {
        digits_value(s.drop_last()) * 10 + (s.last() - 48)
    }
}

/// Value of an unsigned decimal field: defined exactly when the trimmed
/// field is a nonempty digit string whose value is at most `max`.
pub open spec fn uint_value(s: Seq<u8>, max: int) -> Option<int> {
    let t = trim_ws(s);
    if t.len() > 0 && all_digits(t) && digits_value(t) <= max {
        Option::Some(digits_value(t))
    } else {
        Option::None
    }
}

/// A digit string has a nonnegative value.
proof fn lemma_digits_value_nonneg(s: Seq<u8>)
    requires
        all_digits(s),
    ensures
        digits_value(s) >= 0,
    decreases s.len(),
{
    if s.len() > 0 {
        assert(is_digit(s[s.len() - 1]));
        assert(all_digits(s.drop_last())) by {
            assert(forall|i: int| 0 <= i < s.len() - 1 ==> s.drop_last()[i] == s[i]);
        }
        lemma_digits_value_nonneg(s.drop_last());
    }
}

/// Extending a digit string cannot decrease its value.
proof fn lemma_digits_value_prefix_le(s: Seq<u8>, k: int)
    requires
        all_digits(s),
        0 <= k <= s.len(),
    ensures
        digits_value(s.take(k)) <= digits_value(s),
    decreases s.len() - k,
{
    if k < s.len() {
        assert(s.take(k + 1).drop_last() =~= s.take(k));
        assert(all_digits(s.take(k + 1))) by {
            assert(forall|i: int| 0 <= i < k + 1 ==> s.take(k + 1)[i] == s[i]);
        }
        lemma_digits_value_nonneg(s.take(k + 1).drop_last());
        assert(is_digit(s.take(k + 1).last()));
        assert(digits_value(s.take(k)) <= digits_value(s.take(k + 1)));
        lemma_digits_value_prefix_le(s, k + 1);
        assert(s.take(s.len() as int) =~= s);
    } else {
        assert(s.take(k) =~= s);
    }
}

/// Bounds of the blank-trimmed region of a field, and the fact that the
/// region is exactly `trim_ws` of the field.
fn trim_bounds(s: &[u8]) -> (r: (usize, usize))
    ensures
        0 <= r.0 <= r.1 <= s@.len(),
        s@.subrange(r.0 as int, r.1 as int) == trim_ws(s@),
{
    let mut lo: usize = 0;
    let mut hi: usize = s.len();
    proof {
        assert(s@.subrange(0, s@.len() as int) =~= s@);
    }
    while lo < hi && (s[lo] == 32 || s[lo] == 9)
        invariant
            0 <= lo <= hi <= s@.len(),
            hi == s@.len(),
            trim_ws(s@.subrange(lo as int, hi as int)) == trim_ws(s@),
        decreases hi - lo,
    {
        proof {
            assert(s@.subrange(lo as int + 1, hi as int) =~= s@.subrange(
                lo as int,
                hi as int,
            ).drop_first());
        }
        lo = lo + 1;
    }
    while lo < hi && (s[hi - 1] == 32 || s[hi - 1] == 9)
        invariant
            0 <= lo <= hi <= s@.len(),
            trim_ws(s@.subrange(lo as int, hi as int)) == trim_ws(s@),
            lo < hi ==> !is_ws(s@[lo as int]),
        decreases hi - lo,
    {
        proof {
            assert(s@.subrange(lo as int, hi as int - 1) =~= s@.subrange(
                lo as int,
                hi as int,
            ).drop_last());
        }
        hi = hi - 1;
    }
    proof {
        let t = s@.subrange(lo as int, hi as int);
        assert(trim_ws(t) == t);
    }
    (lo, hi)
}

/// Parse the digit string in `s[lo..hi]`, refusing values above `cap`.
fn parse_digits(s: &[u8], lo: usize, hi: usize, cap: u64) -> (r: Option<u64>)
    requires
        lo <= hi <= s@.len(),
        cap <= 1_000_000_000_000_000_000,
    ensures
        ({
            let t = s@.subrange(lo as int, hi as int);
            match r {
                Some(v) => t.len() > 0 && all_digits(t) && digits_value(t) <= cap && v
                    == digits_value(t),
                None => !(t.len() > 0 && all_digits(t) && digits_value(t) <= cap),
            }
        }),
{
    let ghost t = s@.subrange(lo as int, hi as int);
    if lo == hi {
        return None;
    }
    let mut acc: u64 = 0;
    let mut i: usize = lo;
    while i < hi
        invariant
            lo <= i <= hi <= s@.len(),
            cap <= 1_000_000_000_000_000_000,
            t == s@.subrange(lo as int, hi as int),
            all_digits(t.take(i - lo)),
            acc == digits_value(t.take(i - lo)),
            acc <= cap,
        decreases hi - i,
    {
        let b = s[i];
        proof {
            assert(t[i - lo] == b);
            assert(t.take(i + 1 - lo).drop_last() =~= t.take(i - lo));
            assert(forall|k: int| 0 <= k < i + 1 - lo ==> t.take(i + 1 - lo)[k] == t[k]);
        }
        if b < 48 || b > 57 {
            return None;
        }
        acc = acc * 10 + ((b - 48) as u64);
        if acc > cap {
            proof {
                if all_digits(t) {
                    lemma_digits_value_prefix_le(t, i + 1 - lo);
                }
            }
            return None;
        }
        i = i + 1;
    }
    proof {
        assert(t.take(hi - lo) =~= t);
    }
    Some(acc)
}

/// `10^k`.
pub open spec fn pow10(k: nat) -> int
    decreases k,
{
    if k == 0 {
        1
    } else {
        10 * pow10((k - 1) as nat)
    }
}

/// Index of the first `.` in the field, or -1 if there is none.
pub open spec fn find_dot(s: Seq<u8>) -> int
    decreases s.len(),
{
    if s.len() == 0 {
        -1
    } else if s[0] == 46 {
        0
    } else {
        let r = find_dot(s.drop_first());
        if r < 0 {
            -1
        } else {
            r + 1
        }
    }
}

/// Value, in ten-thousandths, of an unsigned decimal literal: a nonempty
/// integer part of at most `MAX_INTEGER_PART`, optionally followed by a
/// dot and one to four fractional digits.
pub open spec fn magnitude_value(u: Seq<u8>) -> Option<int> {
    let d = find_dot(u);
    if d < 0 {
        if u.len() > 0 && all_digits(u) && digits_value(u) <= MAX_INTEGER_PART {
            Option::Some(digits_value(u) * 10_000)
        } else {
            Option::None
        }
    } else {
        let ip = u.take(d);
        let fp = u.skip(d + 1);
        if ip.len() > 0 && all_digits(ip) && digits_value(ip) <= MAX_INTEGER_PART && 1 <= fp.len()
            <= 4 && all_digits(fp) {
            Option::Some(digits_value(ip) * 10_000 + digits_value(fp) * pow10((4 - fp.len()) as nat))
        } else {
            Option::None
        }
    }
}

/// Value, in ten-thousandths, of a decimal amount field: an optional
/// leading minus sign before an unsigned decimal literal, with blanks
/// allowed around the whole field.
pub open spec fn amount_value(s: Seq<u8>) -> Option<int> {
    let t = trim_ws(s);
    if t.len() > 0 && t[0] == 45 {
        match magnitude_value(t.drop_first()) {
            Option::Some(v) => Option::Some(-v),
            Option::None => Option::None,
        }
    } else {
        magnitude_value(t)
    }
}

proof fn lemma_find_dot_none(u: Seq<u8>)
    requires
        forall|j: int| 0 <= j < u.len() ==> u[j] != 46,
    ensures
        find_dot(u) == -1,
    decreases u.len(),
{
    if u.len() > 0 {
        lemma_find_dot_none(u.drop_first());
    }
}

proof fn lemma_find_dot_at(u: Seq<u8>, k: int)
    requires
        0 <= k < u.len(),
        u[k] == 46,
        forall|j: int| 0 <= j < k ==> u[j] != 46,
    ensures
        find_dot(u) == k,
    decreases k,
{
    if k > 0 {
        lemma_find_dot_at(u.drop_first(), k - 1);
    }
}

/// A digit string of length `l` has value below `10^l`.
proof fn lemma_digits_value_bound(s: Seq<u8>)
    requires
        all_digits(s),
    ensures
        digits_value(s) < pow10(s.len()),
    decreases s.len(),
{
    if s.len() > 0 {
        assert(is_digit(s[s.len() - 1]));
        assert(all_digits(s.drop_last())) by {
            assert(forall|i: int| 0 <= i < s.len() - 1 ==> s.drop_last()[i] == s[i]);
        }
        lemma_digits_value_bound(s.drop_last());
    }
}

/// Parse the unsigned decimal literal in `s[lo..hi]`, yielding its value
/// in ten-thousandths.
fn parse_magnitude(s: &[u8], lo: usize, hi: usize) -> (r: Option<i128>)
    requires
        lo <= hi <= s@.len(),
    ensures
        ({
            let u = s@.subrange(lo as int, hi as int);
            match r {
                Some(v) => magnitude_value(u) == Option::Some(v as int) && 0 <= v
                    < 20_000_000_000_000_000_000_000i128,
                None => magnitude_value(u) is None,
            }
        }),
{
    let ghost u = s@.subrange(lo as int, hi as int);
    let mut i: usize = lo;
    while i < hi && s[i] != 46
        invariant
            lo <= i <= hi <= s@.len(),
            forall|j: int| lo <= j < i ==> s@[j] != 46,
        decreases hi - i,
    {
        i = i + 1;
    }
    if i == hi {
        proof {
            assert forall|j: int| 0 <= j < u.len() implies u[j] != 46 by {
                assert(u[j] == s@[lo + j]);
            }
            lemma_find_dot_none(u);
        }
        match parse_digits(s, lo, hi, MAX_INTEGER_PART) {
            Some(v) => Some((v as i128) * 10_000),
            None => None,
        }
    } else {
        proof {
            assert(u[i - lo] == 46);
            assert forall|j: int| 0 <= j < i - lo implies u[j] != 46 by {
                assert(u[j] == s@[lo + j]);
            }
            lemma_find_dot_at(u, i - lo);
            assert(u.take(i - lo) =~= s@.subrange(lo as int, i as int));
            assert(u.skip(i - lo + 1) =~= s@.subrange(i as int + 1, hi as int));
        }
        let fplen = hi - (i + 1);
        if fplen < 1 || fplen > 4 {
            return None;
        }
        let scale: u64 = if fplen == 1 {
            1000
        } else if fplen == 2 {
            100
        } else if fplen == 3 {
            10
        } else {
            1
        };
        proof {
            assert(pow10(0) == 1);
            assert(pow10(1) == 10);
            assert(pow10(2) == 100);
            assert(pow10(3) == 1000);
            assert(pow10(4) == 10000);
            assert(scale == pow10((4 - fplen) as nat));
        }
        match parse_digits(s, lo, i, MAX_INTEGER_PART) {
            Some(ipv) => match parse_digits(s, i + 1, hi, 9999) {
                Some(fpv) => Some((ipv as i128) * 10_000 + (fpv as i128) * (scale as i128)),
                None => {
                    proof {
                        let fp = u.skip(i - lo + 1);
                        if all_digits(fp) {
                            lemma_digits_value_bound(fp);
                        }
                    }
                    None
                },
            },
            None => None,
        }
    }
}

/// Parse a signed decimal amount field (blanks allowed; up to four
/// fractional digits).
pub fn parse_amount(s: &[u8]) -> (r: Option<Amount>)
    ensures
        match r {
            Some(a) => amount_value(s@) == Option::Some(a@),
            None => amount_value(s@) is None,
        },
{
    let (lo, hi) = trim_bounds(s);
    if lo < hi && s[lo] == 45 {
        proof {
            assert(trim_ws(s@)[0] == s@[lo as int]);
            assert(trim_ws(s@).drop_first() =~= s@.subrange(lo as int + 1, hi as int));
        }
        match parse_magnitude(s, lo + 1, hi) {
            Some(v) => Some(Amount { units: -v }),
            None => None,
        }
    } else {
        proof {
            if lo < hi {
                assert(trim_ws(s@)[0] == s@[lo as int]);
            }
        }
        match parse_magnitude(s, lo, hi) {
            Some(v) => Some(Amount { units: v }),
            None => None,
        }
    }
}

/// Parse an unsigned 16-bit decimal field (blanks allowed).
pub fn parse_u16(s: &[u8]) -> (r: Option<u16>)
    ensures
        match r {
            Some(v) => uint_value(s@, u16::MAX as int) == Option::Some(v as int),
            None => uint_value(s@, u16::MAX as int) is None,
        },
{
    let (lo, hi) = trim_bounds(s);
    match parse_digits(s, lo, hi, 65535) {
        Some(v) => Some(v as u16),
        None => None,
    }
}

/// Parse an unsigned 32-bit decimal field (blanks allowed).
pub fn parse_u32(s: &[u8]) -> (r: Option<u32>)
    ensures
        match r {
            Some(v) => uint_value(s@, u32::MAX as int) == Option::Some(v as int),
            None => uint_value(s@, u32::MAX as int) is None,
        },
{
    let (lo, hi) = trim_bounds(s);
    match parse_digits(s, lo, hi, 4294967295) {
        Some(v) => Some(v as u32),
        None => None,
    }
}

/// Lower-case image of an ASCII byte; other bytes are unchanged.
pub open spec fn ascii_lower(b: u8) -> u8 {
    if 65 <= b <= 90 {
        (b + 32) as u8
    } else {
        b
    }
}

/// The field equals the (lower-case) pattern, ignoring ASCII case.
pub open spec fn lower_eq(s: Seq<u8>, t: Seq<u8>) -> bool {
    s.len() == t.len() && forall|i: int| 0 <= i < s.len() ==> ascii_lower(#[trigger] s[i]) == t[i]
}

/// The ASCII bytes of `deposit`.
pub open spec fn deposit_bytes() -> Seq<u8> {
    seq![100, 101, 112, 111, 115, 105, 116]
}

/// The ASCII bytes of `withdrawal`.
pub open spec fn withdrawal_bytes() -> Seq<u8> {
    seq![119, 105, 116, 104, 100, 114, 97, 119, 97, 108]
}

/// The ASCII bytes of `dispute`.
pub open spec fn dispute_bytes() -> Seq<u8> {
    seq![100, 105, 115, 112, 117, 116, 101]
}

/// The ASCII bytes of `resolve`.
pub open spec fn resolve_bytes() -> Seq<u8> {
    seq![114, 101, 115, 111, 108, 118, 101]
}

/// The ASCII bytes of `chargeback`.
pub open spec fn chargeback_bytes() -> Seq<u8> {
    seq![99, 104, 97, 114, 103, 101, 98, 97, 99, 107]
}

/// The ASCII bytes of `type`.
pub open spec fn type_bytes() -> Seq<u8> {
    seq![116, 121, 112, 101]
}

/// The transaction kind named by the field, matched without regard to
/// ASCII case, with blanks allowed.
pub open spec fn tx_type_of(s: Seq<u8>) -> Option<TxType> {
    let t = trim_ws(s);
    if lower_eq(t, deposit_bytes()) {
        Option::Some(TxType::Deposit)
    } else if lower_eq(t, withdrawal_bytes()) {
        Option::Some(TxType::Withdrawal)
    } else if lower_eq(t, dispute_bytes()) {
        Option::Some(TxType::Dispute)
    } else if lower_eq(t, resolve_bytes()) {
        Option::Some(TxType::Resolve)
    } else if lower_eq(t, chargeback_bytes()) {
        Option::Some(TxType::Chargeback)
    } else {
        Option::None
    }
}

/// Case-insensitive comparison of `s[lo..hi]` against a lower-case
/// pattern.
fn eq_ignore_case(s: &[u8], lo: usize, hi: usize, t: &Vec<u8>) -> (r: bool)
    requires
        lo <= hi <= s@.len(),
    ensures
        r == lower_eq(s@.subrange(lo as int, hi as int), t@),
{
    let ghost u = s@.subrange(lo as int, hi as int);
    if hi - lo != t.len() {
        return false;
    }
    let mut i: usize = 0;
    while i < t.len()
        invariant
            0 <= i <= t@.len(),
            lo <= hi <= s@.len(),
            hi - lo == t@.len(),
            u == s@.subrange(lo as int, hi as int),
            forall|j: int| 0 <= j < i ==> ascii_lower(#[trigger] u[j]) == t@[j],
        decreases t@.len() - i,
    {
        let b = s[lo + i];
        let low = if 65 <= b && b <= 90 {
            b + 32
        } else {
            b
        };
        proof {
            assert(u[i as int] == b);
            assert(low == ascii_lower(b));
        }
        if low != t[i] {
            return false;
        }
        i = i + 1;
    }
    true
}

/// Parse the `type` column (blanks allowed, case-insensitive).
pub fn parse_tx_type(s: &[u8]) -> (r: Option<TxType>)
    ensures
        r == tx_type_of(s@),
{
    let (lo, hi) = trim_bounds(s);
    let deposit: Vec<u8> = vec![100, 101, 112, 111, 115, 105, 116];
    let withdrawal: Vec<u8> = vec![119, 105, 116, 104, 100, 114, 97, 119, 97, 108];
    let dispute: Vec<u8> = vec![100, 105, 115, 112, 117, 116, 101];
    let resolve: Vec<u8> = vec![114, 101, 115, 111, 108, 118, 101];
    let chargeback: Vec<u8> = vec![99, 104, 97, 114, 103, 101, 98, 97, 99, 107];
    proof {
        assert(deposit@ =~= deposit_bytes());
        assert(withdrawal@ =~= withdrawal_bytes());
        assert(dispute@ =~= dispute_bytes());
        assert(resolve@ =~= resolve_bytes());
        assert(chargeback@ =~= chargeback_bytes());
    }
    if eq_ignore_case(s, lo, hi, &deposit) {
        Some(TxType::Deposit)
    } else if eq_ignore_case(s, lo, hi, &withdrawal) {
        Some(TxType::Withdrawal)
    } else if eq_ignore_case(s, lo, hi, &dispute) {
        Some(TxType::Dispute)
    } else if eq_ignore_case(s, lo, hi, &resolve) {
        Some(TxType::Resolve)
    } else if eq_ignore_case(s, lo, hi, &chargeback) {
        Some(TxType::Chargeback)
    } else {
        None
    }
}

/// Whether a header row starts with the required `type` column (blanks
/// allowed, case-insensitive).
pub fn header_ok(fields: &Vec<Vec<u8>>) -> (r: bool)
    ensures
        r == (fields@.len() >= 1 && lower_eq(trim_ws(fields@[0]@), type_bytes())),
{
    if fields.len() < 1 {
        return false;
    }
    let first = &fields[0];
    let (lo, hi) = trim_bounds(first.as_slice());
    let type_pat: Vec<u8> = vec![116, 121, 112, 101];
    proof {
        assert(type_pat@ =~= type_bytes());
    }
    eq_ignore_case(first.as_slice(), lo, hi, &type_pat)
}

/// Whether a record's fixed columns (count, type, client, tx id) are
/// well-formed.
pub open spec fn record_shape_ok(fields: Seq<Vec<u8>>) -> bool {
    &&& fields.len() == 4
    &&& tx_type_of(fields[0]@) is Some
    &&& uint_value(fields[1]@, u16::MAX as int) is Some
    &&& uint_value(fields[2]@, u32::MAX as int) is Some
}

/// Parse one data record: the four columns `type, client, tx, amount`.
/// A wrong column count or a bad type, client or tx column is
/// `RecordMalformed`; a non-empty amount column that is not a valid
/// decimal is `AmountMalformed`; an empty amount column parses as an
/// absent amount.
pub fn parse_record(fields: &Vec<Vec<u8>>) -> (r: Result<Transaction, TxError>)
    ensures
        match r {
            Ok(tx) => {
                &&& record_shape_ok(fields@)
                &&& tx_type_of(fields@[0]@) == Option::Some(tx.tx_type)
                &&& uint_value(fields@[1]@, u16::MAX as int) == Option::Some(tx.client as int)
                &&& uint_value(fields@[2]@, u32::MAX as int) == Option::Some(tx.tx_id as int)
                &&& match tx.amount {
                    Option::Some(a) => trim_ws(fields@[3]@).len() > 0 && amount_value(fields@[3]@)
                        == Option::Some(a@),
                    Option::None => trim_ws(fields@[3]@).len() == 0,
                }
            },
            Err(e) => {
                &&& (e == TxError::RecordMalformed <==> !record_shape_ok(fields@))
                &&& (e == TxError::AmountMalformed <==> record_shape_ok(fields@) && trim_ws(
                    fields@[3]@,
                ).len() > 0 && amount_value(fields@[3]@) is None)
                &&& (e == TxError::RecordMalformed || e == TxError::AmountMalformed)
            },
        },
{
    if fields.len() != 4 {
        return Err(TxError::RecordMalformed);
    }
    let tx_type = match parse_tx_type(fields[0].as_slice()) {
        Some(t) => t,
        None => {
            return Err(TxError::RecordMalformed);
        },
    };
    let client = match parse_u16(fields[1].as_slice()) {
        Some(c) => c,
        None => {
            return Err(TxError::RecordMalformed);
        },
    };
    let tx_id = match parse_u32(fields[2].as_slice()) {
        Some(t) => t,
        None => {
            return Err(TxError::RecordMalformed);
        },
    };
    let amount_field = &fields[3];
    let (lo, hi) = trim_bounds(amount_field.as_slice());
    let amount = if lo == hi {
        None
    } else {
        match parse_amount(amount_field.as_slice()) {
            Some(a) => Some(a),
            None => {
                return Err(TxError::AmountMalformed);
            },
        }
    };
    Ok(Transaction { tx_type, client, tx_id, amount })
}

} // verus!
