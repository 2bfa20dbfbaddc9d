//! The payload format of the reserved connection kind.
//!
//! A connection event's `data` string carries a tagged union: either a link
//! to a counterpart record (`experience:<id>`) or a creation marker
//! (`create:i<millis>` for an instant, `create:p<start>,<end>` for a
//! period). The codec here is total in both directions: `parse` recognises
//! exactly the strings `encode` produces, and anything else is rejected.

use vstd::prelude::*;

use crate::types::{CompressedExperienceEvent, CompressedExperienceEventV, Timing};

verus! {

/// The decimal digit character for `d` (meaningful for `d < 10`).
pub open spec fn digit_char(d: nat) -> char {
    if d == 0 {
        '0'
    } else if d == 1 {
        '1'
    } else if d == 2 {
        '2'
    } else if d == 3 {
        '3'
    } else if d == 4 {
        '4'
    } else if d == 5 {
        '5'
    } else if d == 6 {
        '6'
    } else if d == 7 {
        '7'
    } else if d == 8 {
        '8'
    } else {
        '9'
    }
}

pub open spec fn is_digit_char(c: char) -> bool {
    '0' as u32 <= c as u32 <= '9' as u32
}

/// The numeric value of a digit character.
pub open spec fn digit_value(c: char) -> nat {
    (c as u32 - '0' as u32) as nat
}

/// The canonical decimal rendering of `n`: no sign, no leading zeros
/// (except for `n == 0` itself).
pub open spec fn dec_digits(n: nat) -> Seq<char>
    decreases n,
{
    if n < 10 {
        seq![digit_char(n)]
    } else {
        dec_digits(n / 10).push(digit_char(n % 10))
    }
}

pub open spec fn all_digit_chars(s: Seq<char>) -> bool {
    forall|i: int| 0 <= i < s.len() ==> is_digit_char(#[trigger] s[i])
}

/// The numeric value of a digit string (0 for the empty string).
pub open spec fn dec_value(s: Seq<char>) -> nat
    decreases s.len(),
{
    if s.len() == 0 {
        0
    } else {
        dec_value(s.drop_last()) * 10 + digit_value(s.last())
    }
}

/// What parsing an unsigned decimal string yields: the value, if the string
/// is non-empty, all digits, and the value fits in `u64`.
pub open spec fn parse_u64_spec(s: Seq<char>) -> Option<u64> {
    if s.len() > 0 && all_digit_chars(s) && dec_value(s) <= u64::MAX {
        Some(dec_value(s) as u64)
    } else {
        None
    }
}

/// The decimal rendering of a signed value: a `-` before the magnitude for
/// negative values.
pub open spec fn signed_digits(v: int) -> Seq<char> {
    if v < 0 {
        seq!['-'] + dec_digits((-v) as nat)
    } else {
        dec_digits(v as nat)
    }
}

/// What parsing a signed decimal string yields, rejecting values outside
/// `i64`'s range and a bare or misplaced sign.
pub open spec fn parse_i64_spec(s: Seq<char>) -> Option<i64> {
    if s.len() > 0 && s[0] == '-' {
        match parse_u64_spec(s.skip(1)) {
            Some(m) => if m <= i64::MAX as u64 + 1 && m > 0 {
                Some((-(m as int)) as i64)
            } else {
                None
            },
            None => None,
        }
    } else {
        match parse_u64_spec(s) {
            Some(m) => if m <= i64::MAX as u64 {
                Some(m as i64)
            } else {
                None
            },
            None => None,
        }
    }
}

pub open spec fn encode_timing_spec(t: Timing) -> Seq<char> {
    match t {
        Timing::Instant(ms) => seq!['i'] + signed_digits(ms as int),
        Timing::Period(a, b) => seq!['p'] + signed_digits(a as int) + seq![','] + signed_digits(
            b as int,
        ),
    }
}

/// The index of the first `,` in `s`, or `s.len()` if there is none.
pub open spec fn first_comma(s: Seq<char>) -> int
    decreases s.len(),
{
    if s.len() == 0 {
        0
    } else if s[0] == ',' {
        0
    } else {
        1 + first_comma(s.skip(1))
    }
}

pub open spec fn parse_timing_spec(s: Seq<char>) -> Option<Timing> {
    if s.len() == 0 {
        None
    } else if s[0] == 'i' {
        match parse_i64_spec(s.skip(1)) {
            Some(ms) => Some(Timing::Instant(ms)),
            None => None,
        }
    } else if s[0] == 'p' {
        let body = s.skip(1);
        let k = first_comma(body);
        if k < body.len() {
            match (parse_i64_spec(body.take(k)), parse_i64_spec(body.skip(k + 1))) {
                (Some(a), Some(b)) => Some(Timing::Period(a, b)),
                _ => None,
            }
        } else {
            None
        }
    } else {
        None
    }
}

pub open spec fn encode_payload_spec(p: CompressedExperienceEventV) -> Seq<char> {
    match p {
        CompressedExperienceEventV::Experience(id) => "experience:"@ + id,
        CompressedExperienceEventV::Create(t) => "create:"@ + encode_timing_spec(t),
    }
}

pub open spec fn parse_payload_spec(s: Seq<char>) -> Option<CompressedExperienceEventV> {
    if s.len() >= 11 && s.take(11) == "experience:"@ {
        Some(CompressedExperienceEventV::Experience(s.skip(11)))
    } else if s.len() >= 7 && s.take(7) == "create:"@ {
        match parse_timing_spec(s.skip(7)) {
            Some(t) => Some(CompressedExperienceEventV::Create(t)),
            None => None,
        }
    } else {
        None
    }
}

/// The single-character string for digit `d`.
fn digit_str(d: u64) -> (r: &'static str)
    requires
        d < 10,
    ensures
        r@ =~= seq![digit_char(d as nat)],
{
    proof {
        reveal_strlit("0");
        reveal_strlit("1");
        reveal_strlit("2");
        reveal_strlit("3");
        reveal_strlit("4");
        reveal_strlit("5");
        reveal_strlit("6");
        reveal_strlit("7");
        reveal_strlit("8");
        reveal_strlit("9");
    }
    if d == 0 {
        "0"
    } else if d == 1 {
        "1"
    } else if d == 2 {
        "2"
    } else if d == 3 {
        "3"
    } else if d == 4 {
        "4"
    } else if d == 5 {
        "5"
    } else if d == 6 {
        "6"
    } else if d == 7 {
        "7"
    } else if d == 8 {
        "8"
    } else {
        "9"
    }
}

/// Renders `n` in decimal.
pub fn u64_to_decimal(n: u64) -> (r: String)
    ensures
        r@ == dec_digits(n as nat),
{
    let mut digits: Vec<u64> = Vec::new();
    let mut m: u64 = n;
    proof {
        assert(dec_digits(n as nat) =~= dec_digits(n as nat) + rev_digit_chars(digits@));
    }
    loop
        invariant_except_break
            m == 0 ==> digits@.len() == 0 && n == 0,
            forall|i: int| 0 <= i < digits@.len() ==> #[trigger] digits@[i] < 10,
            dec_digits(n as nat) == dec_digits(m as nat) + rev_digit_chars(digits@),
        ensures
            forall|i: int| 0 <= i < digits@.len() ==> #[trigger] digits@[i] < 10,
            dec_digits(n as nat) == rev_digit_chars(digits@),
        decreases m,
    {
        let ghost pre = digits@;
        let d = m % 10;
        digits.push(d);
        proof {
            assert(rev_digit_chars(digits@) =~= seq![digit_char(d as nat)] + rev_digit_chars(pre));
        }
        if m < 10 {
            proof {
                assert(dec_digits(m as nat) == seq![digit_char(m as nat)]);
                assert(dec_digits(m as nat) + rev_digit_chars(pre) =~= rev_digit_chars(digits@));
            }
            break ;
        }
        proof {
            assert(dec_digits(m as nat) == dec_digits((m / 10) as nat).push(
                digit_char((m % 10) as nat),
            ));
            assert(dec_digits((m / 10) as nat) + rev_digit_chars(digits@) =~= (dec_digits(
                (m / 10) as nat,
            ).push(digit_char(d as nat))) + rev_digit_chars(pre));
        }
        m = m / 10;
    }
    let mut r = String::new();
    let mut k: usize = digits.len();
    while k > 0
        invariant
            k <= digits@.len(),
            forall|i: int| 0 <= i < digits@.len() ==> #[trigger] digits@[i] < 10,
            r@ =~= rev_digit_chars(digits@).take(digits@.len() - k),
        decreases k,
    {
        k = k - 1;
        let ghost pre = r@;
        r.append(digit_str(digits[k]));
        proof {
            assert(r@ =~= rev_digit_chars(digits@).take(digits@.len() - k));
        }
    }
    proof {
        assert(rev_digit_chars(digits@).take(digits@.len() - 0) =~= rev_digit_chars(digits@));
    }
    r
}

/// The digit characters of `ds` in reverse order.
pub open spec fn rev_digit_chars(ds: Seq<u64>) -> Seq<char> {
    Seq::new(ds.len(), |i: int| digit_char(ds[ds.len() - 1 - i] as nat))
}

/// A later prefix of a digit string never has a smaller value.
proof fn lemma_dec_value_prefix_le(s: Seq<char>, i: int, j: int)
    requires
        0 <= i <= j <= s.len(),
    ensures
        dec_value(s.take(i)) <= dec_value(s.take(j)),
    decreases j - i,
{
    if i < j {
        lemma_dec_value_prefix_le(s, i, j - 1);
        assert(s.take(j).drop_last() =~= s.take(j - 1));
        assert(dec_value(s.take(j)) == dec_value(s.take(j - 1)) * 10 + digit_value(s.take(j)[j - 1]));
    }
}

/// Parses an unsigned decimal string.
pub fn parse_u64(s: &str) -> (r: Option<u64>)
    ensures
        r == parse_u64_spec(s@),
{
    let len = s.unicode_len();
    if len == 0 {
        return None;
    }
    let mut acc: u64 = 0;
    let mut i: usize = 0;
    while i < len
        invariant
            len == s@.len(),
            i <= len,
            all_digit_chars(s@.take(i as int)),
            acc == dec_value(s@.take(i as int)),
        decreases len - i,
    {
        let c = s.get_char(i);
        let cu = c as u32;
        if cu < '0' as u32 || cu > '9' as u32 {
            proof {
                assert(!is_digit_char(s@[i as int]));
            }
            return None;
        }
        let d: u64 = (cu - '0' as u32) as u64;
        proof {
            assert(s@.take(i + 1).drop_last() =~= s@.take(i as int));
            assert(s@.take(i + 1).last() == c);
            assert(all_digit_chars(s@.take(i + 1)));
        }
        if acc > (u64::MAX - d) / 10 {
            proof {
                let m = u64::MAX as int;
                assert(acc * 10 + d > m) by (nonlinear_arith)
                    requires
                        acc > (m - d) / 10,
                        0 <= d < 10,
                        m == u64::MAX as int,
                        acc >= 0,
                ;
                assert(dec_value(s@.take(i + 1)) > u64::MAX);
                lemma_dec_value_prefix_le(s@, i + 1, len as int);
                assert(s@.take(len as int) =~= s@);
            }
            return None;
        }
        proof {
            let m = u64::MAX as int;
            assert(acc * 10 + d <= m) by (nonlinear_arith)
                requires
                    acc <= (m - d) / 10,
                    0 <= d < 10,
                    m == u64::MAX as int,
                    acc >= 0,
            ;
        }
        acc = acc * 10 + d;
        i += 1;
    }
    proof {
        assert(s@.take(len as int) =~= s@);
    }
    Some(acc)
}

/// Parses a signed decimal string.
pub fn parse_i64(s: &str) -> (r: Option<i64>)
    ensures
        r == parse_i64_spec(s@),
{
    let len = s.unicode_len();
    if len > 0 && s.get_char(0) == '-' {
        let rest = s.substring_char(1, len);
        proof {
            assert(rest@ =~= s@.skip(1));
        }
        match parse_u64(rest) {
            Some(m) => {
                if m <= 9223372036854775808u64 && m > 0 {
                    let v: i64 = if m == 9223372036854775808u64 {
                        i64::MIN
                    } else {
                        -((m as i64))
                    };
                    Some(v)
                } else {
                    None
                }
            },
            None => None,
        }
    } else {
        match parse_u64(s) {
            Some(m) => {
                if m <= i64::MAX as u64 {
                    Some(m as i64)
                } else {
                    None
                }
            },
            None => None,
        }
    }
}

/// Renders `v` in decimal, with a leading `-` for negative values.
pub fn i64_to_decimal(v: i64) -> (r: String)
    ensures
        r@ == signed_digits(v as int),
{
    if v >= 0 {
        u64_to_decimal(v as u64)
    } else {
        let mag: u64 = if v == i64::MIN {
            9223372036854775808u64
        } else {
            (-v) as u64
        };
        proof {
            assert(mag as int == -(v as int));
        }
        let mut r = String::from_str("-");
        r.append(u64_to_decimal(mag).as_str());
        proof {
            reveal_strlit("-");
            assert(r@ =~= seq!['-'] + dec_digits(mag as nat));
        }
        r
    }
}

/// Renders a timing.
pub fn encode_timing(t: &Timing) -> (r: String)
    ensures
        r@ == encode_timing_spec(*t),
{
    proof {
        reveal_strlit("i");
        reveal_strlit("p");
        reveal_strlit(",");
    }
    match t {
        Timing::Instant(ms) => {
            let mut r = String::from_str("i");
            r.append(i64_to_decimal(*ms).as_str());
            proof {
                assert(r@ =~= seq!['i'] + signed_digits(*ms as int));
            }
            r
        },
        Timing::Period(a, b) => {
            let mut r = String::from_str("p");
            r.append(i64_to_decimal(*a).as_str());
            r.append(",");
            r.append(i64_to_decimal(*b).as_str());
            proof {
                assert(r@ =~= seq!['p'] + signed_digits(*a as int) + seq![','] + signed_digits(
                    *b as int,
                ));
            }
            r
        },
    }
}

/// Renders a connection payload into its `data` string.
pub fn encode_connection_payload(p: &CompressedExperienceEvent) -> (r: String)
    ensures
        r@ == encode_payload_spec(p.deep_view()),
{
    match p {
        CompressedExperienceEvent::Experience(id) => {
            let mut r = String::from_str("experience:");
            r.append(id.as_str());
            r
        },
        CompressedExperienceEvent::Create(t) => {
            let mut r = String::from_str("create:");
            r.append(encode_timing(t).as_str());
            r
        },
    }
}

/// `first_comma` is the least index holding a comma, or the length.
proof fn lemma_first_comma(s: Seq<char>)
    ensures
        0 <= first_comma(s) <= s.len(),
        forall|i: int| 0 <= i < first_comma(s) ==> s[i] != ',',
        first_comma(s) < s.len() ==> s[first_comma(s)] == ',',
    decreases s.len(),
{
    if s.len() > 0 && s[0] != ',' {
        lemma_first_comma(s.skip(1));
        assert forall|i: int| 0 <= i < first_comma(s) implies s[i] != ',' by {
            if i > 0 {
                assert(s.skip(1)[i - 1] == s[i]);
            }
        }
        if first_comma(s) < s.len() {
            assert(s.skip(1)[first_comma(s) - 1] == s[first_comma(s)]);
        }
    }
}

/// Parses a timing string.
pub fn parse_timing(s: &str) -> (r: Option<Timing>)
    ensures
        r == parse_timing_spec(s@),
{
    let len = s.unicode_len();
    if len == 0 {
        return None;
    }
    let c0 = s.get_char(0);
    if c0 == 'i' {
        let rest = s.substring_char(1, len);
        proof {
            assert(rest@ =~= s@.skip(1));
        }
        match parse_i64(rest) {
            Some(ms) => Some(Timing::Instant(ms)),
            None => None,
        }
    } else if c0 == 'p' {
        proof {
            lemma_first_comma(s@.skip(1));
        }
        let ghost body = s@.skip(1);
        let mut i: usize = 1;
        while i < len && s.get_char(i) != ','
            invariant
                1 <= i <= len,
                len == s@.len(),
                forall|j: int| 1 <= j < i ==> s@[j] != ',',
            decreases len - i,
        {
            i += 1;
        }
        proof {
            assert forall|j: int| 0 <= j < i - 1 implies body[j] != ',' by {
                assert(body[j] == s@[j + 1]);
            }
            if i < len {
                assert(body[i - 1] == s@[i as int]);
            }
            // the scan found exactly the first comma of the body
            let k = first_comma(body);
            if k < i - 1 {
                assert(body[k] == ',');
                assert(false);
            }
            if k > i - 1 {
                if i < len {
                    assert(body[i - 1] != ',');
                    assert(false);
                }
            }
            assert(i < len ==> k == i - 1);
            assert(i == len ==> k >= i - 1 && k == body.len());
        }
        if i == len {
            return None;
        }
        let left = s.substring_char(1, i);
        let right = s.substring_char(i + 1, len);
        proof {
            assert(left@ =~= body.take(first_comma(body)));
            assert(right@ =~= body.skip(first_comma(body) + 1));
        }
        match (parse_i64(left), parse_i64(right)) {
            (Some(a), Some(b)) => Some(Timing::Period(a, b)),
            _ => None,
        }
    } else {
        None
    }
}

/// Parses a connection payload `data` string.
pub fn parse_connection_payload(s: &str) -> (r: Option<CompressedExperienceEvent>)
    ensures
        match r {
            Some(p) => parse_payload_spec(s@) == Some(p.deep_view()),
            None => parse_payload_spec(s@) is None,
        },
{
    proof {
        reveal_strlit("experience:");
        reveal_strlit("create:");
    }
    let len = s.unicode_len();
    if len >= 11 {
        let head = String::from_str(s.substring_char(0, 11));
        let lit = String::from_str("experience:");
        if head == lit {
            proof {
                assert(s@.take(11) =~= head@);
            }
            let id = String::from_str(s.substring_char(11, len));
            proof {
                assert(id@ =~= s@.skip(11));
            }
            return Some(CompressedExperienceEvent::Experience(id));
        }
        proof {
            assert(s@.take(11) =~= head@ || s@.take(11) != "experience:"@);
        }
    }
    proof {
        if s@.len() >= 11 && s@.take(11) == "experience:"@ {
            assert(s@.take(11)[0] == s@[0]);
            assert(false);
        }
    }
    if len >= 7 {
        let head = String::from_str(s.substring_char(0, 7));
        let lit = String::from_str("create:");
        if head == lit {
            proof {
                assert(s@.take(7) =~= head@);
            }
            let rest = s.substring_char(7, len);
            proof {
                assert(rest@ =~= s@.skip(7));
            }
            return match parse_timing(rest) {
                Some(t) => Some(CompressedExperienceEvent::Create(t)),
                None => None,
            };
        }
        proof {
            if s@.take(7) == "create:"@ {
                assert(s@.take(7) =~= head@);
                assert(false);
            }
        }
    }
    None
}

/// Law: the decimal rendering of `n` is all digits and evaluates back to `n`.
pub proof fn lemma_dec_digits_round_trip(n: nat)
    ensures
        dec_digits(n).len() > 0,
        all_digit_chars(dec_digits(n)),
        dec_value(dec_digits(n)) == n,
    decreases n,
{
    if n < 10 {
        assert(dec_value(seq![digit_char(n)].drop_last()) == 0);
    } else {
        lemma_dec_digits_round_trip(n / 10);
        let s = dec_digits(n);
        assert(s == dec_digits(n / 10).push(digit_char(n % 10)));
        assert(s.drop_last() =~= dec_digits(n / 10));
        assert(all_digit_chars(s)) by {
            assert forall|i: int| 0 <= i < s.len() implies is_digit_char(#[trigger] s[i]) by {
                if i < s.len() - 1 {
                    assert(s[i] == dec_digits(n / 10)[i]);
                }
            }
        }
        assert(dec_value(s) == dec_value(dec_digits(n / 10)) * 10 + digit_value(digit_char(n % 10)));
        assert(n / 10 * 10 + n % 10 == n) by (nonlinear_arith);
    }
}

/// Law: the signed decimal rendering of any `i64` parses back to it.
pub proof fn lemma_signed_digits_round_trip(v: i64)
    ensures
        signed_digits(v as int).len() > 0,
        parse_i64_spec(signed_digits(v as int)) == Some(v),
        forall|i: int|
            0 <= i < signed_digits(v as int).len() ==> (is_digit_char(
                #[trigger] signed_digits(v as int)[i],
            ) || signed_digits(v as int)[i] == '-'),
{
    let s = signed_digits(v as int);
    if v >= 0 {
        lemma_dec_digits_round_trip(v as nat);
        assert(is_digit_char(s[0]));
        assert(s[0] != '-');
    } else {
        let m = (-(v as int)) as nat;
        lemma_dec_digits_round_trip(m);
        assert(s[0] == '-');
        assert(s.skip(1) =~= dec_digits(m));
        assert(forall|i: int|
            0 <= i < s.len() ==> (is_digit_char(#[trigger] s[i]) || s[i] == '-')) by {
            assert(forall|i: int| 1 <= i < s.len() ==> #[trigger] s[i] == dec_digits(m)[i - 1]);
        }
    }
}

/// When a comma-free prefix is followed by a comma, `first_comma` finds it.
proof fn lemma_first_comma_concat(t: Seq<char>, u: Seq<char>)
    requires
        forall|i: int| 0 <= i < t.len() ==> t[i] != ',',
    ensures
        first_comma(t + seq![','] + u) == t.len(),
    decreases t.len(),
{
    let s = t + seq![','] + u;
    if t.len() == 0 {
        assert(s[0] == ',');
    } else {
        assert(s[0] == t[0]);
        lemma_first_comma_concat(t.skip(1), u);
        assert(s.skip(1) =~= t.skip(1) + seq![','] + u);
    }
}

/// Law: an encoded timing parses back to itself.
pub proof fn lemma_timing_round_trip(t: Timing)
    ensures
        parse_timing_spec(encode_timing_spec(t)) == Some(t),
{
    match t {
        Timing::Instant(ms) => {
            let s = encode_timing_spec(t);
            lemma_signed_digits_round_trip(ms);
            assert(s[0] == 'i');
            assert(s.skip(1) =~= signed_digits(ms as int));
        },
        Timing::Period(a, b) => {
            let s = encode_timing_spec(t);
            lemma_signed_digits_round_trip(a);
            lemma_signed_digits_round_trip(b);
            assert(s[0] == 'p');
            let body = s.skip(1);
            let sa = signed_digits(a as int);
            let sb = signed_digits(b as int);
            assert(body =~= sa + seq![','] + sb);
            assert(forall|i: int| 0 <= i < sa.len() ==> sa[i] != ',');
            lemma_first_comma_concat(sa, sb);
            let k = first_comma(body);
            assert(k == sa.len());
            assert(body.take(k) =~= sa);
            assert(body.skip(k + 1) =~= sb);
        },
    }
}

/// Law: an encoded connection payload parses back to itself; the codec loses
/// nothing.
pub proof fn lemma_payload_round_trip(p: CompressedExperienceEventV)
    ensures
        parse_payload_spec(encode_payload_spec(p)) == Some(p),
{
    reveal_strlit("experience:");
    reveal_strlit("create:");
    match p {
        CompressedExperienceEventV::Experience(id) => {
            let s = encode_payload_spec(p);
            assert(s.take(11) =~= "experience:"@);
            assert(s.skip(11) =~= id);
        },
        CompressedExperienceEventV::Create(t) => {
            let s = encode_payload_spec(p);
            lemma_timing_round_trip(t);
            if s.len() >= 11 && s.take(11) == "experience:"@ {
                assert(s.take(11)[0] == s[0]);
                assert(s[0] == 'c');
                assert(false);
            }
            assert(s.take(7) =~= "create:"@);
            assert(s.skip(7) =~= encode_timing_spec(t));
        },
    }
}

} // verus!
