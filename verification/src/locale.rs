//! The two locale date parsers: English long-form dates ("Month Day, Year" as
//! the second, third and fourth whitespace tokens of the fragment) and Japanese
//! numeric dates (a year/month/day digit triple). Each yields a normalized
//! `YYYYMMDD` string with the month and day left-padded to two digits.

use vstd::prelude::*;

use crate::DateError;
use crate::text::all_digits;
use crate::text::chars_eq_str;
use crate::text::is_digit;
use crate::text::pad2;
use crate::text::pad2_exec;
use crate::text::remove_all_exec;
use crate::text::copy_range;
use crate::text::append_chars;
use crate::text::chars_to_string;
use crate::text::remove_all;
use crate::text::str_to_chars;

verus! {

/// A character with the Unicode white-space property, as
/// `char::is_whitespace` recognizes it.
pub open spec fn is_space(c: char) -> bool {
    ||| c == ' '
    ||| ('\u{0009}' <= c && c <= '\u{000D}')
    ||| c == '\u{0085}'
    ||| c == '\u{00A0}'
    ||| c == '\u{1680}'
    ||| ('\u{2000}' <= c && c <= '\u{200A}')
    ||| c == '\u{2028}'
    ||| c == '\u{2029}'
    ||| c == '\u{202F}'
    ||| c == '\u{205F}'
    ||| c == '\u{3000}'
}

fn is_space_exec(c: char) -> (r: bool)
    ensures
        r == is_space(c),
{
    c == ' ' || ('\u{0009}' <= c && c <= '\u{000D}') || c == '\u{0085}' || c == '\u{00A0}' || c
        == '\u{1680}' || ('\u{2000}' <= c && c <= '\u{200A}') || c == '\u{2028}' || c == '\u{2029}'
        || c == '\u{202F}' || c == '\u{205F}' || c == '\u{3000}'
}

/// The length of the maximal non-space prefix of `s`.
pub open spec fn word_len(s: Seq<char>) -> int
    decreases s.len(),
{
    if s.len() == 0 || is_space(s[0]) {
        0
    } else {
        1 + word_len(s.drop_first())
    }
}

pub proof fn lemma_word_len_bounds(s: Seq<char>)
    ensures
        0 <= word_len(s) <= s.len(),
    decreases s.len(),
{
    if s.len() == 0 || is_space(s[0]) {
    } else {
        lemma_word_len_bounds(s.drop_first());
    }
}

/// The whitespace-delimited tokens of `s`, in order, each non-empty.
pub open spec fn tokens(s: Seq<char>) -> Seq<Seq<char>>
    decreases s.len(),
    via tokens_decreases
{
    if s.len() == 0 {
        seq![]
    } else if is_space(s[0]) {
        tokens(s.drop_first())
    } else {
        seq![s.take(word_len(s))] + tokens(s.skip(word_len(s)))
    }
}

#[via_fn]
proof fn tokens_decreases(s: Seq<char>) {
    lemma_word_len_bounds(s);
    if s.len() != 0 && !is_space(s[0]) {
        lemma_word_len_bounds(s.drop_first());
    }
}

/// Split into whitespace-delimited tokens, as `str::split_whitespace` does.
pub fn split_ws(v: &Vec<char>) -> (r: Vec<Vec<char>>)
    ensures
        r.deep_view() == tokens(v@),
{
    let mut r: Vec<Vec<char>> = Vec::new();
    let mut i: usize = 0;
    assert(v@.skip(0) =~= v@);
    assert(r.deep_view() =~~= Seq::<Seq<char>>::empty());
    while i < v.len()
        invariant
            i <= v.len(),
            tokens(v@) == r.deep_view() + tokens(v@.skip(i as int)),
        decreases v.len() - i,
    {
        if is_space_exec(v[i]) {
            proof {
                assert(v@.skip(i as int).drop_first() =~= v@.skip(i as int + 1));
            }
            i = i + 1;
        } else {
            let ghost whole = v@.skip(i as int);
            let start = i;
            let mut w: Vec<char> = Vec::new();
            let mut done = false;
            while !done
                invariant
                    start <= i <= v.len(),
                    whole == v@.skip(start as int),
                    w@ == v@.subrange(start as int, i as int),
                    word_len(whole) == i - start + word_len(v@.skip(i as int)),
                    done ==> word_len(v@.skip(i as int)) == 0,
                decreases v.len() - i + (if done { 0int } else { 1int }),
            {
                if i < v.len() && !is_space_exec(v[i]) {
                    proof {
                        assert(v@.skip(i as int)[0] == v@[i as int]);
                        assert(v@.skip(i as int).drop_first() =~= v@.skip(i as int + 1));
                    }
                    w.push(v[i]);
                    assert(v@.subrange(start as int, i as int + 1) =~= v@.subrange(
                        start as int,
                        i as int,
                    ).push(v@[i as int]));
                    i = i + 1;
                } else {
                    proof {
                        if i < v.len() {
                            assert(v@.skip(i as int)[0] == v@[i as int]);
                        } else {
                            assert(v@.skip(i as int).len() == 0);
                        }
                    }
                    done = true;
                }
            }
            proof {
                lemma_word_len_bounds(whole);
                assert(whole.take(word_len(whole)) =~= v@.subrange(start as int, i as int));
                assert(whole.skip(word_len(whole)) =~= v@.skip(i as int));
                assert(tokens(whole) == seq![w@] + tokens(v@.skip(i as int)));
                assert(whole[0] == v@[start as int]);
            }
            let ghost old_r = r.deep_view();
            r.push(w);
            proof {
                assert(r.deep_view() =~~= old_r.push(w@));
                assert(old_r.push(w@) =~= old_r + seq![w@]);
                assert(r.deep_view() + tokens(v@.skip(i as int)) =~= tokens(v@));
            }
        }
    }
    proof {
        assert(v@.skip(v.len() as int).len() == 0);
        assert(r.deep_view() + tokens(v@.skip(v.len() as int)) =~= r.deep_view());
    }
    r
}

/// The fixed table mapping an English month name to its two-digit code.
pub open spec fn month_code(m: Seq<char>) -> Option<Seq<char>> {
    if m == "January"@ {
        Some("01"@)
    } else if m == "February"@ {
        Some("02"@)
    } else if m == "March"@ {
        Some("03"@)
    } else if m == "April"@ {
        Some("04"@)
    } else if m == "May"@ {
        Some("05"@)
    } else if m == "June"@ {
        Some("06"@)
    } else if m == "July"@ {
        Some("07"@)
    } else if m == "August"@ {
        Some("08"@)
    } else if m == "September"@ {
        Some("09"@)
    } else if m == "October"@ {
        Some("10"@)
    } else if m == "November"@ {
        Some("11"@)
    } else if m == "December"@ {
        Some("12"@)
    } else {
        None
    }
}

fn month_code_exec(w: &Vec<char>) -> (r: Option<Vec<char>>)
    ensures
        match r {
            Some(mc) => month_code(w@) == Some(mc@),
            None => month_code(w@) is None,
        },
{
    if chars_eq_str(w, "January") {
        Some(str_to_chars("01"))
    } else if chars_eq_str(w, "February") {
        Some(str_to_chars("02"))
    } else if chars_eq_str(w, "March") {
        Some(str_to_chars("03"))
    } else if chars_eq_str(w, "April") {
        Some(str_to_chars("04"))
    } else if chars_eq_str(w, "May") {
        Some(str_to_chars("05"))
    } else if chars_eq_str(w, "June") {
        Some(str_to_chars("06"))
    } else if chars_eq_str(w, "July") {
        Some(str_to_chars("07"))
    } else if chars_eq_str(w, "August") {
        Some(str_to_chars("08"))
    } else if chars_eq_str(w, "September") {
        Some(str_to_chars("09"))
    } else if chars_eq_str(w, "October") {
        Some(str_to_chars("10"))
    } else if chars_eq_str(w, "November") {
        Some(str_to_chars("11"))
    } else if chars_eq_str(w, "December") {
        Some(str_to_chars("12"))
    } else {
        None
    }
}

/// What the English parser yields on a fragment: the fourth token (the year)
/// verbatim, then the month code of the second token, then the third token
/// with all commas removed, left-padded to two digits.
pub open spec fn parse_en(f: Seq<char>) -> Result<Seq<char>, DateError> {
    let ts = tokens(f);
    if ts.len() < 4 {
        Err(DateError::MalformedEnglishDate)
    } else {
        match month_code(ts[1]) {
            Some(mc) => Ok(ts[3] + mc + pad2(remove_all(ts[2], seq![',']))),
            None => Err(DateError::UnrecognizedMonthName),
        }
    }
}

/// The English parser over a character vector.
pub fn parse_en_chars(f: &Vec<char>) -> (r: Result<Vec<char>, DateError>)
    ensures
        crate::chars_result_view(r) == parse_en(f@),
{
    let ts = split_ws(f);
    proof {
        assert(ts@.len() == tokens(f@).len());
    }
    if ts.len() < 4 {
        return Err(DateError::MalformedEnglishDate);
    }
    proof {
        assert(ts@[1].deep_view() =~= ts@[1]@);
        assert(ts@[2].deep_view() =~= ts@[2]@);
        assert(ts@[3].deep_view() =~= ts@[3]@);
        assert(tokens(f@)[1] == ts@[1]@);
        assert(tokens(f@)[2] == ts@[2]@);
        assert(tokens(f@)[3] == ts@[3]@);
    }
    match month_code_exec(&ts[1]) {
        None => Err(DateError::UnrecognizedMonthName),
        Some(mc) => {
            let mut comma: Vec<char> = Vec::new();
            comma.push(',');
            assert(comma@ =~= seq![',']);
            let day = pad2_exec(remove_all_exec(&ts[2], &comma));
            let year = &ts[3];
            let mut out = copy_range(year, 0, year.len());
            assert(out@ =~= ts@[3]@);
            append_chars(&mut out, &mc);
            append_chars(&mut out, &day);
            Ok(out)
        },
    }
}

/// The English locale parser: `"Saturday, November 22, 2008 5:02 PM"` becomes
/// `"20081122"`.
pub fn change_date_en(date: &str) -> (r: Result<String, DateError>)
    ensures
        crate::string_result_view(r) == parse_en(date@),
{
    let chars = str_to_chars(date);
    match parse_en_chars(&chars) {
        Ok(d) => Ok(chars_to_string(&d)),
        Err(e) => Err(e),
    }
}

/// The first index at or after `p` holding a character that is not an ASCII
/// digit (or the length of `s` if the digits run to its end).
pub open spec fn digit_run_end(s: Seq<char>, p: int) -> int
    decreases s.len() - p,
{
    if p < 0 || p >= s.len() || !is_digit(s[p]) {
        p
    } else {
        digit_run_end(s, p + 1)
    }
}

/// The year, month and day digit groups of a date written as a digit run, the
/// year marker, a digit run, the month marker, a digit run, and the day
/// marker, starting exactly at position `p`.
pub open spec fn jp_triple_at(s: Seq<char>, p: int) -> Option<
    (Seq<char>, Seq<char>, Seq<char>),
> {
    let a = digit_run_end(s, p);
    if a > p && a < s.len() && s[a] == '年' {
        let b = digit_run_end(s, a + 1);
        if b > a + 1 && b < s.len() && s[b] == '月' {
            let c = digit_run_end(s, b + 1);
            if c > b + 1 && c < s.len() && s[c] == '日' {
                Some((s.subrange(p, a), s.subrange(a + 1, b), s.subrange(b + 1, c)))
            } else {
                None
            }
        } else {
            None
        }
    } else {
        None
    }
}

/// The leftmost match of the year/month/day pattern at or after `p`.
pub open spec fn jp_first_triple(s: Seq<char>, p: int) -> Option<
    (Seq<char>, Seq<char>, Seq<char>),
>
    decreases s.len() - p,
{
    if p < 0 || p >= s.len() {
        None
    } else if jp_triple_at(s, p) is Some {
        jp_triple_at(s, p)
    } else {
        jp_first_triple(s, p + 1)
    }
}

/// What the Japanese parser yields on a fragment: the year digits verbatim,
/// then the month and day digits each left-padded to two digits.
pub open spec fn parse_jp(f: Seq<char>) -> Result<Seq<char>, DateError> {
    match jp_first_triple(f, 0) {
        Some((y, m, d)) => Ok(y + pad2(m) + pad2(d)),
        None => Err(DateError::MalformedJapaneseDate),
    }
}

fn digit_run_end_exec(v: &Vec<char>, p: usize) -> (r: usize)
    requires
        p <= v@.len(),
    ensures
        r as int == digit_run_end(v@, p as int),
        p <= r <= v@.len(),
{
    let mut i = p;
    while i < v.len()
        invariant
            p <= i <= v@.len(),
            digit_run_end(v@, p as int) == digit_run_end(v@, i as int),
        decreases v.len() - i,
    {
        let c = v[i];
        if !('0' <= c && c <= '9') {
            return i;
        }
        i = i + 1;
    }
    i
}

fn jp_triple_at_exec(v: &Vec<char>, p: usize) -> (r: Option<(usize, usize, usize)>)
    requires
        p <= v@.len(),
    ensures
        match r {
            Some((a, b, c)) => {
                &&& p < a < v@.len()
                &&& a + 1 < b < v@.len()
                &&& b + 1 < c < v@.len()
                &&& jp_triple_at(v@, p as int) == Some(
                    (
                        v@.subrange(p as int, a as int),
                        v@.subrange(a as int + 1, b as int),
                        v@.subrange(b as int + 1, c as int),
                    ),
                )
            },
            None => jp_triple_at(v@, p as int) is None,
        },
{
    let a = digit_run_end_exec(v, p);
    if !(a > p && a < v.len() && v[a] == '年') {
        return None;
    }
    let b = digit_run_end_exec(v, a + 1);
    if !(b > a + 1 && b < v.len() && v[b] == '月') {
        return None;
    }
    let c = digit_run_end_exec(v, b + 1);
    if !(c > b + 1 && c < v.len() && v[c] == '日') {
        return None;
    }
    Some((a, b, c))
}

fn jp_first_triple_exec(v: &Vec<char>) -> (r: Option<(usize, usize, usize, usize)>)
    ensures
        match r {
            Some((p, a, b, c)) => {
                &&& p < a < v@.len()
                &&& a + 1 < b < v@.len()
                &&& b + 1 < c < v@.len()
                &&& jp_first_triple(v@, 0) == Some(
                    (
                        v@.subrange(p as int, a as int),
                        v@.subrange(a as int + 1, b as int),
                        v@.subrange(b as int + 1, c as int),
                    ),
                )
            },
            None => jp_first_triple(v@, 0) is None,
        },
{
    let mut p: usize = 0;
    while p < v.len()
        invariant
            p <= v@.len(),
            jp_first_triple(v@, 0) == jp_first_triple(v@, p as int),
        decreases v.len() - p,
    {
        match jp_triple_at_exec(v, p) {
            Some((a, b, c)) => {
                return Some((p, a, b, c));
            },
            None => {
                p = p + 1;
            },
        }
    }
    None
}

/// The Japanese parser over a character vector.
pub fn parse_jp_chars(f: &Vec<char>) -> (r: Result<Vec<char>, DateError>)
    ensures
        crate::chars_result_view(r) == parse_jp(f@),
{
    match jp_first_triple_exec(f) {
        None => Err(DateError::MalformedJapaneseDate),
        Some((p, a, b, c)) => {
            let mut out = copy_range(f, p, a);
            let month = pad2_exec(copy_range(f, a + 1, b));
            let day = pad2_exec(copy_range(f, b + 1, c));
            append_chars(&mut out, &month);
            append_chars(&mut out, &day);
            Ok(out)
        },
    }
}

/// Every month code in the table is exactly two ASCII digits.
pub proof fn lemma_month_code_format(m: Seq<char>)
    ensures
        month_code(m) matches Some(mc) ==> mc.len() == 2 && all_digits(mc),
{
    if month_code(m) is Some {
        reveal_strlit("01");
        reveal_strlit("02");
        reveal_strlit("03");
        reveal_strlit("04");
        reveal_strlit("05");
        reveal_strlit("06");
        reveal_strlit("07");
        reveal_strlit("08");
        reveal_strlit("09");
        reveal_strlit("10");
        reveal_strlit("11");
        reveal_strlit("12");
        assert("01"@.len() == 2 && is_digit("01"@[0]) && is_digit("01"@[1]));
        assert("02"@.len() == 2 && is_digit("02"@[0]) && is_digit("02"@[1]));
        assert("03"@.len() == 2 && is_digit("03"@[0]) && is_digit("03"@[1]));
        assert("04"@.len() == 2 && is_digit("04"@[0]) && is_digit("04"@[1]));
        assert("05"@.len() == 2 && is_digit("05"@[0]) && is_digit("05"@[1]));
        assert("06"@.len() == 2 && is_digit("06"@[0]) && is_digit("06"@[1]));
        assert("07"@.len() == 2 && is_digit("07"@[0]) && is_digit("07"@[1]));
        assert("08"@.len() == 2 && is_digit("08"@[0]) && is_digit("08"@[1]));
        assert("09"@.len() == 2 && is_digit("09"@[0]) && is_digit("09"@[1]));
        assert("10"@.len() == 2 && is_digit("10"@[0]) && is_digit("10"@[1]));
        assert("11"@.len() == 2 && is_digit("11"@[0]) && is_digit("11"@[1]));
        assert("12"@.len() == 2 && is_digit("12"@[0]) && is_digit("12"@[1]));
        let mc = month_code(m)->Some_0;
        assert forall|i: int| 0 <= i < mc.len() implies is_digit(#[trigger] mc[i]) by {
            assert(i == 0 || i == 1);
        }
    }
}

/// Every normalized date the English parser yields is eight ASCII digits,
/// provided the year token is four digits and the day token, commas removed,
/// is one or two digits.
pub proof fn lemma_parse_en_format(f: Seq<char>)
    requires
        parse_en(f) is Ok,
        tokens(f)[3].len() == 4,
        all_digits(tokens(f)[3]),
        1 <= remove_all(tokens(f)[2], seq![',']).len() <= 2,
        all_digits(remove_all(tokens(f)[2], seq![','])),
    ensures
        parse_en(f)->Ok_0.len() == 8,
        all_digits(parse_en(f)->Ok_0),
{
    let ts = tokens(f);
    lemma_month_code_format(ts[1]);
    let mc = month_code(ts[1])->Some_0;
    let day_raw = remove_all(ts[2], seq![',']);
    crate::text::lemma_pad2_format(day_raw);
    crate::text::lemma_all_digits_concat(ts[3], mc);
    crate::text::lemma_all_digits_concat(ts[3] + mc, pad2(day_raw));
}

/// Every character strictly inside a digit run is an ASCII digit, and the run
/// does not move backwards.
pub proof fn lemma_digit_run_digits(s: Seq<char>, p: int)
    requires
        0 <= p,
    ensures
        digit_run_end(s, p) >= p,
        forall|j: int| p <= j < digit_run_end(s, p) ==> is_digit(#[trigger] s[j]),
    decreases s.len() - p,
{
    if p < s.len() && is_digit(s[p]) {
        lemma_digit_run_digits(s, p + 1);
    }
}

proof fn lemma_jp_triple_at_digits(s: Seq<char>, p: int)
    requires
        0 <= p,
        jp_triple_at(s, p) is Some,
    ensures
        jp_triple_at(s, p) matches Some(t) ==> all_digits(t.0) && all_digits(t.1) && all_digits(
            t.2,
        ) && t.0.len() >= 1 && t.1.len() >= 1 && t.2.len() >= 1,
{
    let a = digit_run_end(s, p);
    let b = digit_run_end(s, a + 1);
    let c = digit_run_end(s, b + 1);
    lemma_digit_run_digits(s, p);
    lemma_digit_run_digits(s, a + 1);
    lemma_digit_run_digits(s, b + 1);
    assert(all_digits(s.subrange(p, a))) by {
        assert forall|i: int| 0 <= i < a - p implies is_digit(#[trigger] s.subrange(p, a)[i]) by {
            assert(s.subrange(p, a)[i] == s[p + i]);
        }
    }
    assert(all_digits(s.subrange(a + 1, b))) by {
        assert forall|i: int| 0 <= i < b - (a + 1) implies is_digit(
            #[trigger] s.subrange(a + 1, b)[i],
        ) by {
            assert(s.subrange(a + 1, b)[i] == s[a + 1 + i]);
        }
    }
    assert(all_digits(s.subrange(b + 1, c))) by {
        assert forall|i: int| 0 <= i < c - (b + 1) implies is_digit(
            #[trigger] s.subrange(b + 1, c)[i],
        ) by {
            assert(s.subrange(b + 1, c)[i] == s[b + 1 + i]);
        }
    }
}

/// Every group the Japanese pattern captures is a non-empty run of digits.
pub proof fn lemma_jp_first_triple_digits(s: Seq<char>, p: int)
    requires
        0 <= p,
    ensures
        jp_first_triple(s, p) matches Some(t) ==> all_digits(t.0) && all_digits(t.1) && all_digits(
            t.2,
        ) && t.0.len() >= 1 && t.1.len() >= 1 && t.2.len() >= 1,
    decreases s.len() - p,
{
    if 0 <= p < s.len() {
        if jp_triple_at(s, p) is Some {
            lemma_jp_triple_at_digits(s, p);
        } else {
            lemma_jp_first_triple_digits(s, p + 1);
        }
    }
}

/// Every normalized date the Japanese parser yields is eight ASCII digits,
/// provided the year group is four digits and the month and day groups are at
/// most two digits each.
pub proof fn lemma_parse_jp_format(f: Seq<char>)
    requires
        parse_jp(f) is Ok,
        jp_first_triple(f, 0) matches Some(t) ==> t.0.len() == 4 && t.1.len() <= 2 && t.2.len()
            <= 2,
    ensures
        parse_jp(f)->Ok_0.len() == 8,
        all_digits(parse_jp(f)->Ok_0),
{
    lemma_jp_first_triple_digits(f, 0);
    let t = jp_first_triple(f, 0)->Some_0;
    crate::text::lemma_pad2_format(t.1);
    crate::text::lemma_pad2_format(t.2);
    crate::text::lemma_all_digits_concat(t.0, pad2(t.1));
    crate::text::lemma_all_digits_concat(t.0 + pad2(t.1), pad2(t.2));
}

/// The Japanese locale parser: `"2012年9月5日 21:14"` becomes `"20120905"`.
pub fn change_date_jp(date: &str) -> (r: Result<String, DateError>)
    ensures
        crate::string_result_view(r) == parse_jp(date@),
{
    let chars = str_to_chars(date);
    match parse_jp_chars(&chars) {
        Ok(d) => Ok(chars_to_string(&d)),
        Err(e) => Err(e),
    }
}

} // verus!
