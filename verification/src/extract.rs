//! The date extractor: scans free-form text for header fragments that start
//! with the English `Sent: ` marker or the Japanese date marker and run up to
//! the next `<br` marker, parses each fragment with the locale parser chosen
//! by content (presence of the Japanese year character), and returns the
//! lexicographically smallest normalized date, or the sentinel `"99999999"`
//! when no fragment is found.

use vstd::prelude::*;

use crate::locale::parse_en;
use crate::locale::parse_en_chars;
use crate::locale::parse_jp;
use crate::locale::parse_jp_chars;
use crate::text::chars_to_string;
use crate::text::contains_char;
use crate::text::copy_range;
use crate::text::all_digits;
use crate::text::lemma_digits_le_nines;
use crate::text::lemma_lex_asym;
use crate::text::lemma_lex_le_trans;
use crate::text::lemma_lex_min_props;
use crate::text::lex_le;
use crate::text::lex_lt;
use crate::text::lex_lt_exec;
use crate::text::lex_min;
use crate::text::str_to_chars;
use crate::DateError;

verus! {

/// The English header marker, `"Sent: "`.
pub open spec fn sent_marker() -> Seq<char> {
    seq!['S', 'e', 'n', 't', ':', ' ']
}

/// The Japanese header marker: the characters for "date", a colon and a space.
pub open spec fn jp_marker() -> Seq<char> {
    seq!['日', '付', ':', ' ']
}

/// The fragment terminator, `"<br"`.
pub open spec fn br_marker() -> Seq<char> {
    seq!['<', 'b', 'r']
}

/// The sentinel standing for "no date found yet"; it loses every minimum
/// comparison against a normalized real date.
pub open spec fn sentinel() -> Seq<char> {
    seq!['9', '9', '9', '9', '9', '9', '9', '9']
}

/// The length of the header marker starting exactly at `i`, or zero when
/// neither marker starts there.
pub open spec fn marker_len_at(s: Seq<char>, i: int) -> int {
    if 0 <= i && i + 6 <= s.len() && s.subrange(i, i + 6) == sent_marker() {
        6
    } else if 0 <= i && i + 4 <= s.len() && s.subrange(i, i + 4) == jp_marker() {
        4
    } else {
        0
    }
}

/// Whether the fragment terminator starts exactly at `k`.
pub open spec fn br_at(s: Seq<char>, k: int) -> bool {
    0 <= k && k + 3 <= s.len() && s.subrange(k, k + 3) == br_marker()
}

/// The position of the first fragment terminator at or after `k`.
pub open spec fn first_br(s: Seq<char>, k: int) -> Option<int>
    decreases s.len() - k,
{
    if k < 0 || k + 3 > s.len() {
        None
    } else if br_at(s, k) {
        Some(k)
    } else {
        first_br(s, k + 1)
    }
}

pub proof fn lemma_first_br_bounds(s: Seq<char>, k: int)
    requires
        0 <= k,
    ensures
        first_br(s, k) matches Some(r) ==> k <= r && r + 3 <= s.len() && br_at(s, r),
    decreases s.len() - k,
{
    if k + 3 <= s.len() && !br_at(s, k) {
        lemma_first_br_bounds(s, k + 1);
    }
}

/// The leftmost header fragment starting at or after `i`: the content between
/// the end of the marker and the next terminator, and the scan position after
/// that terminator. A marker with no terminator anywhere after it starts no
/// fragment.
pub open spec fn next_fragment(s: Seq<char>, i: int) -> Option<(Seq<char>, int)>
    decreases s.len() - i,
{
    if i < 0 || i >= s.len() {
        None
    } else {
        let m = marker_len_at(s, i);
        if m != 0 {
            match first_br(s, i + m) {
                Some(k) => Some((s.subrange(i + m, k), k + 3)),
                None => next_fragment(s, i + 1),
            }
        } else {
            next_fragment(s, i + 1)
        }
    }
}

pub proof fn lemma_next_fragment_bounds(s: Seq<char>, i: int)
    ensures
        next_fragment(s, i) matches Some(p) ==> i < p.1 <= s.len(),
    decreases s.len() - i,
{
    if 0 <= i < s.len() {
        let m = marker_len_at(s, i);
        if m != 0 && first_br(s, i + m) is Some {
            lemma_first_br_bounds(s, i + m);
        } else {
            lemma_next_fragment_bounds(s, i + 1);
        }
    }
}

/// All header fragments of `s` from position `i` on, leftmost first,
/// non-overlapping.
pub open spec fn all_fragments(s: Seq<char>, i: int) -> Seq<Seq<char>>
    decreases s.len() - i,
    via all_fragments_decreases
{
    match next_fragment(s, i) {
        None => seq![],
        Some((f, n)) => seq![f] + all_fragments(s, n),
    }
}

#[via_fn]
proof fn all_fragments_decreases(s: Seq<char>, i: int) {
    lemma_next_fragment_bounds(s, i);
}

/// The normalized date of one fragment, parsed by the locale its content
/// shows: Japanese when it holds the year character, English otherwise.
pub open spec fn normalize_fragment(f: Seq<char>) -> Result<Seq<char>, DateError> {
    if f.contains('年') {
        parse_jp(f)
    } else {
        parse_en(f)
    }
}

/// The minimum reduction over the fragments of `s` from position `i` on,
/// starting from the running best `acc`; the first fragment that fails to
/// parse yields its error.
pub open spec fn extract_from(s: Seq<char>, i: int, acc: Seq<char>) -> Result<Seq<char>, DateError>
    decreases s.len() - i,
    via extract_from_decreases
{
    match next_fragment(s, i) {
        None => Ok(acc),
        Some((f, n)) => match normalize_fragment(f) {
            Ok(d) => extract_from(s, n, lex_min(acc, d)),
            Err(e) => Err(e),
        },
    }
}

#[via_fn]
proof fn extract_from_decreases(s: Seq<char>, i: int, acc: Seq<char>) {
    lemma_next_fragment_bounds(s, i);
}

/// The earliest normalized date among all header fragments of `s`, or the
/// sentinel when `s` holds none.
pub open spec fn extract_date(s: Seq<char>) -> Result<Seq<char>, DateError> {
    extract_from(s, 0, sentinel())
}

/// The running minimum over a list of dates, starting from `acc`; ties keep
/// the earlier value.
pub open spec fn min_dates(ds: Seq<Seq<char>>, acc: Seq<char>) -> Seq<char>
    decreases ds.len(),
{
    if ds.len() == 0 {
        acc
    } else {
        min_dates(ds.drop_first(), lex_min(acc, ds[0]))
    }
}

/// Whether every fragment parses to a normalized date.
pub open spec fn all_parse_ok(fs: Seq<Seq<char>>) -> bool {
    forall|j: int| 0 <= j < fs.len() ==> (#[trigger] normalize_fragment(fs[j])) is Ok
}

/// The normalized dates of the fragments, position by position.
pub open spec fn parsed_dates(fs: Seq<Seq<char>>) -> Seq<Seq<char>> {
    fs.map_values(|f: Seq<char>| normalize_fragment(f)->Ok_0)
}

/// When every fragment parses, extraction folds the running minimum over the
/// parsed dates of all fragments, in order.
pub proof fn lemma_extract_is_min_fold(s: Seq<char>, i: int, acc: Seq<char>)
    requires
        all_parse_ok(all_fragments(s, i)),
    ensures
        extract_from(s, i, acc) == Ok::<Seq<char>, DateError>(
            min_dates(parsed_dates(all_fragments(s, i)), acc),
        ),
    decreases s.len() - i,
{
    lemma_next_fragment_bounds(s, i);
    match next_fragment(s, i) {
        None => {
            assert(parsed_dates(all_fragments(s, i)).len() == 0);
        },
        Some((f, n)) => {
            let fs = all_fragments(s, i);
            let rest = all_fragments(s, n);
            assert(fs == seq![f] + rest);
            assert(fs[0] == f);
            assert(normalize_fragment(fs[0]) is Ok);
            let d = normalize_fragment(f)->Ok_0;
            assert(all_parse_ok(rest)) by {
                assert forall|j: int| 0 <= j < rest.len() implies (#[trigger] normalize_fragment(
                    rest[j],
                )) is Ok by {
                    assert(rest[j] == fs[j + 1]);
                    assert(normalize_fragment(fs[j + 1]) is Ok);
                }
            }
            lemma_extract_is_min_fold(s, n, lex_min(acc, d));
            let ps = parsed_dates(fs);
            assert(ps.drop_first() =~= parsed_dates(rest)) by {
                assert forall|j: int| 0 <= j < rest.len() implies ps.drop_first()[j]
                    == parsed_dates(rest)[j] by {
                    assert(fs[j + 1] == rest[j]);
                }
            }
            assert(ps[0] == d);
            assert(min_dates(ps, acc) == min_dates(parsed_dates(rest), lex_min(acc, d)));
        },
    }
}

/// The fold result is the start value or one of the dates, and is
/// lexicographically at most the start value and every date.
pub proof fn lemma_min_dates_props(ds: Seq<Seq<char>>, acc: Seq<char>)
    ensures
        min_dates(ds, acc) == acc || ds.contains(min_dates(ds, acc)),
        lex_le(min_dates(ds, acc), acc),
        forall|j: int| 0 <= j < ds.len() ==> lex_le(min_dates(ds, acc), #[trigger] ds[j]),
    decreases ds.len(),
{
    if ds.len() == 0 {
    } else {
        let acc2 = lex_min(acc, ds[0]);
        lemma_lex_min_props(acc, ds[0]);
        lemma_min_dates_props(ds.drop_first(), acc2);
        let m = min_dates(ds, acc);
        if m == acc2 {
            if acc2 == ds[0] {
                assert(ds.contains(m)) by {
                    assert(ds[0] == m);
                }
            }
        } else {
            let j = choose|j: int| 0 <= j < ds.drop_first().len() && ds.drop_first()[j] == m;
            assert(ds[j + 1] == m);
            assert(ds.contains(m)) by {
                assert(ds[j + 1] == m);
            }
        }
        lemma_lex_le_trans(m, acc2, acc);
        assert forall|j: int| 0 <= j < ds.len() implies lex_le(m, #[trigger] ds[j]) by {
            if j == 0 {
                lemma_lex_le_trans(m, acc2, ds[0]);
            } else {
                assert(ds.drop_first()[j - 1] == ds[j]);
                assert(lex_le(m, ds.drop_first()[j - 1]));
            }
        }
    }
}

proof fn lemma_sentinel_nines()
    ensures
        sentinel().len() == 8,
        forall|i: int| 0 <= i < 8 ==> sentinel()[i] == '9',
        all_digits(sentinel()),
{
    assert forall|i: int| 0 <= i < 8 implies sentinel()[i] == '9' by {
        assert(sentinel()[0] == '9');
        assert(sentinel()[1] == '9');
        assert(sentinel()[2] == '9');
        assert(sentinel()[3] == '9');
        assert(sentinel()[4] == '9');
        assert(sentinel()[5] == '9');
        assert(sentinel()[6] == '9');
        assert(sentinel()[7] == '9');
    }
}

/// For every text with no recognized header fragment, extraction returns the
/// sentinel unchanged.
pub proof fn lemma_extract_empty(s: Seq<char>)
    requires
        all_fragments(s, 0).len() == 0,
    ensures
        extract_date(s) == Ok::<Seq<char>, DateError>(sentinel()),
{
    if next_fragment(s, 0) is Some {
        assert(all_fragments(s, 0).len() >= 1);
    }
}

/// For every text with exactly one fragment, parsing to an eight-digit date,
/// extraction returns exactly that date.
pub proof fn lemma_extract_single(s: Seq<char>)
    requires
        all_fragments(s, 0).len() == 1,
        normalize_fragment(all_fragments(s, 0)[0]) is Ok,
        all_digits(normalize_fragment(all_fragments(s, 0)[0])->Ok_0),
        normalize_fragment(all_fragments(s, 0)[0])->Ok_0.len() == 8,
    ensures
        extract_date(s) == Ok::<Seq<char>, DateError>(
            normalize_fragment(all_fragments(s, 0)[0])->Ok_0,
        ),
{
    let fs = all_fragments(s, 0);
    let d = normalize_fragment(fs[0])->Ok_0;
    assert(all_parse_ok(fs)) by {
        assert forall|j: int| 0 <= j < fs.len() implies (#[trigger] normalize_fragment(
            fs[j],
        )) is Ok by {
            assert(j == 0);
        }
    }
    lemma_extract_is_min_fold(s, 0, sentinel());
    let ds = parsed_dates(fs);
    assert(ds.len() == 1 && ds[0] == d);
    assert(ds.drop_first().len() == 0);
    assert(min_dates(ds.drop_first(), lex_min(sentinel(), d)) == lex_min(sentinel(), d));
    assert(min_dates(ds, sentinel()) == lex_min(sentinel(), d));
    lemma_sentinel_nines();
    lemma_digits_le_nines(d, sentinel());
    assert(lex_min(sentinel(), d) == d);
}

/// For every text with two or more fragments, each parsing to an eight-digit
/// date, extraction returns the lexicographic minimum of the parsed dates: a
/// date that is among them and at most each of them.
pub proof fn lemma_extract_min_of_all(s: Seq<char>)
    requires
        all_fragments(s, 0).len() >= 2,
        all_parse_ok(all_fragments(s, 0)),
        forall|j: int|
            0 <= j < all_fragments(s, 0).len() ==> all_digits(
                #[trigger] parsed_dates(all_fragments(s, 0))[j],
            ) && parsed_dates(all_fragments(s, 0))[j].len() == 8,
    ensures
        extract_date(s) is Ok,
        parsed_dates(all_fragments(s, 0)).contains(extract_date(s)->Ok_0),
        forall|j: int|
            0 <= j < all_fragments(s, 0).len() ==> lex_le(
                extract_date(s)->Ok_0,
                #[trigger] parsed_dates(all_fragments(s, 0))[j],
            ),
{
    lemma_extract_is_min_fold(s, 0, sentinel());
    let ds = parsed_dates(all_fragments(s, 0));
    let m = min_dates(ds, sentinel());
    lemma_min_dates_props(ds, sentinel());
    lemma_sentinel_nines();
    if m == sentinel() && !ds.contains(m) {
        assert(lex_le(m, ds[0]));
        lemma_digits_le_nines(ds[0], sentinel());
        if ds[0] != m {
            assert(lex_lt(m, ds[0]) && lex_lt(ds[0], m));
            lemma_lex_asym(m, ds[0]);
        }
        assert(ds.contains(m)) by {
            assert(ds[0] == m);
        }
    }
}

proof fn lemma_sent_at_chars(s: Seq<char>, i: int)
    requires
        0 <= i,
        i + 6 <= s.len(),
        s.subrange(i, i + 6) == sent_marker(),
    ensures
        s[i] == 'S' && s[i + 1] == 'e' && s[i + 2] == 'n' && s[i + 3] == 't' && s[i + 4] == ':'
            && s[i + 5] == ' ',
{
    assert forall|j: int| 0 <= j < 6 implies s[i + j] == sent_marker()[j] by {
        assert(s.subrange(i, i + 6)[j] == s[i + j]);
    }
}

proof fn lemma_jp_at_chars(s: Seq<char>, i: int)
    requires
        0 <= i,
        i + 4 <= s.len(),
        s.subrange(i, i + 4) == jp_marker(),
    ensures
        s[i] == '日' && s[i + 1] == '付' && s[i + 2] == ':' && s[i + 3] == ' ',
{
    assert forall|j: int| 0 <= j < 4 implies s[i + j] == jp_marker()[j] by {
        assert(s.subrange(i, i + 4)[j] == s[i + j]);
    }
}

proof fn lemma_br_at_chars(s: Seq<char>, k: int)
    requires
        br_at(s, k),
    ensures
        s[k] == '<' && s[k + 1] == 'b' && s[k + 2] == 'r',
{
    assert forall|j: int| 0 <= j < 3 implies s[k + j] == br_marker()[j] by {
        assert(s.subrange(k, k + 3)[j] == s[k + j]);
    }
}

fn marker_len_exec(v: &Vec<char>, i: usize) -> (r: usize)
    requires
        i < v@.len(),
    ensures
        r as int == marker_len_at(v@, i as int),
        r as int + i <= v@.len(),
{
    let n = v.len();
    if n - i >= 6 && v[i] == 'S' && v[i + 1] == 'e' && v[i + 2] == 'n' && v[i + 3] == 't' && v[i
        + 4] == ':' && v[i + 5] == ' ' {
        proof {
            assert(v@.subrange(i as int, i as int + 6) =~= sent_marker());
        }
        6
    } else if n - i >= 4 && v[i] == '日' && v[i + 1] == '付' && v[i + 2] == ':' && v[i + 3] == ' ' {
        proof {
            assert(v@.subrange(i as int, i as int + 4) =~= jp_marker());
            if i as int + 6 <= v@.len() && v@.subrange(i as int, i as int + 6) == sent_marker() {
                lemma_sent_at_chars(v@, i as int);
                assert(false);
            }
        }
        4
    } else {
        proof {
            if i as int + 6 <= v@.len() && v@.subrange(i as int, i as int + 6) == sent_marker() {
                lemma_sent_at_chars(v@, i as int);
                assert(false);
            }
            if i as int + 4 <= v@.len() && v@.subrange(i as int, i as int + 4) == jp_marker() {
                lemma_jp_at_chars(v@, i as int);
                assert(false);
            }
        }
        0
    }
}

fn first_br_exec(v: &Vec<char>, from: usize) -> (r: Option<usize>)
    requires
        from <= v@.len(),
    ensures
        match r {
            Some(k) => first_br(v@, from as int) == Some(k as int) && from <= k && k + 3
                <= v@.len(),
            None => first_br(v@, from as int) is None,
        },
{
    let n = v.len();
    let mut k = from;
    while n >= 3 && k <= n - 3
        invariant
            n == v@.len(),
            from <= k,
            k <= v@.len() + 1,
            first_br(v@, from as int) == first_br(v@, k as int),
        decreases n - k,
    {
        if v[k] == '<' && v[k + 1] == 'b' && v[k + 2] == 'r' {
            proof {
                assert(v@.subrange(k as int, k as int + 3) =~= br_marker());
            }
            return Some(k);
        }
        proof {
            if br_at(v@, k as int) {
                lemma_br_at_chars(v@, k as int);
                assert(false);
            }
        }
        k = k + 1;
    }
    None
}

/// The normalized date of one fragment, dispatched on its content.
pub fn normalize_fragment_exec(f: &Vec<char>) -> (r: Result<Vec<char>, DateError>)
    ensures
        crate::chars_result_view(r) == normalize_fragment(f@),
{
    if contains_char(f, '年') {
        parse_jp_chars(f)
    } else {
        parse_en_chars(f)
    }
}

fn next_fragment_exec(v: &Vec<char>, start: usize) -> (r: Option<(usize, usize)>)
    requires
        start <= v@.len(),
    ensures
        match r {
            Some((fs, k)) => {
                &&& start <= fs <= k
                &&& k + 3 <= v@.len()
                &&& next_fragment(v@, start as int) == Some(
                    (v@.subrange(fs as int, k as int), k as int + 3),
                )
            },
            None => next_fragment(v@, start as int) is None,
        },
{
    let mut i = start;
    while i < v.len()
        invariant
            start <= i <= v@.len(),
            next_fragment(v@, start as int) == next_fragment(v@, i as int),
        decreases v.len() - i,
    {
        let m = marker_len_exec(v, i);
        if m != 0 {
            match first_br_exec(v, i + m) {
                Some(k) => {
                    return Some((i + m, k));
                },
                None => {
                    i = i + 1;
                },
            }
        } else {
            i = i + 1;
        }
    }
    None
}

/// The earliest normalized date among all recognized header fragments of the
/// text, or the sentinel `"99999999"` when it holds none; the first fragment
/// that fails locale parsing yields its error.
pub fn get_date(txt: &str) -> (r: Result<String, DateError>)
    ensures
        crate::string_result_view(r) == extract_date(txt@),
{
    let v = str_to_chars(txt);
    let mut best = str_to_chars("99999999");
    proof {
        reveal_strlit("99999999");
        assert(best@ =~= sentinel());
    }
    let mut pos: usize = 0;
    loop
        invariant
            pos <= v@.len(),
            v@ == txt@,
            extract_from(v@, pos as int, best@) == extract_date(txt@),
        decreases v@.len() - pos,
    {
        match next_fragment_exec(&v, pos) {
            None => {
                return Ok(chars_to_string(&best));
            },
            Some((fs, k)) => {
                let frag = copy_range(&v, fs, k);
                match normalize_fragment_exec(&frag) {
                    Err(e) => {
                        return Err(e);
                    },
                    Ok(d) => {
                        let ghost old_best = best@;
                        if lex_lt_exec(&d, &best) {
                            best = d;
                        }
                        proof {
                            assert(best@ == lex_min(old_best, d@));
                        }
                        pos = k + 3;
                    },
                }
            },
        }
    }
}

} // verus!
