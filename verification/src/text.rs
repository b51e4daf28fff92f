//! Character-sequence utilities shared by the locale parsers, the extractor,
//! and the filename builder: lexicographic order, digit tests, zero-padding,
//! substring removal, and conversions between `str`/`String` and `Vec<char>`.

use vstd::prelude::*;

verus! {

/// Strict lexicographic order on character sequences, element by element,
/// with a proper prefix ordered before any of its extensions.
pub open spec fn lex_lt(a: Seq<char>, b: Seq<char>) -> bool
    decreases a.len(),
{
    if b.len() == 0 {
        false
    } else if a.len() == 0 {
        true
    } else if a[0] != b[0] {
        a[0] < b[0]
    } else {
        lex_lt(a.drop_first(), b.drop_first())
    }
}

/// The lexicographically smaller of two sequences; ties keep the first argument.
pub open spec fn lex_min(a: Seq<char>, b: Seq<char>) -> Seq<char> {
    if lex_lt(b, a) {
        b
    } else {
        a
    }
}

/// Sequences with equal heads and equal tails are equal.
pub proof fn lemma_eq_head_tail(a: Seq<char>, b: Seq<char>)
    requires
        a.len() >= 1,
        b.len() >= 1,
        a[0] == b[0],
        a.drop_first() == b.drop_first(),
    ensures
        a == b,
{
    assert(a.drop_first().len() == a.len() - 1);
    assert(b.drop_first().len() == b.len() - 1);
    assert(a.len() == b.len());
    assert forall|i: int| 0 <= i < a.len() implies a[i] == b[i] by {
        if i > 0 {
            assert(a[i] == a.drop_first()[i - 1]);
            assert(b[i] == b.drop_first()[i - 1]);
        }
    }
    assert(a =~= b);
}

/// Lexicographic order, weakly: equal or strictly before.
pub open spec fn lex_le(a: Seq<char>, b: Seq<char>) -> bool {
    a == b || lex_lt(a, b)
}

/// Exactly one of `lex_lt(a, b)`, `lex_lt(b, a)` and `a == b` holds.
pub proof fn lemma_lex_trichotomy(a: Seq<char>, b: Seq<char>)
    ensures
        lex_lt(a, b) || lex_lt(b, a) || a == b,
    decreases a.len(),
{
    if b.len() == 0 {
        if a.len() == 0 {
            assert(a =~= b);
        }
    } else if a.len() == 0 {
    } else if a[0] == b[0] {
        lemma_lex_trichotomy(a.drop_first(), b.drop_first());
        if a.drop_first() == b.drop_first() {
            lemma_eq_head_tail(a, b);
        }
    }
}

pub proof fn lemma_lex_asym(a: Seq<char>, b: Seq<char>)
    requires
        lex_lt(a, b),
    ensures
        !lex_lt(b, a),
        a != b,
    decreases a.len(),
{
    if a.len() != 0 && b.len() != 0 && a[0] == b[0] {
        lemma_lex_asym(a.drop_first(), b.drop_first());
        if a == b {
            assert(a.drop_first() =~= b.drop_first());
        }
    }
}

pub proof fn lemma_lex_le_trans(a: Seq<char>, b: Seq<char>, c: Seq<char>)
    requires
        lex_le(a, b),
        lex_le(b, c),
    ensures
        lex_le(a, c),
    decreases a.len(),
{
    if a != b && b != c {
        if a.len() == 0 {
        } else if a[0] == b[0] && b[0] == c[0] {
            lemma_lex_le_trans(a.drop_first(), b.drop_first(), c.drop_first());
            if a.drop_first() == c.drop_first() {
                lemma_eq_head_tail(a, c);
            }
        }
    }
}

/// `lex_min` yields one of its arguments and is below both.
pub proof fn lemma_lex_min_props(a: Seq<char>, b: Seq<char>)
    ensures
        lex_min(a, b) == a || lex_min(a, b) == b,
        lex_le(lex_min(a, b), a),
        lex_le(lex_min(a, b), b),
{
    lemma_lex_trichotomy(a, b);
}

/// An ASCII decimal digit.
pub open spec fn is_digit(c: char) -> bool {
    '0' <= c && c <= '9'
}

pub open spec fn all_digits(s: Seq<char>) -> bool {
    forall|i: int| 0 <= i < s.len() ==> is_digit(#[trigger] s[i])
}

/// A digit sequence is at most the all-nines sequence of its length.
pub proof fn lemma_digits_le_nines(d: Seq<char>, n: Seq<char>)
    requires
        d.len() == n.len(),
        all_digits(d),
        forall|i: int| 0 <= i < n.len() ==> n[i] == '9',
    ensures
        lex_le(d, n),
    decreases d.len(),
{
    if d.len() == 0 {
        assert(d =~= n);
    } else if d[0] == '9' {
        assert(all_digits(d.drop_first()));
        lemma_digits_le_nines(d.drop_first(), n.drop_first());
        if d.drop_first() == n.drop_first() {
            lemma_eq_head_tail(d, n);
        }
    } else {
        assert(is_digit(d[0]));
    }
}

/// Concatenation keeps the all-digits property.
pub proof fn lemma_all_digits_concat(a: Seq<char>, b: Seq<char>)
    requires
        all_digits(a),
        all_digits(b),
    ensures
        all_digits(a + b),
{
    assert forall|i: int| 0 <= i < (a + b).len() implies is_digit((a + b)[i]) by {
        if i < a.len() {
            assert((a + b)[i] == a[i]);
        } else {
            assert((a + b)[i] == b[i - a.len()]);
        }
    }
}

/// Padding a digit sequence of at most two characters gives exactly two digits.
pub proof fn lemma_pad2_format(s: Seq<char>)
    requires
        all_digits(s),
        1 <= s.len() <= 2,
    ensures
        pad2(s).len() == 2,
        all_digits(pad2(s)),
{
    if s.len() == 1 {
        assert(pad2(s)[0] == '0');
        assert(pad2(s)[1] == s[0]);
    }
}

/// Left-pad with `'0'` to a width of two characters.
pub open spec fn pad2(s: Seq<char>) -> Seq<char> {
    if s.len() >= 2 {
        s
    } else if s.len() == 1 {
        seq!['0'] + s
    } else {
        seq!['0', '0']
    }
}

/// Remove every non-overlapping occurrence of `pat`, scanning left to right.
pub open spec fn remove_all(s: Seq<char>, pat: Seq<char>) -> Seq<char>
    decreases s.len(),
{
    if pat.len() == 0 || s.len() < pat.len() {
        s
    } else if s.take(pat.len() as int) == pat {
        remove_all(s.skip(pat.len() as int), pat)
    } else {
        seq![s[0]] + remove_all(s.drop_first(), pat)
    }
}

/// Remove `pre` from the front of `s` if `s` starts with it; otherwise `s` unchanged.
pub open spec fn strip_prefix(s: Seq<char>, pre: Seq<char>) -> Seq<char> {
    if pre.len() <= s.len() && s.take(pre.len() as int) == pre {
        s.skip(pre.len() as int)
    } else {
        s
    }
}

/// The characters of a string slice, in order.
pub fn str_to_chars(s: &str) -> (v: Vec<char>)
    ensures
        v@ == s@,
{
    let mut v: Vec<char> = Vec::new();
    for c in it: s.chars()
        invariant
            it.seq() == s@,
            v@ == it.seq().take(it.index() as int),
    {
        v.push(c);
        assert(it.seq().take(it.index() as int + 1) =~= it.seq().take(it.index() as int).push(
            it.seq()[it.index() as int],
        ));
    }
    assert(v@ =~= s@);
    v
}

/// Relies on `String::push`: appends the given character to the end of the string.
#[verifier::external_body]
fn push_char(s: &mut String, c: char)
    ensures
        final (s)@ == old(s)@.push(c),
{
    s.push(c);
}

/// A `String` holding exactly the given characters, in order.
pub fn chars_to_string(v: &Vec<char>) -> (s: String)
    ensures
        s@ == v@,
{
    let mut s = String::new();
    let mut i: usize = 0;
    while i < v.len()
        invariant
            i <= v.len(),
            s@ == v@.take(i as int),
        decreases v.len() - i,
    {
        push_char(&mut s, v[i]);
        assert(v@.take(i as int + 1) =~= v@.take(i as int).push(v@[i as int]));
        i = i + 1;
    }
    assert(v@.take(v.len() as int) =~= v@);
    s
}

/// Whether two character vectors hold the same characters.
pub fn chars_eq(a: &Vec<char>, b: &Vec<char>) -> (r: bool)
    ensures
        r == (a@ == b@),
{
    if a.len() != b.len() {
        return false;
    }
    let mut i: usize = 0;
    while i < a.len()
        invariant
            i <= a.len(),
            a.len() == b.len(),
            forall|j: int| 0 <= j < i ==> a@[j] == b@[j],
        decreases a.len() - i,
    {
        if a[i] != b[i] {
            return false;
        }
        i = i + 1;
    }
    assert(a@ =~= b@);
    true
}

/// Whether the character vector spells the given string slice.
pub fn chars_eq_str(v: &Vec<char>, s: &str) -> (r: bool)
    ensures
        r == (v@ == s@),
{
    let sc = str_to_chars(s);
    chars_eq(v, &sc)
}

/// A copy of the characters of `v` from `from` (inclusive) to `to` (exclusive).
pub fn copy_range(v: &Vec<char>, from: usize, to: usize) -> (r: Vec<char>)
    requires
        from <= to <= v@.len(),
    ensures
        r@ == v@.subrange(from as int, to as int),
{
    let mut r: Vec<char> = Vec::new();
    let mut i: usize = from;
    while i < to
        invariant
            from <= i <= to <= v@.len(),
            r@ == v@.subrange(from as int, i as int),
        decreases to - i,
    {
        r.push(v[i]);
        assert(v@.subrange(from as int, i as int + 1) =~= v@.subrange(from as int, i as int).push(
            v@[i as int],
        ));
        i = i + 1;
    }
    r
}

/// Appends a copy of `b` to the end of `a`.
pub fn append_chars(a: &mut Vec<char>, b: &Vec<char>)
    ensures
        final (a)@ == old(a)@ + b@,
{
    let mut j: usize = 0;
    assert(a@ =~= a@ + b@.take(0));
    while j < b.len()
        invariant
            j <= b.len(),
            a@ == old(a)@ + b@.take(j as int),
        decreases b.len() - j,
    {
        a.push(b[j]);
        assert(old(a)@ + b@.take(j as int + 1) =~= (old(a)@ + b@.take(j as int)).push(
            b@[j as int],
        ));
        j = j + 1;
    }
    assert(b@.take(b.len() as int) =~= b@);
}

/// Whether `pat` occurs in `v` starting exactly at index `i`.
pub fn matches_at(v: &Vec<char>, pat: &Vec<char>, i: usize) -> (r: bool)
    requires
        i <= v@.len(),
    ensures
        r == (i + pat@.len() <= v@.len() && v@.subrange(i as int, i as int + pat@.len() as int)
            == pat@),
{
    let n = v.len();
    if n - i < pat.len() {
        return false;
    }
    let mut j: usize = 0;
    while j < pat.len()
        invariant
            j <= pat@.len(),
            n == v@.len(),
            i + pat@.len() <= n,
            forall|k: int| 0 <= k < j ==> v@[i + k] == pat@[k],
        decreases pat.len() - j,
    {
        if v[i + j] != pat[j] {
            assert(v@.subrange(i as int, i as int + pat@.len() as int)[j as int] == v@[i + j]);
            return false;
        }
        j = j + 1;
    }
    assert(v@.subrange(i as int, i as int + pat@.len() as int) =~= pat@);
    true
}

/// Remove every non-overlapping occurrence of `pat`, scanning left to right.
pub fn remove_all_exec(v: &Vec<char>, pat: &Vec<char>) -> (r: Vec<char>)
    ensures
        r@ == remove_all(v@, pat@),
{
    if pat.len() == 0 {
        return copy_range(v, 0, v.len());
    }
    let mut out: Vec<char> = Vec::new();
    let mut i: usize = 0;
    assert(v@.skip(0) =~= v@);
    assert(out@ + remove_all(v@.skip(0), pat@) =~= remove_all(v@, pat@));
    while i < v.len()
        invariant
            i <= v@.len(),
            pat@.len() > 0,
            remove_all(v@, pat@) == out@ + remove_all(v@.skip(i as int), pat@),
        decreases v.len() - i,
    {
        let ghost tail = v@.skip(i as int);
        if matches_at(v, pat, i) {
            proof {
                assert(tail.take(pat@.len() as int) =~= v@.subrange(
                    i as int,
                    i as int + pat@.len() as int,
                ));
                assert(tail.skip(pat@.len() as int) =~= v@.skip(i as int + pat@.len() as int));
            }
            i = i + pat.len();
        } else {
            proof {
                if tail.len() >= pat@.len() {
                    assert(tail.take(pat@.len() as int) =~= v@.subrange(
                        i as int,
                        i as int + pat@.len() as int,
                    ));
                    assert(tail[0] == v@[i as int]);
                    assert(tail.drop_first() =~= v@.skip(i as int + 1));
                    assert(remove_all(tail, pat@) == seq![v@[i as int]] + remove_all(
                        v@.skip(i as int + 1),
                        pat@,
                    ));
                } else {
                    assert(remove_all(tail, pat@) == tail);
                    assert(v@.skip(i as int + 1).len() < pat@.len());
                    assert(remove_all(v@.skip(i as int + 1), pat@) == v@.skip(i as int + 1));
                    assert(tail =~= seq![v@[i as int]] + v@.skip(i as int + 1));
                }
            }
            let ghost old_out = out@;
            out.push(v[i]);
            proof {
                assert(out@ =~= old_out + seq![v@[i as int]]);
                assert(out@ + remove_all(v@.skip(i as int + 1), pat@) =~= old_out + (seq![
                    v@[i as int],
                ] + remove_all(v@.skip(i as int + 1), pat@)));
            }
            i = i + 1;
        }
    }
    proof {
        assert(v@.skip(v.len() as int).len() == 0);
        assert(remove_all(v@.skip(v.len() as int), pat@) == v@.skip(v.len() as int));
        assert(out@ + remove_all(v@.skip(v.len() as int), pat@) =~= out@);
    }
    out
}

/// Left-pad with `'0'` to a width of two characters.
pub fn pad2_exec(v: Vec<char>) -> (r: Vec<char>)
    ensures
        r@ == pad2(v@),
{
    if v.len() >= 2 {
        v
    } else if v.len() == 1 {
        let mut r: Vec<char> = Vec::new();
        r.push('0');
        r.push(v[0]);
        assert(r@ =~= seq!['0'] + v@);
        r
    } else {
        let mut r: Vec<char> = Vec::new();
        r.push('0');
        r.push('0');
        assert(r@ =~= seq!['0', '0']);
        r
    }
}

/// Whether `v` holds the character `c` anywhere.
pub fn contains_char(v: &Vec<char>, c: char) -> (r: bool)
    ensures
        r == v@.contains(c),
{
    let mut i: usize = 0;
    while i < v.len()
        invariant
            i <= v@.len(),
            forall|j: int| 0 <= j < i ==> v@[j] != c,
        decreases v.len() - i,
    {
        if v[i] == c {
            assert(v@.contains(c)) by {
                assert(v@[i as int] == c);
            }
            return true;
        }
        i = i + 1;
    }
    assert(!v@.contains(c));
    false
}

/// Whether `a` comes strictly before `b` in lexicographic order.
pub fn lex_lt_exec(a: &Vec<char>, b: &Vec<char>) -> (r: bool)
    ensures
        r == lex_lt(a@, b@),
{
    let mut i: usize = 0;
    assert(a@.skip(0) =~= a@);
    assert(b@.skip(0) =~= b@);
    loop
        invariant
            i <= a.len(),
            i <= b.len(),
            lex_lt(a@, b@) == lex_lt(a@.skip(i as int), b@.skip(i as int)),
        decreases a.len() - i,
    {
        if i >= b.len() {
            assert(b@.skip(i as int).len() == 0);
            return false;
        }
        if i >= a.len() {
            assert(a@.skip(i as int).len() == 0);
            return true;
        }
        let ca = a[i];
        let cb = b[i];
        proof {
            assert(a@.skip(i as int)[0] == a@[i as int]);
            assert(b@.skip(i as int)[0] == b@[i as int]);
            assert(a@.skip(i as int).drop_first() =~= a@.skip(i as int + 1));
            assert(b@.skip(i as int).drop_first() =~= b@.skip(i as int + 1));
        }
        if ca != cb {
            return ca < cb;
        }
        i = i + 1;
    }
}

} // verus!
