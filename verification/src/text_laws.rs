//! What holds of searching, cutting, joining and counting in texts.

use vstd::prelude::*;
use vstd::utf8::{encode_utf8, encode_utf8_decode_utf8, encode_utf8_valid_utf8};

use crate::text::{
    after_last, all_digits, before_first, begins, decimal, first_at, includes, is_ascii_digit,
    is_white, joined, lemma_first_at, lemma_first_at_is, lemma_first_at_none, lines_of, occurs_at,
    parsed, text_of, text_opt, texts, trimmed, trimmed_end, trimmed_start, value_of, without,
    without_end, without_start,
};

verus! {

broadcast use vstd::seq::group_seq_axioms;

// ---------------------------------------------------------------------------
// Searching
// ---------------------------------------------------------------------------

/// `pat` stands in a text where the characters from there on are those of
/// `pat`, and nowhere else.
pub proof fn occurrence_is_character_by_character(s: Seq<char>, pat: Seq<char>, i: int)
    ensures
        occurs_at(s, pat, i) <==> {
            &&& 0 <= i
            &&& i + pat.len() <= s.len()
            &&& forall|k: int| 0 <= k < pat.len() ==> s[i + k] == #[trigger] pat[k]
        },
{
    if 0 <= i && i + pat.len() <= s.len() {
        let part = s.subrange(i, i + pat.len());
        if forall|k: int| 0 <= k < pat.len() ==> s[i + k] == #[trigger] pat[k] {
            assert(part =~= pat);
        }
        if part == pat {
            assert forall|k: int| 0 <= k < pat.len() implies s[i + k] == #[trigger] pat[k] by {
                assert(part[k] == s[i + k]);
            }
        }
    }
}

/// Searching finds the leftmost place from which the characters are those of
/// `pat`, and finds none only where there is none.
pub proof fn search_finds_the_leftmost(s: Seq<char>, pat: Seq<char>, from: int)
    requires
        0 <= from,
    ensures
        match first_at(s, pat, from) {
            Some(i) => {
                &&& from <= i
                &&& i + pat.len() <= s.len()
                &&& s.subrange(i, i + pat.len()) == pat
                &&& forall|j: int|
                    from <= j < i ==> #[trigger] s.subrange(j, j + pat.len()) != pat
            },
            None => forall|j: int|
                from <= j && j + pat.len() <= s.len() ==> #[trigger] s.subrange(j, j + pat.len())
                    != pat,
        },
{
    lemma_first_at(s, pat, from);
    assert forall|j: int|
        from <= j && j + pat.len() <= s.len() && #[trigger] s.subrange(j, j + pat.len())
            == pat implies occurs_at(s, pat, j) by {}
    if let Some(i) = first_at(s, pat, from) {
        assert forall|j: int| from <= j < i implies #[trigger] s.subrange(j, j + pat.len())
            != pat by {
            assert(!occurs_at(s, pat, j));
        }
    }
}

/// A text holds its parts, and begins with its first one.
pub proof fn text_holds_its_parts(a: Seq<char>, b: Seq<char>, c: Seq<char>)
    ensures
        includes(a + b + c, b),
        begins(a + b, a),
{
    let s = a + b + c;
    assert(s.subrange(a.len() as int, a.len() as int + b.len()) =~= b);
    assert(occurs_at(s, b, a.len() as int));
    assert((a + b).subrange(0, a.len() as int) =~= a);
}

// ---------------------------------------------------------------------------
// Cutting
// ---------------------------------------------------------------------------

/// `pat` stands nowhere in `s`.
pub open spec fn is_free_of(s: Seq<char>, pat: Seq<char>) -> bool {
    forall|j: int|
        0 <= j && j + pat.len() <= s.len() ==> #[trigger] s.subrange(j, j + pat.len()) != pat
}

pub proof fn lemma_free(s: Seq<char>, pat: Seq<char>)
    requires
        is_free_of(s, pat),
    ensures
        forall|j: int| !occurs_at(s, pat, j),
{
    assert forall|j: int| !occurs_at(s, pat, j) by {
        if occurs_at(s, pat, j) {
            assert(s.subrange(j, j + pat.len()) != pat);
        }
    }
}

/// Taking `pat` out of a text takes out the first one and goes on behind it,
/// and takes nothing out of a text without one.
pub proof fn removing_takes_out_what_stands_there(a: Seq<char>, pat: Seq<char>, b: Seq<char>)
    requires
        pat.len() > 0,
    ensures
        is_free_of(a, pat) ==> without(a, pat) == a,
        is_free_of((a + pat).drop_last(), pat) ==> without(a + pat + b, pat) == a + without(b, pat),
{
    if is_free_of(a, pat) {
        lemma_free(a, pat);
        lemma_first_at_none(a, pat, 0);
    }
    let head = (a + pat).drop_last();
    if is_free_of(head, pat) {
        let s = a + pat + b;
        lemma_free(head, pat);
        assert(s.subrange(a.len() as int, a.len() as int + pat.len()) =~= pat);
        assert forall|k: int| 0 <= k < a.len() implies !occurs_at(s, pat, k) by {
            if occurs_at(s, pat, k) {
                assert(head.subrange(k, k + pat.len()) =~= s.subrange(k, k + pat.len()));
                assert(occurs_at(head, pat, k));
            }
        }
        lemma_first_at_is(s, pat, 0, a.len() as int);
        assert(s.take(a.len() as int) =~= a);
        assert(s.skip(a.len() as int + pat.len()) =~= b);
    }
}

pub proof fn lemma_find_char(a: Seq<char>, c: char, b: Seq<char>)
    requires
        !a.contains(c),
    ensures
        first_at(a + seq![c] + b, seq![c], 0) == Some(a.len() as int),
        first_at(a, seq![c], 0) is None,
{
    let s = a + seq![c] + b;
    let n = a.len() as int;
    assert(s.subrange(n, n + 1) =~= seq![c]);
    assert forall|k: int| 0 <= k < n implies !occurs_at(s, seq![c], k) by {
        if occurs_at(s, seq![c], k) {
            assert(s.subrange(k, k + 1)[0] == a[k]);
            assert(a.contains(c));
        }
    }
    lemma_first_at_is(s, seq![c], 0, n);
    assert forall|k: int| 0 <= k implies !occurs_at(a, seq![c], k) by {
        if occurs_at(a, seq![c], k) {
            assert(a.subrange(k, k + 1)[0] == a[k]);
            assert(a.contains(c));
        }
    }
    lemma_first_at_none(a, seq![c], 0);
}

/// What stands before the first mark is kept, and all of a text without one.
pub proof fn text_before_a_mark(a: Seq<char>, c: char, b: Seq<char>)
    requires
        !a.contains(c),
    ensures
        before_first(a + seq![c] + b, c) == a,
        before_first(a, c) == a,
{
    lemma_find_char(a, c, b);
    assert((a + seq![c] + b).take(a.len() as int) =~= a);
}

/// What stands behind the last mark is kept, and all of a text without one.
pub proof fn text_behind_the_last_mark(a: Seq<char>, c: char, b: Seq<char>)
    requires
        !b.contains(c),
    ensures
        after_last(a + seq![c] + b, c) == b,
        after_last(b, c) == b,
    decreases a.len(),
{
    lemma_find_char(b, c, seq![]);
    let s = a + seq![c] + b;
    lemma_first_at(s, seq![c], 0);
    let n = a.len() as int;
    assert(s.subrange(n, n + 1) =~= seq![c]);
    assert(occurs_at(s, seq![c], n));
    assert(after_last(b, c) == b);
    assert(first_at(s, seq![c], 0) is Some);
    let i = first_at(s, seq![c], 0)->0;
    assert(i <= n);
    assert(after_last(s, c) == after_last(s.skip(i + 1), c));
    if i == n {
        assert(s.skip(n + 1) =~= b);
    } else {
        assert(s.skip(i + 1) =~= a.skip(i + 1) + seq![c] + b);
        text_behind_the_last_mark(a.skip(i + 1), c, b);
    }
}

/// All marks at the end are taken off, and nothing else.
pub proof fn marks_at_the_end_are_taken_off(s: Seq<char>, c: char)
    ensures
        without_end(s.push(c), c) == without_end(s, c),
        s.len() == 0 || s.last() != c ==> without_end(s, c) == s,
{
    assert(s.push(c).drop_last() =~= s);
}

/// All of `pat` at the start is taken off, and nothing else.
pub proof fn starts_are_taken_off(s: Seq<char>, pat: Seq<char>)
    requires
        pat.len() > 0,
    ensures
        without_start(pat + s, pat) == without_start(s, pat),
        !(pat.len() <= s.len() && s.take(pat.len() as int) == pat) ==> without_start(s, pat) == s,
{
    let n = pat.len() as int;
    assert((pat + s).subrange(0, n) =~= pat);
    assert((pat + s).skip(n) =~= s);
    if begins(s, pat) {
        assert(s.take(n) =~= s.subrange(0, n));
    }
}

/// A line ends at a line feed, with or without a carriage return before it; the
/// last line may lack its end; the lines behind an end are those of the rest.
pub proof fn lines_end_at_line_feeds(line: Seq<char>, rest: Seq<char>)
    requires
        !line.contains('\n'),
    ensures
        lines_of(line + seq!['\r'] + seq!['\n'] + rest) == seq![line] + lines_of(rest),
        line.len() == 0 || line.last() != '\r' ==> lines_of(line + seq!['\n'] + rest) == seq![line]
            + lines_of(rest),
        line.len() > 0 ==> lines_of(line) == seq![line],
        lines_of(Seq::<char>::empty()) == Seq::<Seq<char>>::empty(),
{
    lemma_find_char(line, '\n', rest);
    let s = line + seq!['\n'] + rest;
    assert(s.take(line.len() as int) =~= line);
    assert(s.skip(line.len() as int + 1) =~= rest);
    let with = line + seq!['\r'];
    assert forall|k: int| 0 <= k < with.len() implies with[k] != '\n' by {
        if k < line.len() {
            assert(with[k] == line[k]);
            assert(line.contains(line[k]));
        }
    }
    lemma_find_char(with, '\n', rest);
    let t = with + seq!['\n'] + rest;
    assert(t.take(line.len() as int) =~= line);
    assert(t.skip(line.len() as int + 2) =~= rest);
    assert(t[line.len() as int] == '\r');
    lemma_first_at(Seq::<char>::empty(), seq!['\n'], 0);
}

// ---------------------------------------------------------------------------
// Joining and trimming
// ---------------------------------------------------------------------------

/// Texts are joined in order with the separator between each two: joining two
/// lists is joining what each of them joins to.
pub proof fn joining_keeps_every_text(a: Seq<Seq<char>>, b: Seq<Seq<char>>, sep: Seq<char>)
    requires
        a.len() > 0,
        b.len() > 0,
    ensures
        joined(a + b, sep) == joined(a, sep) + sep + joined(b, sep),
        joined(seq![a[0]], sep) == a[0],
        joined(Seq::<Seq<char>>::empty(), sep) == Seq::<char>::empty(),
    decreases b.len(),
{
    let all = a + b;
    assert(all.drop_last() =~= a + b.drop_last());
    if b.len() == 1 {
        assert(a + b.drop_last() =~= a);
    } else {
        joining_keeps_every_text(a, b.drop_last(), sep);
        let x = joined(a, sep) + sep;
        let y = joined(b.drop_last(), sep);
        assert(x + y + sep + b.last() =~= x + (y + sep + b.last()));
    }
}

/// The contents of a list of strings are the contents of each of them, in
/// order.
pub proof fn contents_are_listed_in_order(list: Seq<String>, k: int, s: Option<String>)
    ensures
        texts(list).len() == list.len(),
        0 <= k < list.len() ==> texts(list)[k] == list[k]@,
        s is None <==> text_opt(s) is None,
        s is Some ==> text_opt(s) == Some(s->0@),
{
}

/// Text that is written as UTF-8 is read back as it was.
pub proof fn text_is_read_back_from_its_bytes(t: Seq<char>)
    ensures
        text_of(encode_utf8(t)) == t,
{
    encode_utf8_valid_utf8(t);
    encode_utf8_decode_utf8(t);
}

/// All of `s` is white space.
pub open spec fn is_blank(s: Seq<char>) -> bool {
    forall|i: int| 0 <= i < s.len() ==> is_white(#[trigger] s[i])
}

/// Trimming takes the white space off both ends, and keeps what stands between
/// character by character.
pub proof fn trimming_keeps_what_stands_between(a: Seq<char>, m: Seq<char>, b: Seq<char>)
    requires
        is_blank(a),
        is_blank(b),
        m.len() == 0 || (!is_white(m[0]) && !is_white(m.last())),
    ensures
        trimmed(a + m + b) == m,
{
    let s = a + m + b;
    if m.len() == 0 {
        assert forall|i: int| 0 <= i < s.len() implies is_white(#[trigger] s[i]) by {
            if i < a.len() {
                assert(s[i] == a[i]);
            } else {
                assert(s[i] == b[i - a.len()]);
            }
        }
        lemma_blank_start(s, s.len() as int);
        assert(s.skip(s.len() as int) =~= seq![]);
        assert(trimmed(s) =~= m);
    } else {
        assert forall|i: int| 0 <= i < a.len() implies is_white(#[trigger] s[i]) by {
            assert(s[i] == a[i]);
        }
        lemma_blank_start(s, a.len() as int);
        assert(s.skip(a.len() as int) =~= m + b);
        assert((m + b)[0] == m[0]);
        assert forall|i: int| m.len() <= i < (m + b).len() implies is_white(#[trigger] (m + b)[i]) by {
            assert((m + b)[i] == b[i - m.len()]);
        }
        lemma_blank_end(m + b, m.len() as int);
        assert((m + b).take(m.len() as int) =~= m);
    }
}

proof fn lemma_blank_start(s: Seq<char>, n: int)
    requires
        0 <= n <= s.len(),
        forall|i: int| 0 <= i < n ==> is_white(#[trigger] s[i]),
    ensures
        trimmed_start(s) == trimmed_start(s.skip(n)),
    decreases n,
{
    if n == 0 {
        assert(s.skip(0) =~= s);
    } else {
        assert(s[0] == s[0int]);
        let t = s.skip(1);
        assert forall|i: int| 0 <= i < n - 1 implies is_white(#[trigger] t[i]) by {
            assert(t[i] == s[i + 1]);
        }
        lemma_blank_start(t, n - 1);
        assert(t.skip(n - 1) =~= s.skip(n));
    }
}

proof fn lemma_blank_end(s: Seq<char>, n: int)
    requires
        0 <= n <= s.len(),
        forall|i: int| n <= i < s.len() ==> is_white(#[trigger] s[i]),
    ensures
        trimmed_end(s) == trimmed_end(s.take(n)),
    decreases s.len(),
{
    if n == s.len() {
        assert(s.take(n) =~= s);
    } else {
        assert(is_white(s[s.len() - 1]));
        let t = s.drop_last();
        assert forall|i: int| n <= i < t.len() implies is_white(#[trigger] t[i]) by {
            assert(t[i] == s[i]);
        }
        lemma_blank_end(t, n);
        assert(t.take(n) =~= s.take(n));
    }
}

// ---------------------------------------------------------------------------
// Numbers
// ---------------------------------------------------------------------------

/// Numbers are written in base ten, with digits of ASCII and no leading zero.
pub proof fn numbers_are_written_in_base_ten(n: nat, d: nat)
    requires
        d < 10,
    ensures
        decimal(d) == seq![(48 + d) as char],
        n > 0 ==> decimal(10 * n + d) == decimal(n) + decimal(d),
{
    if n > 0 {
        assert((10 * n + d) / 10 == n && (10 * n + d) % 10 == d) by (nonlinear_arith)
            requires
                d < 10,
        ;
        assert(decimal(10 * n + d) =~= decimal(n) + decimal(d));
    }
}

proof fn lemma_decimal(n: nat)
    ensures
        decimal(n).len() > 0,
        all_digits(decimal(n)),
        value_of(decimal(n)) == n,
    decreases n,
{
    reveal_with_fuel(value_of, 3);
    let s = decimal(n);
    if n < 10 {
        assert(s.drop_last() =~= seq![]);
    } else {
        lemma_decimal(n / 10);
        assert(s.drop_last() =~= decimal(n / 10));
        assert forall|i: int| 0 <= i < s.len() implies is_ascii_digit(#[trigger] s[i]) by {
            if i < s.len() - 1 {
                assert(s[i] == decimal(n / 10)[i]);
            }
        }
    }
}

/// The decimal form of a number is made of digits.
pub proof fn decimal_form_is_made_of_digits(n: nat)
    ensures
        decimal(n).len() > 0,
        forall|i: int| 0 <= i < decimal(n).len() ==> '0' <= #[trigger] decimal(n)[i] <= '9',
{
    lemma_decimal(n);
    assert forall|i: int| 0 <= i < decimal(n).len() implies '0' <= #[trigger] decimal(n)[i]
        <= '9' by {
        assert(is_ascii_digit(decimal(n)[i]));
    }
}

/// A number that is written is read back where it is not too large, with or
/// without a plus sign, and with zeros before it.
pub proof fn numbers_are_read_back(n: nat, max: nat)
    ensures
        parsed(decimal(n), max) == if n <= max {
            Some(n)
        } else {
            None
        },
        parsed(seq!['+'] + decimal(n), max) == parsed(decimal(n), max),
        parsed(seq!['0'] + decimal(n), max) == parsed(decimal(n), max),
{
    lemma_decimal(n);
    let s = decimal(n);
    assert(is_ascii_digit(s[0]));
    assert((seq!['+'] + s).skip(1) =~= s);
    let z = seq!['0'] + s;
    lemma_leading_zero(s);
    assert forall|i: int| 0 <= i < z.len() implies is_ascii_digit(#[trigger] z[i]) by {
        if i > 0 {
            assert(z[i] == s[i - 1]);
        }
    }
}

/// Zeros before a row of digits make no difference.
pub proof fn leading_zeros_make_no_difference(s: Seq<char>, max: nat)
    requires
        s.len() > 0,
        forall|i: int| 0 <= i < s.len() ==> '0' <= #[trigger] s[i] <= '9',
    ensures
        parsed(seq!['0'] + s, max) == parsed(s, max),
{
    lemma_leading_zero(s);
    let z = seq!['0'] + s;
    assert forall|i: int| 0 <= i < z.len() implies is_ascii_digit(#[trigger] z[i]) by {
        if i > 0 {
            assert(z[i] == s[i - 1]);
        }
    }
    assert(all_digits(s));
}

proof fn lemma_leading_zero(s: Seq<char>)
    ensures
        value_of(seq!['0'] + s) == value_of(s),
    decreases s.len(),
{
    let z = seq!['0'] + s;
    if s.len() == 0 {
        assert(z =~= seq!['0']);
        assert(z.drop_last() =~= seq![]);
        assert(value_of(z.drop_last()) == 0);
    } else {
        lemma_leading_zero(s.drop_last());
        assert(z.drop_last() =~= seq!['0'] + s.drop_last());
        assert(z.last() == s.last());
    }
}

/// A text with anything but digits behind a plus sign that may be absent, and
/// a text without digits, is no number.
pub proof fn other_texts_are_no_numbers(s: Seq<char>, i: int, max: nat)
    requires
        0 <= i < s.len(),
        !('0' <= s[i] <= '9'),
        i > 0 || s[0] != '+',
    ensures
        parsed(s, max) is None,
        parsed(Seq::<char>::empty(), max) is None,
        parsed(seq!['+'], max) is None,
{
    assert(seq!['+'].skip(1) =~= seq![]);
    if s[0] == '+' {
        let t = s.skip(1);
        assert(t[i - 1] == s[i]);
        assert(!is_ascii_digit(t[i - 1]));
    } else {
        assert(!is_ascii_digit(s[i]));
    }
}

} // verus!
