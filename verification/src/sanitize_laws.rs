//! What sanitizing keeps of a text with tags.

use vstd::prelude::*;

use crate::grounding::{lemma_ref_tags, lemma_tags};
use crate::patterns::{untagged, DET_CLOSE, DET_OPEN, REF_CLOSE, REF_OPEN};
use crate::processor::{plain_text_is_only_trimmed, sanitized};
use crate::text::{
    first_at, is_white, lemma_first_at, lemma_first_at_is, lemma_first_at_skip, occurs_at, trimmed,
    trimmed_end, trimmed_start,
};

verus! {

broadcast use vstd::seq::group_seq_axioms;

/// A stretch of a text with tags.
pub enum Stretch {
    /// Text outside tags.
    Plain(Seq<char>),
    /// What stands between detection tags.
    Det(Seq<char>),
    /// What stands between reference tags.
    Ref(Seq<char>),
}

impl Stretch {
    /// The text in the stretch.
    pub open spec fn text(self) -> Seq<char> {
        match self {
            Stretch::Plain(t) => t,
            Stretch::Det(t) => t,
            Stretch::Ref(t) => t,
        }
    }

    /// The stretch with its tags.
    pub open spec fn with_tags(self) -> Seq<char> {
        match self {
            Stretch::Plain(t) => t,
            Stretch::Det(t) => DET_OPEN@ + t + DET_CLOSE@,
            Stretch::Ref(t) => REF_OPEN@ + t + REF_CLOSE@,
        }
    }

    /// What sanitizing keeps of the stretch: nothing of what stands between
    /// detection tags, and else the text.
    pub open spec fn kept(self) -> Seq<char> {
        match self {
            Stretch::Det(_) => seq![],
            _ => self.text(),
        }
    }

    /// The stretch with its tags, but nothing of it where they are detection
    /// tags.
    spec fn without_det(self) -> Seq<char> {
        match self {
            Stretch::Det(_) => seq![],
            _ => self.with_tags(),
        }
    }
}

/// The text that the stretches make up.
pub open spec fn written(list: Seq<Stretch>) -> Seq<char>
    decreases list.len(),
{
    if list.len() == 0 {
        seq![]
    } else {
        list[0].with_tags() + written(list.skip(1))
    }
}

/// What sanitizing keeps of the stretches.
pub open spec fn kept_of(list: Seq<Stretch>) -> Seq<char>
    decreases list.len(),
{
    if list.len() == 0 {
        seq![]
    } else {
        list[0].kept() + kept_of(list.skip(1))
    }
}

spec fn without_dets(list: Seq<Stretch>) -> Seq<char>
    decreases list.len(),
{
    if list.len() == 0 {
        seq![]
    } else {
        list[0].without_det() + without_dets(list.skip(1))
    }
}

/// Nothing in `s` begins a tag, whatever follows `s`: behind each `<` comes
/// something, and no `|`.
pub open spec fn begins_no_tag(s: Seq<char>) -> bool {
    forall|i: int|
        0 <= i < s.len() && #[trigger] s[i] == '<' ==> i + 1 < s.len() && s[i + 1] != '|'
}

/// No `<` in `s` has a `|` behind it.
spec fn holds_no_tag(s: Seq<char>) -> bool {
    forall|i: int| 0 <= i < s.len() - 1 && #[trigger] s[i] == '<' ==> s[i + 1] != '|'
}

/// Nothing in the stretches begins a tag.
pub open spec fn begin_no_tag(list: Seq<Stretch>) -> bool {
    forall|i: int| 0 <= i < list.len() ==> begins_no_tag((#[trigger] list[i]).text())
}

/// Sanitizing a text keeps what stands outside tags and between reference tags,
/// and nothing of what stands between detection tags.
pub proof fn sanitizing_keeps_the_text(list: Seq<Stretch>)
    requires
        begin_no_tag(list),
    ensures
        sanitized(written(list)) == trimmed(kept_of(list)),
{
    lemma_strip(list);
    lemma_unwrap(list);
}

/// Sanitizing a text again changes nothing.
pub proof fn sanitizing_twice_changes_nothing(list: Seq<Stretch>)
    requires
        begin_no_tag(list),
    ensures
        sanitized(sanitized(written(list))) == sanitized(written(list)),
{
    sanitizing_keeps_the_text(list);
    let kept = kept_of(list);
    let once = trimmed(kept);
    lemma_kept(list);
    lemma_trimmed_part(kept);
    lemma_tags();
    lemma_ref_tags();
    assert forall|i: int| !occurs_at(once, DET_OPEN@, i) && !occurs_at(once, REF_OPEN@, i) by {
        if occurs_at(once, DET_OPEN@, i) {
            assert(once.subrange(i, i + 7)[0] == once[i]);
            assert(once.subrange(i, i + 7)[1] == once[i + 1]);
        }
        if occurs_at(once, REF_OPEN@, i) {
            assert(once.subrange(i, i + 7)[0] == once[i]);
            assert(once.subrange(i, i + 7)[1] == once[i + 1]);
        }
    }
    plain_text_is_only_trimmed(once);
    lemma_trimmed_twice(kept);
}

// ---------------------------------------------------------------------------
// Taking stretches out
// ---------------------------------------------------------------------------

pub proof fn lemma_untagged_skip(
    s: Seq<char>,
    open: Seq<char>,
    close: Seq<char>,
    keep: bool,
    from: int,
)
    requires
        0 <= from <= s.len(),
        open.len() > 0,
    ensures
        untagged(s, open, close, keep, from) == untagged(s.skip(from), open, close, keep, 0),
    decreases s.len() - from,
{
    let t = s.skip(from);
    lemma_first_at(s, open, from);
    lemma_first_at_skip(s, open, from, 0);
    assert(t.skip(0) =~= t);
    if let Some(i) = first_at(s, open, from) {
        let a = i + open.len();
        lemma_first_at(s, close, a);
        lemma_first_at_skip(s, close, from, a - from);
        if let Some(j) = first_at(s, close, a) {
            let z = j + close.len();
            lemma_untagged_skip(s, open, close, keep, z);
            lemma_untagged_skip(t, open, close, keep, z - from);
            assert(t.skip(z - from) =~= s.skip(z));
            assert(t.subrange(0, i - from) =~= s.subrange(from, i));
            assert(t.subrange(a - from, j - from) =~= s.subrange(a, j));
        }
    }
}

/// Text before the first opening tag stays.
pub proof fn lemma_untagged_head(
    p: Seq<char>,
    x: Seq<char>,
    open: Seq<char>,
    close: Seq<char>,
    keep: bool,
)
    requires
        open.len() > 0,
        forall|k: int| 0 <= k < p.len() ==> !occurs_at(p + x, open, k),
    ensures
        untagged(p + x, open, close, keep, 0) == p + untagged(x, open, close, keep, 0),
{
    let s = p + x;
    let n = p.len() as int;
    assert(s.skip(n) =~= x);
    lemma_untagged_skip(s, open, close, keep, n);
    lemma_first_at(s, open, 0);
    lemma_first_at(s, open, n);
    match first_at(s, open, n) {
        Some(i) => {
            lemma_first_at_is(s, open, 0, i);
            lemma_first_at(s, close, i + open.len());
            assert(s.subrange(0, i) =~= p + s.subrange(n, i));
            if let Some(j) = first_at(s, close, i + open.len()) {
                let inside = if keep {
                    s.subrange(i + open.len(), j)
                } else {
                    seq![]
                };
                let rest = untagged(s, open, close, keep, j + close.len());
                assert(p + s.subrange(n, i) + inside + rest =~= p + (s.subrange(n, i) + inside
                    + rest));
            } else {
                assert(s.skip(0) =~= p + s.skip(n));
            }
        },
        None => {
            assert(first_at(s, open, 0) is None);
            assert(s.skip(0) =~= p + s.skip(n));
        },
    }
}

/// Of a stretch between tags, the inside stays or nothing does.
proof fn lemma_untagged_stretch(
    inside: Seq<char>,
    x: Seq<char>,
    open: Seq<char>,
    close: Seq<char>,
    keep: bool,
)
    requires
        open.len() > 0,
        close.len() > 1,
        close[0] == '<',
        close[1] == '|',
        begins_no_tag(inside),
    ensures
        untagged(open + inside + close + x, open, close, keep, 0) == (if keep {
            inside
        } else {
            seq![]
        }) + untagged(x, open, close, keep, 0),
{
    let s = open + inside + close + x;
    let a = open.len() as int;
    let j = a + inside.len();
    let z = j + close.len();
    assert(s.subrange(0, 0 + a) =~= open);
    lemma_first_at_is(s, open, 0, 0);
    assert(s.subrange(j, z) =~= close);
    assert forall|k: int| a <= k < j implies !occurs_at(s, close, k) by {
        if occurs_at(s, close, k) {
            assert(s.subrange(k, k + close.len())[0] == s[k]);
            assert(s.subrange(k, k + close.len())[1] == s[k + 1]);
            assert(s[k] == inside[k - a]);
            assert(s[k + 1] == inside[k + 1 - a]);
        }
    }
    lemma_first_at_is(s, close, a, j);
    lemma_untagged_skip(s, open, close, keep, z);
    assert(s.skip(z) =~= x);
    assert(s.subrange(a, j) =~= inside);
    let kept = if keep {
        inside
    } else {
        seq![]
    };
    let rest = untagged(x, open, close, keep, 0);
    assert(s.subrange(0, 0) + kept + rest =~= kept + rest);
}

proof fn lemma_rest(list: Seq<Stretch>)
    requires
        list.len() > 0,
        begin_no_tag(list),
    ensures
        begin_no_tag(list.skip(1)),
        begins_no_tag(list[0].text()),
{
    assert forall|i: int| 0 <= i < list.skip(1).len() implies begins_no_tag(
        (#[trigger] list.skip(1)[i]).text(),
    ) by {
        assert(list.skip(1)[i] == list[i + 1]);
    }
}

/// No detection tag opens in text that begins no tag or in a stretch between
/// reference tags.
proof fn lemma_no_det(p: Stretch, x: Seq<char>)
    requires
        !(p is Det),
        begins_no_tag(p.text()),
    ensures
        forall|k: int|
            0 <= k < p.with_tags().len() ==> !occurs_at(p.with_tags() + x, DET_OPEN@, k),
{
    lemma_tags();
    lemma_ref_tags();
    let t = p.text();
    let w = p.with_tags();
    let s = w + x;
    assert forall|k: int| 0 <= k < w.len() implies !occurs_at(s, DET_OPEN@, k) by {
        if occurs_at(s, DET_OPEN@, k) {
            assert(s.subrange(k, k + 7)[0] == s[k]);
            assert(s.subrange(k, k + 7)[1] == s[k + 1]);
            assert(s.subrange(k, k + 7)[2] == s[k + 2]);
            match p {
                Stretch::Plain(_) => {
                    assert(s[k] == t[k]);
                    assert(s[k + 1] == t[k + 1]);
                },
                _ => {
                    let n = t.len() as int;
                    if k < 7 {
                        assert(s[k] == REF_OPEN@[k]);
                        assert(k == 0);
                        assert(s[2] == REF_OPEN@[2]);
                    } else if k < 7 + n {
                        assert(s[k] == t[k - 7]);
                        assert(s[k + 1] == t[k + 1 - 7]);
                    } else {
                        assert(s[k] == REF_CLOSE@[k - 7 - n]);
                        assert(k == 7 + n);
                        assert(s[k + 2] == REF_CLOSE@[2]);
                    }
                },
            }
        }
    }
}

proof fn lemma_strip(list: Seq<Stretch>)
    requires
        begin_no_tag(list),
    ensures
        untagged(written(list), DET_OPEN@, DET_CLOSE@, false, 0) == without_dets(list),
    decreases list.len(),
{
    lemma_tags();
    if list.len() == 0 {
        lemma_first_at(written(list), DET_OPEN@, 0);
        assert(written(list).skip(0) =~= seq![]);
    } else {
        let p = list[0];
        let x = written(list.skip(1));
        lemma_rest(list);
        lemma_strip(list.skip(1));
        match p {
            Stretch::Det(t) => {
                lemma_untagged_stretch(t, x, DET_OPEN@, DET_CLOSE@, false);
            },
            _ => {
                lemma_no_det(p, x);
                lemma_untagged_head(p.with_tags(), x, DET_OPEN@, DET_CLOSE@, false);
            },
        }
    }
}

proof fn lemma_unwrap(list: Seq<Stretch>)
    requires
        begin_no_tag(list),
    ensures
        untagged(without_dets(list), REF_OPEN@, REF_CLOSE@, true, 0) == kept_of(list),
    decreases list.len(),
{
    lemma_ref_tags();
    if list.len() == 0 {
        lemma_first_at(without_dets(list), REF_OPEN@, 0);
        assert(without_dets(list).skip(0) =~= seq![]);
    } else {
        let p = list[0];
        let x = without_dets(list.skip(1));
        lemma_rest(list);
        lemma_unwrap(list.skip(1));
        match p {
            Stretch::Plain(t) => {
                assert forall|k: int| 0 <= k < t.len() implies !occurs_at(t + x, REF_OPEN@, k) by {
                    if occurs_at(t + x, REF_OPEN@, k) {
                        assert((t + x).subrange(k, k + 7)[0] == t[k]);
                        assert((t + x).subrange(k, k + 7)[1] == (t + x)[k + 1]);
                        assert((t + x)[k + 1] == t[k + 1]);
                    }
                }
                lemma_untagged_head(t, x, REF_OPEN@, REF_CLOSE@, true);
            },
            Stretch::Det(_) => {
                assert(seq![] + x =~= x);
                assert(seq![] + kept_of(list.skip(1)) =~= kept_of(list.skip(1)));
            },
            Stretch::Ref(t) => {
                lemma_untagged_stretch(t, x, REF_OPEN@, REF_CLOSE@, true);
            },
        }
    }
}

proof fn lemma_kept(list: Seq<Stretch>)
    requires
        begin_no_tag(list),
    ensures
        begins_no_tag(kept_of(list)),
    decreases list.len(),
{
    if list.len() > 0 {
        lemma_rest(list);
        lemma_kept(list.skip(1));
        let a = list[0].kept();
        let b = kept_of(list.skip(1));
        assert forall|i: int| 0 <= i < (a + b).len() && #[trigger] (a + b)[i] == '<' implies i + 1
            < (a + b).len() && (a + b)[i + 1] != '|' by {
            if i < a.len() {
                assert((a + b)[i] == list[0].text()[i]);
                assert((a + b)[i + 1] == list[0].text()[i + 1]);
            } else {
                assert((a + b)[i] == b[i - a.len()]);
                assert((a + b)[i + 1] == b[i + 1 - a.len()]);
            }
        }
    }
}

// ---------------------------------------------------------------------------
// Trimming
// ---------------------------------------------------------------------------

proof fn lemma_trimmed_start(s: Seq<char>)
    ensures
        holds_no_tag(s) ==> holds_no_tag(trimmed_start(s)),
        trimmed_start(s).len() > 0 ==> !is_white(trimmed_start(s)[0]),
    decreases s.len(),
{
    if s.len() > 0 && is_white(s[0]) {
        let t = s.skip(1);
        lemma_trimmed_start(t);
        if holds_no_tag(s) {
            assert forall|i: int| 0 <= i < t.len() - 1 && #[trigger] t[i] == '<' implies t[i + 1]
                != '|' by {
                assert(t[i] == s[i + 1] && t[i + 1] == s[i + 2]);
            }
        }
    }
}

proof fn lemma_trimmed_end(s: Seq<char>)
    ensures
        holds_no_tag(s) ==> holds_no_tag(trimmed_end(s)),
        trimmed_end(s).len() > 0 ==> {
            &&& !is_white(trimmed_end(s).last())
            &&& trimmed_end(s)[0] == s[0]
        },
    decreases s.len(),
{
    if s.len() > 0 && is_white(s.last()) {
        let t = s.drop_last();
        lemma_trimmed_end(t);
        if holds_no_tag(s) {
            assert forall|i: int| 0 <= i < t.len() - 1 && #[trigger] t[i] == '<' implies t[i + 1]
                != '|' by {
                assert(t[i] == s[i] && t[i + 1] == s[i + 1]);
            }
        }
    }
}

proof fn lemma_trimmed_part(s: Seq<char>)
    ensures
        begins_no_tag(s) ==> holds_no_tag(trimmed(s)),
{
    if begins_no_tag(s) {
        assert(holds_no_tag(s));
    }
    lemma_trimmed_start(s);
    lemma_trimmed_end(trimmed_start(s));
}

proof fn lemma_trimmed_twice(s: Seq<char>)
    ensures
        trimmed(trimmed(s)) == trimmed(s),
{
    lemma_trimmed_start(s);
    lemma_trimmed_end(trimmed_start(s));
}

} // verus!
