//! What a client is sent while it listens agrees with what it is sent in one
//! piece.

use vstd::prelude::*;

use crate::grounding::{
    bbox, held, lemma_ref_tags, lemma_tags, may_become_tag, parse, rest_of, token, ParserValue,
};
use crate::markup::{region_in, without_refs};
use crate::models::EventValue;
use crate::patterns::{untagged, DET_CLOSE, DET_OPEN, REF_CLOSE, REF_OPEN};
use crate::processor::{extracted, sanitized};
use crate::stream::{run, step, InputValue, Phase, Source, StreamValue};
use crate::stream_laws::{
    are_events_of, boxes_in, lemma_bbox, lemma_boxes_concat, lemma_cut_tag_is_held,
    lemma_held_some, lemma_no_tag_in_given, lemma_start, lemma_text_concat, lemma_token,
    pieces_make_no_difference_to_regions, streamed_boxes_are_the_extracted_boxes, text_in,
};
use crate::text::{
    first_at, glued, includes, is_white, lemma_first_at, lemma_first_at_extends,
    lemma_first_at_is, lemma_first_at_skip, lemma_glued_push, lemma_occurs_skip, occurs_at,
    trimmed, trimmed_end, trimmed_start, without,
};

verus! {

broadcast use vstd::seq::group_seq_axioms;

// ---------------------------------------------------------------------------
// Text in which no tag is left
// ---------------------------------------------------------------------------

/// No tag that the model opens, and no reference tag that it closes, is left in
/// `s`.
pub open spec fn is_clean(s: Seq<char>) -> bool {
    !includes(s, DET_OPEN@) && !includes(s, REF_OPEN@) && !includes(s, REF_CLOSE@)
}

/// `s` without the reference tags that stand in it.
pub open spec fn bare(s: Seq<char>) -> Seq<char>
    decreases s.len(),
{
    if s.len() == 0 {
        s
    } else if occurs_at(s, REF_OPEN@, 0) {
        proof {
            lemma_ref_tags();
        }
        bare(s.skip(REF_OPEN@.len() as int))
    } else if occurs_at(s, REF_CLOSE@, 0) {
        proof {
            lemma_ref_tags();
        }
        bare(s.skip(REF_CLOSE@.len() as int))
    } else {
        seq![s[0]] + bare(s.skip(1))
    }
}

proof fn lemma_chars(s: Seq<char>, pat: Seq<char>, i: int)
    requires
        occurs_at(s, pat, i),
    ensures
        forall|k: int| 0 <= k < pat.len() ==> s[i + k] == #[trigger] pat[k],
{
    assert forall|k: int| 0 <= k < pat.len() implies s[i + k] == #[trigger] pat[k] by {
        assert(s.subrange(i, i + pat.len())[k] == s[i + k]);
    }
}

proof fn lemma_includes_part(a: Seq<char>, b: Seq<char>, pat: Seq<char>)
    ensures
        includes(a, pat) ==> includes(a + b, pat),
        includes(b, pat) ==> includes(a + b, pat),
{
    if includes(a, pat) {
        let i = choose|i: int| occurs_at(a, pat, i);
        assert((a + b).subrange(i, i + pat.len()) =~= a.subrange(i, i + pat.len()));
        assert(occurs_at(a + b, pat, i));
    }
    if includes(b, pat) {
        let i = choose|i: int| occurs_at(b, pat, i);
        let n = a.len();
        assert((a + b).subrange(n + i, n + i + pat.len()) =~= b.subrange(i, i + pat.len()));
        assert(occurs_at(a + b, pat, n + i));
    }
}

proof fn lemma_without_at(s: Seq<char>, pat: Seq<char>)
    requires
        pat.len() > 0,
        occurs_at(s, pat, 0),
    ensures
        without(s, pat) == without(s.skip(pat.len() as int), pat),
{
    lemma_first_at_is(s, pat, 0, 0);
    assert(s.take(0) + without(s.skip(pat.len() as int), pat) =~= without(
        s.skip(pat.len() as int),
        pat,
    ));
}

proof fn lemma_without_next(s: Seq<char>, pat: Seq<char>)
    requires
        pat.len() > 0,
        s.len() > 0,
        !occurs_at(s, pat, 0),
    ensures
        without(s, pat) == seq![s[0]] + without(s.skip(1), pat),
{
    let t = s.skip(1);
    lemma_first_at(s, pat, 0);
    lemma_first_at(t, pat, 0);
    lemma_first_at_skip(s, pat, 1, 0);
    assert(first_at(s, pat, 0) == first_at(s, pat, 1)) by {
        lemma_first_at(s, pat, 1);
    }
    match first_at(t, pat, 0) {
        Some(i) => {
            assert(s.take(i + 1) =~= seq![s[0]] + t.take(i));
            assert(s.skip(i + 1 + pat.len()) =~= t.skip(i + pat.len()));
            let rest = without(t.skip(i + pat.len()), pat);
            assert(seq![s[0]] + t.take(i) + rest =~= seq![s[0]] + (t.take(i) + rest));
        },
        None => {
            assert(s =~= seq![s[0]] + t);
        },
    }
}

proof fn lemma_without_prefix(s: Seq<char>, pat: Seq<char>, n: int)
    requires
        pat.len() > 0,
        0 <= n <= s.len(),
        forall|k: int| 0 <= k < n ==> !occurs_at(s, pat, k),
    ensures
        without(s, pat) == s.take(n) + without(s.skip(n), pat),
    decreases n,
{
    if n == 0 {
        assert(s.skip(0) =~= s);
        assert(s.take(0) + without(s, pat) =~= without(s, pat));
    } else {
        lemma_without_next(s, pat);
        let t = s.skip(1);
        assert forall|k: int| 0 <= k < n - 1 implies !occurs_at(t, pat, k) by {
            lemma_occurs_skip(s, pat, 1, k);
        }
        lemma_without_prefix(t, pat, n - 1);
        assert(t.skip(n - 1) =~= s.skip(n));
        let rest = without(s.skip(n), pat);
        assert(seq![s[0]] + (t.take(n - 1) + rest) =~= s.take(n) + rest);
    }
}

/// What is left of a text at its beginning, up to the beginning of a tag.
proof fn lemma_start_kept(t: Seq<char>, n: int)
    requires
        0 <= n <= without(t, REF_OPEN@).len(),
        forall|k: int| 0 <= k < n ==> #[trigger] without(t, REF_OPEN@)[k] != '<',
    ensures
        bare(t).len() >= n,
        bare(t).take(n) == without(t, REF_OPEN@).take(n),
    decreases t.len(),
{
    lemma_ref_tags();
    let w = without(t, REF_OPEN@);
    lemma_first_at(t, REF_OPEN@, 0);
    if n == 0 {
        assert(bare(t).take(0) =~= w.take(0));
    } else if occurs_at(t, REF_OPEN@, 0) {
        lemma_without_at(t, REF_OPEN@);
        lemma_start_kept(t.skip(REF_OPEN@.len() as int), n);
    } else {
        lemma_without_next(t, REF_OPEN@);
        assert(w[0] == t[0]);
        if occurs_at(t, REF_CLOSE@, 0) {
            lemma_chars(t, REF_CLOSE@, 0);
            assert(t[0] == REF_CLOSE@[0]);
        }
        let rest = without(t.skip(1), REF_OPEN@);
        assert forall|k: int| 0 <= k < n - 1 implies #[trigger] rest[k] != '<' by {
            assert(rest[k] == w[k + 1]);
        }
        lemma_start_kept(t.skip(1), n - 1);
        assert(bare(t).take(n) =~= seq![t[0]] + bare(t.skip(1)).take(n - 1));
        assert(w.take(n) =~= seq![t[0]] + rest.take(n - 1));
    }
}

/// Where no closing tag is left when reference tags are taken out as they
/// stand, the same is left when they are taken out one kind behind the other.
proof fn lemma_refs_dropped(s: Seq<char>)
    requires
        !includes(bare(s), REF_CLOSE@),
    ensures
        without_refs(s) == bare(s),
    decreases s.len(),
{
    lemma_ref_tags();
    let a = without(s, REF_OPEN@);
    lemma_first_at(s, REF_OPEN@, 0);
    lemma_first_at(a, REF_CLOSE@, 0);
    if s.len() == 0 {
    } else if occurs_at(s, REF_OPEN@, 0) {
        lemma_without_at(s, REF_OPEN@);
        lemma_refs_dropped(s.skip(REF_OPEN@.len() as int));
    } else if occurs_at(s, REF_CLOSE@, 0) {
        lemma_chars(s, REF_CLOSE@, 0);
        let t = s.skip(8);
        assert forall|k: int| 0 <= k < 8 implies !occurs_at(s, REF_OPEN@, k) by {
            if occurs_at(s, REF_OPEN@, k) {
                lemma_chars(s, REF_OPEN@, k);
                assert(s[k + 0] == REF_OPEN@[0]);
                assert(s[0 + k] == REF_CLOSE@[k]);
            }
        }
        lemma_without_prefix(s, REF_OPEN@, 8);
        assert(a =~= s.take(8) + without(t, REF_OPEN@));
        assert(a.subrange(0, 8) =~= s.subrange(0, 8));
        lemma_without_at(a, REF_CLOSE@);
        assert(a.skip(8) =~= without(t, REF_OPEN@));
        lemma_refs_dropped(t);
    } else {
        let t = s.skip(1);
        lemma_without_next(s, REF_OPEN@);
        lemma_includes_part(seq![s[0]], bare(t), REF_CLOSE@);
        lemma_refs_dropped(t);
        if occurs_at(a, REF_CLOSE@, 0) {
            lemma_formed_close(s);
            assert(false);
        }
        lemma_without_next(a, REF_CLOSE@);
        assert(a.skip(1) =~= without(t, REF_OPEN@));
    }
}

proof fn lemma_formed_close(s: Seq<char>)
    requires
        s.len() > 0,
        !occurs_at(s, REF_OPEN@, 0),
        !occurs_at(s, REF_CLOSE@, 0),
        occurs_at(without(s, REF_OPEN@), REF_CLOSE@, 0),
    ensures
        includes(bare(s), REF_CLOSE@),
{
    lemma_ref_tags();
    let t = s.skip(1);
    let a = without(s, REF_OPEN@);
    let w = without(t, REF_OPEN@);
    lemma_without_next(s, REF_OPEN@);
    lemma_chars(a, REF_CLOSE@, 0);
    assert(a[0] == REF_CLOSE@[0]);
    assert forall|k: int| 0 <= k < 7 implies #[trigger] w[k] != '<' by {
        assert(w[k] == a[k + 1]);
        assert(a[0 + (k + 1)] == REF_CLOSE@[k + 1]);
    }
    lemma_start_kept(t, 7);
    let b = bare(s);
    assert(b.subrange(0, 8) =~= seq![s[0]] + bare(t).take(7));
    assert(a.subrange(0, 8) =~= seq![s[0]] + w.take(7));
    assert(occurs_at(b, REF_CLOSE@, 0));
}

// ---------------------------------------------------------------------------
// Text in two parts
// ---------------------------------------------------------------------------

/// A reference tag that begins in `p` at `k` ends in `q`.
pub open spec fn splits(p: Seq<char>, q: Seq<char>, k: int) -> bool {
    0 <= k < p.len() && {
        ||| occurs_at(p + q, REF_OPEN@, k) && k + REF_OPEN@.len() > p.len()
        ||| occurs_at(p + q, REF_CLOSE@, k) && k + REF_CLOSE@.len() > p.len()
    }
}

proof fn lemma_occurs_in_head(p: Seq<char>, q: Seq<char>, pat: Seq<char>, i: int)
    requires
        i + pat.len() <= p.len(),
    ensures
        occurs_at(p + q, pat, i) == occurs_at(p, pat, i),
{
    if 0 <= i {
        assert((p + q).subrange(i, i + pat.len()) =~= p.subrange(i, i + pat.len()));
    }
}

proof fn lemma_splits_skip(p: Seq<char>, q: Seq<char>, n: int)
    requires
        0 <= n <= p.len(),
        forall|k: int| !splits(p, q, k),
    ensures
        forall|k: int| !splits(p.skip(n), q, k),
{
    assert forall|k: int| !splits(p.skip(n), q, k) by {
        if splits(p.skip(n), q, k) {
            assert(p.skip(n) + q =~= (p + q).skip(n));
            lemma_occurs_skip(p + q, REF_OPEN@, n, k);
            lemma_occurs_skip(p + q, REF_CLOSE@, n, k);
            assert(splits(p, q, n + k));
        }
    }
}

proof fn lemma_bare_concat(p: Seq<char>, q: Seq<char>)
    requires
        forall|k: int| !splits(p, q, k),
    ensures
        bare(p + q) == bare(p) + bare(q),
    decreases p.len(),
{
    lemma_ref_tags();
    let s = p + q;
    if p.len() == 0 {
        assert(s =~= q);
        assert(bare(p) + bare(q) =~= bare(q));
    } else {
        assert(!splits(p, q, 0));
        if p.len() >= 7 {
            lemma_occurs_in_head(p, q, REF_OPEN@, 0);
        }
        if p.len() >= 8 {
            lemma_occurs_in_head(p, q, REF_CLOSE@, 0);
        }
        if occurs_at(p, REF_OPEN@, 0) {
            assert(s.skip(7) =~= p.skip(7) + q);
            lemma_splits_skip(p, q, 7);
            lemma_bare_concat(p.skip(7), q);
        } else if occurs_at(p, REF_CLOSE@, 0) {
            assert(s.skip(8) =~= p.skip(8) + q);
            lemma_splits_skip(p, q, 8);
            lemma_bare_concat(p.skip(8), q);
        } else {
            assert(s.skip(1) =~= p.skip(1) + q);
            lemma_splits_skip(p, q, 1);
            lemma_bare_concat(p.skip(1), q);
            let rest = p.skip(1);
            assert(seq![p[0]] + (bare(rest) + bare(q)) =~= seq![p[0]] + bare(rest) + bare(q));
        }
    }
}

// ---------------------------------------------------------------------------
// Text that is unwrapped
// ---------------------------------------------------------------------------

proof fn lemma_bare_prefix(x: Seq<char>, n: int)
    requires
        0 <= n <= x.len(),
        !includes(x.take(n), REF_OPEN@),
        !includes(x.take(n), REF_CLOSE@),
        n == x.len() || x[n] == '<',
    ensures
        bare(x) == x.take(n) + bare(x.skip(n)),
    decreases n,
{
    lemma_ref_tags();
    if n == 0 {
        assert(x.skip(0) =~= x);
        assert(x.take(0) + bare(x) =~= bare(x));
    } else {
        if occurs_at(x, REF_OPEN@, 0) || occurs_at(x, REF_CLOSE@, 0) {
            let tag = if occurs_at(x, REF_OPEN@, 0) {
                REF_OPEN@
            } else {
                REF_CLOSE@
            };
            lemma_chars(x, tag, 0);
            if n < tag.len() {
                assert(x[0 + n] == tag[n]);
            } else {
                assert(x.take(n).subrange(0, tag.len() as int) =~= x.subrange(0, tag.len() as int));
                assert(occurs_at(x.take(n), tag, 0));
            }
            assert(false);
        }
        let t = x.skip(1);
        assert(x.take(n) =~= seq![x[0]] + t.take(n - 1));
        lemma_includes_part(seq![x[0]], t.take(n - 1), REF_OPEN@);
        lemma_includes_part(seq![x[0]], t.take(n - 1), REF_CLOSE@);
        lemma_bare_prefix(t, n - 1);
        assert(t.skip(n - 1) =~= x.skip(n));
        let rest = bare(x.skip(n));
        assert(seq![x[0]] + (t.take(n - 1) + rest) =~= x.take(n) + rest);
    }
}

/// Where no reference tag is left when they are unwrapped, none did stand
/// alone.
proof fn lemma_unwrapped(s: Seq<char>, from: int)
    requires
        0 <= from <= s.len(),
        !includes(untagged(s, REF_OPEN@, REF_CLOSE@, true, from), REF_OPEN@),
        !includes(untagged(s, REF_OPEN@, REF_CLOSE@, true, from), REF_CLOSE@),
    ensures
        untagged(s, REF_OPEN@, REF_CLOSE@, true, from) == bare(s.skip(from)),
    decreases s.len() - from,
{
    lemma_ref_tags();
    let w = untagged(s, REF_OPEN@, REF_CLOSE@, true, from);
    let x = s.skip(from);
    lemma_first_at(s, REF_OPEN@, from);
    match first_at(s, REF_OPEN@, from) {
        Some(i) => {
            lemma_chars(s, REF_OPEN@, i);
            assert(s[i + 0] == REF_OPEN@[0]);
            lemma_first_at(s, REF_CLOSE@, i + 7);
            match first_at(s, REF_CLOSE@, i + 7) {
                Some(j) => {
                    lemma_chars(s, REF_CLOSE@, j);
                    assert(s[j + 0] == REF_CLOSE@[0]);
                    let head = s.subrange(from, i);
                    let inside = s.subrange(i + 7, j);
                    let rest = untagged(s, REF_OPEN@, REF_CLOSE@, true, j + 8);
                    lemma_includes_part(head + inside, rest, REF_OPEN@);
                    lemma_includes_part(head + inside, rest, REF_CLOSE@);
                    lemma_includes_part(head, inside, REF_OPEN@);
                    lemma_includes_part(head, inside, REF_CLOSE@);
                    lemma_unwrapped(s, j + 8);
                    assert(x.take(i - from) =~= head);
                    assert(x.skip(i - from) =~= s.skip(i));
                    lemma_bare_prefix(x, i - from);
                    lemma_occurs_skip(s, REF_OPEN@, i, 0);
                    let y = s.skip(i + 7);
                    assert(s.skip(i).skip(7) =~= y);
                    assert(y.take(j - (i + 7)) =~= inside);
                    assert(y.skip(j - (i + 7)) =~= s.skip(j));
                    lemma_bare_prefix(y, j - (i + 7));
                    lemma_occurs_skip(s, REF_CLOSE@, j, 0);
                    let z = s.skip(j);
                    if occurs_at(z, REF_OPEN@, 0) {
                        lemma_chars(z, REF_OPEN@, 0);
                        lemma_chars(z, REF_CLOSE@, 0);
                        assert(z[2] == REF_OPEN@[2]);
                        assert(z[2] == REF_CLOSE@[2]);
                        assert(false);
                    }
                    assert(z.skip(8) =~= s.skip(j + 8));
                    assert(head + (inside + rest) =~= head + inside + rest);
                },
                None => {
                    lemma_occurs_skip(s, REF_OPEN@, from, i - from);
                    assert(occurs_at(w, REF_OPEN@, i - from));
                },
            }
        },
        None => {
            assert(x.take(x.len() as int) =~= x);
            lemma_bare_prefix(x, x.len() as int);
            assert(x.skip(x.len() as int) =~= seq![]);
            assert(x + seq![] =~= x);
        },
    }
}

/// An opening detection tag stays when reference tags are taken out.
proof fn lemma_det_is_kept(x: Seq<char>, i: int)
    requires
        occurs_at(x, DET_OPEN@, i),
    ensures
        includes(bare(x), DET_OPEN@),
    decreases i,
{
    lemma_ref_tags();
    lemma_tags();
    lemma_chars(x, DET_OPEN@, i);
    assert(x[i + 0] == DET_OPEN@[0]);
    assert(x[i + 2] == DET_OPEN@[2]);
    if i == 0 {
        let y = x.skip(7);
        if occurs_at(x, REF_OPEN@, 0) {
            lemma_chars(x, REF_OPEN@, 0);
            assert(x[2] == REF_OPEN@[2]);
        }
        if occurs_at(x, REF_CLOSE@, 0) {
            lemma_chars(x, REF_CLOSE@, 0);
            assert(x[2] == REF_CLOSE@[2]);
        }
        assert forall|k: int| 0 < k < 7 implies #[trigger] x[k] != '<' by {
            assert(x[0 + k] == DET_OPEN@[k]);
        }
        lemma_bare_chars(x, 7);
        assert(bare(x).subrange(0, 7) =~= x.subrange(0, 7));
        assert(occurs_at(bare(x), DET_OPEN@, 0));
    } else if occurs_at(x, REF_OPEN@, 0) || occurs_at(x, REF_CLOSE@, 0) {
        let tag = if occurs_at(x, REF_OPEN@, 0) {
            REF_OPEN@
        } else {
            REF_CLOSE@
        };
        let n = tag.len() as int;
        lemma_chars(x, tag, 0);
        if i < n {
            assert(x[0 + i] == tag[i]);
            assert(false);
        }
        lemma_occurs_skip(x, DET_OPEN@, n, i - n);
        lemma_det_is_kept(x.skip(n), i - n);
    } else {
        let t = x.skip(1);
        lemma_occurs_skip(x, DET_OPEN@, 1, i - 1);
        lemma_det_is_kept(t, i - 1);
        lemma_includes_part(seq![x[0]], bare(t), DET_OPEN@);
    }
}

/// Characters at which no reference tag begins are kept.
proof fn lemma_bare_chars(x: Seq<char>, n: int)
    requires
        0 <= n <= x.len(),
        !occurs_at(x, REF_OPEN@, 0),
        !occurs_at(x, REF_CLOSE@, 0),
        forall|k: int| 0 < k < n ==> #[trigger] x[k] != '<',
    ensures
        bare(x).len() >= n,
        bare(x).take(n) == x.take(n),
    decreases n,
{
    lemma_ref_tags();
    if n > 0 {
        let t = x.skip(1);
        if n > 1 {
            assert(t[0] == x[1]);
            if occurs_at(t, REF_OPEN@, 0) {
                lemma_chars(t, REF_OPEN@, 0);
                assert(t[0] == REF_OPEN@[0]);
            }
            if occurs_at(t, REF_CLOSE@, 0) {
                lemma_chars(t, REF_CLOSE@, 0);
                assert(t[0] == REF_CLOSE@[0]);
            }
            assert forall|k: int| 0 < k < n - 1 implies #[trigger] t[k] != '<' by {
                assert(t[k] == x[k + 1]);
            }
            lemma_bare_chars(t, n - 1);
        }
        assert(bare(x).take(n) =~= seq![x[0]] + bare(t).take(n - 1));
        assert(x.take(n) =~= seq![x[0]] + t.take(n - 1));
        assert(bare(t).take(n - 1) =~= t.take(n - 1));
    } else {
        assert(bare(x).take(0) =~= x.take(0));
    }
}

// ---------------------------------------------------------------------------
// The text outside detection tags
// ---------------------------------------------------------------------------

/// The text outside detection tags, where `p` goes on inside a tag or not. A
/// tag that is not closed hides what is behind it.
pub open spec fn outside(p: Seq<char>, in_tag: bool) -> Seq<char>
    decreases p.len(),
{
    if in_tag {
        match first_at(p, DET_CLOSE@, 0) {
            Some(i) => {
                proof {
                    lemma_tags();
                    lemma_first_at(p, DET_CLOSE@, 0);
                }
                outside(p.skip(i + DET_CLOSE@.len()), false)
            },
            None => seq![],
        }
    } else {
        match first_at(p, DET_OPEN@, 0) {
            Some(i) => {
                proof {
                    lemma_tags();
                    lemma_first_at(p, DET_OPEN@, 0);
                }
                p.take(i) + outside(p.skip(i + DET_OPEN@.len()), true)
            },
            None => p,
        }
    }
}

/// No detection tag of `p` stands inside a reference tag: no reference tag of
/// the text outside detection tags begins before one of them and ends behind it.
pub open spec fn is_flat(p: Seq<char>, in_tag: bool) -> bool
    decreases p.len(),
{
    if in_tag {
        match first_at(p, DET_CLOSE@, 0) {
            Some(i) => {
                proof {
                    lemma_tags();
                    lemma_first_at(p, DET_CLOSE@, 0);
                }
                is_flat(p.skip(i + DET_CLOSE@.len()), false)
            },
            None => true,
        }
    } else {
        match first_at(p, DET_OPEN@, 0) {
            Some(i) => {
                proof {
                    lemma_tags();
                    lemma_first_at(p, DET_OPEN@, 0);
                }
                let rest = p.skip(i + DET_OPEN@.len());
                &&& forall|k: int| !splits(p.take(i), outside(rest, true), k)
                &&& is_flat(rest, true)
            },
            None => true,
        }
    }
}

/// The text outside detection tags, each stretch of it without the reference
/// tags that stand in it.
pub open spec fn cleaned(p: Seq<char>, in_tag: bool) -> Seq<char>
    decreases p.len(),
{
    if in_tag {
        match first_at(p, DET_CLOSE@, 0) {
            Some(i) => {
                proof {
                    lemma_tags();
                    lemma_first_at(p, DET_CLOSE@, 0);
                }
                cleaned(p.skip(i + DET_CLOSE@.len()), false)
            },
            None => seq![],
        }
    } else {
        match first_at(p, DET_OPEN@, 0) {
            Some(i) => {
                proof {
                    lemma_tags();
                    lemma_first_at(p, DET_OPEN@, 0);
                }
                bare(p.take(i)) + cleaned(p.skip(i + DET_OPEN@.len()), true)
            },
            None => bare(p),
        }
    }
}

/// No reference tag stands inside another: taking them out of a stretch of the
/// text outside detection tags leaves no closing one.
pub open spec fn is_unnested(p: Seq<char>, in_tag: bool) -> bool
    decreases p.len(),
{
    if in_tag {
        match first_at(p, DET_CLOSE@, 0) {
            Some(i) => {
                proof {
                    lemma_tags();
                    lemma_first_at(p, DET_CLOSE@, 0);
                }
                is_unnested(p.skip(i + DET_CLOSE@.len()), false)
            },
            None => true,
        }
    } else {
        match first_at(p, DET_OPEN@, 0) {
            Some(i) => {
                proof {
                    lemma_tags();
                    lemma_first_at(p, DET_OPEN@, 0);
                }
                &&& !includes(bare(p.take(i)), REF_CLOSE@)
                &&& is_unnested(p.skip(i + DET_OPEN@.len()), true)
            },
            None => !includes(bare(p), REF_CLOSE@),
        }
    }
}

/// Where no detection tag stands inside a reference tag, it makes no difference
/// whether reference tags are taken out of the stretches or of the whole.
proof fn lemma_flat(p: Seq<char>, in_tag: bool)
    requires
        is_flat(p, in_tag),
    ensures
        cleaned(p, in_tag) == bare(outside(p, in_tag)),
        !includes(bare(outside(p, in_tag)), REF_CLOSE@) ==> is_unnested(p, in_tag),
    decreases p.len(),
{
    lemma_tags();
    if in_tag {
        lemma_first_at(p, DET_CLOSE@, 0);
        if let Some(i) = first_at(p, DET_CLOSE@, 0) {
            lemma_flat(p.skip(i + DET_CLOSE@.len()), false);
        }
    } else {
        lemma_first_at(p, DET_OPEN@, 0);
        if let Some(i) = first_at(p, DET_OPEN@, 0) {
            let rest = p.skip(i + DET_OPEN@.len());
            lemma_flat(rest, true);
            lemma_bare_concat(p.take(i), outside(rest, true));
            lemma_includes_part(bare(p.take(i)), bare(outside(rest, true)), REF_CLOSE@);
        }
    }
}

/// In text without reference tags there are none to take out.
proof fn lemma_plain(p: Seq<char>, in_tag: bool)
    requires
        !includes(p, REF_OPEN@),
        !includes(p, REF_CLOSE@),
    ensures
        cleaned(p, in_tag) == outside(p, in_tag),
        is_unnested(p, in_tag),
    decreases p.len(),
{
    lemma_tags();
    if in_tag {
        lemma_first_at(p, DET_CLOSE@, 0);
        if let Some(i) = first_at(p, DET_CLOSE@, 0) {
            lemma_plain_parts(p, i + DET_CLOSE@.len());
            lemma_plain(p.skip(i + DET_CLOSE@.len()), false);
        }
    } else {
        lemma_first_at(p, DET_OPEN@, 0);
        match first_at(p, DET_OPEN@, 0) {
            Some(i) => {
                lemma_plain_parts(p, i);
                lemma_plain_parts(p, i + DET_OPEN@.len());
                lemma_plain_bare(p.take(i));
                lemma_plain(p.skip(i + DET_OPEN@.len()), true);
            },
            None => {
                lemma_plain_bare(p);
            },
        }
    }
}

proof fn lemma_plain_parts(p: Seq<char>, n: int)
    requires
        0 <= n <= p.len(),
        !includes(p, REF_OPEN@),
        !includes(p, REF_CLOSE@),
    ensures
        !includes(p.take(n), REF_OPEN@),
        !includes(p.take(n), REF_CLOSE@),
        !includes(p.skip(n), REF_OPEN@),
        !includes(p.skip(n), REF_CLOSE@),
{
    assert(p.take(n) + p.skip(n) =~= p);
    lemma_includes_part(p.take(n), p.skip(n), REF_OPEN@);
    lemma_includes_part(p.take(n), p.skip(n), REF_CLOSE@);
}

proof fn lemma_plain_bare(p: Seq<char>)
    requires
        !includes(p, REF_OPEN@),
        !includes(p, REF_CLOSE@),
    ensures
        bare(p) == p,
{
    assert(p.take(p.len() as int) =~= p);
    lemma_bare_prefix(p, p.len() as int);
    assert(p.skip(p.len() as int) =~= seq![]);
    assert(p + seq![] =~= p);
}

/// Where no reference tag stands inside another, the text that is given out and
/// what is left are the cleaned text, whatever follows.
proof fn lemma_text_parts(page: usize, st: ParserValue, b: Seq<char>)
    requires
        is_unnested(st.pending + b, st.in_tag),
    ensures
        ({
            let (events, end) = parse(page, st);
            &&& cleaned(st.pending + b, st.in_tag) == text_in(events) + cleaned(
                end.pending + b,
                end.in_tag,
            )
            &&& is_unnested(end.pending + b, end.in_tag)
        }),
    decreases st.pending.len(),
{
    lemma_tags();
    let p = st.pending;
    let (events, end) = parse(page, st);
    let left = cleaned(end.pending + b, end.in_tag);
    if !st.in_tag {
        lemma_first_at(p, DET_OPEN@, 0);
        match first_at(p, DET_OPEN@, 0) {
            Some(i) => {
                let next = ParserValue {
                    pending: p.skip(i + DET_OPEN@.len()),
                    box_id: st.box_id,
                    in_tag: true,
                };
                lemma_first_at_extends(p, b, DET_OPEN@);
                assert((p + b).take(i) =~= p.take(i));
                assert((p + b).skip(i + DET_OPEN@.len()) =~= next.pending + b);
                lemma_text_parts(page, next, b);
                let text = without_refs(p.take(i));
                lemma_refs_dropped(p.take(i));
                lemma_token(page, st.box_id, text);
                lemma_text_concat(token(page, st.box_id, text), parse(page, next).0);
                let rest = text_in(parse(page, next).0);
                assert(text + (rest + left) =~= text + rest + left);
            },
            None => {
                lemma_end_of_text(p, b);
                let part = p.take(p.len() - held(p));
                lemma_refs_dropped(part);
                lemma_token(page, st.box_id, without_refs(part));
            },
        }
    } else {
        lemma_first_at(p, DET_CLOSE@, 0);
        match first_at(p, DET_CLOSE@, 0) {
            Some(i) => {
                let region = region_in(p.take(i));
                let id = if region is Some {
                    st.box_id + 1
                } else {
                    st.box_id
                };
                let next = ParserValue {
                    pending: p.skip(i + DET_CLOSE@.len()),
                    box_id: id,
                    in_tag: false,
                };
                lemma_first_at_extends(p, b, DET_CLOSE@);
                assert((p + b).skip(i + DET_CLOSE@.len()) =~= next.pending + b);
                lemma_text_parts(page, next, b);
                lemma_bbox(page, id, p.take(i));
                lemma_text_concat(bbox(page, id, region), parse(page, next).0);
                let rest = text_in(parse(page, next).0);
                assert(seq![] + rest =~= rest);
            },
            None => {
                assert(seq![] + left =~= left);
            },
        }
    }
}

/// No reference tag is cut where the end of the text is held back.
proof fn lemma_end_of_text(p: Seq<char>, b: Seq<char>)
    requires
        first_at(p, DET_OPEN@, 0) is None,
        is_unnested(p + b, false),
    ensures
        ({
            let n = p.len() - held(p);
            let y = p.skip(n) + b;
            &&& cleaned(p + b, false) == bare(p.take(n)) + cleaned(y, false)
            &&& !includes(bare(p.take(n)), REF_CLOSE@)
            &&& is_unnested(y, false)
        }),
{
    lemma_held_some(p);
    let n = p.len() - held(p);
    let part = p.take(n);
    let x = p + b;
    let y = p.skip(n) + b;
    assert(y =~= x.skip(n));
    lemma_tags();
    lemma_next_tag(p, b);
    lemma_first_at(y, DET_OPEN@, 0);
    let m: int = match first_at(y, DET_OPEN@, 0) {
        Some(i) => i,
        None => y.len() as int,
    };
    assert(x.take(n + m) =~= part + y.take(m));
    lemma_stretch(p, b, m);
    lemma_includes_part(bare(part), bare(y.take(m)), REF_CLOSE@);
    match first_at(y, DET_OPEN@, 0) {
        Some(i) => {
            assert(x.skip(n + i + DET_OPEN@.len()) =~= y.skip(i + DET_OPEN@.len()));
            let rest = cleaned(y.skip(i + DET_OPEN@.len()), true);
            assert(bare(part) + bare(y.take(i)) + rest =~= bare(part) + (bare(y.take(i)) + rest));
        },
        None => {
            assert(y.take(m) =~= y);
            assert(x.take(n + m) =~= x);
        },
    }
}

proof fn lemma_stretch(p: Seq<char>, b: Seq<char>, m: int)
    requires
        0 <= m <= (p.skip(p.len() - held(p)) + b).len(),
    ensures
        ({
            let n = p.len() - held(p);
            let y = p.skip(n) + b;
            bare(p.take(n) + y.take(m)) == bare(p.take(n)) + bare(y.take(m))
        }),
{
    lemma_held_some(p);
    let n = p.len() - held(p);
    let x = p + b;
    let y = p.skip(n) + b;
    let s = p.take(n) + y.take(m);
    assert(s =~= x.take(n + m));
    assert forall|k: int| !splits(p.take(n), y.take(m), k) by {
        if splits(p.take(n), y.take(m), k) {
            let tag = if occurs_at(s, REF_OPEN@, k) && k + REF_OPEN@.len() > n {
                REF_OPEN@
            } else {
                REF_CLOSE@
            };
            assert(x.subrange(k, k + tag.len()) =~= s.subrange(k, k + tag.len()));
            assert(occurs_at(x, tag, k));
            lemma_uncut(p, b, tag, k);
        }
    }
    lemma_bare_concat(p.take(n), y.take(m));
}

/// The next detection tag is found behind the text that is given out.
proof fn lemma_next_tag(p: Seq<char>, b: Seq<char>)
    requires
        first_at(p, DET_OPEN@, 0) is None,
    ensures
        ({
            let n = p.len() - held(p);
            first_at(p + b, DET_OPEN@, 0) == match first_at(p.skip(n) + b, DET_OPEN@, 0) {
                Some(i) => Some(n + i),
                None => None,
            }
        }),
{
    lemma_held_some(p);
    let n = p.len() - held(p);
    let x = p + b;
    assert(p.skip(n) + b =~= x.skip(n));
    lemma_first_at(x, DET_OPEN@, 0);
    lemma_first_at(x, DET_OPEN@, n);
    lemma_first_at_skip(x, DET_OPEN@, n, 0);
    assert forall|j: int| 0 <= j < n implies !occurs_at(x, DET_OPEN@, j) by {
        if occurs_at(x, DET_OPEN@, j) {
            lemma_no_tag_in_given(p, b, j);
        }
    }
}

/// A reference tag that begins before the end that is held back ends before it,
/// too.
proof fn lemma_uncut(p: Seq<char>, b: Seq<char>, tag: Seq<char>, k: int)
    requires
        tag == REF_OPEN@ || tag == REF_CLOSE@,
        occurs_at(p + b, tag, k),
        0 <= k < p.len() - held(p),
    ensures
        k + tag.len() <= p.len() - held(p),
{
    lemma_ref_tags();
    lemma_held_some(p);
    let n = p.len() - held(p);
    if k + tag.len() > p.len() {
        lemma_cut_tag_is_held(p, b, tag, k);
    } else if k + tag.len() > n {
        lemma_chars(p + b, tag, k);
        lemma_start(p.skip(n));
        assert(p.skip(n)[0] == p[n]);
        assert((p + b)[k + (n - k)] == tag[n - k]);
    }
}

/// A region is given out as soon as its tag closes, and text as soon as it
/// cannot become a tag: inside a tag no closing tag is pending, and outside
/// nothing is but what may become a tag.
pub proof fn nothing_known_is_held_back(page: usize, st: ParserValue)
    ensures
        ({
            let end = parse(page, st).1;
            if end.in_tag {
                first_at(end.pending, DET_CLOSE@, 0) is None
            } else {
                end.pending.len() == 0 || may_become_tag(end.pending)
            }
        }),
    decreases st.pending.len(),
{
    lemma_tags();
    let p = st.pending;
    if !st.in_tag {
        lemma_first_at(p, DET_OPEN@, 0);
        match first_at(p, DET_OPEN@, 0) {
            Some(i) => {
                nothing_known_is_held_back(
                    page,
                    ParserValue {
                        pending: p.skip(i + DET_OPEN@.len()),
                        box_id: st.box_id,
                        in_tag: true,
                    },
                );
            },
            None => {
                lemma_held_some(p);
            },
        }
    } else {
        lemma_first_at(p, DET_CLOSE@, 0);
        if let Some(i) = first_at(p, DET_CLOSE@, 0) {
            let region = region_in(p.take(i));
            let id = if region is Some {
                st.box_id + 1
            } else {
                st.box_id
            };
            nothing_known_is_held_back(
                page,
                ParserValue {
                    pending: p.skip(i + DET_CLOSE@.len()),
                    box_id: id,
                    in_tag: false,
                },
            );
        }
    }
}

/// Stripping detection tags leaves the text outside them, and behind that a tag
/// that is not closed.
proof fn lemma_stripped(raw: Seq<char>, k: int)
    requires
        0 <= k <= raw.len(),
    ensures
        ({
            let stripped = untagged(raw, DET_OPEN@, DET_CLOSE@, false, k);
            stripped == outside(raw.skip(k), false) || includes(stripped, DET_OPEN@)
        }),
    decreases raw.len() - k,
{
    lemma_tags();
    let p = raw.skip(k);
    lemma_first_at(raw, DET_OPEN@, k);
    lemma_first_at_skip(raw, DET_OPEN@, k, 0);
    lemma_first_at(p, DET_OPEN@, 0);
    if let Some(i) = first_at(raw, DET_OPEN@, k) {
        let q = raw.skip(i + 7);
        assert(p.skip(i - k + 7) =~= q);
        assert(p.take(i - k) =~= raw.subrange(k, i));
        lemma_first_at(raw, DET_CLOSE@, i + 7);
        lemma_first_at_skip(raw, DET_CLOSE@, i + 7, 0);
        match first_at(raw, DET_CLOSE@, i + 7) {
            Some(j) => {
                lemma_stripped(raw, j + 8);
                assert(q.skip(j - (i + 7) + 8) =~= raw.skip(j + 8));
                let head = raw.subrange(k, i);
                let rest = untagged(raw, DET_OPEN@, DET_CLOSE@, false, j + 8);
                let text = outside(raw.skip(j + 8), false);
                assert(outside(q, true) == text);
                assert(head + seq![] + rest =~= head + rest);
                lemma_includes_part(head, rest, DET_OPEN@);
            },
            None => {
                lemma_occurs_skip(raw, DET_OPEN@, k, i - k);
                assert(occurs_at(p, DET_OPEN@, i - k));
            },
        }
    }
}

// ---------------------------------------------------------------------------
// Laws
// ---------------------------------------------------------------------------

/// What a new parser gives out of the given pieces, and its state after them.
pub open spec fn fed_to(page: usize, pieces: Seq<Seq<char>>) -> (Seq<EventValue>, ParserValue)
    decreases pieces.len(),
{
    if pieces.len() == 0 {
        (seq![], ParserValue::fresh())
    } else {
        let (before, st) = fed_to(page, pieces.drop_last());
        let (more, end) = parse(page, st.plus(pieces.last()));
        (before + more, end)
    }
}

/// What a new parser gives out of the given pieces and at their end.
pub open spec fn given_out(page: usize, pieces: Seq<Seq<char>>) -> Seq<EventValue> {
    fed_to(page, pieces).0 + rest_of(page, fed_to(page, pieces).1)
}

spec fn is_fed(page: usize, pieces: Seq<Seq<char>>, b: Seq<char>) -> bool {
    let (events, st) = fed_to(page, pieces);
    let whole = parse(page, ParserValue::fresh().plus(glued(pieces)));
    &&& st == whole.1
    &&& boxes_in(events) == boxes_in(whole.0)
    &&& is_unnested(glued(pieces) + b, false) ==> {
        &&& cleaned(glued(pieces) + b, false) == text_in(events) + cleaned(
            st.pending + b,
            st.in_tag,
        )
        &&& is_unnested(st.pending + b, st.in_tag)
    }
}

proof fn lemma_pieces(page: usize, pieces: Seq<Seq<char>>, b: Seq<char>)
    ensures
        is_fed(page, pieces, b),
    decreases pieces.len(),
{
    if pieces.len() == 0 {
        lemma_no_pieces(page, pieces, b);
    } else {
        lemma_pieces(page, pieces.drop_last(), pieces.last() + b);
        lemma_next_piece(page, pieces, b);
    }
}

proof fn lemma_no_pieces(page: usize, pieces: Seq<Seq<char>>, b: Seq<char>)
    requires
        pieces.len() == 0,
    ensures
        is_fed(page, pieces, b),
{
    let st = ParserValue::fresh();
    assert(st.plus(glued(pieces)) =~= st);
    lemma_tags();
    lemma_first_at(st.pending, DET_OPEN@, 0);
    lemma_held_some(st.pending);
    lemma_ref_tags();
    let none = st.pending.take(0);
    lemma_first_at(none, REF_OPEN@, 0);
    lemma_first_at(none, REF_CLOSE@, 0);
    assert(without_refs(none) =~= seq![]);
    assert(parse(page, st).1 =~= st);
    assert(parse(page, st).0 =~= seq![]);
    assert(glued(pieces) + b =~= b);
    assert(st.pending + b =~= b);
    assert(seq![] + cleaned(b, false) =~= cleaned(b, false));
}

proof fn lemma_next_piece(page: usize, pieces: Seq<Seq<char>>, b: Seq<char>)
    requires
        pieces.len() > 0,
        is_fed(page, pieces.drop_last(), pieces.last() + b),
    ensures
        is_fed(page, pieces, b),
{
    let last = pieces.last();
    let text = glued(pieces.drop_last());
    let (events, mid) = fed_to(page, pieces.drop_last());
    let (more, end) = parse(page, mid.plus(last));
    lemma_glued_push(pieces);
    pieces_make_no_difference_to_regions(page, ParserValue::fresh(), text, last);
    lemma_boxes_concat(events, more);
    if is_unnested(text + last + b, false) {
        assert(text + last + b =~= text + (last + b));
        assert(mid.pending + (last + b) =~= mid.plus(last).pending + b);
        lemma_text_parts(page, mid.plus(last), b);
        lemma_text_concat(events, more);
        let left = cleaned(end.pending + b, end.in_tag);
        assert(text_in(events) + (text_in(more) + left) =~= text_in(events) + text_in(more)
            + left);
    }
}

/// However a text is cut into pieces, after any of them the regions that the
/// parser has given out are the boxes that are extracted from the text so far,
/// in the same order, numbered from 1.
pub proof fn parser_gives_out_the_extracted_boxes(page: usize, pieces: Seq<Seq<char>>)
    ensures
        are_events_of(boxes_in(fed_to(page, pieces).0), extracted(glued(pieces)), page, 0),
        are_events_of(boxes_in(given_out(page, pieces)), extracted(glued(pieces)), page, 0),
{
    lemma_pieces(page, pieces, seq![]);
    streamed_boxes_are_the_extracted_boxes(glued(pieces), page);
    let (events, st) = fed_to(page, pieces);
    let rest = rest_of(page, st);
    lemma_token(page, st.box_id, without_refs(st.pending));
    reveal(Seq::filter);
    assert(boxes_in(rest) =~= seq![]);
    lemma_boxes_concat(events, rest);
    assert(boxes_in(events) + seq![] =~= boxes_in(events));
}

/// However a text is cut into pieces: where no reference tag stands inside
/// another, the text that the parser gives out is the text outside detection
/// tags, each stretch of it without reference tags.
pub proof fn parser_gives_out_the_cleaned_text(page: usize, pieces: Seq<Seq<char>>)
    requires
        is_unnested(glued(pieces), false),
    ensures
        text_in(given_out(page, pieces)) == cleaned(glued(pieces), false),
{
    let raw = glued(pieces);
    let (events, st) = fed_to(page, pieces);
    let rest = rest_of(page, st);
    lemma_pieces(page, pieces, seq![]);
    assert(raw + seq![] =~= raw);
    assert(st.pending + seq![] =~= st.pending);
    nothing_known_is_held_back(page, ParserValue::fresh().plus(raw));
    lemma_text_concat(events, rest);
    if st.in_tag {
        assert(text_in(rest) =~= seq![]);
    } else {
        lemma_no_tag_pending(st.pending);
        lemma_refs_dropped(st.pending);
        lemma_token(page, st.box_id, without_refs(st.pending));
    }
}

/// However a text without reference tags is cut into pieces, what the parser
/// gives out is the text outside detection tags: nothing of it is lost or
/// repeated.
pub proof fn parser_keeps_plain_text(page: usize, pieces: Seq<Seq<char>>)
    requires
        !includes(glued(pieces), REF_OPEN@),
        !includes(glued(pieces), REF_CLOSE@),
    ensures
        text_in(given_out(page, pieces)) == outside(glued(pieces), false),
{
    lemma_plain(glued(pieces), false);
    parser_gives_out_the_cleaned_text(page, pieces);
}

/// Text that comes in in two pieces leaves the parser in the state in which it
/// is after the same text in one piece, and gives out the same regions in the
/// same order under the same numbers. Where no reference tag stands inside
/// another, it gives out the same text, too.
pub proof fn pieces_make_no_difference(page: usize, st: ParserValue, a: Seq<char>, b: Seq<char>)
    ensures
        ({
            let first = parse(page, st.plus(a));
            let second = parse(page, first.1.plus(b));
            let whole = parse(page, st.plus(a + b));
            &&& whole.1 == second.1
            &&& boxes_in(whole.0) == boxes_in(first.0) + boxes_in(second.0)
            &&& is_unnested(st.pending + (a + b), st.in_tag) ==> text_in(whole.0) == text_in(
                first.0,
            ) + text_in(second.0)
        }),
{
    pieces_make_no_difference_to_regions(page, st, a, b);
    let x = st.pending + (a + b);
    if is_unnested(x, st.in_tag) {
        let mid = parse(page, st.plus(a)).1;
        let end = parse(page, mid.plus(b)).1;
        assert(st.plus(a).pending + b =~= x);
        lemma_text_parts(page, st.plus(a), b);
        assert(mid.plus(b).pending + seq![] =~= mid.pending + b);
        lemma_text_parts(page, mid.plus(b), seq![]);
        assert(st.plus(a + b).pending + seq![] =~= x);
        lemma_text_parts(page, st.plus(a + b), seq![]);
        let tail = cleaned(end.pending + seq![], end.in_tag);
        let one = text_in(parse(page, st.plus(a + b)).0);
        let two = text_in(parse(page, st.plus(a)).0) + text_in(parse(page, mid.plus(b)).0);
        assert(one + tail =~= two + tail);
        assert((one + tail).take((one + tail).len() - tail.len()) =~= one);
        assert((two + tail).take((two + tail).len() - tail.len()) =~= two);
    }
}

/// What happens to a prompt whose reply comes in in the given pieces, and to
/// its end.
pub open spec fn reply_in(pieces: Seq<Seq<char>>) -> Seq<InputValue> {
    texts_in(pieces).push(InputValue::End)
}

/// The given pieces of a reply come in.
pub open spec fn texts_in(pieces: Seq<Seq<char>>) -> Seq<InputValue> {
    pieces.map_values(|p: Seq<char>| InputValue::Text(p))
}

proof fn lemma_stream(source: Source, page: usize, pieces: Seq<Seq<char>>)
    ensures
        ({
            let (events, st) = fed_to(page, pieces);
            run(StreamValue::opened(source, page), texts_in(pieces)) == (
                events,
                StreamValue {
                    parser: st,
                    markdown: text_in(events),
                    page,
                    source,
                    phase: Phase::Reading,
                },
            )
        }),
    decreases pieces.len(),
{
    let opened = StreamValue::opened(source, page);
    let inputs = texts_in(pieces);
    if pieces.len() == 0 {
        assert(inputs =~= seq![]);
        assert(opened =~= run(opened, inputs).1);
        assert(text_in(Seq::<EventValue>::empty()) =~= seq![]);
    } else {
        let before = pieces.drop_last();
        lemma_stream(source, page, before);
        assert(inputs.drop_last() =~= texts_in(before));
        assert(inputs.last() == InputValue::Text(pieces.last()));
        let (events, mid) = run(opened, texts_in(before));
        let more = step(mid, inputs.last()).0;
        lemma_text_concat(events, more);
    }
}

/// The events of a reply are those that the parser gives out, and at their end
/// one that says that the pages are read.
proof fn lemma_reply(source: Source, page: usize, pieces: Seq<Seq<char>>)
    ensures
        ({
            let (events, end) = run(StreamValue::opened(source, page), reply_in(pieces));
            let given = given_out(page, pieces);
            &&& events == given.push(
                EventValue::PageDone { page_number: page, markdown: text_in(given) },
            )
            &&& end.markdown == text_in(given)
        }),
{
    let opened = StreamValue::opened(source, page);
    let inputs = reply_in(pieces);
    assert(inputs.drop_last() =~= texts_in(pieces));
    lemma_stream(source, page, pieces);
    let (events, mid) = run(opened, texts_in(pieces));
    let rest = rest_of(page, mid.parser);
    lemma_text_concat(events, rest);
    let done = EventValue::PageDone { page_number: page, markdown: text_in(events + rest) };
    assert(events + rest.push(done) =~= (events + rest).push(done));
}

/// However a reply is cut into pieces, the regions that are sent while it comes
/// in are the boxes that are extracted from it in one piece, in the same order,
/// numbered from 1.
pub proof fn stream_has_the_boxes_of_the_response(
    source: Source,
    page: usize,
    pieces: Seq<Seq<char>>,
)
    ensures
        are_events_of(
            boxes_in(run(StreamValue::opened(source, page), reply_in(pieces)).0),
            extracted(glued(pieces)),
            page,
            0,
        ),
{
    let events = run(StreamValue::opened(source, page), reply_in(pieces)).0;
    let given = given_out(page, pieces);
    lemma_reply(source, page, pieces);
    parser_gives_out_the_extracted_boxes(page, pieces);
    assert(events.drop_last() =~= given);
    reveal(Seq::filter);
    let is_box = |e: EventValue| e is Bbox;
    assert(!is_box(events.last()));
    assert(boxes_in(events) == boxes_in(given));
}

/// What is sent is cleaned: however a reply is cut into pieces, where no
/// reference tag stands inside another, the text that is sent is the text
/// outside detection tags, each stretch of it without reference tags. Where no
/// detection tag stands inside a reference tag either, that is the whole text
/// outside detection tags without reference tags. A reference tag that a
/// detection tag tears apart is no tag in either of its stretches, and is sent
/// as it stands.
pub proof fn stream_is_cleaned(source: Source, page: usize, pieces: Seq<Seq<char>>)
    requires
        is_unnested(glued(pieces), false),
    ensures
        ({
            let markdown = run(StreamValue::opened(source, page), reply_in(pieces)).1.markdown;
            &&& markdown == cleaned(glued(pieces), false)
            &&& is_flat(glued(pieces), false) ==> markdown == bare(outside(glued(pieces), false))
        }),
{
    lemma_reply(source, page, pieces);
    parser_gives_out_the_cleaned_text(page, pieces);
    if is_flat(glued(pieces), false) {
        lemma_flat(glued(pieces), false);
    }
}

/// Nothing that may become a tag holds one.
proof fn lemma_no_tag_pending(p: Seq<char>)
    requires
        p.len() == 0 || may_become_tag(p),
    ensures
        first_at(p, DET_OPEN@, 0) is None,
{
    lemma_tags();
    lemma_ref_tags();
    lemma_first_at(p, DET_OPEN@, 0);
    if let Some(i) = first_at(p, DET_OPEN@, 0) {
        lemma_chars(p, DET_OPEN@, i);
        lemma_start(p);
        assert(p[i + 0] == DET_OPEN@[0]);
        assert(i == 0);
        assert(p[i + 2] == DET_OPEN@[2]);
        assert(REF_OPEN@.subrange(0, p.len() as int)[2] == REF_OPEN@[2]);
        assert(REF_CLOSE@.subrange(0, p.len() as int)[2] == REF_CLOSE@[2]);
    }
}

/// A tag that stands in a text stands in it without the white space at its
/// ends, too.
proof fn lemma_includes_trimmed(s: Seq<char>, tag: Seq<char>)
    requires
        tag.len() > 0,
        !is_white(tag[0]),
        !is_white(tag.last()),
        includes(s, tag),
    ensures
        includes(trimmed(s), tag),
{
    lemma_includes_trimmed_start(s, tag);
    lemma_includes_trimmed_end(trimmed_start(s), tag);
}

proof fn lemma_includes_trimmed_start(s: Seq<char>, tag: Seq<char>)
    requires
        tag.len() > 0,
        !is_white(tag[0]),
        includes(s, tag),
    ensures
        includes(trimmed_start(s), tag),
    decreases s.len(),
{
    if s.len() > 0 && is_white(s[0]) {
        let i = choose|i: int| occurs_at(s, tag, i);
        lemma_chars(s, tag, i);
        assert(s[i + 0] == tag[0]);
        lemma_occurs_skip(s, tag, 1, i - 1);
        assert(occurs_at(s.skip(1), tag, i - 1));
        lemma_includes_trimmed_start(s.skip(1), tag);
    }
}

proof fn lemma_includes_trimmed_end(s: Seq<char>, tag: Seq<char>)
    requires
        tag.len() > 0,
        !is_white(tag.last()),
        includes(s, tag),
    ensures
        includes(trimmed_end(s), tag),
    decreases s.len(),
{
    if s.len() > 0 && is_white(s.last()) {
        let i = choose|i: int| occurs_at(s, tag, i);
        let t = s.drop_last();
        let n = tag.len();
        lemma_chars(s, tag, i);
        assert(s[i + (n - 1)] == tag[n - 1]);
        assert(t.subrange(i, i + n) =~= s.subrange(i, i + n));
        assert(occurs_at(t, tag, i));
        lemma_includes_trimmed_end(t, tag);
    }
}

/// However a reply is cut into pieces: where no detection tag stands inside a
/// reference tag and no tag is left in the sanitized text of the response, the
/// text that is sent while the reply comes in is the sanitized text but for
/// white space at its ends.
pub proof fn stream_has_the_text_of_the_response(
    source: Source,
    page: usize,
    pieces: Seq<Seq<char>>,
)
    requires
        is_flat(glued(pieces), false),
        is_clean(sanitized(glued(pieces))),
    ensures
        trimmed(run(StreamValue::opened(source, page), reply_in(pieces)).1.markdown) == sanitized(
            glued(pieces),
        ),
{
    let raw = glued(pieces);
    let stripped = untagged(raw, DET_OPEN@, DET_CLOSE@, false, 0);
    let unwrapped = untagged(stripped, REF_OPEN@, REF_CLOSE@, true, 0);
    lemma_tags();
    lemma_ref_tags();
    if includes(unwrapped, REF_OPEN@) {
        lemma_includes_trimmed(unwrapped, REF_OPEN@);
    }
    if includes(unwrapped, REF_CLOSE@) {
        lemma_includes_trimmed(unwrapped, REF_CLOSE@);
    }
    lemma_unwrapped(stripped, 0);
    assert(stripped.skip(0) =~= stripped);
    lemma_stripped(raw, 0);
    assert(raw.skip(0) =~= raw);
    if includes(stripped, DET_OPEN@) {
        let i = choose|i: int| occurs_at(stripped, DET_OPEN@, i);
        lemma_det_is_kept(stripped, i);
        lemma_includes_trimmed(unwrapped, DET_OPEN@);
    }
    lemma_flat(raw, false);
    stream_is_cleaned(source, page, pieces);
}

} // verus!
