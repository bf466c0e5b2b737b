//! What the model writes into its detection tags, and the regions it means.

use vstd::prelude::*;

use crate::patterns::{numbers_in, NumberPattern, REF_CLOSE, REF_OPEN};
use crate::text::{before_first, remove_all, text_before_first, trim, trimmed, without};

verus! {

broadcast use vstd::seq::group_seq_axioms;

/// The greatest coordinate.
pub const SCALE: u32 = 1000;

/// A labelled rectangle on a page.
#[derive(Debug)]
pub struct Region {
    pub label: String,
    pub xmin: u32,
    pub ymin: u32,
    pub xmax: u32,
    pub ymax: u32,
}

/// The value of a `Region`.
#[verifier::ext_equal]
pub struct RegionValue {
    pub label: Seq<char>,
    pub xmin: u32,
    pub ymin: u32,
    pub xmax: u32,
    pub ymax: u32,
}

impl View for Region {
    type V = RegionValue;

    open spec fn view(&self) -> RegionValue {
        RegionValue {
            label: self.label@,
            xmin: self.xmin,
            ymin: self.ymin,
            xmax: self.xmax,
            ymax: self.ymax,
        }
    }
}

/// All of `s` is ASCII.
pub open spec fn is_ascii_text(s: Seq<char>) -> bool {
    forall|i: int| 0 <= i < s.len() ==> #[trigger] s[i] <= '\u{7f}'
}

/// The lower case of a character of ASCII.
pub open spec fn ascii_lower(c: char) -> char {
    if 'A' <= c <= 'Z' {
        (c as int + 32) as char
    } else {
        c
    }
}

/// The lower case of a text, by the rules of Unicode.
pub uninterp spec fn lower_case(s: Seq<char>) -> Seq<char>;

/// `str::to_lowercase` gives the lower case of a text by the rules of Unicode,
/// whatever the locale: in ASCII the letters `A` to `Z` become `a` to `z` and
/// the rest stays; and every character has a lower case of one character or
/// more.
#[verifier::external_body]
fn to_lower_case(text: &str) -> (r: String)
    ensures
        r@ == lower_case(text@),
        is_ascii_text(text@) ==> r@ == text@.map_values(|c: char| ascii_lower(c)),
        text@.len() > 0 ==> r@.len() > 0,
{
    text.to_lowercase()
}

/// The lower case of a text.
pub open spec fn lowered(s: Seq<char>) -> Seq<char> {
    if is_ascii_text(s) {
        s.map_values(|c: char| ascii_lower(c))
    } else {
        lower_case(s)
    }
}

/// A coordinate, cut down to the scale.
pub open spec fn capped(n: u32) -> u32 {
    if n > SCALE {
        SCALE
    } else {
        n
    }
}

/// The lesser of two coordinates.
pub open spec fn lesser(a: u32, b: u32) -> u32 {
    if a <= b {
        a
    } else {
        b
    }
}

/// The greater of two coordinates.
pub open spec fn greater(a: u32, b: u32) -> u32 {
    if a <= b {
        b
    } else {
        a
    }
}

/// The label in a tag: what stands before the first bracket, in lower case,
/// and "text" where nothing does.
pub open spec fn label_in(inside: Seq<char>) -> Seq<char> {
    let label = trimmed(before_first(inside, '['));
    if label.len() == 0 {
        "text"@
    } else {
        lowered(label)
    }
}

/// The region in a tag: its first four numbers are two opposite corners. With
/// fewer numbers there is none.
pub open spec fn region_in(inside: Seq<char>) -> Option<RegionValue> {
    let n = numbers_in(inside);
    if n.len() < 4 {
        None
    } else {
        Some(
            RegionValue {
                label: label_in(inside),
                xmin: lesser(capped(n[0]), capped(n[2])),
                ymin: lesser(capped(n[1]), capped(n[3])),
                xmax: greater(capped(n[0]), capped(n[2])),
                ymax: greater(capped(n[1]), capped(n[3])),
            },
        )
    }
}

/// `s` without reference tags, whether they are opened and closed or not.
pub open spec fn without_refs(s: Seq<char>) -> Seq<char> {
    without(without(s, REF_OPEN@), REF_CLOSE@)
}

fn cap(n: u32) -> (r: u32)
    ensures
        r == capped(n),
{
    if n > SCALE {
        SCALE
    } else {
        n
    }
}

fn least(a: u32, b: u32) -> (r: u32)
    ensures
        r == lesser(a, b),
{
    if a <= b {
        a
    } else {
        b
    }
}

fn greatest(a: u32, b: u32) -> (r: u32)
    ensures
        r == greater(a, b),
{
    if a <= b {
        b
    } else {
        a
    }
}

/// Reads the region in a tag from what stands inside.
pub fn read_region(numbers: &NumberPattern, inside: &str) -> (r: Option<Region>)
    ensures
        match r {
            Some(region) => region_in(inside@) == Some(region@) && region.label@.len() > 0,
            None => region_in(inside@) is None,
        },
{
    proof {
        reveal_strlit("text");
    }
    let n = numbers.numbers(inside);
    if n.len() < 4 {
        return None;
    }
    let x1 = cap(n[0]);
    let y1 = cap(n[1]);
    let x2 = cap(n[2]);
    let y2 = cap(n[3]);
    let part = trim(&text_before_first(inside, '['));
    let label = if part.as_str().is_empty() {
        "text".to_string()
    } else {
        to_lower_case(&part)
    };
    Some(
        Region {
            label,
            xmin: least(x1, x2),
            ymin: least(y1, y2),
            xmax: greatest(x1, x2),
            ymax: greatest(y1, y2),
        },
    )
}

/// Takes all reference tags out of a text.
pub fn drop_refs(text: &str) -> (r: String)
    ensures
        r@ == without_refs(text@),
{
    proof {
        reveal_strlit("<|ref|>");
        reveal_strlit("<|/ref|>");
    }
    remove_all(&remove_all(text, REF_OPEN), REF_CLOSE)
}

/// The corners of a region are in order and on the scale.
pub proof fn region_is_on_scale(inside: Seq<char>)
    ensures
        region_in(inside) matches Some(r) ==> {
            &&& r.xmin <= r.xmax <= SCALE
            &&& r.ymin <= r.ymax <= SCALE
        },
{
}

} // verus!
