//! Laws of the version ordering.
//!
//! The ordering is total: of two versions one is less, or they are equal, or
//! the other is less. Versions that compare equal are interchangeable. "Less"
//! is transitive except on triples that wrap round the end of a string, which
//! [`versions_wrap`] describes.

use vstd::prelude::*;
use crate::segment::{
    Relation, Segment, all_letters, lemma_run_end, run_end, segment_at, segment_relation,
    strings_relation, strings_relation_from, text_relation, text_relation_from,
};
use crate::version::{VersionView, version_relation};

verus! {

proof fn lemma_text_flip(x: Seq<char>, y: Seq<char>, k: int)
    requires
        0 <= k,
    ensures
        text_relation_from(y, x, k) == text_relation_from(x, y, k).flip(),
    decreases x.len() - k,
{
    if k < x.len() && k < y.len() && x[k] == y[k] {
        lemma_text_flip(x, y, k + 1);
    }
}

proof fn lemma_text_equal(x: Seq<char>, y: Seq<char>, k: int)
    requires
        0 <= k,
        text_relation_from(x, y, k) == Relation::Equal,
    ensures
        x.len() == y.len() || (k >= x.len() && k >= y.len()),
        forall|m: int| k <= m < x.len() ==> x[m] == y[m],
    decreases x.len() - k,
{
    if k < x.len() && k < y.len() && x[k] == y[k] {
        lemma_text_equal(x, y, k + 1);
    }
}

proof fn lemma_text_reflexive(x: Seq<char>, k: int)
    requires
        0 <= k,
    ensures
        text_relation_from(x, x, k) == Relation::Equal,
    decreases x.len() - k,
{
    if k < x.len() {
        lemma_text_reflexive(x, k + 1);
    }
}

proof fn lemma_text_transitive(x: Seq<char>, y: Seq<char>, z: Seq<char>, k: int)
    requires
        0 <= k,
        text_relation_from(x, y, k) == Relation::Less,
        text_relation_from(y, z, k) == Relation::Less,
    ensures
        text_relation_from(x, z, k) == Relation::Less,
    decreases x.len() - k,
{
    if k < x.len() && k < y.len() && k < z.len() && x[k] == y[k] && y[k] == z[k] {
        lemma_text_transitive(x, y, z, k + 1);
    }
}

/// Swapping two segments flips their relation.
pub proof fn lemma_segment_flip(x: Option<Segment>, y: Option<Segment>)
    ensures
        segment_relation(y, x) == segment_relation(x, y).flip(),
{
    match (x, y) {
        (Some(Segment::Text(s)), Some(Segment::Text(t))) => {
            lemma_text_flip(s, t, 0);
        },
        _ => {},
    }
}

/// Segments that compare equal are the same segment.
pub proof fn lemma_segment_equal(x: Option<Segment>, y: Option<Segment>)
    ensures
        segment_relation(x, y) == Relation::Equal <==> x == y,
{
    match (x, y) {
        (Some(Segment::Text(s)), Some(Segment::Text(t))) => {
            if segment_relation(x, y) == Relation::Equal {
                lemma_text_equal(s, t, 0);
                assert(s =~= t);
            }
            if s == t {
                lemma_text_reflexive(s, 0);
            }
        },
        _ => {},
    }
}

/// `end` is the end of a string, `lower` is text of letters only, and
/// `upper` is text that holds some other character and yet sorts below
/// `lower`. The ordering puts `lower` below `end` and `end` below `upper`.
pub open spec fn end_splits(lower: Option<Segment>, end: Option<Segment>, upper: Option<Segment>)
    -> bool {
    match (lower, end, upper) {
        (Some(Segment::Text(s)), None, Some(Segment::Text(t))) => {
            all_letters(s) && !all_letters(t) && text_relation(t, s) == Relation::Less
        },
        _ => false,
    }
}

/// The three segments are ranked in a circle, `x` below `y` below `z` below
/// `x`: one of them is the end of a string, and the other two are text on
/// either side of it although their own order is the other way round.
pub open spec fn segments_wrap(x: Option<Segment>, y: Option<Segment>, z: Option<Segment>)
    -> bool {
    end_splits(x, y, z) || end_splits(y, z, x) || end_splits(z, x, y)
}

/// "Less" is transitive on segments that do not wrap.
pub proof fn lemma_segment_transitive(x: Option<Segment>, y: Option<Segment>, z: Option<Segment>)
    requires
        segment_relation(x, y) == Relation::Less,
        segment_relation(y, z) == Relation::Less,
        !segments_wrap(x, y, z),
    ensures
        segment_relation(x, z) == Relation::Less,
{
    match (x, y, z) {
        (Some(Segment::Text(s)), Some(Segment::Text(t)), Some(Segment::Text(u))) => {
            lemma_text_transitive(s, t, u, 0);
        },
        (Some(Segment::Text(_)), None, Some(Segment::Text(_))) => {
            lemma_segment_flip(x, z);
            lemma_segment_equal(x, z);
        },
        (None, Some(Segment::Text(_)), Some(Segment::Text(_))) => {
            lemma_segment_flip(y, z);
        },
        (Some(Segment::Text(_)), Some(Segment::Text(_)), None) => {
            lemma_segment_flip(x, y);
        },
        _ => {},
    }
}

/// Segments that wrap are ranked in a circle.
pub proof fn lemma_segment_wrap_is_circle(
    x: Option<Segment>,
    y: Option<Segment>,
    z: Option<Segment>,
)
    requires
        segments_wrap(x, y, z),
    ensures
        segment_relation(x, y) == Relation::Less,
        segment_relation(y, z) == Relation::Less,
        segment_relation(z, x) == Relation::Less,
{
}

/// The three strings agree segment by segment up to a place where their
/// segments wrap, read from positions `i`, `j` and `k` on.
pub open spec fn strings_wrap_from(
    a: Seq<char>,
    i: int,
    b: Seq<char>,
    j: int,
    c: Seq<char>,
    k: int,
) -> bool
    decreases a.len() - i,
{
    let x = segment_at(a, i);
    let y = segment_at(b, j);
    let z = segment_at(c, k);
    if x == y && y == z {
        if x is None {
            false
        } else {
            proof {
                lemma_run_end(a, i);
            }
            strings_wrap_from(a, run_end(a, i), b, run_end(b, j), c, run_end(c, k))
        }
    } else {
        segments_wrap(x, y, z)
    }
}

/// The three version strings agree up to a place where one of them ends and
/// the other two go on with text that wraps round that end. `"1a"`, `"1"`
/// and `"1."` do: `"1a"` is below `"1"`, `"1"` is below `"1."`, and `"1."` is
/// below `"1a"`.
pub open spec fn strings_wrap(a: Seq<char>, b: Seq<char>, c: Seq<char>) -> bool {
    strings_wrap_from(a, 0, b, 0, c, 0)
}

/// A version string compares equal to itself.
pub proof fn lemma_strings_reflexive(a: Seq<char>, i: int)
    ensures
        strings_relation_from(a, i, a, i) == Relation::Equal,
    decreases a.len() - i,
{
    let x = segment_at(a, i);
    lemma_segment_equal(x, x);
    if x is Some {
        lemma_run_end(a, i);
        lemma_strings_reflexive(a, run_end(a, i));
    }
}

/// Swapping two version strings flips their relation.
pub proof fn lemma_strings_flip(a: Seq<char>, i: int, b: Seq<char>, j: int)
    ensures
        strings_relation_from(b, j, a, i) == strings_relation_from(a, i, b, j).flip(),
    decreases a.len() - i,
{
    let x = segment_at(a, i);
    let y = segment_at(b, j);
    lemma_segment_flip(x, y);
    if segment_relation(x, y) == Relation::Equal && x is Some && y is Some {
        lemma_run_end(a, i);
        lemma_strings_flip(a, run_end(a, i), b, run_end(b, j));
    }
}

/// A version string may be replaced by one that compares equal to it.
pub proof fn lemma_strings_equal_left(
    a: Seq<char>,
    i: int,
    b: Seq<char>,
    j: int,
    c: Seq<char>,
    k: int,
)
    requires
        strings_relation_from(a, i, b, j) == Relation::Equal,
    ensures
        strings_relation_from(a, i, c, k) == strings_relation_from(b, j, c, k),
    decreases a.len() - i,
{
    let x = segment_at(a, i);
    let y = segment_at(b, j);
    let z = segment_at(c, k);
    lemma_segment_equal(x, y);
    if x is Some && z is Some && segment_relation(x, z) == Relation::Equal {
        lemma_run_end(a, i);
        lemma_strings_equal_left(a, run_end(a, i), b, run_end(b, j), c, run_end(c, k));
    }
}

/// "Less" is transitive on version strings that do not wrap.
pub proof fn lemma_strings_transitive(
    a: Seq<char>,
    i: int,
    b: Seq<char>,
    j: int,
    c: Seq<char>,
    k: int,
)
    requires
        strings_relation_from(a, i, b, j) == Relation::Less,
        strings_relation_from(b, j, c, k) == Relation::Less,
        !strings_wrap_from(a, i, b, j, c, k),
    ensures
        strings_relation_from(a, i, c, k) == Relation::Less,
    decreases a.len() - i,
{
    let x = segment_at(a, i);
    let y = segment_at(b, j);
    let z = segment_at(c, k);
    lemma_segment_equal(x, y);
    lemma_segment_equal(y, z);
    if x == y && y == z {
        lemma_run_end(a, i);
        lemma_segment_equal(x, z);
        lemma_strings_transitive(a, run_end(a, i), b, run_end(b, j), c, run_end(c, k));
    } else if x == y {
    } else if y == z {
    } else {
        lemma_segment_transitive(x, y, z);
    }
}

/// Version strings that wrap are ranked in a circle.
pub proof fn lemma_strings_wrap_is_circle(
    a: Seq<char>,
    i: int,
    b: Seq<char>,
    j: int,
    c: Seq<char>,
    k: int,
)
    requires
        strings_wrap_from(a, i, b, j, c, k),
    ensures
        strings_relation_from(a, i, b, j) == Relation::Less,
        strings_relation_from(b, j, c, k) == Relation::Less,
        strings_relation_from(c, k, a, i) == Relation::Less,
    decreases a.len() - i,
{
    let x = segment_at(a, i);
    let y = segment_at(b, j);
    let z = segment_at(c, k);
    if x == y && y == z {
        lemma_segment_equal(x, y);
        lemma_segment_equal(y, z);
        lemma_segment_equal(z, x);
        lemma_run_end(a, i);
        lemma_strings_wrap_is_circle(a, run_end(a, i), b, run_end(b, j), c, run_end(c, k));
    } else {
        lemma_segment_wrap_is_circle(x, y, z);
    }
}

/// The three versions agree up to a version string or release string on
/// which they wrap.
pub open spec fn versions_wrap(a: VersionView, b: VersionView, c: VersionView) -> bool {
    &&& a.epoch == b.epoch
    &&& b.epoch == c.epoch
    &&& {
        ||| strings_wrap(a.version, b.version, c.version)
        ||| {
            &&& strings_relation(a.version, b.version) == Relation::Equal
            &&& strings_relation(b.version, c.version) == Relation::Equal
            &&& strings_wrap(a.release, b.release, c.release)
        }
    }
}

/// Every version compares equal to itself.
pub proof fn law_reflexive(a: VersionView)
    ensures
        version_relation(a, a) == Relation::Equal,
{
    lemma_strings_reflexive(a.version, 0);
    lemma_strings_reflexive(a.release, 0);
}

/// Of two versions exactly one of "less", "equal" and "greater" holds, and
/// the second version stands to the first in the opposite way: if `a` is less
/// than `b` then `b` is greater than `a`, and if they are equal from one side
/// they are equal from the other.
pub proof fn law_total(a: VersionView, b: VersionView)
    ensures
        version_relation(b, a) == version_relation(a, b).flip(),
{
    lemma_strings_flip(a.version, 0, b.version, 0);
    lemma_strings_flip(a.release, 0, b.release, 0);
}

/// Versions that compare equal stand in the same relation to every third
/// version. So "equal" is transitive, and what is less than one of two equal
/// versions is less than the other.
pub proof fn law_equal_interchangeable(a: VersionView, b: VersionView, c: VersionView)
    requires
        version_relation(a, b) == Relation::Equal,
    ensures
        version_relation(a, c) == version_relation(b, c),
        version_relation(c, a) == version_relation(c, b),
{
    lemma_strings_equal_left(a.version, 0, b.version, 0, c.version, 0);
    lemma_strings_equal_left(a.release, 0, b.release, 0, c.release, 0);
    law_total(a, c);
    law_total(b, c);
}

/// "Less" is transitive: if `a` is less than `b` and `b` is less than `c`,
/// then `a` is less than `c`, for all versions but those that wrap.
pub proof fn law_less_transitive(a: VersionView, b: VersionView, c: VersionView)
    requires
        !versions_wrap(a, b, c),
    ensures
        version_relation(a, b) == Relation::Less && version_relation(b, c) == Relation::Less
            ==> version_relation(a, c) == Relation::Less,
{
    if version_relation(a, b) == Relation::Less && version_relation(b, c) == Relation::Less
        && a.epoch == b.epoch && b.epoch == c.epoch {
        let ab = strings_relation(a.version, b.version);
        let bc = strings_relation(b.version, c.version);
        lemma_order_of_three(a.version, b.version, c.version);
        if ab == Relation::Equal && bc == Relation::Equal {
            lemma_order_of_three(a.release, b.release, c.release);
        }
    }
}

/// What the relations of `a` to `b` and of `b` to `c` say of the relation of
/// `a` to `c`, where neither is "greater".
proof fn lemma_order_of_three(a: Seq<char>, b: Seq<char>, c: Seq<char>)
    ensures
        strings_relation(a, b) == Relation::Equal ==> strings_relation(a, c) == strings_relation(
            b,
            c,
        ),
        strings_relation(b, c) == Relation::Equal ==> strings_relation(a, c) == strings_relation(
            a,
            b,
        ),
        strings_relation(a, b) == Relation::Less && strings_relation(b, c) == Relation::Less
            && !strings_wrap(a, b, c) ==> strings_relation(a, c) == Relation::Less,
{
    if strings_relation(a, b) == Relation::Equal {
        lemma_strings_equal_left(a, 0, b, 0, c, 0);
    }
    if strings_relation(b, c) == Relation::Equal {
        lemma_strings_flip(b, 0, c, 0);
        lemma_strings_equal_left(c, 0, b, 0, a, 0);
        lemma_strings_flip(a, 0, c, 0);
        lemma_strings_flip(a, 0, b, 0);
    }
    if strings_relation(a, b) == Relation::Less && strings_relation(b, c) == Relation::Less
        && !strings_wrap(a, b, c) {
        lemma_strings_transitive(a, 0, b, 0, c, 0);
    }
}

/// Versions that wrap are ranked in a circle, so "less" is not transitive on
/// them: `a` is less than `b`, `b` less than `c`, and `c` less than `a`.
pub proof fn law_wrap_is_circle(a: VersionView, b: VersionView, c: VersionView)
    requires
        versions_wrap(a, b, c),
    ensures
        version_relation(a, b) == Relation::Less,
        version_relation(b, c) == Relation::Less,
        version_relation(c, a) == Relation::Less,
{
    if strings_wrap(a.version, b.version, c.version) {
        lemma_strings_wrap_is_circle(a.version, 0, b.version, 0, c.version, 0);
    } else {
        lemma_strings_wrap_is_circle(a.release, 0, b.release, 0, c.release, 0);
        lemma_order_of_three(a.version, b.version, c.version);
        lemma_strings_flip(a.version, 0, c.version, 0);
    }
}


/// From position `i` on, the start of a segment, no segment of `s` is text
/// of letters only.
pub open spec fn no_bare_letters_from(s: Seq<char>, i: int) -> bool
    decreases s.len() - i,
{
    match segment_at(s, i) {
        None => true,
        Some(Segment::Number(_)) => {
            proof {
                lemma_run_end(s, i);
            }
            no_bare_letters_from(s, run_end(s, i))
        },
        Some(Segment::Text(t)) => {
            proof {
                lemma_run_end(s, i);
            }
            !all_letters(t) && no_bare_letters_from(s, run_end(s, i))
        },
    }
}

/// No segment of the version string is text of letters only: wherever
/// letters stand, some other character that is no digit stands beside them,
/// as in `1.0-rc1` or `2.fc36`.
pub open spec fn no_bare_letters(s: Seq<char>) -> bool {
    no_bare_letters_from(s, 0)
}

proof fn lemma_no_bare_letters_no_wrap(
    a: Seq<char>,
    i: int,
    b: Seq<char>,
    j: int,
    c: Seq<char>,
    k: int,
)
    requires
        no_bare_letters_from(a, i),
        no_bare_letters_from(b, j),
        no_bare_letters_from(c, k),
    ensures
        !strings_wrap_from(a, i, b, j, c, k),
    decreases a.len() - i,
{
    let x = segment_at(a, i);
    let y = segment_at(b, j);
    let z = segment_at(c, k);
    if x == y && y == z && x is Some {
        lemma_run_end(a, i);
        lemma_no_bare_letters_no_wrap(a, run_end(a, i), b, run_end(b, j), c, run_end(c, k));
    }
}

/// Versions whose version strings and release strings hold no segment of
/// letters only never wrap, so "less" is transitive on them.
pub proof fn law_no_wrap_without_bare_letters(a: VersionView, b: VersionView, c: VersionView)
    requires
        no_bare_letters(a.version) && no_bare_letters(a.release),
        no_bare_letters(b.version) && no_bare_letters(b.release),
        no_bare_letters(c.version) && no_bare_letters(c.release),
    ensures
        !versions_wrap(a, b, c),
{
    lemma_no_bare_letters_no_wrap(a.version, 0, b.version, 0, c.version, 0);
    lemma_no_bare_letters_no_wrap(a.release, 0, b.release, 0, c.release, 0);
}

} // verus!
