//! Version strings: their split into segments and the order of two strings.

use vstd::prelude::*;

verus! {

/// How one value stands to another under the version ordering.
#[derive(Clone, Copy, Debug, PartialEq, Eq, Structural)]
pub enum Relation {
    Less,
    Equal,
    Greater,
}

impl Relation {
    /// The relation seen from the other side.
    pub open spec fn flip(self) -> Relation {
        match self {
            Relation::Less => Relation::Greater,
            Relation::Equal => Relation::Equal,
            Relation::Greater => Relation::Less,
        }
    }
}

/// An ASCII decimal digit.
pub open spec fn is_digit(c: char) -> bool {
    '0' <= c && c <= '9'
}

/// An ASCII letter.
pub open spec fn is_letter(c: char) -> bool {
    ('a' <= c && c <= 'z') || ('A' <= c && c <= 'Z')
}

pub open spec fn all_digits(s: Seq<char>) -> bool {
    forall|k: int| 0 <= k < s.len() ==> is_digit(#[trigger] s[k])
}

pub open spec fn all_letters(s: Seq<char>) -> bool {
    forall|k: int| 0 <= k < s.len() ==> is_letter(#[trigger] s[k])
}

/// The number that one decimal digit stands for.
pub open spec fn digit_value(c: char) -> nat {
    (c as int - '0' as int) as nat
}

/// The number that a sequence of decimal digits denotes; leading zeros do not
/// change it, and the empty sequence denotes zero.
pub open spec fn digits_value(s: Seq<char>) -> nat
    decreases s.len(),
{
    if s.len() == 0 {
        0
    } else {
        digits_value(s.drop_last()) * 10 + digit_value(s.last())
    }
}

/// Order of two numbers.
pub open spec fn number_relation(m: nat, n: nat) -> Relation {
    if m < n {
        Relation::Less
    } else if m == n {
        Relation::Equal
    } else {
        Relation::Greater
    }
}

/// Lexicographic order of two character sequences from position `k` on,
/// character by character in code point order; a proper prefix is smaller.
pub open spec fn text_relation_from(x: Seq<char>, y: Seq<char>, k: int) -> Relation
    decreases x.len() - k,
{
    if k >= x.len() {
        if k >= y.len() {
            Relation::Equal
        } else {
            Relation::Less
        }
    } else if k >= y.len() {
        Relation::Greater
    } else if x[k] < y[k] {
        Relation::Less
    } else if x[k] > y[k] {
        Relation::Greater
    } else {
        text_relation_from(x, y, k + 1)
    }
}

/// Lexicographic order of two character sequences.
pub open spec fn text_relation(x: Seq<char>, y: Seq<char>) -> Relation {
    text_relation_from(x, y, 0)
}

/// One past the last position of the maximal run of digits, or of non-digits,
/// that starts at position `i` of `s`.
pub open spec fn run_end(s: Seq<char>, i: int) -> int
    decreases s.len() - i,
{
    if 0 <= i && i + 1 < s.len() && is_digit(s[i + 1]) == is_digit(s[i]) {
        run_end(s, i + 1)
    } else {
        i + 1
    }
}

/// A maximal run of a version string: a number, or a piece of text that holds
/// no digit.
pub enum Segment {
    Number(nat),
    Text(Seq<char>),
}

/// The segment that starts at position `i` of `s`, or `None` at the end of
/// the string.
pub open spec fn segment_at(s: Seq<char>, i: int) -> Option<Segment> {
    if 0 <= i < s.len() {
        let run = s.subrange(i, run_end(s, i));
        if is_digit(s[i]) {
            Some(Segment::Number(digits_value(run)))
        } else {
            Some(Segment::Text(run))
        }
    } else {
        None
    }
}

/// Order of two segments that stand at the same place in two version
/// strings. `None` is the end of a string.
///
/// Numbers compare by value and pieces of text lexicographically; a number
/// ranks above any text. The end of a string ranks below a number and below
/// text, except text made of letters only, which ranks below the end.
pub open spec fn segment_relation(x: Option<Segment>, y: Option<Segment>) -> Relation {
    match (x, y) {
        (None, None) => Relation::Equal,
        (None, Some(Segment::Number(_))) => Relation::Less,
        (None, Some(Segment::Text(t))) => if all_letters(t) {
            Relation::Greater
        } else {
            Relation::Less
        },
        (Some(Segment::Number(_)), None) => Relation::Greater,
        (Some(Segment::Text(t)), None) => if all_letters(t) {
            Relation::Less
        } else {
            Relation::Greater
        },
        (Some(Segment::Number(m)), Some(Segment::Number(n))) => number_relation(m, n),
        (Some(Segment::Number(_)), Some(Segment::Text(_))) => Relation::Greater,
        (Some(Segment::Text(_)), Some(Segment::Number(_))) => Relation::Less,
        (Some(Segment::Text(s)), Some(Segment::Text(t))) => text_relation(s, t),
    }
}

/// Order of the rest of `a` from position `i` and the rest of `b` from
/// position `j`, both positions standing at the start of a segment: the first
/// pair of segments that differ decides.
pub open spec fn strings_relation_from(a: Seq<char>, i: int, b: Seq<char>, j: int) -> Relation
    decreases a.len() - i,
{
    let x = segment_at(a, i);
    let y = segment_at(b, j);
    let r = segment_relation(x, y);
    if r != Relation::Equal {
        r
    } else if x is None || y is None {
        Relation::Equal
    } else {
        proof {
            lemma_run_end(a, i);
        }
        strings_relation_from(a, run_end(a, i), b, run_end(b, j))
    }
}

/// Order of two version strings, segment by segment.
pub open spec fn strings_relation(a: Seq<char>, b: Seq<char>) -> Relation {
    strings_relation_from(a, 0, b, 0)
}

/// A run is not empty, ends within the string, holds characters of one class
/// only, and is followed by a character of the other class or by nothing.
pub proof fn lemma_run_end(s: Seq<char>, i: int)
    requires
        0 <= i < s.len(),
    ensures
        i < run_end(s, i) <= s.len(),
        forall|k: int| i <= k < run_end(s, i) ==> is_digit(#[trigger] s[k]) == is_digit(s[i]),
        run_end(s, i) < s.len() ==> is_digit(s[run_end(s, i)]) != is_digit(s[i]),
    decreases s.len() - i,
{
    if i + 1 < s.len() && is_digit(s[i + 1]) == is_digit(s[i]) {
        lemma_run_end(s, i + 1);
    }
}


/// A leading zero does not change the number that digits denote.
pub proof fn lemma_leading_zero(s: Seq<char>)
    requires
        s.len() > 0,
        s[0] == '0',
    ensures
        digits_value(s) == digits_value(s.subrange(1, s.len() as int)),
    decreases s.len(),
{
    let t = s.subrange(1, s.len() as int);
    if s.len() == 1 {
        assert(s.drop_last().len() == 0);
        assert(digits_value(s.drop_last()) == 0);
    } else {
        lemma_leading_zero(s.drop_last());
        assert(s.drop_last().subrange(1, s.len() - 1) =~= t.drop_last());
        assert(t.last() == s.last());
    }
}

/// Digits that start with a digit other than zero denote a positive number.
pub proof fn lemma_value_positive(s: Seq<char>)
    requires
        all_digits(s),
        s.len() > 0,
        s[0] != '0',
    ensures
        digits_value(s) >= 1,
    decreases s.len(),
{
    if s.len() == 1 {
        assert(s.drop_last().len() == 0);
        assert(digits_value(s.drop_last()) == 0);
        assert(is_digit(s[0]));
    } else {
        assert(s.drop_last()[0] == s[0]);
        lemma_value_positive(s.drop_last());
    }
}

/// Of two digit sequences, one that is longer and has no leading zero
/// denotes the greater number.
pub proof fn lemma_longer_is_greater(x: Seq<char>, y: Seq<char>)
    requires
        all_digits(x),
        all_digits(y),
        x.len() > y.len(),
        x[0] != '0',
    ensures
        digits_value(x) > digits_value(y),
    decreases y.len(),
{
    if y.len() == 0 {
        lemma_value_positive(x);
    } else {
        assert(x.drop_last()[0] == x[0]);
        lemma_longer_is_greater(x.drop_last(), y.drop_last());
        assert(is_digit(x.last()));
        assert(is_digit(y.last()));
    }
}

/// Appending one character to each of two sequences of equal length leaves
/// their order as it was, unless they were equal: then the two characters
/// decide.
pub proof fn lemma_text_push(x: Seq<char>, y: Seq<char>, c: char, e: char, k: int)
    requires
        x.len() == y.len(),
        0 <= k <= x.len(),
    ensures
        text_relation_from(x.push(c), y.push(e), k) == if text_relation_from(x, y, k)
            != Relation::Equal {
            text_relation_from(x, y, k)
        } else if c < e {
            Relation::Less
        } else if c > e {
            Relation::Greater
        } else {
            Relation::Equal
        },
    decreases x.len() - k,
{
    let xc = x.push(c);
    let ye = y.push(e);
    if k < x.len() {
        assert(xc[k] == x[k]);
        assert(ye[k] == y[k]);
        if x[k] == y[k] {
            lemma_text_push(x, y, c, e, k + 1);
        }
    } else {
        assert(xc[k] == c);
        assert(ye[k] == e);
        assert(text_relation_from(xc, ye, k + 1) == Relation::Equal);
    }
}

/// Digit sequences of equal length are ordered as numbers exactly as they
/// are ordered as text.
pub proof fn lemma_same_length(x: Seq<char>, y: Seq<char>)
    requires
        all_digits(x),
        all_digits(y),
        x.len() == y.len(),
    ensures
        number_relation(digits_value(x), digits_value(y)) == text_relation(x, y),
    decreases x.len(),
{
    if x.len() > 0 {
        let xd = x.drop_last();
        let yd = y.drop_last();
        lemma_same_length(xd, yd);
        lemma_text_push(xd, yd, x.last(), y.last(), 0);
        assert(xd.push(x.last()) =~= x);
        assert(yd.push(y.last()) =~= y);
        assert(is_digit(x.last()));
        assert(is_digit(y.last()));
    }
}

/// The characters of a string, in order.
pub fn chars_of(s: &str) -> (v: Vec<char>)
    ensures
        v@ == s@,
{
    let mut v: Vec<char> = Vec::new();
    let chars = s.chars();
    for c in it: chars
        invariant
            v@ == it.seq().take(it.index()),
            it.seq() == s@,
    {
        v.push(c);
    }
    v
}

pub(crate) fn digit(c: char) -> (r: bool)
    ensures
        r == is_digit(c),
{
    c >= '0' && c <= '9'
}

fn letter(c: char) -> (r: bool)
    ensures
        r == is_letter(c),
{
    (c >= 'a' && c <= 'z') || (c >= 'A' && c <= 'Z')
}

fn scan_run(s: &Vec<char>, i: usize) -> (e: usize)
    requires
        i < s.len(),
    ensures
        e == run_end(s@, i as int),
        i < e <= s.len(),
{
    let d = digit(s[i]);
    let mut e: usize = i + 1;
    while e < s.len() && digit(s[e]) == d
        invariant
            i < e <= s.len(),
            d == is_digit(s@[e - 1]),
            run_end(s@, i as int) == run_end(s@, e - 1),
        decreases s.len() - e,
    {
        e += 1;
    }
    e
}

fn letters_only(s: &Vec<char>, from: usize, to: usize) -> (r: bool)
    requires
        from <= to <= s.len(),
    ensures
        r == all_letters(s@.subrange(from as int, to as int)),
{
    let ghost run = s@.subrange(from as int, to as int);
    let mut k: usize = from;
    while k < to
        invariant
            from <= k <= to <= s.len(),
            run == s@.subrange(from as int, to as int),
            forall|m: int| 0 <= m < k - from ==> is_letter(#[trigger] run[m]),
        decreases to - k,
    {
        if !letter(s[k]) {
            assert(run[k - from] == s@[k as int]);
            return false;
        }
        assert(run[k - from] == s@[k as int]);
        k += 1;
    }
    true
}

fn compare_text(a: &Vec<char>, i: usize, ie: usize, b: &Vec<char>, j: usize, je: usize) -> (r:
    Relation)
    requires
        i <= ie <= a.len(),
        j <= je <= b.len(),
    ensures
        r == text_relation(a@.subrange(i as int, ie as int), b@.subrange(j as int, je as int)),
{
    let ghost x = a@.subrange(i as int, ie as int);
    let ghost y = b@.subrange(j as int, je as int);
    let mut k: usize = 0;
    loop
        invariant
            i <= ie <= a.len(),
            j <= je <= b.len(),
            x == a@.subrange(i as int, ie as int),
            y == b@.subrange(j as int, je as int),
            k <= ie - i,
            k <= je - j,
            text_relation(x, y) == text_relation_from(x, y, k as int),
        decreases ie - i - k,
    {
        if k >= ie - i {
            if k >= je - j {
                return Relation::Equal;
            }
            return Relation::Less;
        }
        if k >= je - j {
            return Relation::Greater;
        }
        let c = a[i + k];
        let e = b[j + k];
        assert(x[k as int] == c);
        assert(y[k as int] == e);
        if c < e {
            return Relation::Less;
        }
        if c > e {
            return Relation::Greater;
        }
        k += 1;
    }
}

fn skip_zeros(s: &Vec<char>, from: usize, to: usize) -> (p: usize)
    requires
        from <= to <= s.len(),
    ensures
        from <= p <= to,
        p < to ==> s@[p as int] != '0',
        digits_value(s@.subrange(p as int, to as int)) == digits_value(
            s@.subrange(from as int, to as int),
        ),
{
    let mut p: usize = from;
    while p < to && s[p] == '0'
        invariant
            from <= p <= to <= s.len(),
            digits_value(s@.subrange(p as int, to as int)) == digits_value(
                s@.subrange(from as int, to as int),
            ),
        decreases to - p,
    {
        proof {
            let t = s@.subrange(p as int, to as int);
            lemma_leading_zero(t);
            assert(t.subrange(1, t.len() as int) =~= s@.subrange(p + 1, to as int));
        }
        p += 1;
    }
    p
}

fn compare_numbers(a: &Vec<char>, i: usize, ie: usize, b: &Vec<char>, j: usize, je: usize) -> (r:
    Relation)
    requires
        i <= ie <= a.len(),
        j <= je <= b.len(),
        all_digits(a@.subrange(i as int, ie as int)),
        all_digits(b@.subrange(j as int, je as int)),
    ensures
        r == number_relation(
            digits_value(a@.subrange(i as int, ie as int)),
            digits_value(b@.subrange(j as int, je as int)),
        ),
{
    let p = skip_zeros(a, i, ie);
    let q = skip_zeros(b, j, je);
    let ghost x = a@.subrange(p as int, ie as int);
    let ghost y = b@.subrange(q as int, je as int);
    proof {
        assert forall|k: int| 0 <= k < x.len() implies is_digit(#[trigger] x[k]) by {
            assert(x[k] == a@.subrange(i as int, ie as int)[k + p - i]);
        }
        assert forall|k: int| 0 <= k < y.len() implies is_digit(#[trigger] y[k]) by {
            assert(y[k] == b@.subrange(j as int, je as int)[k + q - j]);
        }
    }
    if ie - p > je - q {
        proof {
            lemma_longer_is_greater(x, y);
        }
        Relation::Greater
    } else if ie - p < je - q {
        proof {
            lemma_longer_is_greater(y, x);
        }
        Relation::Less
    } else {
        proof {
            lemma_same_length(x, y);
        }
        compare_text(a, p, ie, b, q, je)
    }
}

/// Compares two version strings segment by segment.
pub fn compare_strings(a: &str, b: &str) -> (r: Relation)
    ensures
        r == strings_relation(a@, b@),
{
    let x = chars_of(a);
    let y = chars_of(b);
    let mut i: usize = 0;
    let mut j: usize = 0;
    loop
        invariant
            i <= x.len(),
            j <= y.len(),
            x@ == a@,
            y@ == b@,
            strings_relation(a@, b@) == strings_relation_from(x@, i as int, y@, j as int),
        decreases x.len() - i,
    {
        if i >= x.len() {
            if j >= y.len() {
                return Relation::Equal;
            }
            let je = scan_run(&y, j);
            proof {
                lemma_run_end(y@, j as int);
            }
            if letters_only(&y, j, je) {
                return Relation::Greater;
            }
            return Relation::Less;
        }
        let ie = scan_run(&x, i);
        proof {
            lemma_run_end(x@, i as int);
        }
        if j >= y.len() {
            if letters_only(&x, i, ie) {
                return Relation::Less;
            }
            return Relation::Greater;
        }
        let je = scan_run(&y, j);
        proof {
            lemma_run_end(y@, j as int);
        }
        let dx = digit(x[i]);
        let dy = digit(y[j]);
        let r = if dx && dy {
            compare_numbers(&x, i, ie, &y, j, je)
        } else if dx {
            Relation::Greater
        } else if dy {
            Relation::Less
        } else {
            compare_text(&x, i, ie, &y, j, je)
        };
        match r {
            Relation::Equal => {},
            _ => {
                return r;
            },
        }
        i = ie;
        j = je;
    }
}

} // verus!
